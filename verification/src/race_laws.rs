//! What the matcher pairs, what it hands the authority, and who prints a tape.

use crate::arbiter::ArbiterView;
use crate::arm_race::{
    count_at, lead_of, lemma_first_peer, lemma_stale_len, tallied, RaceView, SigId, Waiting,
};
use crate::authority::{is_arm, AuthorityView};
use crate::effects::{EffectsView, NoteView, What};
use crate::model::{NormalizedTrade, Publisher, ScopeId};
use crate::tape::{claim_step, tape_step, Owners, TapeLead, TapeVerdict};
use vstd::prelude::*;

verus! {

/// The challenger of a pair is the arm that does not lead, and its lead is how far apart the two
/// copies came: negative if the challenger's came first. A pair that the leader is no part of says
/// nothing.
pub proof fn law_a_lead_is_the_challengers(
    first: Publisher,
    second: Publisher,
    delta_ns: u64,
    leader: Publisher,
)
    requires
        first != second,
    ensures
        match lead_of(first, second, delta_ns, leader) {
            Some((challenger, lead)) => {
                &&& challenger == first && leader == second || challenger == second && leader == first
                &&& delta_ns <= 0x7fff_ffff_ffff_ffff ==> lead == (if challenger == first {
                    -(delta_ns as int)
                } else {
                    delta_ns as int
                })
                &&& delta_ns > 0x7fff_ffff_ffff_ffff ==> lead == (if challenger == first {
                    -0x7fff_ffff_ffff_ffffint
                } else {
                    0x7fff_ffff_ffff_ffffint
                })
            },
            None => leader != first && leader != second,
        },
{
}

/// The arrivals that outwaited the window leave from the front, up to the first that has not; the
/// others stay in order.
pub proof fn law_what_outwaits_the_window_leaves<J>(v: RaceView<J>, now_ns: u64, window_ns: u64) -> (n: int)
    ensures
        0 <= n <= v.waiting.len(),
        forall|i: int|
            0 <= i < n ==> (#[trigger] v.waiting[i]).recv_ns + window_ns < now_ns,
        n < v.waiting.len() ==> v.waiting[n].recv_ns + window_ns >= now_ns,
        v.evicted(now_ns, window_ns).waiting == v.waiting.subrange(n, v.waiting.len() as int),
        v.evicted(now_ns, window_ns).unmatched == tallied(v.unmatched, v.waiting.take(n)),
{
    lemma_stale_len(v.waiting, now_ns, window_ns);
    let n = crate::arm_race::stale_len(v.waiting, now_ns, window_ns) as int;
    lemma_stale_prefix(v.waiting, now_ns, window_ns);
    assert(v.waiting.skip(n) =~= v.waiting.subrange(n, v.waiting.len() as int));
    n
}

proof fn lemma_stale_prefix<J>(waiting: Seq<Waiting<J>>, now_ns: u64, window_ns: u64)
    ensures
        ({
            let n = crate::arm_race::stale_len(waiting, now_ns, window_ns);
            &&& n <= waiting.len()
            &&& forall|i: int|
                0 <= i < n ==> (#[trigger] waiting[i]).recv_ns + window_ns < now_ns
            &&& n < waiting.len() ==> waiting[n as int].recv_ns + window_ns >= now_ns
        }),
    decreases waiting.len(),
{
    if waiting.len() > 0 && waiting[0].recv_ns + window_ns < now_ns {
        let rest = waiting.drop_first();
        lemma_stale_prefix(rest, now_ns, window_ns);
        let n = crate::arm_race::stale_len(waiting, now_ns, window_ns);
        assert forall|i: int| 0 <= i < n implies (#[trigger] waiting[i]).recv_ns + window_ns < now_ns by {
            if i > 0 {
                assert(rest[i - 1] == waiting[i]);
            }
        }
        if n < waiting.len() {
            assert(rest[n - 1] == waiting[n as int]);
        }
    }
}

/// Each arrival that leaves unmatched is counted for its arm of its universe, once, up to the
/// largest number there is; no other count changes.
pub proof fn law_unmatched_arrivals_are_counted<J>(
    unmatched: Map<(ScopeId, Publisher), u64>,
    dropped: Seq<Waiting<J>>,
    at: (ScopeId, Publisher),
)
    ensures
        ({
            let n = dropped.filter(|w: Waiting<J>| w.sig.scope == at.0 && w.arm == at.1).len();
            let was = count_at(unmatched, at);
            let now = count_at(tallied(unmatched, dropped), at);
            &&& was + n <= u64::MAX ==> now == was + n
            &&& was + n > u64::MAX ==> now == u64::MAX
            &&& tallied(unmatched, dropped).contains_key(at) <==> unmatched.contains_key(at) || n > 0
        }),
    decreases dropped.len(),
{
    reveal(Seq::filter);
    if dropped.len() > 0 {
        law_unmatched_arrivals_are_counted(unmatched, dropped.drop_last(), at);
    }
}

/// A trade is paired with the oldest copy of it by another arm that has not outwaited the window,
/// which then waits no longer; where there is none it waits itself, behind the others, and where
/// 65,536 wait already the oldest of them goes.
pub proof fn law_a_trade_pairs_or_waits<J>(
    v: RaceView<J>,
    window_ns: u64,
    sig: SigId<J>,
    arm: Publisher,
    recv_ns: u64,
)
    ensures
        ({
            let now = v.evicted(recv_ns, window_ns);
            let (w, peer) = v.offered(window_ns, sig, arm, recv_ns);
            &&& w.unmatched == now.unmatched
            &&& match peer {
                Some(other) => exists|k: int| {
                    &&& 0 <= k < now.waiting.len()
                    &&& #[trigger] now.waiting[k] == other
                    &&& other.sig == sig && other.arm != arm
                    &&& forall|j: int|
                        0 <= j < k ==> (#[trigger] now.waiting[j]).sig != sig || now.waiting[j].arm
                            == arm
                    &&& w.waiting == now.waiting.remove(k)
                },
                None => {
                    &&& forall|j: int|
                        0 <= j < now.waiting.len() ==> (#[trigger] now.waiting[j]).sig != sig
                            || now.waiting[j].arm == arm
                    &&& w.waiting.len() > 0
                    &&& w.waiting.last() == (Waiting { sig, arm, recv_ns })
                    &&& w.waiting.drop_last() == (if now.waiting.len() < 65_536 {
                        now.waiting
                    } else {
                        now.waiting.subrange(1, now.waiting.len() as int)
                    })
                },
            }
        }),
{
    let now = v.evicted(recv_ns, window_ns);
    lemma_first_peer(now.waiting, sig, arm, 0);
    let k = crate::arm_race::first_peer(now.waiting, sig, arm, 0);
    let (w, peer) = v.offered(window_ns, sig, arm, recv_ns);
    if k < now.waiting.len() {
        assert(now.waiting[k] == peer->0);
    } else {
        assert(w.waiting.drop_last() =~= (if now.waiting.len() < 65_536 {
            now.waiting
        } else {
            now.waiting.subrange(1, now.waiting.len() as int)
        }));
    }
}

/// Two trades are copies of one another: the same instrument, price, size and aggressor.
pub open spec fn copies(t: NormalizedTrade, u: NormalizedTrade) -> bool {
    t.symbol@ == u.symbol@ && t.price == u.price && t.size == u.size && t.aggressor_side
        == u.aggressor_side
}

/// Two copies of a trade by two arms, one of which leads, no further apart than the window, are one
/// matched lead of the other arm, as far as they are apart; two trades that are no copies are none.
pub proof fn law_copies_of_a_trade_are_evidence(
    a: ArbiterView,
    fx: EffectsView,
    s: ScopeId,
    t: NormalizedTrade,
    p: Publisher,
    u: NormalizedTrade,
    q: Publisher,
)
    requires
        a.race.waiting.len() == 0,
        p != q,
        t.recv_ts_ns <= u.recv_ts_ns <= t.recv_ts_ns + a.race_window_ns,
        u.recv_ts_ns - t.recv_ts_ns <= i64::MAX,
        a.gate.books.scopes.contains_key(s),
        a.gate.books.scopes[s].leader == p || a.gate.books.scopes[s].leader == q,
    ensures
        ({
            let b = a.race_observed(fx, s, t, p).0;
            let c = b.race_observed(fx, s, u, q).0;
            let apart = u.recv_ts_ns - t.recv_ts_ns;
            &&& b.gate == a.gate
            &&& b.race.waiting.len() == 1
            &&& copies(t, u) ==> {
                &&& c.race.waiting.len() == 0
                &&& c.gate.books == (if a.gate.books.scopes[s].leader == q {
                    a.gate.books.lead_observed(s, p, (-apart) as i64)
                } else {
                    a.gate.books.lead_observed(s, q, apart as i64)
                })
            }
            &&& !copies(t, u) ==> c.gate == a.gate && c.race.waiting.len() == 2
        }),
        ({
            let b = a.race_observed(fx, s, t, p).0;
            let out = b.race_observed(fx, s, u, q).1;
            let apart = u.recv_ts_ns - t.recv_ts_ns;
            &&& a.race_observed(fx, s, t, p).1 == fx
            &&& out.sent == fx.sent
            &&& copies(t, u) ==> out.notes.last() == (NoteView {
                venue: u.venue@,
                what: What::ArmLead {
                    lead_ns: if a.gate.books.scopes[s].leader == q {
                        (-apart) as i64
                    } else {
                        apart as i64
                    },
                },
            })
            &&& !copies(t, u) ==> out == fx
        }),
{
    let b = a.race_observed(fx, s, t, p).0;
    assert(a.race.evicted(t.recv_ts_ns, a.race_window_ns).waiting =~= Seq::empty()) by {
        lemma_stale_len(a.race.waiting, t.recv_ts_ns, a.race_window_ns);
    }
    let sig = b.race.waiting[0].sig;
    assert(b.race.waiting.len() == 1);
    assert(b.race.waiting[0].recv_ns == t.recv_ts_ns);
    let now = b.race.evicted(u.recv_ts_ns, b.race_window_ns);
    assert(crate::arm_race::stale_len(b.race.waiting, u.recv_ts_ns, b.race_window_ns) == 0);
    assert(now.waiting =~= b.race.waiting);
    let c = b.race_observed(fx, s, u, q).0;
    let of_u = SigId {
        scope: s,
        instrument: u.symbol@,
        price_raw: u.price,
        qty_raw: u.size,
        aggressor: crate::arbiter::side_code_spec(u.aggressor_side),
    };
    lemma_first_peer(now.waiting, of_u, q, 0);
    assert(copies(t, u) <==> sig == of_u);
    if copies(t, u) {
        assert(now.waiting[0].sig == of_u && now.waiting[0].arm != q);
        assert(c.race.waiting.len() == 0);
    }
}

/// Who prints a universe's tape: the first to print; then the arm that prints it, for as long as no
/// other takes it over. Another does exactly if the authority has recorded it and not the holder,
/// if it leads the universe and the tape has not followed that election, or if the holder last
/// printed more than five seconds ago; any other print is refused and changes nothing.
pub proof fn law_who_prints_a_tape(
    leads: Map<ScopeId, TapeLead>,
    books: AuthorityView,
    s: ScopeId,
    p: Publisher,
    recv_ns: u64,
)
    ensures
        ({
            let (after, verdict) = tape_step(leads, books, s, p, recv_ns);
            let known = books.scopes.contains_key(s);
            let leader = if known {
                Some(books.scopes[s].leader)
            } else {
                None
            };
            let was = leads[s];
            let takes = known && is_arm(books.scopes[s].arms, p) && !is_arm(
                books.scopes[s].arms,
                was.arm,
            ) || leader == Some(p) && was.honored_election != Some(p) || was.last_ns + 5_000_000_000
                < recv_ns;
            if !leads.contains_key(s) {
                verdict == TapeVerdict::Serving && after == leads.insert(
                    s,
                    TapeLead { arm: p, last_ns: recv_ns, honored_election: None },
                )
            } else if was.arm == p {
                verdict == TapeVerdict::Serving && after == leads.insert(
                    s,
                    TapeLead { arm: p, last_ns: recv_ns, honored_election: was.honored_election },
                )
            } else if takes {
                verdict == TapeVerdict::Takeover && after == leads.insert(
                    s,
                    TapeLead { arm: p, last_ns: recv_ns, honored_election: leader },
                )
            } else {
                verdict == TapeVerdict::Refused && after == leads
            }
        }),
{
}

/// A print without an id conflicts exactly if another publisher printed the instrument no more than
/// five seconds ago, and then changes nothing; else the instrument's tape is its publisher's.
pub proof fn law_a_tape_without_ids_has_one_publisher(
    owners: Owners,
    at: (Seq<char>, Seq<char>),
    p: Publisher,
    recv_ns: u64,
)
    ensures
        ({
            let (after, conflict) = claim_step(owners, at, p, recv_ns);
            &&& conflict <==> owners.contains_key(at) && owners[at].0 != p && recv_ns <= owners[at].1
                + 5_000_000_000
            &&& after == (if conflict {
                owners
            } else {
                owners.insert(at, (p, recv_ns))
            })
        }),
{
}

} // verus!
