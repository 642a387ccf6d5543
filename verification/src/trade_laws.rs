//! What leaves of the trades, definitions and other messages that the emit stage is offered, told from the
//! offers alone.

use crate::arbiter::{ArbiterView, ListingId};
use crate::effects::{Clock, EffectsView, Kind, MessageView, NoteView, What};
use crate::floor::Admit;
use crate::floor_laws::{law_window_forwards_what_is_new, law_window_tells_who_came_first};
use crate::model::{
    ArbitrationMode, BookView, MarketId, NormalizedInstrument, NormalizedTrade, Publisher,
};
use crate::run_laws::Offer;
use crate::tape::{tape_step, TapeVerdict};
use crate::window::{window_at, window_decision, window_run, Offered, Seen};
use vstd::prelude::*;

verus! {

/// The trade of an offer.
pub open spec fn trade_of(o: Offer) -> NormalizedTrade {
    o.msg->Trade_0
}

/// The offer is a trade of the instrument that carries an id.
pub open spec fn is_print(o: Offer, key: ListingId) -> bool {
    o.msg is Trade && (trade_of(o).venue@, trade_of(o).symbol@) == key && trade_of(o).trade_id != 0
}

spec fn prints_of(run: Seq<Offer>, key: ListingId, n: int) -> Seq<Offered<ListingId, u64, Publisher>>
    decreases n,
{
    if n <= 0 {
        Seq::empty()
    } else if is_print(run[n - 1], key) {
        prints_of(run, key, n - 1).push(
            Offered {
                key,
                value: trade_of(run[n - 1]).trade_id,
                publisher: run[n - 1].publisher,
                arrival_ns: trade_of(run[n - 1]).recv_ts_ns,
            },
        )
    } else {
        prints_of(run, key, n - 1)
    }
}

proof fn lemma_grows(run: Seq<Offer>, key: ListingId, i: int, n: int)
    requires
        0 <= i <= n <= run.len(),
    ensures
        prints_of(run, key, i).is_prefix_of(prints_of(run, key, n)),
        prints_of(run, key, n).len() - prints_of(run, key, i).len() <= n - i,
        i < n && is_print(run[i], key) ==> {
            let x = prints_of(run, key, i).len() as int;
            let o = prints_of(run, key, n)[x];
            &&& x < prints_of(run, key, n).len()
            &&& o.key == key && o.value == trade_of(run[i]).trade_id && o.publisher == run[i].publisher
                && o.arrival_ns == trade_of(run[i]).recv_ts_ns
        },
    decreases n,
{
    if i < n {
        lemma_grows(run, key, i, n - 1);
        assert(prints_of(run, key, n - 1).is_prefix_of(prints_of(run, key, n)));
    }
    assert(prints_of(run, key, i) =~= prints_of(run, key, n).subrange(
        0,
        prints_of(run, key, i).len() as int,
    ));
}

proof fn lemma_origin(run: Seq<Offer>, key: ListingId, n: int, y: int) -> (j: int)
    requires
        0 <= n <= run.len(),
        0 <= y < prints_of(run, key, n).len(),
    ensures
        0 <= j < n,
        is_print(run[j], key),
        prints_of(run, key, n)[y].key == key,
        prints_of(run, key, n)[y].value == trade_of(run[j]).trade_id,
    decreases n,
{
    if y == prints_of(run, key, n - 1).len() {
        n - 1
    } else {
        lemma_origin(run, key, n - 1, y)
    }
}

proof fn lemma_prefix(
    cap: int,
    some: Seq<Offered<ListingId, u64, Publisher>>,
    all: Seq<Offered<ListingId, u64, Publisher>>,
    n: int,
)
    requires
        some.is_prefix_of(all),
        0 <= n <= some.len(),
    ensures
        window_run(Map::<ListingId, Seen<u64, Publisher>>::empty(), cap, some, n) == window_run(
            Map::<ListingId, Seen<u64, Publisher>>::empty(),
            cap,
            all,
            n,
        ),
    decreases n,
{
    if n > 0 {
        lemma_prefix(cap, some, all, n - 1);
        assert(some[n - 1] == all.subrange(0, some.len() as int)[n - 1]);
    }
}

proof fn lemma_window_follows(a: ArbiterView, run: Seq<Offer>, key: ListingId, n: int)
    requires
        starts(a, key),
        0 <= n <= run.len(),
    ensures
        ({
            let b = a.after_run(run, n);
            let seen = prints_of(run, key, n);
            &&& b.modes == a.modes
            &&& b.trade_window == a.trade_window
            &&& window_at(b.trades, key) == window_at(
                window_run(
                    Map::<ListingId, Seen<u64, Publisher>>::empty(),
                    a.trade_window,
                    seen,
                    seen.len() as int,
                ),
                key,
            )
        }),
    decreases n,
{
    if n > 0 {
        lemma_window_follows(a, run, key, n - 1);
        let was = prints_of(run, key, n - 1);
        let now = prints_of(run, key, n);
        lemma_grows(run, key, n - 1, n);
        lemma_prefix(a.trade_window, was, now, was.len() as int);
        let b = a.after_run(run, n - 1);
        let o = run[n - 1];
        assert(a.after_run(run, n) == b.takes(o).0);
    }
}

/// The instrument's venue is not sticky, and nothing of it was printed yet.
pub open spec fn starts(a: ArbiterView, key: ListingId) -> bool {
    &&& !(a.modes.contains_key(key.0) && a.modes[key.0] == ArbitrationMode::Sticky)
    &&& !a.trades.contains_key(key)
}

spec fn decision_on(a: ArbiterView, run: Seq<Offer>, key: ListingId, n: int) -> Admit<Publisher> {
    window_decision(
        Map::<ListingId, Seen<u64, Publisher>>::empty(),
        a.trade_window,
        prints_of(run, key, run.len() as int),
        prints_of(run, key, n).len() as int,
    )
}

proof fn lemma_decided(a: ArbiterView, run: Seq<Offer>, key: ListingId, n: int)
    requires
        starts(a, key),
        0 <= n < run.len(),
        is_print(run[n], key),
    ensures
        ({
            let fx = a.effects_of(run, n);
            let p = run[n].publisher;
            match decision_on(a, run, key, n) {
                Admit::Emitted { .. } => fx.sent == seq![run[n].msg] && fx.notes.contains(
                    NoteView { venue: key.0, what: What::TradeAdmitted(p) },
                ),
                Admit::Contest { winner, lead_ns } => fx.sent.len() == 0 && fx.notes.contains(
                    NoteView { venue: key.0, what: What::TradeLead { winner, loser: p, lead_ns } },
                ),
                Admit::Dropped => fx.sent.len() == 0 && fx.notes.contains(
                    NoteView { venue: key.0, what: What::TradeDropped },
                ),
            }
        }),
{
    let all = prints_of(run, key, run.len() as int);
    let some = prints_of(run, key, n);
    lemma_window_follows(a, run, key, n);
    lemma_grows(run, key, n, run.len() as int);
    lemma_prefix(a.trade_window, some, all, some.len() as int);
    let b = a.after_run(run, n);
    let t = trade_of(run[n]);
    let fx = a.effects_of(run, n);
    assert(b.mode_of(key.0) != ArbitrationMode::Sticky);
    match decision_on(a, run, key, n) {
        Admit::Emitted { .. } => {
            assert(fx.sent =~= seq![run[n].msg]);
            assert(fx.notes.last() == NoteView {
                venue: key.0,
                what: What::TradeAdmitted(run[n].publisher),
            });
        },
        Admit::Contest { winner, lead_ns } => {
            assert(fx.notes.last() == NoteView {
                venue: key.0,
                what: What::TradeLead { winner, loser: run[n].publisher, lead_ns },
            });
        },
        Admit::Dropped => {
            assert(fx.notes.last() == NoteView { venue: key.0, what: What::TradeDropped });
        },
    }
}

/// On a venue that is not sticky the first copy of a trade id of an instrument is broadcast.
pub proof fn law_a_new_print_is_broadcast(a: ArbiterView, run: Seq<Offer>, key: ListingId, n: int)
    requires
        starts(a, key),
        0 <= n < run.len(),
        is_print(run[n], key),
        forall|j: int|
            0 <= j < n && is_print(#[trigger] run[j], key) ==> trade_of(run[j]).trade_id != trade_of(
                run[n],
            ).trade_id,
    ensures
        a.effects_of(run, n).sent == seq![run[n].msg],
{
    let all = prints_of(run, key, run.len() as int);
    let x = prints_of(run, key, n).len() as int;
    lemma_grows(run, key, n, run.len() as int);
    assert forall|y: int| 0 <= y < x implies !((#[trigger] all[y]).key == all[x].key && all[y].value
        == all[x].value) by {
        assert(all.subrange(0, x)[y] == all[y]);
        let j = lemma_origin(run, key, n, y);
    }
    law_window_forwards_what_is_new(a.trade_window, all, x);
    lemma_decided(a, run, key, n);
}

/// On a venue that is not sticky a copy of a trade id that was broadcast for its instrument is not
/// broadcast while no more offers have come since than the window is wide; one by another publisher
/// is told, with who came first and how much earlier.
pub proof fn law_a_repeated_print_is_not_broadcast(
    a: ArbiterView,
    run: Seq<Offer>,
    key: ListingId,
    i: int,
    n: int,
)
    requires
        starts(a, key),
        0 <= i < n < run.len(),
        n - i <= a.trade_window,
        is_print(run[i], key),
        is_print(run[n], key),
        trade_of(run[i]).trade_id == trade_of(run[n]).trade_id,
        a.effects_of(run, i).sent.len() > 0,
    ensures
        a.effects_of(run, n).sent.len() == 0,
        run[n].publisher != run[i].publisher && trade_of(run[n]).recv_ts_ns >= trade_of(
            run[i],
        ).recv_ts_ns ==> a.effects_of(run, n).notes.contains(
            NoteView {
                venue: key.0,
                what: What::TradeLead {
                    winner: run[i].publisher,
                    loser: run[n].publisher,
                    lead_ns: (trade_of(run[n]).recv_ts_ns - trade_of(run[i]).recv_ts_ns) as u64,
                },
            },
        ),
{
    let all = prints_of(run, key, run.len() as int);
    let x = prints_of(run, key, n).len() as int;
    let o = prints_of(run, key, i).len() as int;
    lemma_grows(run, key, n, run.len() as int);
    lemma_grows(run, key, i, run.len() as int);
    lemma_grows(run, key, i, n);
    lemma_decided(a, run, key, i);
    lemma_decided(a, run, key, n);
    law_window_tells_who_came_first(a.trade_window, all, o, x);
}

/// On a sticky venue a trade that the tape refuses is not broadcast and leaves no trace in the
/// window; the one that takes the tape over is told.
pub proof fn law_a_refused_arm_prints_nothing(
    a: ArbiterView,
    t: NormalizedTrade,
    p: Publisher,
    category: Seq<char>,
)
    requires
        a.modes.contains_key(t.venue@),
        a.modes[t.venue@] == ArbitrationMode::Sticky,
        !a.race_eligible((t.venue@, category), p),
    ensures
        ({
            let (leads, verdict) = tape_step(
                a.leads,
                a.gate.books,
                (t.venue@, category),
                p,
                t.recv_ts_ns,
            );
            let (b, fx) = a.trade_offered(t, p, category);
            &&& b.leads == leads
            &&& verdict == TapeVerdict::Refused ==> fx.sent.len() == 0 && b.trades == a.trades
                && b.owners == a.owners && fx.notes.contains(
                NoteView { venue: t.venue@, what: What::TapeArmDropped },
            )
            &&& verdict != TapeVerdict::Refused && t.trade_id == 0 ==> fx.sent == seq![
                MessageView::Trade(t),
            ] && b.owners == a.owners
            &&& verdict != TapeVerdict::Refused && t.trade_id != 0 && !window_at(
                a.trades,
                (t.venue@, t.symbol@),
            ).has(t.trade_id) ==> fx.sent == seq![MessageView::Trade(t)]
            &&& verdict != TapeVerdict::Refused && t.trade_id != 0 && window_at(
                a.trades,
                (t.venue@, t.symbol@),
            ).has(t.trade_id) ==> fx.sent.len() == 0
            &&& verdict == TapeVerdict::Takeover ==> fx.notes.contains(
                NoteView { venue: t.venue@, what: What::TapeArmTransfer },
            )
        }),
{
    let (b, fx) = a.trade_offered(t, p, category);
    let verdict = tape_step(a.leads, a.gate.books, (t.venue@, category), p, t.recv_ts_ns).1;
    if verdict == TapeVerdict::Refused {
        assert(fx.notes[0] == NoteView { venue: t.venue@, what: What::TapeArmDropped });
    } else {
        assert(fx.sent =~= seq![MessageView::Trade(t)] || fx.sent =~= Seq::empty());
        if verdict == TapeVerdict::Takeover {
            assert(fx.notes[0] == NoteView { venue: t.venue@, what: What::TapeArmTransfer });
        }
    }
}

/// On a venue that is not sticky a print without an id is broadcast, and told as a conflict exactly
/// if another publisher printed the instrument's tape no more than five seconds ago.
pub proof fn law_a_print_without_an_id_is_broadcast(
    a: ArbiterView,
    t: NormalizedTrade,
    p: Publisher,
    category: Seq<char>,
)
    requires
        !(a.modes.contains_key(t.venue@) && a.modes[t.venue@] == ArbitrationMode::Sticky),
        !a.race_eligible((t.venue@, category), p),
        t.trade_id == 0,
    ensures
        ({
            let at = (t.venue@, t.symbol@);
            let (b, fx) = a.trade_offered(t, p, category);
            let conflict = a.owners.contains_key(at) && a.owners[at].0 != p && t.recv_ts_ns
                <= a.owners[at].1 + 5_000_000_000;
            &&& fx.sent == seq![MessageView::Trade(t)]
            &&& fx.notes.contains(NoteView { venue: t.venue@, what: What::TradeNoIdConflict })
                <==> conflict
            &&& fx.notes.contains(NoteView { venue: t.venue@, what: What::TradeNoIdConflictWarning })
                <==> conflict && !a.no_id_conflict_logged
            &&& b.no_id_conflict_logged == (a.no_id_conflict_logged || conflict)
            &&& b.trades == a.trades
        }),
{
    let at = (t.venue@, t.symbol@);
    let fx = a.trade_offered(t, p, category).1;
    let conflict = a.owners.contains_key(at) && a.owners[at].0 != p && t.recv_ts_ns
        <= a.owners[at].1 + 5_000_000_000;
    assert(fx.sent =~= seq![MessageView::Trade(t)]);
    assert(fx.notes[0] == NoteView { venue: t.venue@, what: What::TradeNoId });
    assert(fx.notes[1] == NoteView { venue: t.venue@, what: What::Emit(Kind::Trade) });
    if conflict {
        assert(fx.notes[2] == NoteView { venue: t.venue@, what: What::TradeNoIdConflict });
        if !a.no_id_conflict_logged {
            assert(fx.notes[3] == NoteView { venue: t.venue@, what: What::TradeNoIdConflictWarning });
        } else {
            assert(fx.notes.len() == 3);
        }
    } else {
        assert(fx.notes.len() == 2);
    }
}

/// A definition is broadcast exactly if none of its instrument was, the last one broadcast had
/// another exponent, or it was broadcast fifteen seconds ago or more; what was broadcast is what
/// later ones are held against, and no other instrument is touched.
pub proof fn law_a_definition_is_broadcast_when_it_is_due(
    a: ArbiterView,
    i: NormalizedInstrument,
    now: Clock,
)
    ensures
        ({
            let at = (i.venue@, i.channel, i.instrument_id);
            let (b, fx) = a.instrument_offered(i, now);
            let known = a.instruments.contains_key(at);
            let said = a.instruments[at];
            let due = !known || said.price_exponent != i.price_exponent || said.qty_exponent
                != i.qty_exponent || now.mono_ns >= said.at_ns + 15_000_000_000;
            if due {
                &&& fx.sent == seq![MessageView::Instrument(i)]
                &&& b.instruments.contains_key(at)
                &&& b.instruments[at].price_exponent == i.price_exponent
                &&& b.instruments[at].qty_exponent == i.qty_exponent
                &&& b.instruments[at].at_ns == now.mono_ns
                &&& forall|o: (Seq<char>, u32, u32)|
                    o != at ==> (#[trigger] b.instruments.contains_key(o)
                        <==> a.instruments.contains_key(o))
                &&& forall|o: (Seq<char>, u32, u32)|
                    o != at && a.instruments.contains_key(o) ==> #[trigger] b.instruments[o]
                        == a.instruments[o]
            } else {
                fx.sent.len() == 0 && b == a
            }
        }),
{
    let fx = a.instrument_offered(i, now).1;
    if fx.sent.len() > 0 {
        assert(fx.sent =~= seq![MessageView::Instrument(i)]);
    }
}

/// Midpoints and statuses are broadcast as they come, and change nothing.
pub proof fn law_midpoints_and_statuses_are_broadcast(
    a: ArbiterView,
    msg: MessageView,
    p: Publisher,
    category: Seq<char>,
    now: Clock,
)
    requires
        msg is Midpoint || msg is Status,
    ensures
        a.emitted(msg, p, category, now).0 == a,
        a.emitted(msg, p, category, now).1.sent == seq![msg],
{
    assert(a.emitted(msg, p, category, now).1.sent =~= seq![msg]);
}

/// A book batch goes to the book gate, for the market of its own venue, channel and instrument in
/// the universe that it was offered for, under its venue's mode; nothing else of the stage changes.
pub proof fn law_a_book_goes_to_its_own_market(
    a: ArbiterView,
    b: BookView,
    p: Publisher,
    category: Seq<char>,
    now: Clock,
)
    ensures
        ({
            let (w, fx) = a.emitted(MessageView::Book(b), p, category, now);
            let k = MarketId {
                scope: (b.venue, category),
                channel: b.channel,
                instrument_id: b.instrument_id,
            };
            let sticky = a.modes.contains_key(b.venue) && a.modes[b.venue] == ArbitrationMode::Sticky;
            let none = EffectsView { sent: Seq::empty(), notes: Seq::empty() };
            &&& (w.gate, fx) == a.gate.offered(
                none,
                if sticky {
                    ArbitrationMode::Sticky
                } else {
                    ArbitrationMode::Coordinated
                },
                k,
                b,
                p,
                now,
            )
            &&& w == (ArbiterView { gate: w.gate, ..a })
        }),
{
}

/// A message touches the state of its own kind alone: a quote the quotes, a snapshot of depth the
/// depths and what is replayed of them, a definition the definitions; a trade touches none of
/// these, no book and no mode.
pub proof fn law_a_message_touches_its_own_kind(
    a: ArbiterView,
    msg: MessageView,
    p: Publisher,
    category: Seq<char>,
    now: Clock,
)
    ensures
        ({
            let w = a.emitted(msg, p, category, now).0;
            &&& !(msg is Quote) ==> w.quotes == a.quotes
            &&& !(msg is Depth) ==> w.depths == a.depths && w.depth_replay == a.depth_replay
            &&& !(msg is Instrument) ==> w.instruments == a.instruments
            &&& !(msg is Trade) ==> w.trades == a.trades && w.owners == a.owners && w.leads == a.leads
                && w.race == a.race && w.no_id_conflict_logged == a.no_id_conflict_logged
            &&& !(msg is Trade || msg is Book) ==> w.gate == a.gate
            &&& msg is Trade ==> w.gate.markets == a.gate.markets && w.gate.replay == a.gate.replay
                && w.gate.sync == a.gate.sync && w.gate.events == a.gate.events
            &&& w.modes == a.modes && w.trade_window == a.trade_window && w.race_window_ns
                == a.race_window_ns
        }),
{
}

/// A depth reset forgets the instruments it names, and what is replayed of them, and spares every
/// other; it touches nothing but depth.
pub proof fn law_a_depth_reset_spares_the_rest(a: ArbiterView, gone: Set<ListingId>, key: ListingId)
    ensures
        ({
            let w = a.depth_reset(gone);
            &&& w.depths.contains_key(key) <==> a.depths.contains_key(key) && !gone.contains(key)
            &&& w.depths.contains_key(key) ==> w.depths[key] == a.depths[key]
            &&& w.depth_replay is Some <==> a.depth_replay is Some
            &&& a.depth_replay is Some ==> {
                let r = w.depth_replay->0;
                let was = a.depth_replay->0;
                &&& r.contains_key(key) <==> was.contains_key(key) && !gone.contains(key)
                &&& r.contains_key(key) ==> r[key] == was[key]
            }
            &&& w == (ArbiterView { depths: w.depths, depth_replay: w.depth_replay, ..a })
        }),
{
}

/// What is told of a trade that is evidence goes out beside what becomes of its print: a tracked
/// edge arm's trade is paired before the tape is asked, and whatever it is paired with, its print
/// is broadcast exactly as the tape and the window would have it.
pub proof fn law_evidence_does_not_decide_the_print(
    a: ArbiterView,
    t: NormalizedTrade,
    p: Publisher,
    category: Seq<char>,
)
    requires
        !(a.modes.contains_key(t.venue@) && a.modes[t.venue@] == ArbitrationMode::Sticky),
    ensures
        ({
            let (b, fx) = a.trade_offered(t, p, category);
            let new = t.trade_id == 0 || !window_at(a.trades, (t.venue@, t.symbol@)).has(t.trade_id);
            &&& new ==> fx.sent == seq![MessageView::Trade(t)]
            &&& !new ==> fx.sent.len() == 0
            &&& a.race_eligible((t.venue@, category), p) ==> b.race == a.race_observed(
                EffectsView { sent: Seq::empty(), notes: Seq::empty() },
                (t.venue@, category),
                t,
                p,
            ).0.race
            &&& a.race_eligible((t.venue@, category), p) <==> p is Edge
                && a.gate.books.scopes.contains_key((t.venue@, category)) && crate::authority::is_arm(
                a.gate.books.scopes[(t.venue@, category)].arms,
                p,
            )
        }),
{
    let fx = a.trade_offered(t, p, category).1;
    assert(fx.sent =~= seq![MessageView::Trade(t)] || fx.sent =~= Seq::empty());
}

/// A venue's mode is what was declared for it; one that was not declared is coordinated.
pub proof fn law_a_venue_is_coordinated_unless_declared(a: ArbiterView, venue: Seq<char>)
    ensures
        a.modes.contains_key(venue) ==> a.mode_of(venue) == a.modes[venue],
        !a.modes.contains_key(venue) ==> a.mode_of(venue) == ArbitrationMode::Coordinated,
{
}

/// An update is refused as too far ahead exactly if it is stamped more than five seconds past the
/// clock.
pub proof fn law_five_seconds_is_too_far_ahead(source_ts: u64, now: u64)
    ensures
        crate::arbiter::too_far_ahead(source_ts, now) <==> source_ts > now + 5_000_000_000,
{
}

} // verus!
