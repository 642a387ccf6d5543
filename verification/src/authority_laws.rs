//! What the authority's elections, handovers and overrides come to, stated of what goes in and what
//! comes out.

use crate::authority::{
    arm_or_new, best_challenger_spec, is_arm, label_text, median, qualifies,
    reports_moves, sorted, wins, with_arm, ArmView, AuthorityConfig, AuthorityView, MarketView,
    ScopeView,
};
use crate::floor::{elapsed, Admit};
use crate::model::{MarketId, Publisher, ScopeId, ScopeKey};
use crate::table::Key;
use vstd::prelude::*;

verus! {

/// How many of the samples are no larger than `x`.
pub open spec fn at_or_below(samples: Seq<i64>, x: int) -> nat {
    samples.filter(|s: i64| s <= x).len()
}

/// How many of the samples are no smaller than `x`.
pub open spec fn at_or_above(samples: Seq<i64>, x: int) -> nat {
    samples.filter(|s: i64| s >= x).len()
}

proof fn lemma_count_of_all(samples: Seq<i64>, pred: spec_fn(i64) -> bool)
    requires
        forall|i: int| 0 <= i < samples.len() ==> pred(#[trigger] samples[i]),
    ensures
        samples.filter(pred).len() == samples.len(),
    decreases samples.len(),
{
    reveal(Seq::filter);
    if samples.len() > 0 {
        assert forall|i: int| 0 <= i < samples.drop_last().len() implies pred(
            #[trigger] samples.drop_last()[i],
        ) by {
            assert(samples[i] == samples.drop_last()[i]);
        }
        lemma_count_of_all(samples.drop_last(), pred);
        assert(pred(samples[samples.len() - 1]));
    }
}

/// A count is that of the multiset: order does not matter to it.
proof fn lemma_count_by_multiset(samples: Seq<i64>, pred: spec_fn(i64) -> bool)
    ensures
        samples.filter(pred).len() == samples.to_multiset().filter(pred).len(),
    decreases samples.len(),
{
    reveal(Seq::filter);
    broadcast use vstd::seq_lib::group_to_multiset_ensures, vstd::multiset::group_multiset_axioms;

    if samples.len() > 0 {
        let rest = samples.drop_last();
        lemma_count_by_multiset(rest, pred);
        assert(samples =~= rest.push(samples.last()));
        let m = rest.to_multiset();
        assert(samples.to_multiset() =~= m.insert(samples.last()));
        if pred(samples.last()) {
            assert(m.insert(samples.last()).filter(pred) =~= m.filter(pred).insert(samples.last()));
        } else {
            assert(m.insert(samples.last()).filter(pred) =~= m.filter(pred));
        }
    } else {
        assert(samples.to_multiset().filter(pred) =~= vstd::multiset::Multiset::empty());
    }
}

proof fn lemma_more_counted(samples: Seq<i64>, few: spec_fn(i64) -> bool, more: spec_fn(i64) -> bool)
    requires
        forall|x: i64| few(x) ==> #[trigger] more(x),
    ensures
        samples.filter(few).len() <= samples.filter(more).len(),
    decreases samples.len(),
{
    reveal(Seq::filter);
    if samples.len() > 0 {
        lemma_more_counted(samples.drop_last(), few, more);
        assert(few(samples.last()) ==> more(samples.last()));
    }
}

proof fn lemma_disjoint_counts(samples: Seq<i64>, a: spec_fn(i64) -> bool, b: spec_fn(i64) -> bool)
    requires
        forall|x: i64| !(#[trigger] a(x) && #[trigger] b(x)),
    ensures
        samples.filter(a).len() + samples.filter(b).len() <= samples.len(),
    decreases samples.len(),
{
    reveal(Seq::filter);
    if samples.len() > 0 {
        lemma_disjoint_counts(samples.drop_last(), a, b);
        assert(!(a(samples.last()) && b(samples.last())));
    }
}

/// What is compared with the margin is a middle sample: one of the samples, with more than half of
/// them no larger than it and at least half no smaller.
pub proof fn law_the_middle_is_in_the_middle(samples: Seq<i64>)
    requires
        samples.len() > 0,
    ensures
        samples.contains(median(samples)),
        2 * at_or_below(samples, median(samples) as int) > samples.len(),
        2 * at_or_above(samples, median(samples) as int) >= samples.len(),
{
    broadcast use vstd::seq_lib::group_to_multiset_ensures;

    let leq = |a: i64, b: i64| a <= b;
    let t = sorted(samples);
    let n = samples.len() as int;
    samples.lemma_sort_by_ensures(leq);
    assert(t.to_multiset() == samples.to_multiset());
    assert(t.to_multiset().len() == t.len() && samples.to_multiset().len() == n);
    assert(vstd::relations::sorted_by(t, leq));
    let mid = n / 2;
    let m = median(samples);
    assert(m == t[mid]);
    assert(t.to_multiset().contains(t[mid]));
    assert(samples.contains(m));
    let below = |s: i64| s <= m as int;
    let above = |s: i64| s >= m as int;
    assert forall|i: int| 0 <= i <= mid implies #[trigger] t[i] <= m by {
        if i < mid {
            assert(leq(t[i], t[mid]));
        }
    }
    assert forall|i: int| mid <= i < n implies #[trigger] t[i] >= m by {
        if i > mid {
            assert(leq(t[mid], t[i]));
        }
    }
    let low = t.subrange(0, mid + 1);
    let rest = t.subrange(mid + 1, n);
    assert(t =~= low + rest);
    Seq::filter_distributes_over_add(low, rest, below);
    lemma_count_of_all(low, below);
    let under = t.subrange(0, mid);
    let high = t.subrange(mid, n);
    assert(t =~= under + high);
    Seq::filter_distributes_over_add(under, high, above);
    lemma_count_of_all(high, above);
    lemma_count_by_multiset(t, below);
    lemma_count_by_multiset(samples, below);
    lemma_count_by_multiset(t, above);
    lemma_count_by_multiset(samples, above);
}

/// The middle sample is at or below a bound exactly if more than half of the samples are.
pub proof fn law_the_middle_speaks_for_most(samples: Seq<i64>, bound: int)
    requires
        samples.len() > 0,
    ensures
        median(samples) <= bound <==> 2 * at_or_below(samples, bound) > samples.len(),
{
    law_the_middle_is_in_the_middle(samples);
    let m = median(samples) as int;
    let below = |s: i64| s <= bound;
    if m <= bound {
        lemma_more_counted(samples, |s: i64| s <= m, below);
    } else {
        lemma_disjoint_counts(samples, below, |s: i64| s >= m);
    }
}

/// The wins of an arm are its negative leads.
pub proof fn law_wins_are_negative_leads(samples: Seq<i64>)
    ensures
        wins(samples) == samples.filter(|s: i64| s < 0).len(),
    decreases samples.len(),
{
    reveal(Seq::filter);
    if samples.len() > 0 {
        law_wins_are_negative_leads(samples.drop_last());
    }
}

/// The evidence for `arm` calls for a handover: it does not lead, it has samples and no fewer than are
/// asked for, it won the asked share of them in parts per million, and more than half of its leads are
/// of the margin or beyond.
#[verifier::opaque]
pub open spec fn earned(arm: ArmView, leader: Publisher, cfg: AuthorityConfig) -> bool {
    let n = arm.samples.len();
    let margin: int = if cfg.transfer_margin_ns <= 0x7fff_ffff_ffff_ffff {
        cfg.transfer_margin_ns as int
    } else {
        0x7fff_ffff_ffff_ffff
    };
    &&& arm.who != leader
    &&& n > 0
    &&& n >= cfg.min_window_samples
    &&& 1_000_000 * arm.samples.filter(|s: i64| s < 0).len() >= cfg.transfer_win_rate_ppm * n
    &&& 2 * at_or_below(arm.samples, -margin) > n
}

proof fn lemma_earned(arm: ArmView, leader: Publisher, cfg: AuthorityConfig)
    ensures
        earned(arm, leader, cfg) <==> qualifies(arm, leader, cfg),
{
    reveal(earned);
    law_wins_are_negative_leads(arm.samples);
    if arm.samples.len() > 0 {
        let margin: int = if cfg.transfer_margin_ns <= 0x7fff_ffff_ffff_ffff {
            cfg.transfer_margin_ns as int
        } else {
            0x7fff_ffff_ffff_ffff
        };
        law_the_middle_speaks_for_most(arm.samples, -margin);
    }
}

/// Of the first `n` arms, `i` is the one that the evidence elects: it earned the universe, and its
/// middle lead is better than that of every arm before it that earned it too, and no worse than that of
/// any after it.
pub open spec fn elected(
    arms: Seq<ArmView>,
    n: int,
    leader: Publisher,
    cfg: AuthorityConfig,
    i: int,
) -> bool {
    &&& 0 <= i < n
    &&& earned(arms[i], leader, cfg)
    &&& forall|j: int|
        0 <= j < n && earned(#[trigger] arms[j], leader, cfg) ==> median(arms[i].samples) <= median(
            arms[j].samples,
        ) && (j < i ==> median(arms[i].samples) < median(arms[j].samples))
}

proof fn lemma_election(arms: Seq<ArmView>, n: int, leader: Publisher, cfg: AuthorityConfig)
    requires
        0 <= n <= arms.len(),
    ensures
        match best_challenger_spec(arms, n, leader, cfg) {
            Some(arm) => exists|i: int|
                #[trigger] elected(arms, n, leader, cfg, i) && arms[i] == arm,
            None => forall|j: int| 0 <= j < n ==> !earned(#[trigger] arms[j], leader, cfg),
        },
    decreases n,
{
    if n > 0 {
        lemma_election(arms, n - 1, leader, cfg);
        let before = best_challenger_spec(arms, n - 1, leader, cfg);
        let arm = arms[n - 1];
        lemma_earned(arm, leader, cfg);
        if before is Some {
            let i = choose|i: int|
                #[trigger] elected(arms, n - 1, leader, cfg, i) && arms[i] == before->0;
            if qualifies(arm, leader, cfg) && median(arm.samples) < median(before->0.samples) {
                assert(elected(arms, n, leader, cfg, n - 1));
            } else {
                assert(elected(arms, n, leader, cfg, i));
            }
        } else if qualifies(arm, leader, cfg) {
            assert(elected(arms, n, leader, cfg, n - 1));
        }
    }
}

/// A close elects by the evidence: a universe whose window is as old as the interval goes to the arm
/// that its evidence elects, and stays with its leader exactly if no arm earned it; its window starts
/// over with no evidence, the arms are as they were otherwise, and nothing else changes. A younger
/// window is left alone.
pub proof fn law_a_close_elects_by_the_evidence(v: AuthorityView, now_ns: u64, s: ScopeId)
    requires
        v.scopes.contains_key(s),
    ensures
        ({
            let w = v.windows_closed(now_ns);
            let was = v.scopes[s];
            let now = w.scopes[s];
            &&& w.scopes.dom() == v.scopes.dom()
            &&& w.cfg == v.cfg && w.markets == v.markets && w.market_order == v.market_order
                && w.ordinals == v.ordinals
            &&& if now_ns - was.window_opened_ns >= v.cfg.sample_interval_ns
                || v.cfg.sample_interval_ns == 0 {
                &&& now.window_opened_ns == now_ns
                &&& now.arms.len() == was.arms.len()
                &&& forall|i: int|
                    0 <= i < now.arms.len() ==> (#[trigger] now.arms[i]).samples.len() == 0
                        && now.arms[i].who == was.arms[i].who && now.arms[i].last_seen_ns
                        == was.arms[i].last_seen_ns
                &&& {
                    ||| now.leader == was.leader && forall|i: int|
                        0 <= i < was.arms.len() ==> !earned(
                            #[trigger] was.arms[i],
                            was.leader,
                            v.cfg,
                        )
                    ||| exists|i: int|
                        #[trigger] elected(was.arms, was.arms.len() as int, was.leader, v.cfg, i)
                            && now.leader == was.arms[i].who && now.leader != was.leader
                }
            } else {
                now == was
            }
        }),
{
    let was = v.scopes[s];
    lemma_election(was.arms, was.arms.len() as int, was.leader, v.cfg);
    let w = v.windows_closed(now_ns);
    assert(w.scopes.dom() =~= v.scopes.dom());
    assert(w.scopes[s] == was.closed_at(v.cfg, now_ns));
    reveal(earned);
}

/// A universe is never handed to an arm of which half of the leads or more fall short of the margin.
pub proof fn law_half_short_of_the_margin_wins_nothing(
    v: AuthorityView,
    now_ns: u64,
    s: ScopeId,
    i: int,
)
    requires
        v.wf(),
        v.scopes.contains_key(s),
        0 <= i < v.scopes[s].arms.len(),
        v.scopes[s].arms[i].who != v.scopes[s].leader,
        v.cfg.transfer_margin_ns <= i64::MAX,
        2 * v.scopes[s].arms[i].samples.filter(|x: i64| x > -v.cfg.transfer_margin_ns).len()
            >= v.scopes[s].arms[i].samples.len(),
    ensures
        v.windows_closed(now_ns).scopes[s].leader != v.scopes[s].arms[i].who,
{
    law_a_close_elects_by_the_evidence(v, now_ns, s);
    let was = v.scopes[s];
    let samples = was.arms[i].samples;
    let bound = -(v.cfg.transfer_margin_ns as int);
    lemma_disjoint_counts(
        samples,
        |x: i64| x <= bound,
        |x: i64| x > -v.cfg.transfer_margin_ns,
    );
    reveal(earned);
    assert(!earned(was.arms[i], was.leader, v.cfg));
}

/// What a close reports is what moved: each universe once, with the arm that leads it now.
pub proof fn law_a_close_reports_what_moved(
    v: AuthorityView,
    now_ns: u64,
    r: Seq<(ScopeKey, Publisher)>,
    s: ScopeId,
)
    requires
        reports_moves(v, now_ns, r),
        v.scopes.contains_key(s),
    ensures
        ({
            let now = v.windows_closed(now_ns).scopes[s].leader;
            now != v.scopes[s].leader <==> exists|i: int|
                0 <= i < r.len() && (#[trigger] r[i]).0.id() == s && r[i].1 == now
        }),
        forall|i: int, j: int|
            0 <= i < j < r.len() ==> (#[trigger] r[i]).0.id() != (#[trigger] r[j]).0.id(),
        forall|i: int| 0 <= i < r.len() ==> v.scopes.contains_key((#[trigger] r[i]).0.id()),
{
    let was = v.scopes[s];
    lemma_election(was.arms, was.arms.len() as int, was.leader, v.cfg);
    let w = v.windows_closed(now_ns);
    assert(w.scopes[s] == was.closed_at(v.cfg, now_ns));
    let now = w.scopes[s].leader;
    reveal(earned);
    if now != was.leader {
        assert(v.scopes.contains_key(s) && was.due(v.cfg, now_ns) && was.winner(v.cfg) is Some);
        let i = choose|i: int| 0 <= i < r.len() && (#[trigger] r[i]).0.id() == s;
        assert(r[i].1 == now);
    }
    if exists|i: int| 0 <= i < r.len() && (#[trigger] r[i]).0.id() == s && r[i].1 == now {
        let i = choose|i: int| 0 <= i < r.len() && (#[trigger] r[i]).0.id() == s && r[i].1 == now;
        assert(was.winner(v.cfg) == Some(r[i].1));
    }
}

/// Ordinals are given in order of registration, eight to a universe: an arm that holds none takes the
/// next one while there is one, and keeps it; everything else stays as it was.
pub proof fn law_ordinals_are_given_in_order(v: AuthorityView, s: ScopeId, p: Publisher)
    requires
        v.wf(),
    ensures
        ({
            let w = v.registered(s, p);
            let were = v.eligible_arms(s);
            let now = w.eligible_arms(s);
            let next = v.next_ordinal(s, p);
            &&& now.len() <= 8
            &&& w.cfg == v.cfg && w.scopes == v.scopes && w.markets == v.markets && w.market_order
                == v.market_order
            &&& forall|o: ScopeId| o != s ==> #[trigger] w.eligible_arms(o) == v.eligible_arms(o)
            &&& forall|i: int| 0 <= i < were.len() ==> now[i] == #[trigger] were[i]
            &&& if exists|i: int| 0 <= i < were.len() && #[trigger] were[i] == p {
                now.len() == were.len() && next is None
            } else if were.len() == 8 {
                now.len() == were.len() && next is None
            } else {
                now.len() == were.len() + 1 && now[were.len() as int] == p && next == Some(
                    were.len() as usize,
                )
            }
            &&& forall|i: int|
                0 <= i < now.len() ==> w.ordinal(s, #[trigger] now[i]) == Some(i)
            &&& forall|q: Publisher|
                (#[trigger] w.ordinal(s, q)) is None <==> !now.contains(q)
        }),
{
    crate::authority::lemma_registered_wf(v, s, p);
    let w = v.registered(s, p);
    let were = v.eligible_arms(s);
    let now = w.eligible_arms(s);
    assert(v.ordinals.contains_key(s) ==> were.len() <= 8);
    assert(now.no_duplicates());
    if exists|i: int| 0 <= i < were.len() && #[trigger] were[i] == p {
        assert(were.contains(p));
    }
    assert forall|i: int| 0 <= i < now.len() implies w.ordinal(s, #[trigger] now[i]) == Some(i) by {
        assert(now.contains(now[i]));
        let j = now.index_of(now[i]);
        assert(now[j] == now[i]);
    }
}

/// An arm's label is its ordinal behind `arm`; an arm that holds none is `other`.
pub proof fn law_a_label_tells_the_ordinal(i: int)
    requires
        0 <= i < 8,
    ensures
        label_text(Some(i)).len() == 4,
        label_text(Some(i)).take(3) == seq!['a', 'r', 'm'],
        label_text(Some(i))[3] as int == '0' as int + i,
        label_text(None) == seq!['o', 't', 'h', 'e', 'r'],
{
    reveal_strlit("arm0");
    reveal_strlit("arm1");
    reveal_strlit("arm2");
    reveal_strlit("arm3");
    reveal_strlit("arm4");
    reveal_strlit("arm5");
    reveal_strlit("arm6");
    reveal_strlit("arm7");
    reveal_strlit("other");
    assert(label_text(Some(i)).take(3) =~= seq!['a', 'r', 'm']);
    assert(label_text(None) =~= seq!['o', 't', 'h', 'e', 'r']);
}

/// `p` is known to be unhealthy at the market.
pub open spec fn ailing(v: AuthorityView, k: MarketId, p: Publisher) -> bool {
    v.markets.contains_key(k) && v.markets[k].unhealthy.contains(p)
}

/// An arm that could stand in for the leader at the market.
pub open spec fn could_stand_in(v: AuthorityView, k: MarketId, i: int) -> bool {
    let s = v.scopes[k.scope];
    0 <= i < s.arms.len() && s.arms[i].who != s.leader && !ailing(v, k, s.arms[i].who)
}

/// `i` was heard from later than `j`, or at the same time and is not the earlier registered.
pub open spec fn heard_later(v: AuthorityView, k: MarketId, i: int, j: int) -> bool {
    let arms = v.scopes[k.scope].arms;
    let names = v.eligible_arms(k.scope);
    arms[j].last_seen_ns < arms[i].last_seen_ns || (arms[j].last_seen_ns == arms[i].last_seen_ns
        && names.index_of(arms[j].who) <= names.index_of(arms[i].who))
}

/// Of the first `n` arms, `i` is the one to stand in.
pub open spec fn stands_in(v: AuthorityView, k: MarketId, n: int, i: int) -> bool {
    &&& i < n
    &&& could_stand_in(v, k, i)
    &&& forall|j: int| j < n && #[trigger] could_stand_in(v, k, j) ==> heard_later(v, k, i, j)
}

proof fn lemma_stand_in(v: AuthorityView, k: MarketId, n: int)
    requires
        v.scopes.contains_key(k.scope),
        0 <= n <= v.scopes[k.scope].arms.len(),
    ensures
        match v.stand_in(k, n) {
            Some(arm) => exists|i: int|
                #[trigger] stands_in(v, k, n, i) && v.scopes[k.scope].arms[i] == arm,
            None => forall|j: int| j < n ==> !#[trigger] could_stand_in(v, k, j),
        },
    decreases n,
{
    if n > 0 {
        lemma_stand_in(v, k, n - 1);
        let arms = v.scopes[k.scope].arms;
        let before = v.stand_in(k, n - 1);
        let arm = arms[n - 1];
        let could = could_stand_in(v, k, n - 1);
        assert(could == (arm.who != v.scopes[k.scope].leader && v.is_healthy(k, arm.who)));
        if before is Some {
            let i = choose|i: int| #[trigger] stands_in(v, k, n - 1, i) && arms[i] == before->0;
            if could && heard_later(v, k, n - 1, i) {
                assert forall|j: int| j < n && #[trigger] could_stand_in(v, k, j) implies heard_later(
                    v,
                    k,
                    n - 1,
                    j,
                ) by {
                    if j < n - 1 {
                        assert(heard_later(v, k, i, j));
                    }
                }
                assert(stands_in(v, k, n, n - 1));
            } else {
                assert(could ==> heard_later(v, k, i, n - 1));
                assert(stands_in(v, k, n, i));
            }
        } else if could {
            assert(stands_in(v, k, n, n - 1));
        }
    }
}

/// A market is served by the leader of its universe while the leader is not known to be unhealthy
/// there; else by the arm that is not known to be unhealthy and was heard from last, of those heard
/// from at the same time the one registered last; and by the leader where there is no such arm.
pub proof fn law_who_serves_a_market(v: AuthorityView, k: MarketId)
    ensures
        match v.serving(k) {
            None => !v.scopes.contains_key(k.scope),
            Some(p) => {
                let s = v.scopes[k.scope];
                &&& v.scopes.contains_key(k.scope)
                &&& {
                    ||| p == s.leader && !ailing(v, k, p)
                    ||| ailing(v, k, s.leader) && p == s.leader && forall|j: int|
                        !#[trigger] could_stand_in(v, k, j)
                    ||| ailing(v, k, s.leader) && exists|i: int| #[trigger]
                        stands_in(v, k, s.arms.len() as int, i) && p == s.arms[i].who
                }
            },
        },
{
    if v.scopes.contains_key(k.scope) {
        lemma_stand_in(v, k, v.scopes[k.scope].arms.len() as int);
    }
}

/// When an arm was last heard from; at zero if never.
pub open spec fn heard_at(arms: Seq<ArmView>, p: Publisher, t: u64) -> bool {
    (exists|i: int| 0 <= i < arms.len() && (#[trigger] arms[i]).who == p && arms[i].last_seen_ns == t)
        || (t == 0 && forall|i: int| 0 <= i < arms.len() ==> (#[trigger] arms[i]).who != p)
}

/// A message of an eligible arm is noted as its latest, and the others' stay; the leader changes
/// exactly if it is another arm, last heard from more than the timeout ago; then the window starts
/// over. Otherwise the window and its evidence stay.
pub proof fn law_silence_alone_moves_a_universe(
    v: AuthorityView,
    k: MarketId,
    p: Publisher,
    arrival_ns: u64,
    leader_last: u64,
)
    requires
        v.wf(),
        v.scopes.contains_key(k.scope),
        v.eligible_arms(k.scope).contains(p) || v.eligible_arms(k.scope).len() < 8,
        heard_at(v.scopes[k.scope].arms, v.scopes[k.scope].leader, leader_last),
    ensures
        ({
            let was = v.scopes[k.scope];
            let w = v.offered(k, p, arrival_ns).0;
            let now = w.scopes[k.scope];
            let moves = p != was.leader && arrival_ns > leader_last + v.cfg.leader_timeout_ns;
            &&& w.cfg == v.cfg
            &&& w.scopes.dom() == v.scopes.dom()
            &&& forall|o: ScopeId|
                o != k.scope && v.scopes.contains_key(o) ==> #[trigger] w.scopes[o] == v.scopes[o]
            &&& now.leader == (if moves {
                p
            } else {
                was.leader
            })
            &&& now.window_opened_ns == (if moves {
                arrival_ns
            } else {
                was.window_opened_ns
            })
            &&& was.arms.len() <= now.arms.len() <= was.arms.len() + 1
            &&& forall|i: int|
                0 <= i < was.arms.len() ==> {
                    &&& (#[trigger] now.arms[i]).who == was.arms[i].who
                    &&& now.arms[i].last_seen_ns == (if was.arms[i].who == p {
                        arrival_ns
                    } else {
                        was.arms[i].last_seen_ns
                    })
                    &&& now.arms[i].samples == (if moves {
                        Seq::empty()
                    } else {
                        was.arms[i].samples
                    })
                }
            &&& now.arms.len() > was.arms.len() <==> forall|i: int|
                0 <= i < was.arms.len() ==> (#[trigger] was.arms[i]).who != p
            &&& now.arms.len() > was.arms.len() ==> now.arms.last() == (ArmView {
                who: p,
                last_seen_ns: arrival_ns,
                samples: Seq::empty(),
            })
        }),
{
    let was = v.scopes[k.scope];
    let known = v.registered(k.scope, p);
    law_ordinals_are_given_in_order(v, k.scope, p);
    let has = known.eligible_arms(k.scope);
    assert(has.contains(p)) by {
        let had = v.eligible_arms(k.scope);
        if had.contains(p) {
            let i = had.index_of(p);
            assert(has[i] == p);
        } else {
            assert(has[had.len() as int] == p);
        }
    }
    assert(known.ordinal(k.scope, p) is Some);
    let now = known.heard(k.scope, p, arrival_ns);
    let arm = ArmView { last_seen_ns: arrival_ns, ..arm_or_new(was.arms, p) };
    let arms = with_arm(was.arms, arm);
    assert(arm.who == p);
    if is_arm(was.arms, p) {
        let i = choose|i: int| 0 <= i < was.arms.len() && (#[trigger] was.arms[i]).who == p;
        assert(arm_or_new(was.arms, p) == was.arms[i]);
    }
    assert forall|i: int| 0 <= i < was.arms.len() implies (#[trigger] arms[i]).who == was.arms[i].who
        && arms[i].samples == was.arms[i].samples && arms[i].last_seen_ns == (if was.arms[i].who == p {
        arrival_ns
    } else {
        was.arms[i].last_seen_ns
    }) by {
        if was.arms[i].who == p {
            assert(is_arm(was.arms, p));
        }
    }
    if p != was.leader {
        assert(arm_or_new(arms, was.leader).last_seen_ns == leader_last) by {
            if is_arm(was.arms, was.leader) {
                let i = choose|i: int|
                    0 <= i < was.arms.len() && (#[trigger] was.arms[i]).who == was.leader
                        && was.arms[i].last_seen_ns == leader_last;
                assert(arms[i].who == was.leader);
                assert(is_arm(arms, was.leader));
                let j = choose|j: int| 0 <= j < arms.len() && (#[trigger] arms[j]).who == was.leader;
                assert(j < was.arms.len());
                assert(was.arms[j].who == was.leader);
            } else if is_arm(arms, was.leader) {
                let j = choose|j: int| 0 <= j < arms.len() && (#[trigger] arms[j]).who == was.leader;
                assert(j < was.arms.len());
                assert(was.arms[j].who == was.leader);
            }
        }
    }
    let w = v.offered(k, p, arrival_ns).0;
    assert(w.scopes == v.scopes.insert(k.scope, now));
    assert(w.scopes.dom() =~= v.scopes.dom());
    if is_arm(was.arms, p) {
        assert(arms.len() == was.arms.len());
    }
    assert forall|i: int| 0 <= i < was.arms.len() implies (#[trigger] now.arms[i]).who == was.arms[i].who
        && now.arms[i].last_seen_ns == arms[i].last_seen_ns && (now.arms == arms ==> now.arms[i].samples
        == was.arms[i].samples) by {
        assert(arms[i].who == was.arms[i].who);
    }
}

/// A message is published exactly if its arm is eligible and serves the market once the message is
/// counted; an arm newly published there opens, the one that was published last does not. Publishing
/// notes the arm and no health; dropping changes nothing at any market.
pub proof fn law_a_message_is_published_if_its_arm_serves(
    v: AuthorityView,
    k: MarketId,
    p: Publisher,
    arrival_ns: u64,
)
    requires
        v.wf(),
    ensures
        ({
            let (w, decision) = v.offered(k, p, arrival_ns);
            let last = if v.markets.contains_key(k) {
                v.markets[k].last_admitted
            } else {
                None
            };
            let eligible = v.eligible_arms(k.scope).contains(p) || v.eligible_arms(k.scope).len() < 8;
            if eligible && w.serving(k) == Some(p) {
                &&& decision == Admit::<Publisher>::Emitted {
                    opened_tick: last != Some(p) || !v.scopes.contains_key(k.scope),
                }
                &&& w.markets.contains_key(k)
                &&& w.markets[k].last_admitted == Some(p)
                &&& forall|q: Publisher| #[trigger] ailing(w, k, q) == ailing(v, k, q)
            } else {
                &&& decision == Admit::<Publisher>::Dropped
                &&& w.markets == v.markets
                &&& w.market_order == v.market_order
            }
        }),
        v.offered(k, p, arrival_ns).0.eligible_arms(k.scope) == v.registered(k.scope, p).eligible_arms(
            k.scope,
        ),
{
    law_ordinals_are_given_in_order(v, k.scope, p);
    let known = v.registered(k.scope, p);
    let had = v.eligible_arms(k.scope);
    let has = known.eligible_arms(k.scope);
    if had.contains(p) {
        assert(has[had.index_of(p)] == p);
    } else if had.len() < 8 {
        assert(has[had.len() as int] == p);
    } else {
        assert(known == v);
    }
    crate::authority::law_only_the_serving_arm_is_published(v, k, p, arrival_ns);
    let w = v.offered(k, p, arrival_ns).0;
    if !v.scopes.contains_key(k.scope) && known.ordinal(k.scope, p) is Some {
        assert(v.offered(k, p, arrival_ns).1 is Emitted);
    }
}

/// The first message in a universe: its arm leads, alone, with no evidence and a window that opens now.
pub proof fn law_the_first_arm_leads(v: AuthorityView, k: MarketId, p: Publisher, arrival_ns: u64)
    requires
        v.wf(),
        !v.scopes.contains_key(k.scope),
        v.eligible_arms(k.scope).contains(p) || v.eligible_arms(k.scope).len() < 8,
    ensures
        ({
            let (w, decision) = v.offered(k, p, arrival_ns);
            let now = w.scopes[k.scope];
            &&& w.scopes.contains_key(k.scope)
            &&& now.leader == p
            &&& now.window_opened_ns == arrival_ns
            &&& now.arms.len() == 1 && now.arms[0].who == p && now.arms[0].last_seen_ns == arrival_ns
                && now.arms[0].samples.len() == 0
            &&& decision == Admit::<Publisher>::Emitted { opened_tick: true }
            &&& w.markets.contains_key(k) && w.markets[k].last_admitted == Some(p)
        }),
{
    law_a_message_is_published_if_its_arm_serves(v, k, p, arrival_ns);
    law_ordinals_are_given_in_order(v, k.scope, p);
    let known = v.registered(k.scope, p);
    let had = v.eligible_arms(k.scope);
    let has = known.eligible_arms(k.scope);
    if had.contains(p) {
        assert(has[had.index_of(p)] == p);
    } else {
        assert(has[had.len() as int] == p);
    }
    crate::authority::law_only_the_serving_arm_is_published(v, k, p, arrival_ns);
}

/// A health report of an eligible arm says what is known of that arm at that market from then on, and
/// of no other arm or market that is kept; who was published last stays.
pub proof fn law_health_is_what_was_last_reported(
    v: AuthorityView,
    k: MarketId,
    p: Publisher,
    healthy: bool,
    o: MarketId,
    q: Publisher,
)
    requires
        v.wf(),
        v.eligible_arms(k.scope).contains(p) || v.eligible_arms(k.scope).len() < 8,
    ensures
        ({
            let w = v.health_set(k, p, healthy);
            &&& w.markets.contains_key(k)
            &&& ailing(w, k, p) == !healthy
            &&& q != p ==> ailing(w, k, q) == ailing(v, k, q)
            &&& w.markets[k].last_admitted == (if v.markets.contains_key(k) {
                v.markets[k].last_admitted
            } else {
                None
            })
            &&& o != k && w.markets.contains_key(o) ==> v.markets.contains_key(o) && w.markets[o]
                == v.markets[o]
            &&& w.scopes == v.scopes
            &&& w.cfg == v.cfg
        }),
{
    law_ordinals_are_given_in_order(v, k.scope, p);
    let known = v.registered(k.scope, p);
    let had = v.eligible_arms(k.scope);
    let has = known.eligible_arms(k.scope);
    if had.contains(p) {
        assert(has[had.index_of(p)] == p);
    } else {
        assert(has[had.len() as int] == p);
    }
}

/// A market recorded takes the place it has, or the last; only where 65,536 places are taken is one
/// given up, the oldest, and with it no market but the one whose place it is.
pub proof fn law_the_oldest_market_makes_room(v: AuthorityView, k: MarketId, m: MarketView)
    requires
        v.wf(),
    ensures
        ({
            let w = v.with_market(k, m);
            let full = v.market_order.len() == 65_536;
            &&& w.markets.contains_key(k) && w.markets[k] == m
            &&& w.market_order.len() <= 65_536
            &&& v.markets.contains_key(k) ==> w.market_order == v.market_order
            &&& !v.markets.contains_key(k) ==> w.market_order.last() == Some(k)
                && w.market_order.len() == (if full {
                65_536
            } else {
                v.market_order.len() + 1
            })
            &&& forall|o: MarketId|
                o != k ==> (#[trigger] w.markets.contains_key(o) <==> v.markets.contains_key(o) && !(
                full && !v.markets.contains_key(k) && v.market_order[0] == Some(o)))
            &&& forall|o: MarketId|
                o != k && #[trigger] w.markets.contains_key(o) ==> w.markets[o] == v.markets[o]
            &&& w.scopes == v.scopes && w.ordinals == v.ordinals && w.cfg == v.cfg
        }),
{
}

/// Markets that are forgotten are gone with all that was known of them, and no other is touched.
pub proof fn law_forgetting_touches_no_other_market(
    v: AuthorityView,
    gone: Set<MarketId>,
    k: MarketId,
)
    ensures
        ({
            let w = v.forgotten(gone);
            &&& w.markets.contains_key(k) <==> v.markets.contains_key(k) && !gone.contains(k)
            &&& w.markets.contains_key(k) ==> w.markets[k] == v.markets[k]
            &&& w.market_order.len() == v.market_order.len()
            &&& forall|i: int|
                0 <= i < v.market_order.len() ==> #[trigger] w.market_order[i] == (
                if v.market_order[i] is Some && gone.contains(v.market_order[i]->0) {
                    None
                } else {
                    v.market_order[i]
                })
            &&& w.scopes == v.scopes && w.ordinals == v.ordinals && w.cfg == v.cfg
        }),
{
}

/// A matched lead of an eligible challenger joins that challenger's samples, behind those it has, up to
/// 4,096 of them; it touches no other arm, no leader and no time.
pub proof fn law_a_lead_joins_its_arms_samples(
    v: AuthorityView,
    s: ScopeId,
    p: Publisher,
    lead_ns: i64,
)
    requires
        v.wf(),
        v.eligible_arms(s).contains(p) || v.eligible_arms(s).len() < 8,
        v.scopes.contains_key(s),
        v.scopes[s].leader != p,
    ensures
        ({
            let w = v.lead_observed(s, p, lead_ns);
            let was = v.scopes[s];
            let now = w.scopes[s];
            &&& w.scopes.dom() == v.scopes.dom()
            &&& forall|o: ScopeId|
                o != s && v.scopes.contains_key(o) ==> #[trigger] w.scopes[o] == v.scopes[o]
            &&& w.markets == v.markets && w.market_order == v.market_order && w.cfg == v.cfg
            &&& now.leader == was.leader && now.window_opened_ns == was.window_opened_ns
            &&& was.arms.len() <= now.arms.len() <= was.arms.len() + 1
            &&& forall|i: int|
                0 <= i < was.arms.len() ==> {
                    &&& (#[trigger] now.arms[i]).who == was.arms[i].who
                    &&& now.arms[i].last_seen_ns == was.arms[i].last_seen_ns
                    &&& now.arms[i].samples == (if was.arms[i].who == p && was.arms[i].samples.len()
                        < 4096 {
                        was.arms[i].samples.push(lead_ns)
                    } else {
                        was.arms[i].samples
                    })
                }
            &&& now.arms.len() > was.arms.len() <==> forall|i: int|
                0 <= i < was.arms.len() ==> (#[trigger] was.arms[i]).who != p
            &&& now.arms.len() > was.arms.len() ==> now.arms.last().who == p
                && now.arms.last().samples == seq![lead_ns] && now.arms.last().last_seen_ns == 0
        }),
{
    law_ordinals_are_given_in_order(v, s, p);
    let known = v.registered(s, p);
    let had = v.eligible_arms(s);
    let has = known.eligible_arms(s);
    if had.contains(p) {
        assert(has[had.index_of(p)] == p);
    } else {
        assert(has[had.len() as int] == p);
    }
    assert(known.ordinal(s, p) is Some);
    let was = v.scopes[s];
    let w = v.lead_observed(s, p, lead_ns);
    assert(w.scopes.dom() =~= v.scopes.dom());
    if is_arm(was.arms, p) {
        let i = choose|i: int| 0 <= i < was.arms.len() && (#[trigger] was.arms[i]).who == p;
        assert(arm_or_new(was.arms, p) == was.arms[i]);
        assert forall|j: int| 0 <= j < was.arms.len() implies (#[trigger] w.scopes[s].arms[j]).who
            == was.arms[j].who by {
            assert(was.arms[j].who == p ==> j == i);
        }
    } else {
        assert forall|j: int| 0 <= j < was.arms.len() implies #[trigger] w.scopes[s].arms[j]
            == was.arms[j] by {
            assert(was.arms[j].who != p);
        }
        assert(w.scopes[s].arms.last().samples =~= seq![lead_ns]);
    }
}

/// A lead in a universe without a leader is no evidence.
pub proof fn law_no_evidence_before_a_leader(v: AuthorityView, s: ScopeId, p: Publisher, lead_ns: i64)
    requires
        !v.scopes.contains_key(s),
    ensures
        v.lead_observed(s, p, lead_ns).scopes == v.scopes,
{
}

/// A universe handed over by name: the new leader, the same arms as last heard from, no evidence left,
/// and a window that opens then.
pub proof fn law_a_handover_starts_over(s: ScopeView, to: Publisher, at_ns: u64)
    ensures
        ({
            let now = s.taken_by(to, at_ns);
            &&& now.leader == to
            &&& now.window_opened_ns == at_ns
            &&& now.arms.len() == s.arms.len()
            &&& forall|i: int|
                0 <= i < s.arms.len() ==> (#[trigger] now.arms[i]).who == s.arms[i].who
                    && now.arms[i].last_seen_ns == s.arms[i].last_seen_ns
                    && now.arms[i].samples.len() == 0
        }),
{
}

/// The markets counted for an arm in a venue are those recorded there that it serves.
pub proof fn law_an_arm_holds_what_it_serves(
    v: AuthorityView,
    venue: Seq<char>,
    p: Publisher,
    k: MarketId,
)
    ensures
        v.served_by(venue, p).contains(k) <==> v.markets.contains_key(k) && k.scope.0 == venue
            && v.serving(k) == Some(p),
        v.known_in(venue, p) <== exists|s: ScopeId, i: int|
            v.scopes.contains_key(s) && s.0 == venue && 0 <= i < v.scopes[s].arms.len() && (
            #[trigger] v.scopes[s].arms[i]).who == p,
        v.known_in(venue, p) ==> v.served_by(venue, p).len() > 0 || exists|s: ScopeId, i: int|
            v.scopes.contains_key(s) && s.0 == venue && 0 <= i < v.scopes[s].arms.len() && (
            #[trigger] v.scopes[s].arms[i]).who == p,
{
    if v.recorded_in(venue, p) {
        let s = choose|s: ScopeId| #[trigger]
            v.scopes.contains_key(s) && s.0 == venue && is_arm(v.scopes[s].arms, p);
        let i = choose|i: int| 0 <= i < v.scopes[s].arms.len() && (#[trigger] v.scopes[s].arms[i]).who == p;
        assert(v.scopes[s].arms[i].who == p);
    }
    if exists|s: ScopeId, i: int|
        v.scopes.contains_key(s) && s.0 == venue && 0 <= i < v.scopes[s].arms.len() && (
        #[trigger] v.scopes[s].arms[i]).who == p {
        let (s, i) = choose|s: ScopeId, i: int|
            v.scopes.contains_key(s) && s.0 == venue && 0 <= i < v.scopes[s].arms.len() && (
            #[trigger] v.scopes[s].arms[i]).who == p;
        assert(is_arm(v.scopes[s].arms, p));
        assert(v.recorded_in(venue, p));
    }
}

/// The time from one moment to another is what has to be added to the first to reach the second, and
/// none if the second is not later.
pub proof fn law_elapsed_is_what_has_passed(from: u64, to: u64)
    ensures
        from <= to ==> from + elapsed(from, to) == to,
        from >= to ==> elapsed(from, to) == 0,
{
}

} // verus!
