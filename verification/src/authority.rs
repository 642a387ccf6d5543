//! Single-arm authority for universes whose redundant publishers have no comparable clock.
//!
//! Exactly one arm is authoritative and its stream is published; the others are ingested and
//! discarded. Speed and silence are properties of an arm and are judged over its whole universe;
//! health is per market, and is an override computed from health and the leader rather than stored,
//! so it reverts on its own when the leader's book recovers.
//!
//! Only arms that hold an ordinal are eligible: past [`MAX_LABELLED_ARMS`] a publisher is neither
//! recorded nor ever elected.

use crate::floor::{elapsed, elapsed_ns, Admit};
use crate::model::{MarketId, MarketKey, Publisher, ScopeId, ScopeKey};
use crate::recent::{ids, lemma_ids_push};
use crate::table::{mix, mix_spec, str_code, text_code, views, Key, Table};
use std::collections::VecDeque;
use vstd::prelude::*;

verus! {

broadcast use crate::table::group_views;

/// Cap on distinct arms per universe, and with it on which arms are eligible.
pub const MAX_LABELLED_ARMS: usize = 8;

/// Cap on markets whose state is retained, least recently inserted forgotten first.
pub const MAX_TRACKED_MARKETS: usize = 65_536;

/// Cap on matched-lead samples retained per arm per window.
pub const MAX_WINDOW_SAMPLES: usize = 4096;

/// Win rates count parts per million.
pub const WIN_RATE_SCALE: u64 = 1_000_000;

/// Tunables for [`StickyAuthority`].
#[derive(Debug, Clone, Copy)]
pub struct AuthorityConfig {
    pub leader_timeout_ns: u64,
    pub sample_interval_ns: u64,
    /// The challenger must beat the leader by at least this much on median to transfer.
    pub transfer_margin_ns: u64,
    /// ...and lead in at least this fraction of its own matched samples, in parts per million.
    pub transfer_win_rate_ppm: u32,
    /// Matched samples an arm needs before its window is judged at all.
    pub min_window_samples: usize,
}

impl AuthorityConfig {
    /// The tunables of an authority that was given none.
    pub open spec fn defaults() -> Self {
        AuthorityConfig {
            leader_timeout_ns: 2_000_000_000,
            sample_interval_ns: 300_000_000_000,
            transfer_margin_ns: 1_000_000,
            transfer_win_rate_ppm: 800_000,
            min_window_samples: 32,
        }
    }
}

impl Default for AuthorityConfig {
    fn default() -> (r: Self)
        ensures
            r == AuthorityConfig::defaults(),
    {
        AuthorityConfig {
            leader_timeout_ns: 2_000_000_000,
            sample_interval_ns: 300_000_000_000,
            transfer_margin_ns: 1_000_000,
            transfer_win_rate_ppm: 800_000,
            min_window_samples: 32,
        }
    }
}

/// One arm of a universe.
#[verifier::ext_equal]
pub struct ArmView {
    pub who: Publisher,
    /// Arrival of this arm's most recent message anywhere in the universe.
    pub last_seen_ns: u64,
    /// Signed matched leads of the open window: negative when this arm beat the leader.
    pub samples: Seq<i64>,
}

/// One universe: who leads, the arms in order of first sight, and when the window opened.
#[verifier::ext_equal]
pub struct ScopeView {
    pub leader: Publisher,
    pub arms: Seq<ArmView>,
    pub window_opened_ns: u64,
}

/// One market: the arms known unhealthy there, and who was last published for it.
#[verifier::ext_equal]
pub struct MarketView {
    pub unhealthy: Set<Publisher>,
    pub last_admitted: Option<Publisher>,
}

/// What a [`StickyAuthority`] holds.
#[verifier::ext_equal]
pub struct AuthorityView {
    pub cfg: AuthorityConfig,
    pub scopes: Map<ScopeId, ScopeView>,
    pub markets: Map<MarketId, MarketView>,
    /// The markets in order of insertion; a forgotten market leaves its place behind, empty.
    pub market_order: Seq<Option<MarketId>>,
    /// The eligible arms of each universe, in order of registration.
    pub ordinals: Map<ScopeId, Seq<Publisher>>,
}

/// No market has two places.
pub open spec fn one_place_each(order: Seq<Option<MarketId>>) -> bool {
    forall|i: int, j: int|
        0 <= i < j < order.len() && (#[trigger] order[i]) is Some ==> order[i] != (
        #[trigger] order[j])
}

/// The places of the markets `gone` emptied.
pub open spec fn emptied(order: Seq<Option<MarketId>>, gone: Set<MarketId>) -> Seq<Option<MarketId>> {
    Seq::new(
        order.len(),
        |i: int|
            if order[i] is Some && gone.contains(order[i]->0) {
                None
            } else {
                order[i]
            },
    )
}

/// The markets without the one whose place this is, if it is anyone's.
pub open spec fn vacated(markets: Map<MarketId, MarketView>, place: Option<MarketId>) -> Map<
    MarketId,
    MarketView,
> {
    match place {
        Some(k) => markets.remove(k),
        None => markets,
    }
}

pub open spec fn is_arm(arms: Seq<ArmView>, p: Publisher) -> bool {
    exists|i: int| 0 <= i < arms.len() && (#[trigger] arms[i]).who == p
}

pub open spec fn distinct_arms(arms: Seq<ArmView>) -> bool {
    forall|i: int, j: int|
        0 <= i < arms.len() && 0 <= j < arms.len() && (#[trigger] arms[i]).who == (
        #[trigger] arms[j]).who ==> i == j
}

/// `p`'s entry, or that of an arm that has said nothing.
pub open spec fn arm_or_new(arms: Seq<ArmView>, p: Publisher) -> ArmView {
    if is_arm(arms, p) {
        arms[choose|i: int| 0 <= i < arms.len() && (#[trigger] arms[i]).who == p]
    } else {
        ArmView { who: p, last_seen_ns: 0, samples: Seq::empty() }
    }
}

/// `arm` in place of its publisher's entry, or behind the others if it has none.
pub open spec fn with_arm(arms: Seq<ArmView>, arm: ArmView) -> Seq<ArmView> {
    if is_arm(arms, arm.who) {
        Seq::new(
            arms.len(),
            |i: int|
                if arms[i].who == arm.who {
                    arm
                } else {
                    arms[i]
                },
        )
    } else {
        arms.push(arm)
    }
}

/// The arms with the open window's evidence forgotten.
pub open spec fn without_samples(arms: Seq<ArmView>) -> Seq<ArmView> {
    Seq::new(arms.len(), |i: int| ArmView { samples: Seq::empty(), ..arms[i] })
}

/// In how many of the samples the arm beat the leader.
pub open spec fn wins(samples: Seq<i64>) -> nat
    decreases samples.len(),
{
    if samples.len() == 0 {
        0
    } else {
        wins(samples.drop_last()) + if samples.last() < 0 {
            1nat
        } else {
            0
        }
    }
}

/// The leads in order of size.
pub open spec fn sorted(samples: Seq<i64>) -> Seq<i64> {
    samples.sort_by(|a: i64, b: i64| a <= b)
}

/// The middle lead by size, the upper one of two.
pub open spec fn median(samples: Seq<i64>) -> i64 {
    sorted(samples)[samples.len() as int / 2]
}

/// The margin as a signed number, the largest one where it does not fit.
pub open spec fn signed_margin(cfg: AuthorityConfig) -> i64 {
    if cfg.transfer_margin_ns <= i64::MAX {
        cfg.transfer_margin_ns as i64
    } else {
        i64::MAX
    }
}

/// An arm with enough evidence, and every condition on it cleared.
pub open spec fn qualifies(arm: ArmView, leader: Publisher, cfg: AuthorityConfig) -> bool {
    &&& arm.who != leader
    &&& arm.samples.len() >= 1
    &&& arm.samples.len() >= cfg.min_window_samples
    &&& wins(arm.samples) * WIN_RATE_SCALE >= cfg.transfer_win_rate_ppm * arm.samples.len()
    &&& median(arm.samples) <= -signed_margin(cfg)
}

/// Of the first `n` arms, the qualifying one with the smallest median lead, the first of equals.
pub open spec fn best_challenger_spec(
    arms: Seq<ArmView>,
    n: int,
    leader: Publisher,
    cfg: AuthorityConfig,
) -> Option<ArmView>
    decreases n,
{
    if n <= 0 {
        None
    } else {
        let before = best_challenger_spec(arms, n - 1, leader, cfg);
        let arm = arms[n - 1];
        if qualifies(arm, leader, cfg) && (before is None || median(arm.samples) < median(
            before->0.samples,
        )) {
            Some(arm)
        } else {
            before
        }
    }
}

impl ScopeView {
    /// The universe handed to `leader`. Evidence was measured against the outgoing leader, so a
    /// handover starts a new window.
    pub open spec fn taken_by(self, leader: Publisher, at_ns: u64) -> Self {
        ScopeView { leader, arms: without_samples(self.arms), window_opened_ns: at_ns }
    }

    /// Who wins the open window.
    pub open spec fn winner(self, cfg: AuthorityConfig) -> Option<Publisher> {
        match best_challenger_spec(self.arms, self.arms.len() as int, self.leader, cfg) {
            Some(arm) => Some(arm.who),
            None => None,
        }
    }

    /// The window is old enough to be judged.
    pub open spec fn due(self, cfg: AuthorityConfig, now_ns: u64) -> bool {
        elapsed(self.window_opened_ns, now_ns) >= cfg.sample_interval_ns
    }

    /// The universe after its window is closed, if it is due.
    pub open spec fn closed_at(self, cfg: AuthorityConfig, now_ns: u64) -> Self {
        if self.due(cfg, now_ns) {
            self.taken_by(
                match self.winner(cfg) {
                    Some(p) => p,
                    None => self.leader,
                },
                now_ns,
            )
        } else {
            self
        }
    }
}

impl AuthorityView {
    /// An authority that has heard nothing yet.
    pub open spec fn fresh(cfg: AuthorityConfig) -> Self {
        AuthorityView {
            cfg,
            scopes: Map::empty(),
            markets: Map::empty(),
            market_order: Seq::empty(),
            ordinals: Map::empty(),
        }
    }

    pub open spec fn wf(self) -> bool {
        &&& forall|s: ScopeId| #[trigger]
            self.ordinals.contains_key(s) ==> self.ordinals[s].no_duplicates()
                && self.ordinals[s].len() <= MAX_LABELLED_ARMS
        &&& forall|s: ScopeId| #[trigger]
            self.scopes.contains_key(s) ==> {
                &&& distinct_arms(self.scopes[s].arms)
                &&& self.scopes[s].arms.len() <= MAX_LABELLED_ARMS
                &&& forall|i: int|
                    0 <= i < self.scopes[s].arms.len() ==> self.eligible_arms(s).contains(
                        (#[trigger] self.scopes[s].arms[i]).who,
                    ) && self.scopes[s].arms[i].samples.len() <= MAX_WINDOW_SAMPLES
            }
        &&& forall|k: MarketId| #[trigger]
            self.markets.contains_key(k) <==> self.market_order.contains(Some(k))
        &&& one_place_each(self.market_order)
        &&& self.market_order.len() <= MAX_TRACKED_MARKETS
    }

    /// The arms of a universe that hold an ordinal, in order of registration.
    pub open spec fn eligible_arms(self, s: ScopeId) -> Seq<Publisher> {
        if self.ordinals.contains_key(s) {
            self.ordinals[s]
        } else {
            Seq::empty()
        }
    }

    /// An arm's ordinal; `None` if it holds none.
    pub open spec fn ordinal(self, s: ScopeId, p: Publisher) -> Option<int> {
        if self.eligible_arms(s).contains(p) {
            Some(self.eligible_arms(s).index_of(p))
        } else {
            None
        }
    }

    /// `p` given the next ordinal of the universe if it holds none and one is left.
    pub open spec fn registered(self, s: ScopeId, p: Publisher) -> Self {
        let arms = self.eligible_arms(s);
        if arms.contains(p) || arms.len() >= MAX_LABELLED_ARMS {
            self
        } else {
            AuthorityView { ordinals: self.ordinals.insert(s, arms.push(p)), ..self }
        }
    }

    /// The ordinal that `p` is given when it is registered; `None` if it holds one or none is left.
    pub open spec fn next_ordinal(self, s: ScopeId, p: Publisher) -> Option<usize> {
        let arms = self.eligible_arms(s);
        if arms.contains(p) || arms.len() >= MAX_LABELLED_ARMS {
            None
        } else {
            Some(arms.len() as usize)
        }
    }

    pub open spec fn market_or_new(self, k: MarketId) -> MarketView {
        if self.markets.contains_key(k) {
            self.markets[k]
        } else {
            MarketView { unhealthy: Set::empty(), last_admitted: None }
        }
    }

    /// `m` recorded for `k`; if no place is left, a new market takes the oldest, and the market whose
    /// place that is, if it is still anyone's, goes.
    pub open spec fn with_market(self, k: MarketId, m: MarketView) -> Self {
        if self.markets.contains_key(k) {
            AuthorityView { markets: self.markets.insert(k, m), ..self }
        } else if self.market_order.len() >= MAX_TRACKED_MARKETS {
            AuthorityView {
                markets: vacated(self.markets, self.market_order[0]).insert(k, m),
                market_order: self.market_order.drop_first().push(Some(k)),
                ..self
            }
        } else {
            AuthorityView {
                markets: self.markets.insert(k, m),
                market_order: self.market_order.push(Some(k)),
                ..self
            }
        }
    }

    /// The markets `gone` dropped; their places stay, empty.
    pub open spec fn forgotten(self, gone: Set<MarketId>) -> Self {
        AuthorityView {
            markets: self.markets.remove_keys(gone),
            market_order: emptied(self.market_order, gone),
            ..self
        }
    }

    pub open spec fn is_healthy(self, k: MarketId, p: Publisher) -> bool {
        !self.markets.contains_key(k) || !self.markets[k].unhealthy.contains(p)
    }

    /// `a` is preferred to `b` as a stand-in: heard from later, or at the same time with the higher
    /// ordinal.
    pub open spec fn preferred(self, s: ScopeId, a: ArmView, b: ArmView) -> bool {
        a.last_seen_ns > b.last_seen_ns || (a.last_seen_ns == b.last_seen_ns
            && self.eligible_arms(s).index_of(a.who) >= self.eligible_arms(s).index_of(b.who))
    }

    /// Of the first `n` arms, the preferred one that is healthy at `k` and does not lead.
    pub open spec fn stand_in(self, k: MarketId, n: int) -> Option<ArmView>
        decreases n,
    {
        if n <= 0 {
            None
        } else {
            let s = self.scopes[k.scope];
            let before = self.stand_in(k, n - 1);
            let arm = s.arms[n - 1];
            if arm.who != s.leader && self.is_healthy(k, arm.who) && (before is None
                || self.preferred(k.scope, arm, before->0)) {
                Some(arm)
            } else {
                before
            }
        }
    }

    /// The arm serving one market: the leader, or a healthy arm standing in for it while the leader's
    /// book there is not healthy.
    pub open spec fn serving(self, k: MarketId) -> Option<Publisher> {
        if !self.scopes.contains_key(k.scope) {
            None
        } else {
            let s = self.scopes[k.scope];
            if self.is_healthy(k, s.leader) {
                Some(s.leader)
            } else {
                match self.stand_in(k, s.arms.len() as int) {
                    Some(arm) => Some(arm.who),
                    None => Some(s.leader),
                }
            }
        }
    }

    /// The universe `s` after a message from `p`: `p` was heard from, and takes over from a leader
    /// that has been silent for longer than the timeout.
    pub open spec fn heard(self, s: ScopeId, p: Publisher, arrival_ns: u64) -> ScopeView {
        if !self.scopes.contains_key(s) {
            ScopeView {
                leader: p,
                arms: seq![ArmView { who: p, last_seen_ns: arrival_ns, samples: Seq::empty() }],
                window_opened_ns: arrival_ns,
            }
        } else {
            let was = self.scopes[s];
            let now = ScopeView {
                arms: with_arm(
                    was.arms,
                    ArmView { last_seen_ns: arrival_ns, ..arm_or_new(was.arms, p) },
                ),
                ..was
            };
            let leader_last = arm_or_new(now.arms, was.leader).last_seen_ns;
            if was.leader != p && elapsed(leader_last, arrival_ns) > self.cfg.leader_timeout_ns {
                now.taken_by(p, arrival_ns)
            } else {
                now
            }
        }
    }

    /// The decision for one message from `p` on `k`, and the state afterwards.
    pub open spec fn offered(self, k: MarketId, p: Publisher, arrival_ns: u64) -> (
        Self,
        Admit<Publisher>,
    ) {
        let known = self.registered(k.scope, p);
        if known.ordinal(k.scope, p) is None {
            (known, Admit::Dropped)
        } else {
            let now = AuthorityView {
                scopes: known.scopes.insert(k.scope, known.heard(k.scope, p, arrival_ns)),
                ..known
            };
            if !self.scopes.contains_key(k.scope) {
                (
                    now.with_market(
                        k,
                        MarketView { last_admitted: Some(p), ..now.market_or_new(k) },
                    ),
                    Admit::Emitted { opened_tick: true },
                )
            } else if now.serving(k) != Some(p) {
                (now, Admit::Dropped)
            } else {
                (
                    now.with_market(
                        k,
                        MarketView { last_admitted: Some(p), ..now.market_or_new(k) },
                    ),
                    Admit::Emitted {
                        opened_tick: now.market_or_new(k).last_admitted != Some(p),
                    },
                )
            }
        }
    }

    /// An arm's health at a market recorded, if the arm is eligible.
    pub open spec fn health_set(self, k: MarketId, p: Publisher, healthy: bool) -> Self {
        let known = self.registered(k.scope, p);
        if known.ordinal(k.scope, p) is None {
            known
        } else {
            let m = known.market_or_new(k);
            known.with_market(
                k,
                MarketView {
                    unhealthy: if healthy {
                        m.unhealthy.remove(p)
                    } else {
                        m.unhealthy.insert(p)
                    },
                    ..m
                },
            )
        }
    }

    /// One matched lead recorded for a challenger of a universe that has a leader.
    pub open spec fn lead_observed(self, s: ScopeId, p: Publisher, lead_ns: i64) -> Self {
        let known = self.registered(s, p);
        if known.ordinal(s, p) is None || !known.scopes.contains_key(s) || known.scopes[s].leader == p {
            known
        } else {
            let was = known.scopes[s];
            let arm = arm_or_new(was.arms, p);
            let arm = if arm.samples.len() < MAX_WINDOW_SAMPLES {
                ArmView { samples: arm.samples.push(lead_ns), ..arm }
            } else {
                arm
            };
            AuthorityView {
                scopes: known.scopes.insert(s, ScopeView { arms: with_arm(was.arms, arm), ..was }),
                ..known
            }
        }
    }

    /// `p` is recorded in some universe of the venue.
    pub open spec fn recorded_in(self, venue: Seq<char>, p: Publisher) -> bool {
        exists|s: ScopeId| #[trigger]
            self.scopes.contains_key(s) && s.0 == venue && is_arm(self.scopes[s].arms, p)
    }

    /// The markets of the venue that `p` serves.
    pub open spec fn served_by(self, venue: Seq<char>, p: Publisher) -> Set<MarketId> {
        Set::new(
            |k: MarketId|
                self.markets.contains_key(k) && k.scope.0 == venue && self.serving(k) == Some(p),
        )
    }

    /// `p` is recorded in some universe of the venue, or serves a market there.
    pub open spec fn known_in(self, venue: Seq<char>, p: Publisher) -> bool {
        self.recorded_in(venue, p) || self.served_by(venue, p).len() > 0
    }

    /// Every due window closed.
    pub open spec fn windows_closed(self, now_ns: u64) -> Self {
        AuthorityView {
            scopes: Map::new(
                |s: ScopeId| self.scopes.contains_key(s),
                |s: ScopeId| self.scopes[s].closed_at(self.cfg, now_ns),
            ),
            ..self
        }
    }
}

/// `r` lists each universe whose window is due and has a winner, once, with that winner.
pub open spec fn reports_moves(v: AuthorityView, now_ns: u64, r: Seq<(ScopeKey, Publisher)>) -> bool {
    &&& forall|i: int|
        0 <= i < r.len() ==> {
            let s = (#[trigger] r[i]).0.id();
            &&& v.scopes.contains_key(s)
            &&& v.scopes[s].due(v.cfg, now_ns)
            &&& v.scopes[s].winner(v.cfg) == Some(r[i].1)
        }
    &&& forall|i: int, j: int|
        0 <= i < j < r.len() ==> (#[trigger] r[i]).0.id() != (#[trigger] r[j]).0.id()
    &&& forall|s: ScopeId| #[trigger]
        v.scopes.contains_key(s) && v.scopes[s].due(v.cfg, now_ns) && v.scopes[s].winner(v.cfg) is Some
            ==> exists|i: int| 0 <= i < r.len() && (#[trigger] r[i]).0.id() == s
}

/// `r` lists each arm known in a venue, once, with how many markets it serves there.
pub open spec fn reports_held(v: AuthorityView, r: Seq<(String, Publisher, usize)>) -> bool {
    &&& forall|i: int|
        0 <= i < r.len() ==> {
            let (venue, p, n) = #[trigger] r[i];
            &&& v.known_in(venue@, p)
            &&& n == v.served_by(venue@, p).len()
        }
    &&& forall|i: int, j: int|
        0 <= i < j < r.len() ==> ((#[trigger] r[i]).0@, r[i].1) != ((#[trigger] r[j]).0@, r[j].1)
    &&& forall|venue: Seq<char>, p: Publisher| #[trigger]
        v.known_in(venue, p) ==> exists|i: int|
            0 <= i < r.len() && (#[trigger] r[i]).0@ == venue && r[i].1 == p
}

/// `p` holds an ordinal in the universe `s` of `venue`.
pub open spec fn registered_under(
    v: AuthorityView,
    s: ScopeId,
    venue: Seq<char>,
    p: Publisher,
) -> bool {
    v.ordinals.contains_key(s) && s.0 == venue && v.ordinals[s].contains(p)
}

/// `label` is that of `p` in some universe of the venue where it holds an ordinal, `"other"` if there
/// is none.
pub open spec fn labels_in_venue(
    v: AuthorityView,
    venue: Seq<char>,
    p: Publisher,
    label: Seq<char>,
) -> bool {
    if exists|s: ScopeId| registered_under(v, s, venue, p) {
        exists|s: ScopeId|
            registered_under(v, s, venue, p) && label == label_text(v.ordinal(s, p))
    } else {
        label == "other"@
    }
}

struct Arm {
    who: Publisher,
    last_seen_ns: u64,
    samples: Vec<i64>,
}

impl View for Arm {
    type V = ArmView;

    closed spec fn view(&self) -> ArmView {
        ArmView { who: self.who, last_seen_ns: self.last_seen_ns, samples: self.samples@ }
    }
}

struct ScopeState {
    leader: Publisher,
    arms: Vec<Arm>,
    window_opened_ns: u64,
}

impl View for ScopeState {
    type V = ScopeView;

    closed spec fn view(&self) -> ScopeView {
        ScopeView {
            leader: self.leader,
            arms: Seq::new(self.arms@.len(), |i: int| self.arms@[i]@),
            window_opened_ns: self.window_opened_ns,
        }
    }
}

impl ScopeState {
    /// The position of `p`'s entry.
    fn position(&self, p: Publisher) -> (r: Option<usize>)
        requires
            distinct_arms(self@.arms),
        ensures
            match r {
                Some(i) => i < self@.arms.len() && self@.arms[i as int].who == p && is_arm(
                    self@.arms,
                    p,
                ) && arm_or_new(self@.arms, p) == self@.arms[i as int],
                None => !is_arm(self@.arms, p),
            },
    {
        let mut i: usize = 0;
        while i < self.arms.len()
            invariant
                distinct_arms(self@.arms),
                i <= self.arms@.len(),
                forall|j: int| 0 <= j < i ==> (#[trigger] self@.arms[j]).who != p,
            decreases self.arms@.len() - i,
        {
            assert(self@.arms[i as int] == self.arms@[i as int]@);
            if self.arms[i].who == p {
                return Some(i);
            }
            i += 1;
        }
        None
    }

    /// When the leader was last heard from; zero if it never was.
    fn leader_last_seen(&self) -> (r: u64)
        requires
            distinct_arms(self@.arms),
        ensures
            r == arm_or_new(self@.arms, self@.leader).last_seen_ns,
    {
        match self.position(self.leader) {
            Some(i) => {
                assert(self@.arms[i as int] == self.arms@[i as int]@);
                self.arms[i].last_seen_ns
            },
            None => 0,
        }
    }

    /// Record that `p` was heard from.
    fn touch(&mut self, p: Publisher, arrival_ns: u64)
        requires
            distinct_arms(old(self)@.arms),
        ensures
            final(self)@ == (ScopeView {
                arms: with_arm(
                    old(self)@.arms,
                    ArmView { last_seen_ns: arrival_ns, ..arm_or_new(old(self)@.arms, p) },
                ),
                ..old(self)@
            }),
    {
        let ghost was = self@;
        let ghost now = ArmView { last_seen_ns: arrival_ns, ..arm_or_new(was.arms, p) };
        match self.position(p) {
            Some(i) => {
                let arm = &mut self.arms[i];
                arm.last_seen_ns = arrival_ns;
                assert forall|j: int| 0 <= j < was.arms.len() && j != i implies (
                #[trigger] was.arms[j]).who != p by {}
                assert(self@.arms =~= with_arm(was.arms, now));
            },
            None => {
                self.arms.push(Arm { who: p, last_seen_ns: arrival_ns, samples: Vec::new() });
                assert(self.arms@[was.arms.len() as int]@.samples =~= Seq::empty());
                assert(self@.arms =~= with_arm(was.arms, now));
            },
        }
    }

    /// Record one matched lead of `p`.
    fn sample(&mut self, p: Publisher, lead_ns: i64)
        requires
            distinct_arms(old(self)@.arms),
        ensures
            ({
                let arm = arm_or_new(old(self)@.arms, p);
                let arm = if arm.samples.len() < MAX_WINDOW_SAMPLES {
                    ArmView { samples: arm.samples.push(lead_ns), ..arm }
                } else {
                    arm
                };
                final(self)@ == (ScopeView { arms: with_arm(old(self)@.arms, arm), ..old(self)@ })
            }),
    {
        let ghost was = self@;
        let ghost arm0 = arm_or_new(was.arms, p);
        let ghost now = if arm0.samples.len() < MAX_WINDOW_SAMPLES {
            ArmView { samples: arm0.samples.push(lead_ns), ..arm0 }
        } else {
            arm0
        };
        match self.position(p) {
            Some(i) => {
                assert(self@.arms[i as int] == self.arms@[i as int]@);
                assert forall|j: int| 0 <= j < was.arms.len() && j != i implies (
                #[trigger] was.arms[j]).who != p by {}
                if self.arms[i].samples.len() < MAX_WINDOW_SAMPLES {
                    let arm = &mut self.arms[i];
                    arm.samples.push(lead_ns);
                }
                assert(self@.arms =~= with_arm(was.arms, now));
            },
            None => {
                let mut samples: Vec<i64> = Vec::new();
                samples.push(lead_ns);
                self.arms.push(Arm { who: p, last_seen_ns: 0, samples });
                assert(self.arms@[was.arms.len() as int]@.samples =~= Seq::empty().push(lead_ns));
                assert(self@.arms =~= with_arm(was.arms, now));
            },
        }
    }

    /// Hand the universe to `leader`, starting a new window.
    fn take_authority(&mut self, leader: Publisher, at_ns: u64)
        ensures
            final(self)@ == old(self)@.taken_by(leader, at_ns),
    {
        let ghost was = self@;
        self.leader = leader;
        self.window_opened_ns = at_ns;
        let n: usize = self.arms.len();
        let mut i: usize = 0;
        while i < n
            invariant
                n == self.arms@.len(),
                n == was.arms.len(),
                i <= n,
                self.leader == leader,
                self.window_opened_ns == at_ns,
                forall|j: int|
                    0 <= j < i ==> (#[trigger] self.arms@[j])@ == (ArmView {
                        samples: Seq::empty(),
                        ..was.arms[j]
                    }),
                forall|j: int| i <= j < n ==> (#[trigger] self.arms@[j])@ == was.arms[j],
            decreases n - i,
        {
            let arm = &mut self.arms[i];
            arm.samples = Vec::new();
            assert(self.arms@[i as int]@.samples =~= Seq::empty());
            i += 1;
        }
        assert(self@.arms =~= without_samples(was.arms));
    }

    /// Who wins the open window.
    fn best_challenger(&self, cfg: &AuthorityConfig) -> (r: Option<Publisher>)
        requires
            forall|i: int|
                0 <= i < self@.arms.len() ==> (#[trigger] self@.arms[i]).samples.len()
                    <= MAX_WINDOW_SAMPLES,
        ensures
            r == self@.winner(*cfg),
    {
        let margin: i64 = if cfg.transfer_margin_ns <= i64::MAX as u64 {
            cfg.transfer_margin_ns as i64
        } else {
            i64::MAX
        };
        let mut best: Option<(Publisher, i64)> = None;
        let mut i: usize = 0;
        while i < self.arms.len()
            invariant
                i <= self.arms@.len(),
                margin == signed_margin(*cfg),
                forall|i: int|
                    0 <= i < self@.arms.len() ==> (#[trigger] self@.arms[i]).samples.len()
                        <= MAX_WINDOW_SAMPLES,
                match best_challenger_spec(self@.arms, i as int, self.leader, *cfg) {
                    Some(arm) => best == Some((arm.who, median(arm.samples))),
                    None => best is None,
                },
            decreases self.arms@.len() - i,
        {
            let arm = &self.arms[i];
            assert(self@.arms[i as int] == arm@);
            let n: usize = arm.samples.len();
            if arm.who != self.leader && n >= 1 && n >= cfg.min_window_samples {
                let won: usize = count_wins(&arm.samples);
                proof {
                    lemma_wins_le(arm.samples@);
                    assert(won * 1_000_000 <= 4096 * 1_000_000) by (nonlinear_arith)
                        requires
                            won <= 4096,
                    ;
                    assert(cfg.transfer_win_rate_ppm * n <= u32::MAX * 4096) by (nonlinear_arith)
                        requires
                            n <= 4096,
                            cfg.transfer_win_rate_ppm <= u32::MAX,
                    ;
                }
                let have: u64 = won as u64 * WIN_RATE_SCALE;
                let need: u64 = cfg.transfer_win_rate_ppm as u64 * n as u64;
                let mid: i64 = middle(&arm.samples);
                if have >= need && mid <= -margin {
                    let better: bool = match best {
                        None => true,
                        Some((_, m)) => mid < m,
                    };
                    if better {
                        best = Some((arm.who, mid));
                    }
                }
            }
            i += 1;
        }
        match best {
            Some((p, _)) => Some(p),
            None => None,
        }
    }
}

fn count_wins(samples: &Vec<i64>) -> (r: usize)
    ensures
        r == wins(samples@),
{
    let mut n: usize = 0;
    let mut i: usize = 0;
    while i < samples.len()
        invariant
            i <= samples@.len(),
            n <= i,
            n == wins(samples@.take(i as int)),
        decreases samples@.len() - i,
    {
        assert(samples@.take(i as int + 1).drop_last() =~= samples@.take(i as int));
        if samples[i] < 0 {
            n += 1;
        }
        i += 1;
    }
    assert(samples@.take(i as int) =~= samples@);
    n
}

proof fn lemma_wins_le(samples: Seq<i64>)
    ensures
        wins(samples) <= samples.len(),
    decreases samples.len(),
{
    if samples.len() > 0 {
        lemma_wins_le(samples.drop_last());
    }
}

/// The middle lead by size, the upper one of two.
fn middle(samples: &Vec<i64>) -> (r: i64)
    requires
        samples@.len() > 0,
    ensures
        r == median(samples@),
{
    let leads = insertion_sorted(samples);
    proof {
        let leq = |a: i64, b: i64| a <= b;
        samples@.lemma_sort_by_ensures(leq);
        assert(vstd::relations::sorted_by(leads@, leq));
        vstd::seq_lib::lemma_sorted_unique(leads@, sorted(samples@), leq);
        assert(leads@.len() == samples@.len()) by {
            broadcast use vstd::seq_lib::group_to_multiset_ensures;

            assert(leads@.to_multiset().len() == samples@.to_multiset().len());
        }
    }
    leads[samples.len() / 2]
}

/// The leads in order of size.
fn insertion_sorted(samples: &Vec<i64>) -> (r: Vec<i64>)
    ensures
        r@.to_multiset() == samples@.to_multiset(),
        forall|i: int, j: int| 0 <= i <= j < r@.len() ==> r@[i] <= r@[j],
{
    let mut out: Vec<i64> = Vec::new();
    let mut i: usize = 0;
    proof {
        assert(samples@.take(0) =~= out@);
    }
    while i < samples.len()
        invariant
            i <= samples@.len(),
            out@.len() == i,
            out@.to_multiset() == samples@.take(i as int).to_multiset(),
            forall|a: int, b: int| 0 <= a <= b < out@.len() ==> out@[a] <= out@[b],
        decreases samples@.len() - i,
    {
        let x: i64 = samples[i];
        let mut at: usize = out.len();
        while at > 0 && out[at - 1] > x
            invariant
                at <= out@.len(),
                forall|a: int| at <= a < out@.len() ==> out@[a] > x,
            decreases at,
        {
            at -= 1;
        }
        let ghost was = out@;
        out.insert(at, x);
        proof {
            broadcast use vstd::seq_lib::group_to_multiset_ensures;

            vstd::seq_lib::to_multiset_insert(was, at as int, x);
            assert(samples@.take(i as int + 1) =~= samples@.take(i as int).push(x));
        }
        i += 1;
    }
    assert(samples@.take(i as int) =~= samples@);
    out
}

struct MarketState {
    unhealthy: Vec<Publisher>,
    last_admitted: Option<Publisher>,
}

impl View for MarketState {
    type V = MarketView;

    closed spec fn view(&self) -> MarketView {
        MarketView {
            unhealthy: self.unhealthy@.to_set(),
            last_admitted: self.last_admitted,
        }
    }
}

impl MarketState {
    fn new() -> (r: Self)
        ensures
            r.unhealthy@.no_duplicates(),
            r@ == (MarketView { unhealthy: Set::empty(), last_admitted: None }),
    {
        let r = MarketState { unhealthy: Vec::new(), last_admitted: None };
        assert(r@.unhealthy =~= Set::empty());
        r
    }

    fn position(&self, p: Publisher) -> (r: Option<usize>)
        ensures
            match r {
                Some(i) => i < self.unhealthy@.len() && self.unhealthy@[i as int] == p
                    && self@.unhealthy.contains(p),
                None => !self@.unhealthy.contains(p),
            },
    {
        let mut i: usize = 0;
        while i < self.unhealthy.len()
            invariant
                i <= self.unhealthy@.len(),
                forall|j: int| 0 <= j < i ==> self.unhealthy@[j] != p,
            decreases self.unhealthy@.len() - i,
        {
            if self.unhealthy[i] == p {
                assert(self.unhealthy@.contains(p));
                return Some(i);
            }
            i += 1;
        }
        None
    }

    fn set_health(&mut self, p: Publisher, healthy: bool)
        requires
            old(self).unhealthy@.no_duplicates(),
        ensures
            final(self).unhealthy@.no_duplicates(),
            final(self)@ == (MarketView {
                unhealthy: if healthy {
                    old(self)@.unhealthy.remove(p)
                } else {
                    old(self)@.unhealthy.insert(p)
                },
                ..old(self)@
            }),
    {
        let ghost was = self.unhealthy@;
        match self.position(p) {
            Some(i) => {
                if healthy {
                    let _p = self.unhealthy.swap_remove(i);
                    proof {
                        let now = self.unhealthy@;
                        assert forall|q: Publisher| now.to_set().contains(q) == was.to_set().remove(
                            p,
                        ).contains(q) by {
                            if was.contains(q) && q != p {
                                let j = was.index_of(q);
                                if j == was.len() - 1 {
                                    assert(now[i as int] == q);
                                } else {
                                    assert(now[j] == q);
                                }
                            }
                            if now.contains(q) {
                                let j = now.index_of(q);
                                let k = if j == i {
                                    was.len() - 1
                                } else {
                                    j
                                };
                                assert(was[k] == q);
                            }
                        }
                        assert(self@.unhealthy =~= was.to_set().remove(p));
                    }
                } else {
                    assert(self@.unhealthy =~= was.to_set().insert(p));
                }
            },
            None => {
                if healthy {
                    assert(self@.unhealthy =~= was.to_set().remove(p));
                } else {
                    self.unhealthy.push(p);
                    proof {
                        let now = self.unhealthy@;
                        assert forall|q: Publisher| now.to_set().contains(q) == was.to_set().insert(
                            p,
                        ).contains(q) by {
                            if was.contains(q) {
                                let j = was.index_of(q);
                                assert(now[j] == q);
                            }
                            assert(now[was.len() as int] == p);
                        }
                        assert(self@.unhealthy =~= was.to_set().insert(p));
                    }
                }
            },
        }
    }
}

/// The text of an ordinal's label.
pub open spec fn label_text(ordinal: Option<int>) -> Seq<char> {
    match ordinal {
        Some(i) => if i == 0 {
            "arm0"@
        } else if i == 1 {
            "arm1"@
        } else if i == 2 {
            "arm2"@
        } else if i == 3 {
            "arm3"@
        } else if i == 4 {
            "arm4"@
        } else if i == 5 {
            "arm5"@
        } else if i == 6 {
            "arm6"@
        } else {
            "arm7"@
        },
        None => "other"@,
    }
}

/// The label of an ordinal, or that of an arm that holds none.
fn label_of(ordinal: Option<usize>) -> (r: &'static str)
    ensures
        r@ == label_text(
            match ordinal {
                Some(i) => Some(i as int),
                None => None,
            },
        ),
{
    match ordinal {
        Some(0) => "arm0",
        Some(1) => "arm1",
        Some(2) => "arm2",
        Some(3) => "arm3",
        Some(4) => "arm4",
        Some(5) => "arm5",
        Some(6) => "arm6",
        Some(_) => "arm7",
        None => "other",
    }
}

/// An ordinal as a mathematical number.
pub open spec fn as_int(r: Option<usize>) -> Option<int> {
    match r {
        Some(i) => Some(i as int),
        None => None,
    }
}

fn is_place_of(place: &Option<MarketKey>, key: &MarketKey) -> (r: bool)
    ensures
        r == (place_of(*place) == Some(key.id())),
{
    match place {
        Some(k) => k.same(key),
        None => false,
    }
}

/// Whose place it is.
spec fn place_of(place: Option<MarketKey>) -> Option<MarketId> {
    match place {
        Some(key) => Some(key.id()),
        None => None,
    }
}

spec fn places(order: Seq<Option<MarketKey>>) -> Seq<Option<MarketId>> {
    order.map_values(|place: Option<MarketKey>| place_of(place))
}

/// The single-arm authority.
pub struct StickyAuthority {
    cfg: AuthorityConfig,
    scopes: Table<ScopeKey, ScopeState>,
    markets: Table<MarketKey, MarketState>,
    market_order: VecDeque<Option<MarketKey>>,
    ordinals: Table<ScopeKey, Vec<Publisher>>,
}

impl View for StickyAuthority {
    type V = AuthorityView;

    closed spec fn view(&self) -> AuthorityView {
        AuthorityView {
            cfg: self.cfg,
            scopes: views(self.scopes@),
            markets: views(self.markets@),
            market_order: places(self.market_order@),
            ordinals: views(self.ordinals@),
        }
    }
}

impl StickyAuthority {
    spec fn tables_wf(&self) -> bool {
        &&& self.scopes.wf()
        &&& self.markets.wf()
        &&& self.ordinals.wf()
        &&& forall|k: MarketId| #[trigger]
            self.markets@.contains_key(k) ==> self.markets@[k].unhealthy@.no_duplicates()
    }

    pub closed spec fn wf(&self) -> bool {
        self.tables_wf() && self@.wf()
    }

    pub proof fn lemma_wf(&self)
        requires
            self.wf(),
        ensures
            self@.wf(),
    {
    }

    pub fn new(cfg: AuthorityConfig) -> (r: Self)
        ensures
            r.wf(),
            r@ == AuthorityView::fresh(cfg),
    {
        let r = StickyAuthority {
            cfg,
            scopes: Table::new(),
            markets: Table::new(),
            market_order: VecDeque::new(),
            ordinals: Table::new(),
        };
        assert(r@.market_order =~= Seq::empty());
        r
    }

    /// Re-apply the tunables, keeping every elected leader and health flag.
    pub fn set_config(&mut self, cfg: AuthorityConfig)
        requires
            old(self).wf(),
        ensures
            final(self).wf(),
            final(self)@ == (AuthorityView { cfg, ..old(self)@ }),
    {
        self.cfg = cfg;
    }

    /// The ordinal of an arm, registering it if it has none and one is left.
    pub fn register(&mut self, scope: &ScopeKey, publisher: Publisher) -> (r: Option<usize>)
        requires
            old(self).wf(),
        ensures
            final(self).wf(),
            final(self)@ == old(self)@.registered(scope.id(), publisher),
            as_int(r) == final(self)@.ordinal(scope.id(), publisher),
    {
        let ghost s = scope.id();
        let ghost was = self@;
        match self.ordinal_of(scope, publisher) {
            Some(i) => {
                return Some(i);
            },
            None => {},
        }
        match self.ordinals.find(scope) {
            Some(at) => {
                let n: usize = self.ordinals.value_at(at).len();
                assert(n == was.eligible_arms(s).len());
                if n >= MAX_LABELLED_ARMS {
                    return None;
                }
                let arms = self.ordinals.value_at_mut(at);
                arms.push(publisher);
                proof {
                    assert(self@.ordinals == was.ordinals.insert(s, was.ordinals[s].push(publisher)));
                    lemma_registered_wf(was, s, publisher);
                    assert(self@ == was.registered(s, publisher));
                    assert(self@.eligible_arms(s)[n as int] == publisher);
                }
                Some(n)
            },
            None => {
                let mut arms: Vec<Publisher> = Vec::new();
                arms.push(publisher);
                self.ordinals.insert(scope.dup(), arms);
                proof {
                    assert(arms@ =~= was.eligible_arms(s).push(publisher));
                    lemma_registered_wf(was, s, publisher);
                    assert(self@ == was.registered(s, publisher));
                    assert(self@.eligible_arms(s)[0] == publisher);
                }
                Some(0)
            },
        }
    }

    /// The ordinal that an arm is given when it is registered; `None` if it holds one or none is left.
    pub fn next_ordinal(&self, scope: &ScopeKey, publisher: Publisher) -> (r: Option<usize>)
        requires
            self.wf(),
        ensures
            r == self@.next_ordinal(scope.id(), publisher),
    {
        if self.ordinal_of(scope, publisher).is_some() {
            return None;
        }
        match self.ordinals.get(scope) {
            Some(arms) => {
                if arms.len() < MAX_LABELLED_ARMS {
                    Some(arms.len())
                } else {
                    None
                }
            },
            None => Some(0),
        }
    }

    /// The ordinal of an arm, registering nothing.
    fn ordinal_of(&self, scope: &ScopeKey, publisher: Publisher) -> (r: Option<usize>)
        requires
            self.wf(),
        ensures
            as_int(r) == self@.ordinal(scope.id(), publisher),
    {
        let ghost s = scope.id();
        match self.ordinals.get(scope) {
            None => None,
            Some(arms) => {
                assert(self@.eligible_arms(s) == arms@);
                let mut i: usize = 0;
                while i < arms.len()
                    invariant
                        self.wf(),
                        s == scope.id(),
                        self@.eligible_arms(s) == arms@,
                        arms@.no_duplicates(),
                        i <= arms@.len(),
                        forall|j: int| 0 <= j < i ==> arms@[j] != publisher,
                    decreases arms@.len() - i,
                {
                    if arms[i] == publisher {
                        assert(arms@.contains(publisher));
                        return Some(i);
                    }
                    i += 1;
                }
                None
            },
        }
    }

    /// A stable, bounded label for an arm within a universe. Past the cap returns `"other"` and
    /// records nothing, which is also what makes that arm ineligible.
    pub fn arm_ordinal(&mut self, scope: &ScopeKey, publisher: Publisher) -> (r: &'static str)
        requires
            old(self).wf(),
        ensures
            final(self).wf(),
            final(self)@ == old(self)@.registered(scope.id(), publisher),
            r@ == label_text(final(self)@.ordinal(scope.id(), publisher)),
    {
        label_of(self.register(scope, publisher))
    }

    /// An arm's label, registering nothing.
    pub fn arm_label(&self, scope: &ScopeKey, publisher: Publisher) -> (r: &'static str)
        requires
            self.wf(),
        ensures
            r@ == label_text(self@.ordinal(scope.id(), publisher)),
    {
        label_of(self.ordinal_of(scope, publisher))
    }

    /// The leader of a universe, before any per-market health override.
    pub fn venue_leader(&self, scope: &ScopeKey) -> (r: Option<Publisher>)
        requires
            self.wf(),
        ensures
            r == (if self@.scopes.contains_key(scope.id()) {
                Some(self@.scopes[scope.id()].leader)
            } else {
                None
            }),
    {
        match self.scopes.get(scope) {
            Some(s) => Some(s.leader),
            None => None,
        }
    }

    /// Whether the universe has recorded `arm` at all.
    pub fn tracks_arm(&self, scope: &ScopeKey, arm: Publisher) -> (r: bool)
        requires
            self.wf(),
        ensures
            r == (self@.scopes.contains_key(scope.id()) && is_arm(self@.scopes[scope.id()].arms, arm)),
    {
        match self.scopes.get(scope) {
            Some(s) => {
                assert(self@.scopes.contains_key(scope.id()));
                assert(self@.scopes[scope.id()] == s@);
                s.position(arm).is_some()
            },
            None => false,
        }
    }

    /// The arm last published for one market: who the consumer's book state came from.
    pub fn last_admitted(&self, key: &MarketKey) -> (r: Option<Publisher>)
        requires
            self.wf(),
        ensures
            r == self@.market_or_new(key.id()).last_admitted,
    {
        match self.markets.get(key) {
            Some(m) => m.last_admitted,
            None => None,
        }
    }

    /// How many markets have recorded state.
    pub fn markets_len(&self) -> (r: usize)
        requires
            self.wf(),
        ensures
            r == self@.markets.dom().len(),
    {
        proof {
            self.markets.lemma_len();
            assert(self@.markets.dom() =~= self.markets@.dom());
        }
        self.markets.len()
    }

    /// Whether a market has recorded state.
    pub fn tracks_market(&self, key: &MarketKey) -> (r: bool)
        requires
            self.wf(),
        ensures
            r == self@.markets.contains_key(key.id()),
    {
        self.markets.contains_key(key)
    }

    /// An arm is healthy at a market unless it was reported otherwise.
    pub fn healthy(&self, key: &MarketKey, publisher: Publisher) -> (r: bool)
        requires
            self.wf(),
        ensures
            r == self@.is_healthy(key.id(), publisher),
    {
        match self.markets.get(key) {
            Some(m) => m.position(publisher).is_none(),
            None => true,
        }
    }

    /// Drop every trace of one market.
    pub fn forget_market(&mut self, key: &MarketKey)
        requires
            old(self).wf(),
        ensures
            final(self).wf(),
            final(self)@ == old(self)@.forgotten(set![key.id()]),
    {
        let ghost was = self@;
        let ghost gone = set![key.id()];
        proof {
            lemma_forgotten_wf(was, gone);
            assert(was.markets.contains_key(key.id()) <==> was.market_order.contains(
                Some(key.id()),
            ));
        }
        if self.markets.remove(key).is_none() {
            assert(self@.markets =~= was.markets.remove_keys(gone));
            assert(self@.market_order =~= emptied(was.market_order, gone));
            return ;
        }
        assert(self@.markets =~= was.markets.remove_keys(gone));
        let n: usize = self.market_order.len();
        let mut i: usize = 0;
        while i < n && !is_place_of(&self.market_order[i], key)
            invariant
                n == self.market_order@.len(),
                i <= n,
                forall|j: int|
                    0 <= j < i ==> (#[trigger] places(self.market_order@)[j]) != Some(key.id()),
            decreases n - i,
        {
            assert(places(self.market_order@)[i as int] == place_of(self.market_order@[i as int]));
            i += 1;
        }
        if i < n {
            let ghost order = self.market_order@;
            let _place = self.market_order.remove(i);
            self.market_order.insert(i, None);
            assert(was.market_order[i as int] == place_of(order[i as int]));
        }
        assert(self@.market_order =~= emptied(was.market_order, gone));
    }

    /// Drop every trace of many markets.
    pub fn forget_markets(&mut self, keys: &Vec<MarketKey>)
        requires
            old(self).wf(),
        ensures
            final(self).wf(),
            final(self)@ == old(self)@.forgotten(ids(keys@)),
    {
        let ghost was = self@;
        let ghost gone = ids(keys@);
        let ghost table = self.markets@;
        let mut i: usize = 0;
        proof {
            lemma_forgotten_wf(was, gone);
            assert(table.remove_keys(ids(keys@.take(0))) =~= table);
        }
        while i < keys.len()
            invariant
                self.markets.wf(),
                i <= keys@.len(),
                table == old(self).markets@,
                self.cfg == old(self).cfg,
                self.scopes == old(self).scopes,
                self.ordinals == old(self).ordinals,
                self.market_order == old(self).market_order,
                self.markets@ == table.remove_keys(ids(keys@.take(i as int))),
            decreases keys@.len() - i,
        {
            let _gone = self.markets.remove(&keys[i]);
            proof {
                let key = keys@[i as int];
                assert(keys@.take(i as int + 1) =~= keys@.take(i as int).push(key));
                lemma_ids_push(keys@.take(i as int), key);
                assert(self.markets@ =~= table.remove_keys(ids(keys@.take(i as int + 1))));
            }
            i += 1;
        }
        assert(keys@.take(i as int) =~= keys@);
        assert(self@.markets =~= was.markets.remove_keys(gone));
        let ghost order = self.market_order@;
        let ghost want = emptied(was.market_order, gone);
        let n: usize = self.market_order.len();
        let mut j: usize = 0;
        proof {
            assert(places(order) =~= was.market_order.skip(0) + want.take(0));
        }
        while j < n
            invariant
                old(self).wf(),
                was == old(self)@,
                want == emptied(was.market_order, gone),
                table == old(self).markets@,
                self.cfg == old(self).cfg,
                self.scopes == old(self).scopes,
                self.ordinals == old(self).ordinals,
                self.markets.wf(),
                self.markets@ == table.remove_keys(gone),
                n == was.market_order.len(),
                n == self.market_order@.len(),
                j <= n,
                places(self.market_order@) == was.market_order.skip(j as int) + want.take(j as int),
            decreases n - j,
        {
            let ghost before = self.market_order@;
            assert(places(before)[0] == was.market_order[j as int]);
            let place: Option<MarketKey> = match self.market_order.pop_front() {
                Some(place) => place,
                None => None,
            };
            let kept: Option<MarketKey> = match place {
                Some(key) => {
                    proof {
                        assert(was.market_order[j as int] == Some(key.id()));
                        assert(was.market_order.contains(Some(key.id())));
                        assert(was.markets.contains_key(key.id()));
                        assert(table.contains_key(key.id()));
                    }
                    if self.markets.contains_key(&key) {
                        Some(key)
                    } else {
                        None
                    }
                },
                None => None,
            };
            self.market_order.push_back(kept);
            proof {
                assert(place_of(kept) == want[j as int]);
                assert(places(self.market_order@) =~= places(before).drop_first().push(
                    want[j as int],
                ));
                assert(places(self.market_order@) =~= was.market_order.skip(j as int + 1)
                    + want.take(j as int + 1));
            }
            j += 1;
        }
        assert(self@.market_order =~= want);
    }

    /// Record `m` for `key`; if no place is left, a new market takes the oldest.
    fn put_market(&mut self, key: &MarketKey, m: MarketState)
        requires
            old(self).wf(),
            m.unhealthy@.no_duplicates(),
        ensures
            final(self).wf(),
            final(self)@ == old(self)@.with_market(key.id(), m@),
    {
        let ghost was = self@;
        let ghost k = key.id();
        if !self.markets.contains_key(key) {
            if self.market_order.len() >= MAX_TRACKED_MARKETS {
                let ghost order = self.market_order@;
                assert(was.market_order[0] == place_of(order[0]));
                match self.market_order.pop_front() {
                    Some(Some(oldest)) => {
                        let _gone = self.markets.remove(&oldest);
                    },
                    _ => {},
                }
                assert(self@.market_order =~= was.market_order.drop_first());
                assert(self@.markets =~= vacated(was.markets, was.market_order[0]));
            }
            let ghost mid = self@;
            self.market_order.push_back(Some(key.dup()));
            assert(self@.market_order =~= mid.market_order.push(Some(k)));
        }
        self.markets.insert(key.dup(), m);
        proof {
            assert(self@ == was.with_market(k, m@));
            lemma_with_market_wf(was, k, m@);
        }
    }

    /// The state of `key` taken out to be changed, or that of a new market.
    fn market_copy(&self, key: &MarketKey) -> (r: MarketState)
        requires
            self.wf(),
        ensures
            r.unhealthy@.no_duplicates(),
            r@ == self@.market_or_new(key.id()),
    {
        match self.markets.get(key) {
            Some(m) => {
                let mut unhealthy: Vec<Publisher> = Vec::new();
                let mut i: usize = 0;
                while i < m.unhealthy.len()
                    invariant
                        i <= m.unhealthy@.len(),
                        unhealthy@ == m.unhealthy@.take(i as int),
                    decreases m.unhealthy@.len() - i,
                {
                    unhealthy.push(m.unhealthy[i]);
                    i += 1;
                }
                assert(unhealthy@ =~= m.unhealthy@);
                MarketState { unhealthy, last_admitted: m.last_admitted }
            },
            None => MarketState::new(),
        }
    }

    /// Record an arm's book health for one market. An ineligible arm is never authoritative, so it
    /// enters no per-market state either.
    pub fn set_health(&mut self, key: &MarketKey, publisher: Publisher, healthy: bool)
        requires
            old(self).wf(),
        ensures
            final(self).wf(),
            final(self)@ == old(self)@.health_set(key.id(), publisher, healthy),
    {
        if self.register(&key.scope, publisher).is_none() {
            return ;
        }
        let mut m = self.market_copy(key);
        m.set_health(publisher, healthy);
        self.put_market(key, m);
    }

    /// The arm actually serving one market.
    pub fn leader_of(&self, key: &MarketKey) -> (r: Option<Publisher>)
        requires
            self.wf(),
        ensures
            r == self@.serving(key.id()),
    {
        let ghost k = key.id();
        match self.scopes.get(&key.scope) {
            None => None,
            Some(s) => {
                assert(self@.scopes[k.scope] == s@);
                if self.healthy(key, s.leader) {
                    return Some(s.leader);
                }
                let mut best: Option<(Publisher, u64, usize)> = None;
                let mut i: usize = 0;
                while i < s.arms.len()
                    invariant
                        self.wf(),
                        k == key.id(),
                        self@.scopes.contains_key(k.scope),
                        self@.scopes[k.scope] == s@,
                        i <= s.arms@.len(),
                        match self@.stand_in(k, i as int) {
                            Some(arm) => {
                                &&& best is Some
                                &&& (best->0).0 == arm.who
                                &&& (best->0).1 == arm.last_seen_ns
                                &&& (best->0).2 == self@.eligible_arms(k.scope).index_of(arm.who)
                            },
                            None => best is None,
                        },
                    decreases s.arms@.len() - i,
                {
                    let arm = &s.arms[i];
                    assert(s@.arms[i as int] == arm@);
                    if arm.who != s.leader && self.healthy(key, arm.who) {
                        assert(self@.eligible_arms(k.scope).contains(arm.who));
                        let at: usize = match self.ordinal_of(&key.scope, arm.who) {
                            Some(at) => at,
                            None => 0,
                        };
                        let better: bool = match best {
                            None => true,
                            Some((_, seen, ordinal)) => arm.last_seen_ns > seen || (arm.last_seen_ns
                                == seen && at >= ordinal),
                        };
                        if better {
                            best = Some((arm.who, arm.last_seen_ns, at));
                        }
                    }
                    i += 1;
                }
                match best {
                    Some((p, _, _)) => Some(p),
                    None => Some(s.leader),
                }
            },
        }
    }

    /// The decision for one message from `publisher` on `key`.
    ///
    /// `arrival_ns` is the host receive clock, the same that [`Self::close_window`] is driven on: it
    /// is what silence is measured by.
    pub fn offer(&mut self, key: &MarketKey, publisher: Publisher, arrival_ns: u64) -> (r: Admit<
        Publisher,
    >)
        requires
            old(self).wf(),
        ensures
            final(self).wf(),
            (final(self)@, r) == old(self)@.offered(key.id(), publisher, arrival_ns),
    {
        let ghost k = key.id();
        if self.register(&key.scope, publisher).is_none() {
            return Admit::Dropped;
        }
        let ghost known = self@;
        let timeout: u64 = self.cfg.leader_timeout_ns;
        let first: bool = match self.scopes.find(&key.scope) {
            None => {
                let mut arms: Vec<Arm> = Vec::new();
                arms.push(Arm { who: publisher, last_seen_ns: arrival_ns, samples: Vec::new() });
                let state = ScopeState { leader: publisher, arms, window_opened_ns: arrival_ns };
                self.scopes.insert(key.scope.dup(), state);
                proof {
                    let fresh = ArmView {
                        who: publisher,
                        last_seen_ns: arrival_ns,
                        samples: Seq::empty(),
                    };
                    assert(arms@[0]@.samples =~= Seq::empty());
                    assert(state@.arms =~= seq![fresh]);
                }
                true
            },
            Some(at) => {
                let ghost was = known.scopes[k.scope];
                assert(known.scopes.contains_key(k.scope));
                let s = self.scopes.value_at_mut(at);
                s.touch(publisher, arrival_ns);
                proof {
                    lemma_with_arm_distinct(
                        was.arms,
                        ArmView { last_seen_ns: arrival_ns, ..arm_or_new(was.arms, publisher) },
                    );
                }
                if s.leader != publisher && elapsed_ns(s.leader_last_seen(), arrival_ns) > timeout {
                    s.take_authority(publisher, arrival_ns);
                }
                false
            },
        };
        proof {
            assert(self@ == (AuthorityView {
                scopes: known.scopes.insert(
                    k.scope,
                    known.heard(k.scope, publisher, arrival_ns),
                ),
                ..known
            }));
            lemma_heard_wf(known, k.scope, publisher, arrival_ns);
        }
        if !first && self.leader_of(key) != Some(publisher) {
            return Admit::Dropped;
        }
        let mut m = self.market_copy(key);
        let opened_tick: bool = first || m.last_admitted != Some(publisher);
        m.last_admitted = Some(publisher);
        self.put_market(key, m);
        Admit::Emitted { opened_tick }
    }

    /// Hand a universe to `to`, returning whether it moved.
    pub fn transfer_venue_to(&mut self, scope: &ScopeKey, to: Publisher, at_ns: u64) -> (r: bool)
        requires
            old(self).wf(),
        ensures
            final(self).wf(),
            r == (old(self)@.scopes.contains_key(scope.id()) && old(self)@.scopes[scope.id()].leader
                != to),
            final(self)@ == (if r {
                AuthorityView {
                    scopes: old(self)@.scopes.insert(
                        scope.id(),
                        old(self)@.scopes[scope.id()].taken_by(to, at_ns),
                    ),
                    ..old(self)@
                }
            } else {
                old(self)@
            }),
            old(self)@.scopes.contains_key(scope.id()) ==> final(self)@.scopes[scope.id()].leader == to,
            r ==> final(self)@.scopes[scope.id()].window_opened_ns == at_ns,
            !r ==> final(self)@ == old(self)@,
            final(self)@.scopes.dom() == old(self)@.scopes.dom(),
    {
        let ghost was = self@;
        match self.scopes.find(scope) {
            Some(at) => {
                assert(was.scopes.contains_key(scope.id()));
                if self.scopes.value_at(at).leader == to {
                    return false;
                }
                let s = self.scopes.value_at_mut(at);
                s.take_authority(to, at_ns);
                proof {
                    lemma_scope_wf(was, scope.id(), was.scopes[scope.id()].taken_by(to, at_ns));
                    assert(self@.scopes.dom() =~= was.scopes.dom());
                }
                true
            },
            None => false,
        }
    }

    /// Record one matched cross-arm lead for `arm`: negative when `arm` beat the authoritative arm's
    /// copy of the same trade. Pooled per arm across every market of the universe.
    pub fn observe_matched_lead(&mut self, scope: &ScopeKey, arm: Publisher, lead_ns: i64)
        requires
            old(self).wf(),
        ensures
            final(self).wf(),
            final(self)@ == old(self)@.lead_observed(scope.id(), arm, lead_ns),
    {
        if self.register(scope, arm).is_none() {
            return ;
        }
        let ghost known = self@;
        match self.scopes.find(scope) {
            Some(at) => {
                assert(known.scopes.contains_key(scope.id()));
                if self.scopes.value_at(at).leader == arm {
                    return ;
                }
                let ghost was = known.scopes[scope.id()];
                let s = self.scopes.value_at_mut(at);
                s.sample(arm, lead_ns);
                proof {
                    lemma_observed_wf(known, scope.id(), arm, lead_ns);
                }
            },
            None => {},
        }
    }

    /// Close every elapsed sampling window, handing a universe over where a challenger cleared every
    /// condition. Returns the universes that moved, and to whom.
    pub fn close_window(&mut self, now_ns: u64) -> (r: Vec<(ScopeKey, Publisher)>)
        requires
            old(self).wf(),
        ensures
            final(self).wf(),
            final(self)@ == old(self)@.windows_closed(now_ns),
            reports_moves(old(self)@, now_ns, r@),
    {
        let ghost start = self@;
        let cfg = self.cfg;
        let n: usize = self.scopes.len();
        let mut moved: Vec<(ScopeKey, Publisher)> = Vec::new();
        let mut i: usize = 0;
        while i < n
            invariant
                self.wf(),
                start == old(self)@,
                start.wf(),
                cfg == start.cfg,
                n == self.scopes.items().len(),
                i <= n,
                self.scopes.items().len() == old(self).scopes.items().len(),
                forall|j: int|
                    0 <= j < n ==> (#[trigger] self.scopes.items()[j]).0
                        == old(self).scopes.items()[j].0,
                self@ == (AuthorityView { scopes: self@.scopes, ..start }),
                self@.scopes.dom() == start.scopes.dom(),
                forall|j: int|
                    0 <= j < i ==> self@.scopes[(#[trigger] self.scopes.items()[j]).0.id()]
                        == start.scopes[self.scopes.items()[j].0.id()].closed_at(cfg, now_ns),
                forall|j: int|
                    i <= j < n ==> self@.scopes[(#[trigger] self.scopes.items()[j]).0.id()]
                        == start.scopes[self.scopes.items()[j].0.id()],
                forall|a: int|
                    0 <= a < moved@.len() ==> {
                        let s = (#[trigger] moved@[a]).0.id();
                        &&& start.scopes.contains_key(s)
                        &&& start.scopes[s].due(cfg, now_ns)
                        &&& start.scopes[s].winner(cfg) == Some(moved@[a].1)
                        &&& exists|j: int|
                            0 <= j < i && (#[trigger] self.scopes.items()[j]).0.id() == s
                    },
                forall|a: int, b: int|
                    0 <= a < b < moved@.len() ==> (#[trigger] moved@[a]).0.id() != (
                    #[trigger] moved@[b]).0.id(),
                forall|j: int|
                    0 <= j < i && start.scopes[(#[trigger] self.scopes.items()[j]).0.id()].due(
                        cfg,
                        now_ns,
                    ) && start.scopes[self.scopes.items()[j].0.id()].winner(cfg) is Some
                        ==> exists|a: int|
                        0 <= a < moved@.len() && (#[trigger] moved@[a]).0.id()
                            == self.scopes.items()[j].0.id(),
            decreases n - i,
        {
            let ghost before = *self;
            let ghost items = self.scopes.items();
            let ghost id = items[i as int].0.id();
            let ghost moved0 = moved@;
            proof {
                self.scopes.lemma_item(i as int);
                assert(start.scopes.dom().contains(id));
                assert(self@.scopes[id] == start.scopes[id]);
                assert(self@.scopes[id] == items[i as int].1@);
            }
            let key = self.scopes.key_at(i).dup();
            let s = self.scopes.value_at_mut(i);
            if elapsed_ns(s.window_opened_ns, now_ns) >= cfg.sample_interval_ns {
                let winner = s.best_challenger(&cfg);
                match winner {
                    Some(p) => {
                        s.take_authority(p, now_ns);
                        moved.push((key, p));
                    },
                    None => {
                        let same = s.leader;
                        s.take_authority(same, now_ns);
                    },
                }
            }
            proof {
                let now = start.scopes[id].closed_at(cfg, now_ns);
                assert(self@.scopes == before@.scopes.insert(id, now));
                lemma_scope_wf(before@, id, now);
                assert forall|j: int| 0 <= j < n && j != i implies (
                #[trigger] self.scopes.items()[j]).0.id() != id by {
                    if items[j].0.id() == id {
                        before.scopes.lemma_distinct(j, i as int);
                    }
                }
                assert(self@.scopes.dom() =~= start.scopes.dom());
                assert forall|a: int| 0 <= a < moved@.len() implies {
                    let s = (#[trigger] moved@[a]).0.id();
                    &&& start.scopes.contains_key(s)
                    &&& start.scopes[s].due(cfg, now_ns)
                    &&& start.scopes[s].winner(cfg) == Some(moved@[a].1)
                    &&& exists|j: int|
                        0 <= j < i + 1 && (#[trigger] self.scopes.items()[j]).0.id() == s
                } by {
                    if a < moved0.len() {
                        assert(moved@[a] == moved0[a]);
                        let j = choose|j: int|
                            0 <= j < i && (#[trigger] items[j]).0.id() == moved0[a].0.id();
                        assert(self.scopes.items()[j].0.id() == moved0[a].0.id());
                    } else {
                        assert(self.scopes.items()[i as int].0.id() == id);
                    }
                }
                assert forall|a: int, b: int| 0 <= a < b < moved@.len() implies (
                #[trigger] moved@[a]).0.id() != (#[trigger] moved@[b]).0.id() by {
                    assert(moved@[a] == moved0[a]);
                    if b < moved0.len() {
                        assert(moved@[b] == moved0[b]);
                    } else {
                        let j = choose|j: int|
                            0 <= j < i && (#[trigger] items[j]).0.id() == moved0[a].0.id();
                        assert(self.scopes.items()[j].0.id() != id);
                    }
                }
                assert forall|j: int|
                    0 <= j < i + 1 && start.scopes[(#[trigger] self.scopes.items()[j]).0.id()].due(
                        cfg,
                        now_ns,
                    ) && start.scopes[self.scopes.items()[j].0.id()].winner(cfg) is Some implies exists|
                    a: int,
                |
                    0 <= a < moved@.len() && (#[trigger] moved@[a]).0.id()
                        == self.scopes.items()[j].0.id() by {
                    if j < i {
                        assert(items[j].0 == self.scopes.items()[j].0);
                        let a = choose|a: int|
                            0 <= a < moved0.len() && (#[trigger] moved0[a]).0.id()
                                == items[j].0.id();
                        assert(moved@[a] == moved0[a]);
                    } else {
                        assert(moved@[moved0.len() as int].0.id() == id);
                    }
                }
            }
            i += 1;
        }
        proof {
            assert forall|s: ScopeId| #[trigger] start.scopes.contains_key(s) implies self@.scopes[s]
                == start.scopes[s].closed_at(cfg, now_ns) by {
                assert(self@.scopes.dom().contains(s));
                let j = self.scopes.lemma_stored(s);
                assert(self.scopes.items()[j].0.id() == s);
            }
            assert(self@.scopes =~= start.windows_closed(now_ns).scopes);
            assert forall|s: ScopeId| #[trigger]
                start.scopes.contains_key(s) && start.scopes[s].due(cfg, now_ns)
                    && start.scopes[s].winner(cfg) is Some implies exists|a: int|
                0 <= a < moved@.len() && (#[trigger] moved@[a]).0.id() == s by {
                assert(self@.scopes.dom().contains(s));
                let j = self.scopes.lemma_stored(s);
                assert(self.scopes.items()[j].0.id() == s);
            }
        }
        moved
    }

    /// Every known arm of every venue with the number of markets it currently serves there, summed
    /// over the venue's universes. Arms that serve nothing are reported with zero.
    pub fn markets_held_all(&self) -> (r: Vec<(String, Publisher, usize)>)
        requires
            self.wf(),
        ensures
            reports_held(self@, r@),
    {
        let mut held: Table<VenueArm, usize> = Table::new();
        self.list_arms(&mut held);
        self.count_served(&mut held);
        let n: usize = held.len();
        let mut out: Vec<(String, Publisher, usize)> = Vec::new();
        let mut i: usize = 0;
        while i < n
            invariant
                held.wf(),
                n == held.items().len(),
                i <= n,
                out@.len() == i,
                forall|j: int|
                    0 <= j < i ==> {
                        &&& (#[trigger] out@[j]).0@ == held.items()[j].0.venue@
                        &&& out@[j].1 == held.items()[j].0.arm
                        &&& out@[j].2 == held.items()[j].1
                    },
            decreases n - i,
        {
            let k = held.key_at(i);
            out.push((k.venue.clone(), k.arm, *held.value_at(i)));
            i += 1;
        }
        proof {
            assert forall|j: int| 0 <= j < out@.len() implies {
                let (venue, p, n) = #[trigger] out@[j];
                &&& self@.known_in(venue@, p)
                &&& n == self@.served_by(venue@, p).len()
            } by {
                held.lemma_item(j);
                assert(held.items()[j].0.id() == (out@[j].0@, out@[j].1));
            }
            assert forall|a: int, b: int| 0 <= a < b < out@.len() implies ((#[trigger] out@[a]).0@, out@[a].1)
                != ((#[trigger] out@[b]).0@, out@[b].1) by {
                if (out@[a].0@, out@[a].1) == (out@[b].0@, out@[b].1) {
                    held.lemma_distinct(a, b);
                }
            }
            assert forall|venue: Seq<char>, p: Publisher| #[trigger]
                self@.known_in(venue, p) implies exists|j: int|
                0 <= j < out@.len() && (#[trigger] out@[j]).0@ == venue && out@[j].1 == p by {
                assert(held@.contains_key((venue, p)));
                let j = held.lemma_stored((venue, p));
                assert(out@[j].0@ == venue);
            }
        }
        out
    }

    /// List every recorded arm with a count of zero.
    fn list_arms(&self, held: &mut Table<VenueArm, usize>)
        requires
            self.wf(),
            old(held).wf(),
            old(held)@ == Map::<(Seq<char>, Publisher), usize>::empty(),
        ensures
            final(held).wf(),
            forall|venue: Seq<char>, p: Publisher| #[trigger]
                final(held)@.contains_key((venue, p)) <==> self@.recorded_in(venue, p),
            forall|at: (Seq<char>, Publisher)| #[trigger]
                final(held)@.contains_key(at) ==> final(held)@[at] == 0,
    {
        let n: usize = self.scopes.len();
        let mut i: usize = 0;
        while i < n
            invariant
                self.wf(),
                held.wf(),
                n == self.scopes.items().len(),
                i <= n,
                forall|venue: Seq<char>, p: Publisher| #[trigger]
                    held@.contains_key((venue, p)) <==> exists|j: int|
                        0 <= j < i && (#[trigger] self.scopes.items()[j]).0.venue@ == venue && is_arm(
                            self.scopes.items()[j].1@.arms,
                            p,
                        ),
                forall|at: (Seq<char>, Publisher)| #[trigger]
                    held@.contains_key(at) ==> held@[at] == 0,
            decreases n - i,
        {
            let key = self.scopes.key_at(i);
            let s = self.scopes.value_at(i);
            let ghost before = held@;
            let mut a: usize = 0;
            while a < s.arms.len()
                invariant
                    held.wf(),
                    a <= s.arms@.len(),
                    forall|venue: Seq<char>, p: Publisher| #[trigger]
                        held@.contains_key((venue, p)) <==> before.contains_key((venue, p)) || (venue
                            == key.venue@ && exists|b: int|
                            0 <= b < a && (#[trigger] s@.arms[b]).who == p),
                    forall|at: (Seq<char>, Publisher)| #[trigger]
                        held@.contains_key(at) ==> held@[at] == 0,
                decreases s.arms@.len() - a,
            {
                let who = s.arms[a].who;
                let ghost prev = held@;
                held.insert(VenueArm { venue: key.venue.clone(), arm: who }, 0);
                proof {
                    assert(s@.arms[a as int].who == who);
                    assert forall|venue: Seq<char>, p: Publisher| #[trigger]
                        held@.contains_key((venue, p)) <==> before.contains_key((venue, p)) || (venue
                            == key.venue@ && exists|b: int|
                            0 <= b < a + 1 && (#[trigger] s@.arms[b]).who == p) by {
                        assert(held@.contains_key((venue, p)) <==> prev.contains_key((venue, p)) || (
                        venue == key.venue@ && p == who));
                        if venue == key.venue@ && exists|b: int|
                            0 <= b < a + 1 && (#[trigger] s@.arms[b]).who == p {
                            let b = choose|b: int| 0 <= b < a + 1 && (#[trigger] s@.arms[b]).who == p;
                            if b < a {
                                assert(prev.contains_key((venue, p)));
                            }
                        }
                    }
                }
                a += 1;
            }
            proof {
                assert forall|venue: Seq<char>, p: Publisher| #[trigger]
                    held@.contains_key((venue, p)) <==> exists|j: int|
                        0 <= j < i + 1 && (#[trigger] self.scopes.items()[j]).0.venue@ == venue
                            && is_arm(self.scopes.items()[j].1@.arms, p) by {
                    if before.contains_key((venue, p)) {
                        let j = choose|j: int|
                            0 <= j < i && (#[trigger] self.scopes.items()[j]).0.venue@ == venue
                                && is_arm(self.scopes.items()[j].1@.arms, p);
                        assert(self.scopes.items()[j].0.venue@ == venue);
                    }
                    if venue == key.venue@ && is_arm(s@.arms, p) {
                        assert(self.scopes.items()[i as int].0.venue@ == venue);
                    }
                }
            }
            i += 1;
        }
        proof {
            assert forall|venue: Seq<char>, p: Publisher| #[trigger]
                held@.contains_key((venue, p)) <==> self@.recorded_in(venue, p) by {
                if held@.contains_key((venue, p)) {
                    let j = choose|j: int|
                        0 <= j < n && (#[trigger] self.scopes.items()[j]).0.venue@ == venue && is_arm(
                            self.scopes.items()[j].1@.arms,
                            p,
                        );
                    self.scopes.lemma_item(j);
                    let sid = self.scopes.items()[j].0.id();
                    assert(self@.scopes.contains_key(sid) && sid.0 == venue);
                    assert(self@.scopes[sid] == self.scopes.items()[j].1@);
                }
                if self@.recorded_in(venue, p) {
                    let sid = choose|sid: ScopeId| #[trigger]
                        self@.scopes.contains_key(sid) && sid.0 == venue && is_arm(
                            self@.scopes[sid].arms,
                            p,
                        );
                    let j = self.scopes.lemma_stored(sid);
                    assert(self.scopes.items()[j].0.venue@ == venue);
                }
            }
        }
    }

    /// Add every market to the count of the arm that serves it.
    fn count_served(&self, held: &mut Table<VenueArm, usize>)
        requires
            self.wf(),
            old(held).wf(),
            forall|venue: Seq<char>, p: Publisher| #[trigger]
                old(held)@.contains_key((venue, p)) <==> self@.recorded_in(venue, p),
            forall|at: (Seq<char>, Publisher)| #[trigger]
                old(held)@.contains_key(at) ==> old(held)@[at] == 0,
        ensures
            final(held).wf(),
            forall|venue: Seq<char>, p: Publisher| #[trigger]
                final(held)@.contains_key((venue, p)) <==> self@.known_in(venue, p),
            forall|venue: Seq<char>, p: Publisher| #[trigger]
                final(held)@.contains_key((venue, p)) ==> final(held)@[(venue, p)] == self@.served_by(
                    venue,
                    p,
                ).len(),
    {
        let ghost v = self@;
        let n: usize = self.markets.len();
        let ghost items = self.markets.items();
        let mut i: usize = 0;
        proof {
            assert forall|venue: Seq<char>, p: Publisher| #[trigger]
                served_upto(v, items, 0, venue, p) =~= Set::empty() by {}
        }
        while i < n
            invariant
                self.wf(),
                v == self@,
                items == self.markets.items(),
                held.wf(),
                n == items.len(),
                i <= n,
                forall|venue: Seq<char>, p: Publisher|
                    #![trigger served_upto(v, items, i as int, venue, p)]
                    #![trigger held@.contains_key((venue, p))]
                    {
                        let set = served_upto(v, items, i as int, venue, p);
                        &&& set.finite()
                        &&& set.len() <= i
                        &&& held@.contains_key((venue, p)) <==> v.recorded_in(venue, p) || set.len() > 0
                        &&& held@.contains_key((venue, p)) ==> held@[(venue, p)] == set.len()
                    },
            decreases n - i,
        {
            let key = self.markets.key_at(i);
            let ghost k = key.id();
            let ghost before = held@;
            let served = self.leader_of(key);
            proof {
                assert forall|venue: Seq<char>, p: Publisher|
                    #![trigger served_upto(v, items, i as int + 1, venue, p)]
                    {
                        let a = served_upto(v, items, i as int, venue, p);
                        let b = served_upto(v, items, i as int + 1, venue, p);
                        if k.scope.0 == venue && served == Some(p) {
                            b == a.insert(k) && !a.contains(k)
                        } else {
                            b == a
                        }
                    } by {
                    let a = served_upto(v, items, i as int, venue, p);
                    let b = served_upto(v, items, i as int + 1, venue, p);
                    if a.contains(k) {
                        let j = choose|j: int| 0 <= j < i && (#[trigger] items[j]).0.id() == k;
                        self.markets.lemma_distinct(j, i as int);
                    }
                    assert forall|x: MarketId| b.contains(x) == (a.contains(x) || (x == k && k.scope.0
                        == venue && served == Some(p))) by {
                        if a.contains(x) {
                            let j = choose|j: int| 0 <= j < i && (#[trigger] items[j]).0.id() == x;
                            assert(items[j].0.id() == x);
                        }
                        assert(items[i as int].0.id() == k);
                    }
                    if k.scope.0 == venue && served == Some(p) {
                        assert(b =~= a.insert(k));
                    } else {
                        assert(b =~= a);
                    }
                }
            }
            match served {
                Some(p) => {
                    let at = VenueArm { venue: key.scope.venue.clone(), arm: p };
                    let count: usize = match held.get(&at) {
                        Some(c) => *c,
                        None => 0,
                    };
                    proof {
                        assert(at.id() == (k.scope.0, p));
                        let set = served_upto(v, items, i as int, k.scope.0, p);
                        assert(set.len() <= i);
                        assert(count == set.len());
                    }
                    held.insert(at, count + 1);
                },
                None => {},
            }
            proof {
                assert forall|venue: Seq<char>, p: Publisher|
                    #![trigger served_upto(v, items, i as int + 1, venue, p)]
                    #![trigger held@.contains_key((venue, p))]
                    {
                        let set = served_upto(v, items, i as int + 1, venue, p);
                        &&& set.finite()
                        &&& set.len() <= i + 1
                        &&& held@.contains_key((venue, p)) <==> v.recorded_in(venue, p) || set.len() > 0
                        &&& held@.contains_key((venue, p)) ==> held@[(venue, p)] == set.len()
                    } by {
                    let a = served_upto(v, items, i as int, venue, p);
                    let b = served_upto(v, items, i as int + 1, venue, p);
                    assert(before.contains_key((venue, p)) <==> v.recorded_in(venue, p) || a.len() > 0);
                }
            }
            i += 1;
        }
        proof {
            assert forall|venue: Seq<char>, p: Publisher| #[trigger]
                v.served_by(venue, p) == served_upto(v, items, n as int, venue, p) by {
                let b = served_upto(v, items, n as int, venue, p);
                assert forall|x: MarketId| v.served_by(venue, p).contains(x) == b.contains(x) by {
                    if v.markets.contains_key(x) {
                        let j = self.markets.lemma_stored(x);
                        assert(items[j].0.id() == x);
                    }
                    if b.contains(x) {
                        let j = choose|j: int| 0 <= j < n && (#[trigger] items[j]).0.id() == x;
                        self.markets.lemma_item(j);
                    }
                }
                assert(v.served_by(venue, p) =~= b);
            }
            assert forall|venue: Seq<char>, p: Publisher| #[trigger]
                held@.contains_key((venue, p)) <==> v.known_in(venue, p) by {
                assert(v.served_by(venue, p) == served_upto(v, items, n as int, venue, p));
            }
        }
    }

    /// An arm's label in a universe of the venue where it holds an ordinal.
    pub fn arm_label_in_venue(&self, venue: &String, publisher: Publisher) -> (r: &'static str)
        requires
            self.wf(),
        ensures
            labels_in_venue(self@, venue@, publisher, r@),
    {
        let n: usize = self.ordinals.len();
        let mut i: usize = 0;
        while i < n
            invariant
                self.wf(),
                n == self.ordinals.items().len(),
                i <= n,
                forall|j: int|
                    0 <= j < i && (#[trigger] self.ordinals.items()[j]).0.venue@ == venue@
                        ==> !self.ordinals.items()[j].1@.contains(publisher),
            decreases n - i,
        {
            let key = self.ordinals.key_at(i);
            if key.venue == *venue {
                proof {
                    self.ordinals.lemma_item(i as int);
                    assert(self@.ordinals.contains_key(key.id()));
                    assert(self@.ordinals[key.id()] == self.ordinals.items()[i as int].1@);
                }
                match self.ordinal_of(key, publisher) {
                    Some(at) => {
                        assert(registered_under(self@, key.id(), venue@, publisher));
                        return label_of(Some(at));
                    },
                    None => {},
                }
            }
            i += 1;
        }
        proof {
            assert forall|s: ScopeId| !registered_under(self@, s, venue@, publisher) by {
                if self@.ordinals.contains_key(s) && s.0 == venue@ {
                    let j = self.ordinals.lemma_stored(s);
                    assert(self.ordinals.items()[j].0.venue@ == venue@);
                }
            }
        }
        label_of(None)
    }
}

/// One arm of one venue.
struct VenueArm {
    venue: String,
    arm: Publisher,
}

impl Key for VenueArm {
    type Id = (Seq<char>, Publisher);

    closed spec fn id(&self) -> (Seq<char>, Publisher) {
        (self.venue@, self.arm)
    }

    closed spec fn code_of(id: (Seq<char>, Publisher)) -> u64 {
        mix_spec(text_code(id.0), Publisher::code_of(id.1))
    }

    fn same(&self, other: &Self) -> (r: bool) {
        self.arm == other.arm && self.venue == other.venue
    }

    fn code(&self) -> (r: u64) {
        mix(str_code(self.venue.as_str()), self.arm.code())
    }

    fn dup(&self) -> (r: Self) {
        VenueArm { venue: self.venue.clone(), arm: self.arm }
    }
}

/// The markets among the first `n` of `items` that `p` serves under `venue`.
spec fn served_upto(
    v: AuthorityView,
    items: Seq<(MarketKey, MarketState)>,
    n: int,
    venue: Seq<char>,
    p: Publisher,
) -> Set<MarketId> {
    Set::new(
        |k: MarketId|
            k.scope.0 == venue && v.serving(k) == Some(p) && exists|j: int|
                0 <= j < n && (#[trigger] items[j]).0.id() == k,
    )
}

/// A universe can be replaced by one with the same arms and no more evidence.
proof fn lemma_scope_wf(v: AuthorityView, s: ScopeId, now: ScopeView)
    requires
        v.wf(),
        v.scopes.contains_key(s),
        now.arms.len() == v.scopes[s].arms.len(),
        forall|i: int|
            0 <= i < now.arms.len() ==> (#[trigger] now.arms[i]).who == v.scopes[s].arms[i].who
                && now.arms[i].samples.len() <= MAX_WINDOW_SAMPLES,
    ensures
        (AuthorityView { scopes: v.scopes.insert(s, now), ..v }).wf(),
{
    let w = AuthorityView { scopes: v.scopes.insert(s, now), ..v };
    assert(distinct_arms(now.arms)) by {
        assert forall|i: int, j: int|
            0 <= i < now.arms.len() && 0 <= j < now.arms.len() && (#[trigger] now.arms[i]).who == (
            #[trigger] now.arms[j]).who implies i == j by {
            assert(v.scopes[s].arms[i].who == v.scopes[s].arms[j].who);
        }
    }
    assert forall|x: ScopeId| #[trigger] w.scopes.contains_key(x) implies {
        &&& distinct_arms(w.scopes[x].arms)
        &&& w.scopes[x].arms.len() <= MAX_LABELLED_ARMS
        &&& forall|i: int|
            0 <= i < w.scopes[x].arms.len() ==> w.eligible_arms(x).contains(
                (#[trigger] w.scopes[x].arms[i]).who,
            ) && w.scopes[x].arms[i].samples.len() <= MAX_WINDOW_SAMPLES
    } by {
        assert(w.eligible_arms(x) == v.eligible_arms(x));
        assert forall|i: int| 0 <= i < w.scopes[x].arms.len() implies w.eligible_arms(x).contains(
            (#[trigger] w.scopes[x].arms[i]).who,
        ) && w.scopes[x].arms[i].samples.len() <= MAX_WINDOW_SAMPLES by {
            assert(v.eligible_arms(x).contains(v.scopes[x].arms[i].who));
        }
    }
}

proof fn lemma_with_arm_distinct(arms: Seq<ArmView>, arm: ArmView)
    requires
        distinct_arms(arms),
    ensures
        distinct_arms(with_arm(arms, arm)),
        is_arm(with_arm(arms, arm), arm.who),
        forall|i: int|
            0 <= i < with_arm(arms, arm).len() ==> (#[trigger] with_arm(arms, arm)[i]) == arm || (i
                < arms.len() && with_arm(arms, arm)[i] == arms[i]),
{
    let now = with_arm(arms, arm);
    assert forall|i: int, j: int|
        0 <= i < now.len() && 0 <= j < now.len() && (#[trigger] now[i]).who == (
        #[trigger] now[j]).who implies i == j by {
        if is_arm(arms, arm.who) {
            assert(arms[i].who == arms[j].who);
        } else {
            if i < arms.len() && j < arms.len() {
                assert(arms[i].who == arms[j].who);
            } else if i < arms.len() {
                assert(arms[i].who == arm.who);
            } else if j < arms.len() {
                assert(arms[j].who == arm.who);
            }
        }
    }
    if is_arm(arms, arm.who) {
        let i = choose|i: int| 0 <= i < arms.len() && (#[trigger] arms[i]).who == arm.who;
        assert(now[i].who == arm.who);
    } else {
        assert(now[arms.len() as int].who == arm.who);
    }
}

/// An eligible arm recorded in a universe leaves the state well formed.
proof fn lemma_with_arm_wf(v: AuthorityView, s: ScopeId, arm: ArmView)
    requires
        v.wf(),
        v.scopes.contains_key(s),
        v.eligible_arms(s).contains(arm.who),
        arm.samples.len() <= MAX_WINDOW_SAMPLES,
    ensures
        (AuthorityView {
            scopes: v.scopes.insert(
                s,
                ScopeView { arms: with_arm(v.scopes[s].arms, arm), ..v.scopes[s] },
            ),
            ..v
        }).wf(),
{
    let was = v.scopes[s];
    let arms = with_arm(was.arms, arm);
    let now = ScopeView { arms, ..was };
    let w = AuthorityView { scopes: v.scopes.insert(s, now), ..v };
    lemma_with_arm_distinct(was.arms, arm);
    let eligible = v.eligible_arms(s);
    assert(arms.len() <= MAX_LABELLED_ARMS) by {
        let names = Seq::new(arms.len(), |i: int| arms[i].who);
        assert(names.no_duplicates());
        assert forall|i: int| 0 <= i < names.len() implies eligible.contains(#[trigger] names[i]) by {
            if arms[i] != arm {
                assert(eligible.contains(was.arms[i].who));
            }
        }
        lemma_no_longer(names, eligible);
    }
    assert forall|x: ScopeId| #[trigger] w.scopes.contains_key(x) implies {
        &&& distinct_arms(w.scopes[x].arms)
        &&& w.scopes[x].arms.len() <= MAX_LABELLED_ARMS
        &&& forall|i: int|
            0 <= i < w.scopes[x].arms.len() ==> w.eligible_arms(x).contains(
                (#[trigger] w.scopes[x].arms[i]).who,
            ) && w.scopes[x].arms[i].samples.len() <= MAX_WINDOW_SAMPLES
    } by {
        assert(w.eligible_arms(x) == v.eligible_arms(x));
        assert forall|i: int| 0 <= i < w.scopes[x].arms.len() implies w.eligible_arms(x).contains(
            (#[trigger] w.scopes[x].arms[i]).who,
        ) && w.scopes[x].arms[i].samples.len() <= MAX_WINDOW_SAMPLES by {
            if x == s {
                if arms[i] != arm {
                    assert(eligible.contains(was.arms[i].who));
                }
            } else {
                assert(v.eligible_arms(x).contains(v.scopes[x].arms[i].who));
            }
        }
    }
}

/// A list of distinct names, all of which another list of distinct names holds, is no longer than it.
proof fn lemma_no_longer(names: Seq<Publisher>, all: Seq<Publisher>)
    requires
        names.no_duplicates(),
        forall|i: int| 0 <= i < names.len() ==> all.contains(#[trigger] names[i]),
    ensures
        names.len() <= all.len(),
{
    names.unique_seq_to_set();
    all.lemma_cardinality_of_set();
    vstd::seq_lib::seq_to_set_is_finite(all);
    assert(names.to_set().subset_of(all.to_set())) by {
        assert forall|p: Publisher| names.to_set().contains(p) implies all.to_set().contains(p) by {
            let i = names.index_of(p);
            assert(all.contains(names[i]));
        }
    }
    vstd::set_lib::lemma_len_subset(names.to_set(), all.to_set());
}

proof fn lemma_heard_wf(v: AuthorityView, s: ScopeId, p: Publisher, arrival_ns: u64)
    requires
        v.wf(),
        v.ordinal(s, p) is Some,
    ensures
        (AuthorityView { scopes: v.scopes.insert(s, v.heard(s, p, arrival_ns)), ..v }).wf(),
{
    if !v.scopes.contains_key(s) {
        let w = AuthorityView { scopes: v.scopes.insert(s, v.heard(s, p, arrival_ns)), ..v };
        assert forall|x: ScopeId| #[trigger] w.scopes.contains_key(x) implies w.eligible_arms(x)
            == v.eligible_arms(x) by {}
    } else {
        let was = v.scopes[s];
        let arm = ArmView { last_seen_ns: arrival_ns, ..arm_or_new(was.arms, p) };
        assert(arm.who == p);
        lemma_with_arm_wf(v, s, arm);
        let mid_scope = ScopeView { arms: with_arm(was.arms, arm), ..was };
        let mid = AuthorityView { scopes: v.scopes.insert(s, mid_scope), ..v };
        lemma_scope_wf(mid, s, mid_scope.taken_by(p, arrival_ns));
        assert(mid.scopes.insert(s, mid_scope.taken_by(p, arrival_ns)) =~= v.scopes.insert(
            s,
            mid_scope.taken_by(p, arrival_ns),
        ));
    }
}

proof fn lemma_observed_wf(v: AuthorityView, s: ScopeId, p: Publisher, lead_ns: i64)
    requires
        v.wf(),
        v.ordinal(s, p) is Some,
        v.scopes.contains_key(s),
    ensures
        ({
            let was = v.scopes[s];
            let arm = arm_or_new(was.arms, p);
            let arm = if arm.samples.len() < MAX_WINDOW_SAMPLES {
                ArmView { samples: arm.samples.push(lead_ns), ..arm }
            } else {
                arm
            };
            (AuthorityView {
                scopes: v.scopes.insert(s, ScopeView { arms: with_arm(was.arms, arm), ..was }),
                ..v
            }).wf()
        }),
{
    let was = v.scopes[s];
    let arm = arm_or_new(was.arms, p);
    assert(arm.who == p);
    let arm = if arm.samples.len() < MAX_WINDOW_SAMPLES {
        ArmView { samples: arm.samples.push(lead_ns), ..arm }
    } else {
        arm
    };
    lemma_with_arm_wf(v, s, arm);
}

pub proof fn lemma_registered_wf(v: AuthorityView, s: ScopeId, p: Publisher)
    requires
        v.wf(),
    ensures
        v.registered(s, p).wf(),
{
    let w = v.registered(s, p);
    let arms = v.eligible_arms(s);
    if !arms.contains(p) && arms.len() < MAX_LABELLED_ARMS {
        assert forall|x: ScopeId| #[trigger] w.scopes.contains_key(x) implies {
            &&& distinct_arms(w.scopes[x].arms)
            &&& w.scopes[x].arms.len() <= MAX_LABELLED_ARMS
            &&& forall|i: int|
                0 <= i < w.scopes[x].arms.len() ==> w.eligible_arms(x).contains(
                    (#[trigger] w.scopes[x].arms[i]).who,
                ) && w.scopes[x].arms[i].samples.len() <= MAX_WINDOW_SAMPLES
        } by {
            assert forall|i: int| 0 <= i < w.scopes[x].arms.len() implies w.eligible_arms(x).contains(
                (#[trigger] w.scopes[x].arms[i]).who,
            ) by {
                let who = v.scopes[x].arms[i].who;
                assert(v.eligible_arms(x).contains(who));
                if x == s {
                    let at = arms.index_of(who);
                    assert(arms.push(p)[at] == who);
                }
            }
        }
    }
}

proof fn lemma_with_market_wf(v: AuthorityView, k: MarketId, m: MarketView)
    requires
        v.wf(),
    ensures
        v.with_market(k, m).wf(),
{
    let w = v.with_market(k, m);
    if !v.markets.contains_key(k) {
        let o = v.market_order;
        let full = o.len() >= MAX_TRACKED_MARKETS;
        let kept = if full {
            o.drop_first()
        } else {
            o
        };
        let off = if full {
            1int
        } else {
            0
        };
        assert forall|i: int| 0 <= i < kept.len() implies #[trigger] kept[i] == o[i + off] by {}
        assert(w.market_order == kept.push(Some(k)));
        assert(!o.contains(Some(k)));
        assert forall|i: int, j: int|
            0 <= i < j < w.market_order.len() && (
            #[trigger] w.market_order[i]) is Some implies w.market_order[i] != (
        #[trigger] w.market_order[j]) by {
            assert(w.market_order[i] == o[i + off]);
            if j < kept.len() {
                assert(w.market_order[j] == o[j + off]);
            } else {
                assert(o.contains(o[i + off]));
            }
        }
        assert forall|x: MarketId| #[trigger]
            w.markets.contains_key(x) <==> w.market_order.contains(Some(x)) by {
            assert(v.markets.contains_key(x) <==> o.contains(Some(x)));
            if x == k {
                assert(w.market_order[kept.len() as int] == Some(k));
            } else {
                if w.market_order.contains(Some(x)) {
                    let i = w.market_order.index_of(Some(x));
                    assert(o[i + off] == Some(x));
                    assert(o.contains(Some(x)));
                    if full && o[0] == Some(x) {
                        assert(o[0] != o[i + off]);
                    }
                }
                if w.markets.contains_key(x) {
                    let i = o.index_of(Some(x));
                    assert(o[i] == Some(x));
                    assert(w.market_order[i - off] == Some(x));
                }
            }
        }
    }
    assert forall|x: ScopeId| #[trigger] w.scopes.contains_key(x) implies w.eligible_arms(x)
        == v.eligible_arms(x) by {}
}

/// Only the arm that serves the market is published, and from then on that arm is the one last
/// published there; a dropped message leaves that record as it was.
pub proof fn law_only_the_serving_arm_is_published(
    v: AuthorityView,
    k: MarketId,
    p: Publisher,
    arrival_ns: u64,
)
    ensures
        ({
            let (after, decision) = v.offered(k, p, arrival_ns);
            if decision is Emitted {
                &&& after.serving(k) == Some(p)
                &&& after.market_or_new(k).last_admitted == Some(p)
            } else {
                &&& decision is Dropped
                &&& after.market_or_new(k).last_admitted == v.market_or_new(k).last_admitted
            }
        }),
{
    let known = v.registered(k.scope, p);
    if known.ordinal(k.scope, p) is Some {
        let now = AuthorityView {
            scopes: known.scopes.insert(k.scope, known.heard(k.scope, p, arrival_ns)),
            ..known
        };
        if !v.scopes.contains_key(k.scope) {
            reveal_with_fuel(AuthorityView::stand_in, 2);
            assert(now.scopes[k.scope].arms.len() == 1);
            assert(now.serving(k) == Some(p));
        }
        if now.serving(k) == Some(p) {
            let after = now.with_market(
                k,
                MarketView { last_admitted: Some(p), ..now.market_or_new(k) },
            );
            lemma_serving_depends_on_health(now, after, k, now.scopes[k.scope].arms.len() as int);
        }
    }
}

/// Who serves a market depends on its universe, on the ordinals there and on health at the market
/// alone.
proof fn lemma_serving_depends_on_health(a: AuthorityView, b: AuthorityView, k: MarketId, n: int)
    requires
        a.scopes == b.scopes,
        a.ordinals == b.ordinals,
        forall|p: Publisher| a.is_healthy(k, p) == #[trigger] b.is_healthy(k, p),
        0 <= n,
    ensures
        a.stand_in(k, n) == b.stand_in(k, n),
    decreases n,
{
    if n > 0 {
        lemma_serving_depends_on_health(a, b, k, n - 1);
    }
}

/// Once a universe's ordinals are used up, no further publisher changes anything: it is never
/// published, reports no health and supplies no evidence.
pub proof fn law_an_arm_past_the_cap_changes_nothing(
    v: AuthorityView,
    k: MarketId,
    p: Publisher,
    arrival_ns: u64,
    healthy: bool,
    lead_ns: i64,
)
    requires
        v.eligible_arms(k.scope).len() >= MAX_LABELLED_ARMS,
        !v.eligible_arms(k.scope).contains(p),
    ensures
        v.offered(k, p, arrival_ns) == (v, Admit::<Publisher>::Dropped),
        v.health_set(k, p, healthy) == v,
        v.lead_observed(k.scope, p, lead_ns) == v,
{
}

/// The first eligible arm to deliver in a universe leads it, and is published.
pub proof fn law_no_dark_start(v: AuthorityView, k: MarketId, p: Publisher, arrival_ns: u64)
    requires
        !v.scopes.contains_key(k.scope),
        v.registered(k.scope, p).ordinal(k.scope, p) is Some,
    ensures
        v.offered(k, p, arrival_ns).0.scopes[k.scope].leader == p,
        v.offered(k, p, arrival_ns).1 is Emitted,
{
}

/// A leader heard from anywhere in its universe within the timeout keeps it, whatever market the
/// message is about.
pub proof fn law_a_live_leader_keeps_the_universe(
    v: AuthorityView,
    k: MarketId,
    p: Publisher,
    arrival_ns: u64,
)
    requires
        v.wf(),
        v.scopes.contains_key(k.scope),
        is_arm(v.scopes[k.scope].arms, v.scopes[k.scope].leader),
        elapsed(
            arm_or_new(v.scopes[k.scope].arms, v.scopes[k.scope].leader).last_seen_ns,
            arrival_ns,
        ) <= v.cfg.leader_timeout_ns,
    ensures
        v.offered(k, p, arrival_ns).0.scopes[k.scope].leader == v.scopes[k.scope].leader,
{
    let was = v.scopes[k.scope];
    if was.leader != p {
        lemma_other_arm_unchanged(was.arms, p, was.leader, arrival_ns);
    }
}

proof fn lemma_other_arm_unchanged(
    arms: Seq<ArmView>,
    p: Publisher,
    other: Publisher,
    arrival_ns: u64,
)
    requires
        distinct_arms(arms),
        p != other,
    ensures
        ({
            let now = with_arm(arms, ArmView { last_seen_ns: arrival_ns, ..arm_or_new(arms, p) });
            arm_or_new(now, other).last_seen_ns == arm_or_new(arms, other).last_seen_ns
        }),
{
    let arm = ArmView { last_seen_ns: arrival_ns, ..arm_or_new(arms, p) };
    let now = with_arm(arms, arm);
    assert(arm.who == p);
    lemma_with_arm_distinct(arms, arm);
    if is_arm(arms, other) {
        let i = choose|i: int| 0 <= i < arms.len() && (#[trigger] arms[i]).who == other;
        assert(now[i] == arms[i]);
        assert(is_arm(now, other));
    }
    if is_arm(now, other) {
        let i = choose|i: int| 0 <= i < now.len() && (#[trigger] now[i]).who == other;
        assert(now[i] == arms[i]);
    }
}

/// A leader that has been silent for longer than the timeout yields to the next arm that speaks, and
/// a handover starts a new window.
pub proof fn law_a_silent_leader_yields(
    v: AuthorityView,
    k: MarketId,
    p: Publisher,
    arrival_ns: u64,
)
    requires
        v.wf(),
        v.scopes.contains_key(k.scope),
        v.registered(k.scope, p).ordinal(k.scope, p) is Some,
        p != v.scopes[k.scope].leader,
        elapsed(
            arm_or_new(v.scopes[k.scope].arms, v.scopes[k.scope].leader).last_seen_ns,
            arrival_ns,
        ) > v.cfg.leader_timeout_ns,
    ensures
        ({
            let now = v.offered(k, p, arrival_ns).0.scopes[k.scope];
            &&& now.leader == p
            &&& now.window_opened_ns == arrival_ns
            &&& forall|i: int|
                0 <= i < now.arms.len() ==> (#[trigger] now.arms[i]).samples.len() == 0
        }),
{
    let was = v.scopes[k.scope];
    lemma_other_arm_unchanged(was.arms, p, was.leader, arrival_ns);
}

/// Health never moves a universe: the leader everywhere stays as it was, and a leader reported
/// healthy again serves the market again.
pub proof fn law_health_is_an_override(v: AuthorityView, k: MarketId, p: Publisher, healthy: bool)
    requires
        v.wf(),
    ensures
        v.health_set(k, p, healthy).scopes == v.scopes,
        ({
            let after = v.health_set(k, p, true);
            v.scopes.contains_key(k.scope) && v.scopes[k.scope].leader == p && after.ordinal(
                k.scope,
                p,
            ) is Some ==> after.serving(k) == Some(p)
        }),
        ({
            let after = v.health_set(k, p, false);
            after.ordinal(k.scope, p) is Some ==> !after.is_healthy(k, p)
        }),
{
}

/// An arm that is not healthy at a market does not stand in for the leader there.
pub proof fn law_an_unhealthy_arm_does_not_stand_in(v: AuthorityView, k: MarketId, n: int)
    requires
        v.scopes.contains_key(k.scope),
        0 <= n <= v.scopes[k.scope].arms.len(),
    ensures
        match v.stand_in(k, n) {
            Some(arm) => v.is_healthy(k, arm.who) && arm.who != v.scopes[k.scope].leader && is_arm(
                v.scopes[k.scope].arms,
                arm.who,
            ),
            None => true,
        },
    decreases n,
{
    if n > 0 {
        law_an_unhealthy_arm_does_not_stand_in(v, k, n - 1);
        assert(v.scopes[k.scope].arms[n - 1].who == v.scopes[k.scope].arms[n - 1].who);
    }
}

/// A publisher is given an ordinal of a universe once: the next free one, which it then holds, and no
/// other after that. One that is given none changes nothing.
pub proof fn law_an_arm_is_registered_once(v: AuthorityView, s: ScopeId, p: Publisher)
    requires
        v.wf(),
    ensures
        match v.next_ordinal(s, p) {
            Some(at) => v.ordinal(s, p) is None && v.registered(s, p).ordinal(s, p) == Some(at as int),
            None => v.registered(s, p) == v,
        },
        v.registered(s, p).next_ordinal(s, p) is None,
{
    let arms = v.eligible_arms(s);
    let grown = arms.push(p);
    if v.next_ordinal(s, p) is Some {
        assert(grown[arms.len() as int] == p);
        assert(grown.contains(p));
        let i = grown.index_of(p);
        if i < arms.len() {
            assert(arms[i] == p);
        }
    }
}

/// Dropping markets keeps the places of the rest.
pub proof fn lemma_forgotten_wf(v: AuthorityView, gone: Set<MarketId>)
    requires
        v.wf(),
    ensures
        v.forgotten(gone).wf(),
{
    let w = v.forgotten(gone);
    let o = v.market_order;
    assert forall|i: int, j: int|
        0 <= i < j < w.market_order.len() && (#[trigger] w.market_order[i]) is Some implies w.market_order[i]
        != (#[trigger] w.market_order[j]) by {
        assert(o[i] is Some && o[i] != o[j]);
    }
    assert forall|x: MarketId| #[trigger] w.markets.contains_key(x) <==> w.market_order.contains(
        Some(x),
    ) by {
        assert(v.markets.contains_key(x) <==> o.contains(Some(x)));
        if w.markets.contains_key(x) {
            let i = o.index_of(Some(x));
            assert(w.market_order[i] == Some(x));
        }
        if w.market_order.contains(Some(x)) {
            let i = w.market_order.index_of(Some(x));
            assert(o[i] == Some(x));
        }
    }
    assert forall|x: ScopeId| #[trigger] w.scopes.contains_key(x) implies w.eligible_arms(x)
        == v.eligible_arms(x) by {}
}

/// A market that was forgotten and is recorded again is the youngest, and the place it left is nobody's:
/// every market that stayed is dropped for want of room before it.
pub proof fn law_a_returning_market_is_the_youngest(v: AuthorityView, k: MarketId, m: MarketView)
    requires
        v.wf(),
    ensures
        !v.forgotten(set![k]).market_order.contains(Some(k)),
        v.forgotten(set![k]).market_order.len() == v.market_order.len(),
        v.forgotten(set![k]).with_market(k, m).market_order.last() == Some(k),
{
    lemma_forgotten_wf(v, set![k]);
    let w = v.forgotten(set![k]);
    assert(w.markets.contains_key(k) <==> w.market_order.contains(Some(k)));
    assert(!w.markets.contains_key(k));
}

/// An empty place costs nothing: to take it drops no market.
pub proof fn law_an_empty_place_costs_nothing(v: AuthorityView, k: MarketId, m: MarketView)
    requires
        v.wf(),
        v.market_order.len() > 0,
        v.market_order[0] is None,
    ensures
        v.with_market(k, m).markets == v.markets.insert(k, m),
{
}

/// The recorded markets stay within the cap.
pub proof fn law_tracked_markets_are_bounded(v: AuthorityView)
    requires
        v.wf(),
    ensures
        v.markets.dom().finite(),
        v.markets.dom().len() <= MAX_TRACKED_MARKETS,
{
    let o = v.market_order;
    let all = o.map_values(|place: Option<MarketId>| place->0);
    all.lemma_cardinality_of_set();
    vstd::seq_lib::seq_to_set_is_finite(all);
    assert(v.markets.dom().subset_of(all.to_set())) by {
        assert forall|k: MarketId| v.markets.dom().contains(k) implies all.to_set().contains(k) by {
            assert(v.markets.contains_key(k));
            assert(all[o.index_of(Some(k))] == k);
        }
    }
    vstd::set_lib::lemma_len_subset(v.markets.dom(), all.to_set());
}

/// A universe is only handed over on speed to an arm other than its leader that has enough samples,
/// won often enough and leads by the margin on median.
pub proof fn law_a_winner_cleared_every_condition(
    arms: Seq<ArmView>,
    n: int,
    leader: Publisher,
    cfg: AuthorityConfig,
)
    requires
        0 <= n <= arms.len(),
    ensures
        match best_challenger_spec(arms, n, leader, cfg) {
            Some(arm) => {
                &&& qualifies(arm, leader, cfg)
                &&& is_arm(arms, arm.who)
                &&& forall|i: int|
                    0 <= i < n && qualifies(#[trigger] arms[i], leader, cfg) ==> median(arm.samples)
                        <= median(arms[i].samples)
            },
            None => forall|i: int| 0 <= i < n ==> !qualifies(#[trigger] arms[i], leader, cfg),
        },
    decreases n,
{
    if n > 0 {
        law_a_winner_cleared_every_condition(arms, n - 1, leader, cfg);
        assert(arms[n - 1].who == arms[n - 1].who);
    }
}

/// A closed window leaves no evidence behind: closed again, it elects nobody.
pub proof fn law_a_close_forgets_the_evidence(s: ScopeView, cfg: AuthorityConfig, now_ns: u64)
    requires
        s.due(cfg, now_ns),
    ensures
        s.closed_at(cfg, now_ns).window_opened_ns == now_ns,
        s.closed_at(cfg, now_ns).winner(cfg) is None,
{
    let after = s.closed_at(cfg, now_ns);
    law_a_winner_cleared_every_condition(
        after.arms,
        after.arms.len() as int,
        after.leader,
        cfg,
    );
    match best_challenger_spec(after.arms, after.arms.len() as int, after.leader, cfg) {
        Some(arm) => {
            lemma_winner_is_listed(after.arms, after.arms.len() as int, after.leader, cfg);
        },
        None => {},
    }
}

proof fn lemma_winner_is_listed(arms: Seq<ArmView>, n: int, leader: Publisher, cfg: AuthorityConfig)
    requires
        0 <= n <= arms.len(),
    ensures
        best_challenger_spec(arms, n, leader, cfg) is Some ==> exists|i: int|
            0 <= i < n && #[trigger] arms[i] == best_challenger_spec(arms, n, leader, cfg)->0,
    decreases n,
{
    if n > 0 {
        lemma_winner_is_listed(arms, n - 1, leader, cfg);
        let before = best_challenger_spec(arms, n - 1, leader, cfg);
        if before is Some {
            let i = choose|i: int| 0 <= i < n - 1 && #[trigger] arms[i] == before->0;
            assert(arms[i] == before->0);
        }
        assert(arms[n - 1] == arms[n - 1]);
    }
}

/// The evidence of the leader is never collected: it does not compete with itself.
pub proof fn law_the_leader_does_not_compete_with_itself(v: AuthorityView, s: ScopeId, lead_ns: i64)
    requires
        v.scopes.contains_key(s),
    ensures
        v.lead_observed(s, v.scopes[s].leader, lead_ns).scopes == v.scopes,
{
}

} // verus!
