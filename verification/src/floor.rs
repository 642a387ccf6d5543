//! The latch-to-leader floor: per key, output time never goes backwards, and within one tick only
//! the publisher that opened it is heard.

use crate::recent::{lemma_pop_wf, lemma_push_wf, Recent, RecentView};
use crate::table::{answers, Key, Table};
use vstd::prelude::*;

verus! {

/// The outcome of an admission decision, shared by [`StalenessFloor`] and
/// [`WindowedDedup`](crate::window::WindowedDedup).
///
/// The caller forwards on [`Admit::Emitted`] and drops otherwise; [`Admit::Contest`] additionally
/// reports a head-to-head between two sources: another publisher already won this identity, and this
/// is the first losing copy from a different publisher.
#[derive(Debug, PartialEq, Eq)]
pub enum Admit<P> {
    /// Forwarded. `opened_tick` is true iff this sample opened its identity: the first delivery at a
    /// new tick, as opposed to the leader's later distinct content within a tick already open. The
    /// window has no ticks, so every identity first seen there is its own open.
    Emitted { opened_tick: bool },
    /// Dropped with no contest to report: a stale tick, an exact repeat, a duplicate by the same
    /// publisher, or a further follower at a tick whose contest was already counted.
    Dropped,
    /// Dropped as the losing copy of a contest: `winner` delivered this identity `lead_ns`
    /// nanoseconds earlier.
    Contest { winner: P, lead_ns: u64 },
}

impl<P> Admit<P> {
    /// Whether the message should be forwarded.
    pub fn emitted(&self) -> (r: bool)
        ensures
            r == (*self is Emitted),
    {
        match self {
            Admit::Emitted { .. } => true,
            _ => false,
        }
    }
}

/// The nanoseconds from `from` to `to`, zero if `to` is not later.
pub open spec fn elapsed(from: u64, to: u64) -> u64 {
    if to >= from {
        (to - from) as u64
    } else {
        0
    }
}

/// The nanoseconds from `from` to `to`, zero if `to` is not later.
pub fn elapsed_ns(from: u64, to: u64) -> (r: u64)
    ensures
        r == elapsed(from, to),
{
    to.saturating_sub(from)
}

/// The tick a key is latched at, as the floor sees it.
#[verifier::ext_equal]
#[verifier::reject_recursive_types(I)]
pub struct Tick<I, P> {
    pub high_water: u64,
    pub leader: P,
    pub leader_arrival_ns: u64,
    pub follower_recorded: bool,
    /// The distinct contents the leader has emitted at this tick and that are still remembered,
    /// oldest first.
    pub contents: RecentView<I, ()>,
}

/// The tick that `publisher` opens with `content`.
pub open spec fn opened<I, P>(source_ts: u64, content: I, publisher: P, arrival_ns: u64) -> Tick<I, P> {
    Tick {
        high_water: source_ts,
        leader: publisher,
        leader_arrival_ns: arrival_ns,
        follower_recorded: false,
        contents: RecentView::empty().push(content, ()),
    }
}

/// The latch-to-leader decision at a tick, and the tick afterwards. `is_leader` says whether the
/// sample comes from the tick's leader.
pub open spec fn tick_step<I, P>(
    tick: Tick<I, P>,
    cap: int,
    source_ts: u64,
    content: I,
    publisher: P,
    is_leader: bool,
    arrival_ns: u64,
) -> (Tick<I, P>, Admit<P>) {
    if source_ts < tick.high_water {
        (tick, Admit::Dropped)
    } else if source_ts > tick.high_water {
        (opened(source_ts, content, publisher, arrival_ns), Admit::Emitted { opened_tick: true })
    } else if !is_leader {
        if tick.follower_recorded {
            (tick, Admit::Dropped)
        } else {
            (
                Tick { follower_recorded: true, ..tick },
                Admit::Contest {
                    winner: tick.leader,
                    lead_ns: elapsed(tick.leader_arrival_ns, arrival_ns),
                },
            )
        }
    } else if tick.contents.has(content) {
        (tick, Admit::Dropped)
    } else {
        (
            Tick { contents: tick.contents.push(content, ()).trim(cap), ..tick },
            Admit::Emitted { opened_tick: false },
        )
    }
}

struct TickState<V: Key, P> {
    high_water: u64,
    leader: P,
    leader_arrival_ns: u64,
    follower_recorded: bool,
    contents: Recent<V, ()>,
}

impl<V: Key, P> TickState<V, P> {
    spec fn tick(self) -> Tick<V::Id, P> {
        Tick {
            high_water: self.high_water,
            leader: self.leader,
            leader_arrival_ns: self.leader_arrival_ns,
            follower_recorded: self.follower_recorded,
            contents: self.contents@,
        }
    }

    fn open(source_ts: u64, content: V, publisher: P, arrival_ns: u64) -> (r: Self)
        ensures
            r.contents.wf(),
            r.tick() == opened(source_ts, content.id(), publisher, arrival_ns),
    {
        let mut contents: Recent<V, ()> = Recent::new();
        contents.push(content, ());
        TickState {
            high_water: source_ts,
            leader: publisher,
            leader_arrival_ns: arrival_ns,
            follower_recorded: false,
            contents,
        }
    }
}

impl<V: Key, P: Key + Copy> TickState<V, P> {
    fn step(
        &mut self,
        cap: usize,
        source_ts: u64,
        content: V,
        publisher: P,
        arrival_ns: u64,
    ) -> (r: Admit<P>)
        requires
            old(self).contents.wf(),
        ensures
            final(self).contents.wf(),
            (final(self).tick(), r) == tick_step(
                old(self).tick(),
                cap as int,
                source_ts,
                content.id(),
                publisher,
                publisher.id() == old(self).leader.id(),
                arrival_ns,
            ),
    {
        if source_ts < self.high_water {
            Admit::Dropped
        } else if source_ts > self.high_water {
            *self = TickState::open(source_ts, content, publisher, arrival_ns);
            Admit::Emitted { opened_tick: true }
        } else if !publisher.same(&self.leader) {
            if self.follower_recorded {
                Admit::Dropped
            } else {
                self.follower_recorded = true;
                Admit::Contest {
                    winner: self.leader,
                    lead_ns: elapsed_ns(self.leader_arrival_ns, arrival_ns),
                }
            }
        } else if self.contents.contains(&content) {
            Admit::Dropped
        } else {
            self.contents.push(content, ());
            self.contents.trim(cap);
            Admit::Emitted { opened_tick: false }
        }
    }
}

/// Per-key latch-to-leader floor on `source_ts`.
///
/// Per key it tracks the highest `source_ts` emitted, the publisher that opened that tick, and the
/// distinct contents it has emitted there. An older `source_ts` is stale for any publisher; a newer
/// one opens the next tick and latches its publisher as leader; within a tick only the leader's new
/// contents pass. The contents remembered per tick are bounded, oldest forgotten first.
pub struct StalenessFloor<K: Key, V: Key, P> {
    state: Table<K, TickState<V, P>>,
    tick_cap: usize,
}

impl<K: Key, V: Key, P> View for StalenessFloor<K, V, P> {
    type V = Map<K::Id, Tick<V::Id, P>>;

    closed spec fn view(&self) -> Map<K::Id, Tick<V::Id, P>> {
        Map::new(|k: K::Id| self.state@.contains_key(k), |k: K::Id| self.state@[k].tick())
    }
}

/// The floor's decision for one sample, and the ticks afterwards.
pub open spec fn floor_step<K, I, P: Key>(
    ticks: Map<K, Tick<I, P>>,
    cap: int,
    key: K,
    source_ts: u64,
    content: I,
    publisher: P,
    arrival_ns: u64,
) -> (Map<K, Tick<I, P>>, Admit<P>) {
    if ticks.contains_key(key) {
        let (tick, decision) = tick_step(
            ticks[key],
            cap,
            source_ts,
            content,
            publisher,
            publisher.id() == ticks[key].leader.id(),
            arrival_ns,
        );
        (ticks.insert(key, tick), decision)
    } else {
        (
            ticks.insert(key, opened(source_ts, content, publisher, arrival_ns)),
            Admit::Emitted { opened_tick: true },
        )
    }
}

impl<K: Key, V: Key, P> StalenessFloor<K, V, P> {
    pub closed spec fn wf(&self) -> bool {
        &&& self.state.wf()
        &&& forall|k: K::Id| #[trigger] self.state@.contains_key(k) ==> self.state@[k].contents.wf()
    }

    /// How many distinct contents are remembered per tick.
    pub closed spec fn cap(&self) -> int {
        self.tick_cap as int
    }
}

impl<K: Key, V: Key, P: Key + Copy> StalenessFloor<K, V, P> {
    pub fn new(tick_cap: usize) -> (r: Self)
        ensures
            r.wf(),
            r.cap() == tick_cap,
            r@ == Map::<K::Id, Tick<V::Id, P>>::empty(),
    {
        let r = StalenessFloor { state: Table::new(), tick_cap };
        assert(r@ =~= Map::empty());
        r
    }

    /// The latch-to-leader decision for this `(source_ts, content)` from `publisher`, arriving at
    /// `arrival_ns`.
    pub fn offer(
        &mut self,
        key: K,
        source_ts: u64,
        content: V,
        publisher: P,
        arrival_ns: u64,
    ) -> (r: Admit<P>)
        requires
            old(self).wf(),
        ensures
            final(self).wf(),
            final(self).cap() == old(self).cap(),
            (final(self)@, r) == floor_step(
                old(self)@,
                old(self).cap(),
                key.id(),
                source_ts,
                content.id(),
                publisher,
                arrival_ns,
            ),
    {
        let cap: usize = self.tick_cap;
        let ghost id = key.id();
        match self.state.find(&key) {
            Some(i) => {
                let ghost was = self.state@[id];
                let st = self.state.value_at_mut(i);
                assert(*st == was);
                let r = st.step(cap, source_ts, content, publisher, arrival_ns);
                assert(self@ =~= old(self)@.insert(id, self.state@[id].tick()));
                r
            },
            None => {
                let st = TickState::open(source_ts, content, publisher, arrival_ns);
                self.state.insert(key, st);
                assert(self@ =~= old(self)@.insert(id, st.tick()));
                Admit::Emitted { opened_tick: true }
            },
        }
    }

    /// Drop the latched tick of every key that `pred` picks, returning how many were dropped. The
    /// next sample for such a key is a first sample: it opens a tick whatever its `source_ts`.
    pub fn reset_where(&mut self, pred: impl Fn(&K) -> bool) -> (r: usize)
        requires
            old(self).wf(),
            forall|k: K| call_requires(pred, (&k,)),
        ensures
            final(self).wf(),
            final(self).cap() == old(self).cap(),
            final(self)@.submap_of(old(self)@),
            forall|i: K::Id| #[trigger]
                old(self)@.contains_key(i) ==> answers(pred, i, !final(self)@.contains_key(i)),
            old(self)@.dom().finite(),
            r == old(self)@.dom().len() - final(self)@.dom().len(),
    {
        let ghost before = *self;
        proof {
            self.state.lemma_len();
            assert(self@.dom() =~= self.state@.dom());
        }
        let dropped: usize = self.state.remove_where(pred);
        proof {
            self.state.lemma_len();
            assert(self@.dom() =~= self.state@.dom());
            assert forall|k: K::Id| #[trigger]
                self.state@.contains_key(k) implies self.state@[k].contents.wf() by {
                assert(before.state@.dom().contains(k));
                assert(before.state@.contains_key(k));
            }
            assert forall|i: K::Id| #[trigger] old(self)@.contains_key(i) implies answers(
                pred,
                i,
                !self@.contains_key(i),
            ) by {
                assert(before.state@.contains_key(i));
            }
        }
        dropped
    }
}

/// One sample offered to the floor.
pub struct Sample<K, I, P> {
    pub key: K,
    pub source_ts: u64,
    pub content: I,
    pub publisher: P,
    pub arrival_ns: u64,
}

/// The ticks after the first `n` of `samples`.
pub open spec fn floor_run<K, I, P: Key>(
    ticks: Map<K, Tick<I, P>>,
    cap: int,
    samples: Seq<Sample<K, I, P>>,
    n: int,
) -> Map<K, Tick<I, P>>
    decreases n,
{
    if n <= 0 {
        ticks
    } else {
        let s = samples[n - 1];
        floor_step(
            floor_run(ticks, cap, samples, n - 1),
            cap,
            s.key,
            s.source_ts,
            s.content,
            s.publisher,
            s.arrival_ns,
        ).0
    }
}

/// The decision on sample number `n`.
pub open spec fn floor_decision<K, I, P: Key>(
    ticks: Map<K, Tick<I, P>>,
    cap: int,
    samples: Seq<Sample<K, I, P>>,
    n: int,
) -> Admit<P> {
    let s = samples[n];
    floor_step(
        floor_run(ticks, cap, samples, n),
        cap,
        s.key,
        s.source_ts,
        s.content,
        s.publisher,
        s.arrival_ns,
    ).1
}

/// From one point of a run to a later one, a key's tick only moves forward, and while it stays at
/// one `source_ts` its leader stays and a recorded contest stays recorded.
proof fn lemma_floor_forward<K, I, P: Key>(
    ticks: Map<K, Tick<I, P>>,
    cap: int,
    samples: Seq<Sample<K, I, P>>,
    key: K,
    m: int,
    n: int,
)
    requires
        0 <= m <= n <= samples.len(),
        floor_run(ticks, cap, samples, m).contains_key(key),
    ensures
        floor_run(ticks, cap, samples, n).contains_key(key),
        ({
            let a = floor_run(ticks, cap, samples, m)[key];
            let b = floor_run(ticks, cap, samples, n)[key];
            &&& a.high_water <= b.high_water
            &&& a.high_water == b.high_water ==> {
                &&& a.leader == b.leader
                &&& a.follower_recorded ==> b.follower_recorded
            }
        }),
    decreases n,
{
    if m < n {
        lemma_floor_forward(ticks, cap, samples, key, m, n - 1);
    }
}

/// Per key, forwarded `source_ts` never goes backwards, and all that is forwarded at one `source_ts`
/// comes from one publisher.
pub proof fn law_floor_output_in_order<K, I, P: Key>(
    ticks: Map<K, Tick<I, P>>,
    cap: int,
    samples: Seq<Sample<K, I, P>>,
    i: int,
    j: int,
)
    requires
        0 <= i < j < samples.len(),
        samples[i].key == samples[j].key,
        floor_decision(ticks, cap, samples, i) is Emitted,
        floor_decision(ticks, cap, samples, j) is Emitted,
    ensures
        samples[i].source_ts <= samples[j].source_ts,
        samples[i].source_ts == samples[j].source_ts ==> samples[i].publisher.id()
            == samples[j].publisher.id(),
{
    lemma_floor_forward(ticks, cap, samples, samples[i].key, i + 1, j);
}

/// The contents of every tick are listed once each.
pub open spec fn ticks_wf<K, I, P>(ticks: Map<K, Tick<I, P>>) -> bool {
    forall|k: K| #[trigger] ticks.contains_key(k) ==> ticks[k].contents.wf()
}

/// A sample keeps the contents of its key's tick listed once each.
pub proof fn lemma_floor_step_wf<K, I, P: Key>(
    ticks: Map<K, Tick<I, P>>,
    cap: int,
    key: K,
    source_ts: u64,
    content: I,
    publisher: P,
    arrival_ns: u64,
)
    requires
        ticks_wf(ticks),
        cap >= 0,
    ensures
        ticks_wf(floor_step(ticks, cap, key, source_ts, content, publisher, arrival_ns).0),
{
    let none = RecentView::<I, ()>::empty();
    assert(none.wf());
    lemma_push_wf(none, content, ());
    if ticks.contains_key(key) {
        let was = ticks[key].contents;
        if !was.has(content) {
            lemma_push_wf(was, content, ());
            lemma_pop_wf(was.push(content, ()));
        }
    }
}

/// How many samples of `key` are forwarded from number `m` up to number `n`.
pub open spec fn forwarded_between<K, I, P: Key>(
    ticks: Map<K, Tick<I, P>>,
    cap: int,
    samples: Seq<Sample<K, I, P>>,
    key: K,
    m: int,
    n: int,
) -> int
    decreases n - m,
{
    if n <= m {
        0
    } else {
        forwarded_between(ticks, cap, samples, key, m, n - 1) + if samples[n - 1].key == key
            && floor_decision(ticks, cap, samples, n - 1) is Emitted {
            1int
        } else {
            0
        }
    }
}

proof fn lemma_floor_run_wf<K, I, P: Key>(
    ticks: Map<K, Tick<I, P>>,
    cap: int,
    samples: Seq<Sample<K, I, P>>,
    n: int,
)
    requires
        ticks_wf(ticks),
        cap >= 0,
        0 <= n <= samples.len(),
    ensures
        ticks_wf(floor_run(ticks, cap, samples, n)),
    decreases n,
{
    if n > 0 {
        lemma_floor_run_wf(ticks, cap, samples, n - 1);
        let s = samples[n - 1];
        lemma_floor_step_wf(
            floor_run(ticks, cap, samples, n - 1),
            cap,
            s.key,
            s.source_ts,
            s.content,
            s.publisher,
            s.arrival_ns,
        );
    }
}

/// A forwarded content is remembered, as far from the youngest as contents were forwarded since,
/// while its tick lasts and fewer than `cap` were.
proof fn lemma_floor_remembers<K, I, P: Key>(
    ticks: Map<K, Tick<I, P>>,
    cap: int,
    samples: Seq<Sample<K, I, P>>,
    i: int,
    n: int,
)
    requires
        ticks_wf(ticks),
        cap >= 1,
        0 <= i < n <= samples.len(),
        floor_decision(ticks, cap, samples, i) is Emitted,
    ensures
        ({
            let key = samples[i].key;
            let run = floor_run(ticks, cap, samples, n);
            let since = forwarded_between(ticks, cap, samples, key, i + 1, n);
            let order = run[key].contents.order;
            &&& run.contains_key(key)
            &&& 0 <= since
            &&& run[key].high_water == samples[i].source_ts && since < cap ==> since < order.len()
                && order[order.len() - 1 - since] == samples[i].content
        }),
    decreases n,
{
    let key = samples[i].key;
    lemma_floor_run_wf(ticks, cap, samples, n - 1);
    let was = floor_run(ticks, cap, samples, n - 1);
    let s = samples[n - 1];
    if n > i + 1 {
        lemma_floor_remembers(ticks, cap, samples, i, n - 1);
        lemma_floor_forward(ticks, cap, samples, key, i + 1, n - 1);
        let since = forwarded_between(ticks, cap, samples, key, i + 1, n - 1);
        if s.key == key {
            let order = was[key].contents.order;
            let grown = order.push(s.content);
            if since < cap && was[key].high_water == samples[i].source_ts {
                assert(grown[grown.len() - 1 - (since + 1)] == samples[i].content);
                assert(grown.drop_first().len() > since + 1 ==> grown.drop_first()[grown.len() - 2
                    - (since + 1)] == samples[i].content);
            }
        }
    }
}

/// Per key, a content is not forwarded again at one `source_ts` until `cap` others were.
pub proof fn law_floor_forwards_a_content_once<K, I, P: Key>(
    ticks: Map<K, Tick<I, P>>,
    cap: int,
    samples: Seq<Sample<K, I, P>>,
    i: int,
    j: int,
)
    requires
        ticks_wf(ticks),
        cap >= 1,
        0 <= i < j < samples.len(),
        samples[i].key == samples[j].key,
        samples[i].source_ts == samples[j].source_ts,
        samples[i].content == samples[j].content,
        floor_decision(ticks, cap, samples, i) is Emitted,
        floor_decision(ticks, cap, samples, j) is Emitted,
    ensures
        forwarded_between(ticks, cap, samples, samples[i].key, i + 1, j) >= cap,
{
    let key = samples[i].key;
    lemma_floor_remembers(ticks, cap, samples, i, j);
    lemma_floor_forward(ticks, cap, samples, key, i + 1, j);
    lemma_floor_run_wf(ticks, cap, samples, j);
    let tick = floor_run(ticks, cap, samples, j)[key];
    let since = forwarded_between(ticks, cap, samples, key, i + 1, j);
    if since < cap && tick.high_water == samples[i].source_ts {
        let at = tick.contents.order.len() - 1 - since;
        assert(tick.contents.order.contains(tick.contents.order[at]));
        assert(tick.contents.map.contains_key(samples[i].content));
    }
}

/// Per key, a tick is opened once.
pub proof fn law_floor_opens_a_tick_once<K, I, P: Key>(
    ticks: Map<K, Tick<I, P>>,
    cap: int,
    samples: Seq<Sample<K, I, P>>,
    i: int,
    j: int,
)
    requires
        0 <= i < j < samples.len(),
        samples[i].key == samples[j].key,
        floor_decision(ticks, cap, samples, i) == (Admit::<P>::Emitted { opened_tick: true }),
        floor_decision(ticks, cap, samples, j) == (Admit::<P>::Emitted { opened_tick: true }),
    ensures
        samples[i].source_ts < samples[j].source_ts,
{
    lemma_floor_forward(ticks, cap, samples, samples[i].key, i + 1, j);
}

/// Sample number `x` opens the tick `source_ts` of `key`, and is `publisher`'s.
pub open spec fn opens<K, I, P: Key>(
    ticks: Map<K, Tick<I, P>>,
    cap: int,
    samples: Seq<Sample<K, I, P>>,
    x: int,
    key: K,
    source_ts: u64,
    publisher: P::Id,
) -> bool {
    &&& samples[x].key == key
    &&& samples[x].source_ts == source_ts
    &&& samples[x].publisher.id() == publisher
    &&& floor_decision(ticks, cap, samples, x) == (Admit::<P>::Emitted { opened_tick: true })
}

proof fn lemma_floor_leader_opened<K, I, P: Key>(
    ticks: Map<K, Tick<I, P>>,
    cap: int,
    samples: Seq<Sample<K, I, P>>,
    key: K,
    n: int,
)
    requires
        !ticks.contains_key(key),
        0 <= n <= samples.len(),
        floor_run(ticks, cap, samples, n).contains_key(key),
    ensures
        ({
            let tick = floor_run(ticks, cap, samples, n)[key];
            exists|x: int|
                0 <= x < n && #[trigger] opens(
                    ticks,
                    cap,
                    samples,
                    x,
                    key,
                    tick.high_water,
                    tick.leader.id(),
                )
        }),
    decreases n,
{
    let was = floor_run(ticks, cap, samples, n - 1);
    let tick = floor_run(ticks, cap, samples, n)[key];
    if was.contains_key(key) {
        lemma_floor_leader_opened(ticks, cap, samples, key, n - 1);
        let x = choose|x: int|
            0 <= x < n - 1 && #[trigger] opens(
                ticks,
                cap,
                samples,
                x,
                key,
                was[key].high_water,
                was[key].leader.id(),
            );
        if tick.high_water == was[key].high_water && tick.leader == was[key].leader {
            assert(opens(ticks, cap, samples, x, key, tick.high_water, tick.leader.id()));
        } else {
            assert(opens(ticks, cap, samples, n - 1, key, tick.high_water, tick.leader.id()));
        }
    } else {
        assert(opens(ticks, cap, samples, n - 1, key, tick.high_water, tick.leader.id()));
    }
}

/// Per key, what is forwarded at a tick is its opener's.
pub proof fn law_floor_forwards_the_opener<K, I, P: Key>(
    ticks: Map<K, Tick<I, P>>,
    cap: int,
    samples: Seq<Sample<K, I, P>>,
    i: int,
)
    requires
        0 <= i < samples.len(),
        !ticks.contains_key(samples[i].key),
        floor_decision(ticks, cap, samples, i) is Emitted,
    ensures
        exists|x: int|
            0 <= x <= i && #[trigger] opens(
                ticks,
                cap,
                samples,
                x,
                samples[i].key,
                samples[i].source_ts,
                samples[i].publisher.id(),
            ),
{
    let key = samples[i].key;
    lemma_floor_leader_opened(ticks, cap, samples, key, i + 1);
}

proof fn lemma_floor_within<K, I, P: Key>(
    ticks: Map<K, Tick<I, P>>,
    cap: int,
    samples: Seq<Sample<K, I, P>>,
    key: K,
    source_ts: u64,
    ids: Set<I>,
    i: int,
    n: int,
)
    requires
        ticks_wf(ticks),
        !ticks.contains_key(key),
        cap >= 1,
        ids.finite(),
        ids.len() <= cap,
        forall|x: int|
            0 <= x < samples.len() && (#[trigger] samples[x]).key == key && samples[x].source_ts
                == source_ts ==> ids.contains(samples[x].content),
        0 <= i <= n <= samples.len(),
    ensures
        ({
            let run = floor_run(ticks, cap, samples, n);
            run.contains_key(key) && run[key].high_water == source_ts ==> {
                &&& forall|c: I| #[trigger] run[key].contents.has(c) ==> ids.contains(c)
                &&& i < n && samples[i].key == key && samples[i].source_ts == source_ts
                    && floor_decision(ticks, cap, samples, i) is Emitted
                    ==> run[key].contents.has(samples[i].content)
            }
        }),
    decreases n,
{
    if n > 0 {
        let s = samples[n - 1];
        let was = floor_run(ticks, cap, samples, n - 1);
        lemma_floor_run_wf(ticks, cap, samples, n - 1);
        if i < n {
            lemma_floor_within(ticks, cap, samples, key, source_ts, ids, i, n - 1);
        } else {
            lemma_floor_within(ticks, cap, samples, key, source_ts, ids, n - 1, n - 1);
        }
        if i < n - 1 && samples[i].key == key {
            lemma_floor_forward(ticks, cap, samples, key, i + 1, n - 1);
        }
        if s.key == key && s.source_ts == source_ts && was.contains_key(key)
            && was[key].high_water == source_ts && !was[key].contents.has(s.content) {
            let grown = was[key].contents.push(s.content, ());
            lemma_push_wf(was[key].contents, s.content, ());
            grown.order.unique_seq_to_set();
            assert(grown.order.to_set().subset_of(ids)) by {
                assert forall|c: I| grown.order.to_set().contains(c) implies ids.contains(c) by {
                    assert(grown.map.contains_key(c) <==> grown.order.contains(c));
                    assert(c == s.content || was[key].contents.has(c));
                }
            }
            vstd::set_lib::lemma_len_subset(grown.order.to_set(), ids);
            assert(grown.trim(cap) == grown);
        }
    }
}

/// Per key, where no more than `cap` distinct contents occur at a `source_ts`, none of them is
/// forwarded twice there.
pub proof fn law_floor_never_repeats_within_the_cap<K, I, P: Key>(
    ticks: Map<K, Tick<I, P>>,
    cap: int,
    samples: Seq<Sample<K, I, P>>,
    ids: Set<I>,
    i: int,
    j: int,
)
    requires
        ticks_wf(ticks),
        cap >= 1,
        ids.finite(),
        ids.len() <= cap,
        0 <= i < j < samples.len(),
        !ticks.contains_key(samples[i].key),
        samples[i].key == samples[j].key,
        samples[i].source_ts == samples[j].source_ts,
        forall|x: int|
            0 <= x < samples.len() && (#[trigger] samples[x]).key == samples[i].key
                && samples[x].source_ts == samples[i].source_ts ==> ids.contains(
                samples[x].content,
            ),
        floor_decision(ticks, cap, samples, i) is Emitted,
        floor_decision(ticks, cap, samples, j) is Emitted,
    ensures
        samples[i].content != samples[j].content,
{
    let key = samples[i].key;
    lemma_floor_within(ticks, cap, samples, key, samples[i].source_ts, ids, i, j);
    lemma_floor_forward(ticks, cap, samples, key, i + 1, j);
}

/// Per key, at most one contest is reported at a tick.
pub proof fn law_floor_reports_a_contest_once<K, I, P: Key>(
    ticks: Map<K, Tick<I, P>>,
    cap: int,
    samples: Seq<Sample<K, I, P>>,
    i: int,
    j: int,
)
    requires
        0 <= i < j < samples.len(),
        samples[i].key == samples[j].key,
        floor_decision(ticks, cap, samples, i) is Contest,
        floor_decision(ticks, cap, samples, j) is Contest,
    ensures
        samples[i].source_ts < samples[j].source_ts,
{
    lemma_floor_forward(ticks, cap, samples, samples[i].key, i + 1, j);
}

/// A sample of one key leaves every other key's tick as it was.
pub proof fn law_floor_keys_are_independent<K, I, P: Key>(
    ticks: Map<K, Tick<I, P>>,
    cap: int,
    s: Sample<K, I, P>,
    other: K,
)
    requires
        other != s.key,
    ensures
        ({
            let after = floor_step(
                ticks,
                cap,
                s.key,
                s.source_ts,
                s.content,
                s.publisher,
                s.arrival_ns,
            ).0;
            &&& after.contains_key(other) == ticks.contains_key(other)
            &&& ticks.contains_key(other) ==> after[other] == ticks[other]
        }),
{
}

/// A key with no latched tick, as after a reset, forwards its next sample whatever its `source_ts`,
/// and latches there.
pub proof fn law_floor_reset_reopens<K, I, P: Key>(
    ticks: Map<K, Tick<I, P>>,
    cap: int,
    s: Sample<K, I, P>,
)
    requires
        !ticks.contains_key(s.key),
    ensures
        ({
            let (after, decision) = floor_step(
                ticks,
                cap,
                s.key,
                s.source_ts,
                s.content,
                s.publisher,
                s.arrival_ns,
            );
            &&& decision == (Admit::<P>::Emitted { opened_tick: true })
            &&& after[s.key].high_water == s.source_ts
            &&& after[s.key].leader == s.publisher
        }),
{
}

/// The contents remembered at a tick stay within the cap (or one, for a cap of zero).
pub open spec fn ticks_bounded<K, I, P>(ticks: Map<K, Tick<I, P>>, cap: int) -> bool {
    forall|k: K| #[trigger]
        ticks.contains_key(k) ==> ticks[k].contents.len() <= if cap >= 1 {
            cap
        } else {
            1
        }
}

/// No sample makes the floor remember more contents at a tick than its cap.
pub proof fn law_floor_is_bounded<K, I, P: Key>(
    ticks: Map<K, Tick<I, P>>,
    cap: int,
    s: Sample<K, I, P>,
)
    requires
        ticks_bounded(ticks, cap),
        cap >= 0,
    ensures
        ticks_bounded(
            floor_step(
                ticks,
                cap,
                s.key,
                s.source_ts,
                s.content,
                s.publisher,
                s.arrival_ns,
            ).0,
            cap,
        ),
{
}

} // verus!
