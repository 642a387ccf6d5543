//! Racing one order-level market's events across publishers: each venue event is delivered once, and
//! an order that is gone stays gone.

use crate::floor::{elapsed, elapsed_ns};
use crate::model::{BookAction, BookChange, Publisher};
use crate::recent::{Recent, RecentView};
use crate::table::{mix, mix_spec, Key, MIX_SEED};
use vstd::prelude::*;

verus! {

/// Cap on order events and on tracked orders remembered per order-level market.
pub const MAX_SEEN_ORDER_EVENTS: usize = 1024;

/// One order-level event's venue identity: which order, what happened to it, and the state it ended
/// in. Every publisher of a distributed venue reports these identically for one venue event. The size
/// is part of the identity: successive partial fills of one order differ only there.
#[derive(Debug, Clone, Copy, PartialEq, Eq, Hash, Structural)]
pub struct OrderEvent {
    pub order_id: u64,
    pub action: BookAction,
    pub price: i128,
    pub size: i128,
}

impl OrderEvent {
    /// The event that a change of a resting order stands for.
    pub open spec fn of_spec(c: BookChange) -> OrderEvent {
        OrderEvent { order_id: c.order_id, action: c.action, price: c.price, size: c.size }
    }

    /// The event that a change of a resting order stands for.
    pub fn of(c: &BookChange) -> (r: Self)
        ensures
            r == OrderEvent::of_spec(*c),
    {
        OrderEvent { order_id: c.order_id, action: c.action, price: c.price, size: c.size }
    }
}

impl Key for OrderEvent {
    type Id = OrderEvent;

    open spec fn id(&self) -> OrderEvent {
        *self
    }

    open spec fn code_of(id: OrderEvent) -> u64 {
        mix_spec(mix_spec(MIX_SEED, id.order_id), (id.size as u64))
    }

    fn same(&self, other: &Self) -> (r: bool) {
        *self == *other
    }

    fn code(&self) -> (r: u64) {
        mix(mix(MIX_SEED, self.order_id), self.size as u64)
    }

    fn dup(&self) -> (r: Self) {
        *self
    }
}

/// Why a market must be re-baselined before it can be served again.
#[derive(Debug, Clone, Copy, PartialEq, Eq, Hash, Structural)]
pub enum Forced {
    /// Two publishers disagree about a resting order's size.
    Disagreement,
    /// A tracked order was forgotten while a peer's copy of it could still be racing.
    GuardEvicted,
}

impl Forced {
    pub fn label(self) -> (r: &'static str)
        ensures
            r@ == (match self {
                Forced::Disagreement => "disagreement"@,
                Forced::GuardEvicted => "guard_evicted"@,
            }),
    {
        match self {
            Forced::Disagreement => "disagreement",
            Forced::GuardEvicted => "guard_evicted",
        }
    }
}

/// Whether one order event reaches the wire, and what its arrival said about the arms.
#[derive(Debug, Clone, Copy, PartialEq, Eq, Structural)]
pub enum EventVerdict {
    /// First delivery of this venue event: publish it.
    Deliver,
    /// Delivered already: collapse this copy.
    Duplicate,
    /// An order this market has already published as gone; a venue never reuses an id, so this is a
    /// lagging publisher's stale copy.
    Resurrection,
    /// This publisher claims more is resting than a peer already reported, so one of the two books
    /// has drifted. Neither copy is published.
    Disagreement,
}

/// What is known of one order.
#[derive(Clone, Copy)]
pub struct Resting {
    /// The smallest resting quantity any publisher has reported and who reported it; `None` once the
    /// order is gone.
    pub slot: Option<(i128, Publisher)>,
    /// When the order was first delivered; `None` for one seeded from a re-baseline.
    pub delivered: Option<u64>,
}

/// What a [`MarketEvents`] holds.
#[verifier::ext_equal]
pub struct EventsView {
    /// Delivered events with the publisher that delivered each first and when, oldest first.
    pub seen: RecentView<OrderEvent, (Publisher, u64)>,
    /// The tracked orders, oldest first.
    pub resting: RecentView<u64, Resting>,
    /// Why the market can no longer be served from either arm's deltas.
    pub forced: Option<Forced>,
}

/// How an order came to be tracked.
#[derive(Clone, Copy)]
pub enum Origin {
    /// Delivered to the wire, with a peer's copy still plausibly in flight for `window_ns`.
    Delivered { at: u64, window_ns: u64 },
    /// Seeded from a re-baseline's own book: nothing is racing it.
    Seeded,
}

impl Origin {
    pub open spec fn delivered_at_spec(self) -> Option<u64> {
        match self {
            Origin::Delivered { at, .. } => Some(at),
            Origin::Seeded => None,
        }
    }

    fn delivered_at(self) -> (r: Option<u64>)
        ensures
            r == self.delivered_at_spec(),
    {
        match self {
            Origin::Delivered { at, .. } => Some(at),
            Origin::Seeded => None,
        }
    }

    /// Whether forgetting an entry delivered at `other` loses a guard this delivery still needs.
    pub open spec fn races_with_spec(self, other: Option<u64>) -> bool {
        match (self, other) {
            (Origin::Delivered { at, window_ns }, Some(o)) => elapsed(o, at) <= window_ns,
            _ => false,
        }
    }

    fn races_with(self, other: Option<u64>) -> (r: bool)
        ensures
            r == self.races_with_spec(other),
    {
        match (self, other) {
            (Origin::Delivered { at, window_ns }, Some(o)) => elapsed_ns(o, at) <= window_ns,
            _ => false,
        }
    }
}

/// The delivered events with those older than `window_ns` forgotten, oldest first and stopping at the
/// first one still inside the window.
pub open spec fn unexpired(
    seen: RecentView<OrderEvent, (Publisher, u64)>,
    now: u64,
    window_ns: u64,
) -> RecentView<OrderEvent, (Publisher, u64)>
    decreases seen.order.len(),
{
    if seen.order.len() > 0 && elapsed(seen.map[seen.order[0]].1, now) > window_ns {
        unexpired(seen.pop(), now, window_ns)
    } else {
        seen
    }
}

impl EventsView {
    pub open spec fn empty() -> Self {
        EventsView { seen: RecentView::empty(), resting: RecentView::empty(), forced: None }
    }

    /// Both memories list each key once and stay within [`MAX_SEEN_ORDER_EVENTS`].
    pub open spec fn wf(self) -> bool {
        &&& self.seen.wf()
        &&& self.resting.wf()
        &&& self.seen.len() <= MAX_SEEN_ORDER_EVENTS
        &&& self.resting.len() <= MAX_SEEN_ORDER_EVENTS
    }

    /// A cause recorded; the first cause wins.
    pub open spec fn force(self, why: Forced) -> Self {
        EventsView {
            forced: if self.forced is Some {
                self.forced
            } else {
                Some(why)
            },
            ..self
        }
    }

    /// One order's resting state recorded, the oldest order forgotten if there are too many.
    pub open spec fn track(self, order_id: u64, slot: Option<(i128, Publisher)>, how: Origin) -> Self {
        if self.resting.has(order_id) {
            EventsView {
                resting: self.resting.set(
                    order_id,
                    Resting { slot, delivered: self.resting.map[order_id].delivered },
                ),
                ..self
            }
        } else {
            let added = self.resting.push(
                order_id,
                Resting { slot, delivered: how.delivered_at_spec() },
            );
            if added.len() > MAX_SEEN_ORDER_EVENTS {
                let after = EventsView { resting: added.pop(), ..self };
                if how.races_with_spec(added.map[added.order[0]].delivered) {
                    after.force(Forced::GuardEvicted)
                } else {
                    after
                }
            } else {
                EventsView { resting: added, ..self }
            }
        }
    }

    /// The race decision for one event, and the state afterwards.
    pub open spec fn step(
        self,
        ev: OrderEvent,
        publisher: Publisher,
        arrival_ns: u64,
        window_ns: u64,
    ) -> (Self, EventVerdict) {
        let seen = unexpired(self.seen, arrival_ns, window_ns);
        if seen.has(ev) {
            (EventsView { seen, ..self }, EventVerdict::Duplicate)
        } else {
            let now = EventsView {
                seen: seen.push(ev, (publisher, arrival_ns)).trim(MAX_SEEN_ORDER_EVENTS as int),
                ..self
            };
            if now.resting.has(ev.order_id) {
                let r = now.resting.map[ev.order_id];
                match r.slot {
                    None => if ev.size == 0 {
                        (now, EventVerdict::Deliver)
                    } else {
                        (now, EventVerdict::Resurrection)
                    },
                    Some((size, by)) => if ev.size == 0 {
                        (
                            EventsView {
                                resting: now.resting.set(
                                    ev.order_id,
                                    Resting { slot: None, delivered: r.delivered },
                                ),
                                ..now
                            },
                            EventVerdict::Deliver,
                        )
                    } else if ev.size > size && by != publisher {
                        (now.force(Forced::Disagreement), EventVerdict::Disagreement)
                    } else if ev.size < size {
                        (
                            EventsView {
                                resting: now.resting.set(
                                    ev.order_id,
                                    Resting {
                                        slot: Some((ev.size, publisher)),
                                        delivered: r.delivered,
                                    },
                                ),
                                ..now
                            },
                            EventVerdict::Deliver,
                        )
                    } else {
                        (now, EventVerdict::Deliver)
                    },
                }
            } else {
                (
                    now.track(
                        ev.order_id,
                        if ev.size == 0 {
                            None
                        } else {
                            Some((ev.size, publisher))
                        },
                        Origin::Delivered { at: arrival_ns, window_ns },
                    ),
                    EventVerdict::Deliver,
                )
            }
        }
    }

    /// The resting orders of the first `n` of `changes` recorded as `publisher`'s.
    pub open spec fn seeded(self, changes: Seq<BookChange>, n: int, publisher: Publisher) -> Self
        decreases n,
    {
        if n <= 0 {
            self
        } else {
            let c = changes[n - 1];
            let before = self.seeded(changes, n - 1, publisher);
            if c.order_id != 0 && c.size != 0 {
                before.track(c.order_id, Some((c.size, publisher)), Origin::Seeded)
            } else {
                before
            }
        }
    }

    /// The state re-pointed at a re-baseline's book: the delivered events and any forced cause are
    /// forgotten, the tracked orders are not, and the book's own orders are recorded.
    pub open spec fn rebaselined(self, changes: Seq<BookChange>, publisher: Publisher) -> Self {
        EventsView { seen: RecentView::empty(), forced: None, ..self }.seeded(
            changes,
            changes.len() as int,
            publisher,
        )
    }
}

/// One order-level market's race state: the events recently delivered to the wire, and the smallest
/// resting quantity any publisher has claimed for each tracked order.
pub struct MarketEvents {
    seen: Recent<OrderEvent, (Publisher, u64)>,
    resting: Recent<u64, Resting>,
    forced: Option<Forced>,
}

impl View for MarketEvents {
    type V = EventsView;

    closed spec fn view(&self) -> EventsView {
        EventsView { seen: self.seen@, resting: self.resting@, forced: self.forced }
    }
}

impl MarketEvents {
    pub closed spec fn wf(&self) -> bool {
        &&& self.seen.wf()
        &&& self.resting.wf()
        &&& self@.wf()
    }

    pub proof fn lemma_wf(&self)
        requires
            self.wf(),
        ensures
            self@.wf(),
    {
    }

    pub fn new() -> (r: Self)
        ensures
            r.wf(),
            r@ == EventsView::empty(),
    {
        MarketEvents { seen: Recent::new(), resting: Recent::new(), forced: None }
    }

    /// How many delivered events are remembered.
    pub fn seen_len(&self) -> (r: usize)
        requires
            self.wf(),
        ensures
            r == self@.seen.len(),
    {
        self.seen.len()
    }

    /// How many orders are tracked.
    pub fn resting_len(&self) -> (r: usize)
        requires
            self.wf(),
        ensures
            r == self@.resting.len(),
    {
        self.resting.len()
    }

    /// The race decision for one order-level change from `publisher`, arriving at `arrival_ns`, with
    /// events older than `window_ns` forgotten first.
    pub fn offer(
        &mut self,
        ev: OrderEvent,
        publisher: Publisher,
        arrival_ns: u64,
        window_ns: u64,
    ) -> (r: EventVerdict)
        requires
            old(self).wf(),
        ensures
            final(self).wf(),
            (final(self)@, r) == old(self)@.step(ev, publisher, arrival_ns, window_ns),
    {
        self.expire(arrival_ns, window_ns);
        if self.seen.contains(&ev) {
            return EventVerdict::Duplicate;
        }
        proof {
            crate::recent::lemma_push_wf(self.seen@, ev, (publisher, arrival_ns));
            crate::recent::lemma_pop_wf(self.seen@.push(ev, (publisher, arrival_ns)));
        }
        self.seen.push(ev, (publisher, arrival_ns));
        self.seen.trim(MAX_SEEN_ORDER_EVENTS);
        let known: Option<Resting> = match self.resting.get(&ev.order_id) {
            Some(r) => Some(*r),
            None => None,
        };
        match known {
            Some(r) => match r.slot {
                None => {
                    if ev.size == 0 {
                        EventVerdict::Deliver
                    } else {
                        EventVerdict::Resurrection
                    }
                },
                Some((size, by)) => {
                    if ev.size == 0 {
                        self.resting.set(
                            ev.order_id,
                            Resting { slot: None, delivered: r.delivered },
                        );
                        proof {
                            self.resting.lemma_wf();
                        }
                        EventVerdict::Deliver
                    } else if ev.size > size && by != publisher {
                        self.force(Forced::Disagreement);
                        EventVerdict::Disagreement
                    } else if ev.size < size {
                        self.resting.set(
                            ev.order_id,
                            Resting { slot: Some((ev.size, publisher)), delivered: r.delivered },
                        );
                        proof {
                            self.resting.lemma_wf();
                        }
                        EventVerdict::Deliver
                    } else {
                        EventVerdict::Deliver
                    }
                },
            },
            None => {
                let slot: Option<(i128, Publisher)> = if ev.size == 0 {
                    None
                } else {
                    Some((ev.size, publisher))
                };
                self.track(ev.order_id, slot, Origin::Delivered { at: arrival_ns, window_ns });
                EventVerdict::Deliver
            },
        }
    }

    /// Record one order's resting state, forgetting the oldest order if there are too many. To forget
    /// one while a peer's copy of it could still be racing forces the market to re-baseline.
    fn track(&mut self, order_id: u64, slot: Option<(i128, Publisher)>, how: Origin)
        requires
            old(self).wf(),
        ensures
            final(self).wf(),
            final(self)@ == old(self)@.track(order_id, slot, how),
    {
        let known: Option<Resting> = match self.resting.get(&order_id) {
            Some(r) => Some(*r),
            None => None,
        };
        match known {
            Some(r) => {
                self.resting.set(order_id, Resting { slot, delivered: r.delivered });
                proof {
                    self.resting.lemma_wf();
                }
            },
            None => {
                self.resting.push(order_id, Resting { slot, delivered: how.delivered_at() });
                proof {
                    self.resting.lemma_wf();
                }
                if self.resting.len() > MAX_SEEN_ORDER_EVENTS {
                    let gone = self.resting.pop();
                    proof {
                        self.resting.lemma_wf();
                    }
                    match gone {
                        Some((_id, r)) => {
                            if how.races_with(r.delivered) {
                                self.force(Forced::GuardEvicted);
                            }
                        },
                        None => {},
                    }
                }
            },
        }
    }

    fn force(&mut self, why: Forced)
        requires
            old(self).wf(),
        ensures
            final(self).wf(),
            final(self)@ == old(self)@.force(why),
    {
        if self.forced.is_none() {
            self.forced = Some(why);
        }
    }

    /// The recorded cause, forgotten as it is handed out.
    pub fn take_forced(&mut self) -> (r: Option<Forced>)
        requires
            old(self).wf(),
        ensures
            final(self).wf(),
            r == old(self)@.forced,
            final(self)@ == (EventsView { forced: None, ..old(self)@ }),
    {
        self.forced.take()
    }

    /// Re-point the race state at a re-baseline's book. The tracked orders outlive it: a venue still
    /// never reuses an order id, so a stale copy of an order that is gone is still refused.
    pub fn rebaselined(&mut self, changes: &[BookChange], publisher: Publisher)
        requires
            old(self).wf(),
        ensures
            final(self).wf(),
            final(self)@ == old(self)@.rebaselined(changes@, publisher),
    {
        self.seen = Recent::new();
        self.forced = None;
        let ghost start = self@;
        let mut i: usize = 0;
        while i < changes.len()
            invariant
                self.wf(),
                i <= changes.len(),
                self@ == start.seeded(changes@, i as int, publisher),
            decreases changes.len() - i,
        {
            let c = changes[i];
            if c.order_id != 0 && c.size != 0 {
                self.track(c.order_id, Some((c.size, publisher)), Origin::Seeded);
            }
            i += 1;
        }
    }

    /// Forget events delivered more than `window_ns` before `now`.
    fn expire(&mut self, now: u64, window_ns: u64)
        requires
            old(self).wf(),
        ensures
            final(self).wf(),
            final(self)@ == (EventsView {
                seen: unexpired(old(self)@.seen, now, window_ns),
                ..old(self)@
            }),
    {
        let ghost start = self@;
        loop
            invariant
                self.wf(),
                unexpired(self@.seen, now, window_ns) == unexpired(start.seen, now, window_ns),
                self@ == (EventsView { seen: self@.seen, ..start }),
            ensures
                self.wf(),
                self@ == (EventsView { seen: unexpired(start.seen, now, window_ns), ..start }),
            decreases self@.seen.order.len(),
        {
            let stale: bool = match self.seen.oldest() {
                Some((_ev, first)) => elapsed_ns(first.1, now) > window_ns,
                None => false,
            };
            if !stale {
                break;
            }
            let _gone = self.seen.pop();
            proof {
                self.seen.lemma_wf();
            }
        }
    }
}

proof fn lemma_unexpired(
    seen: RecentView<OrderEvent, (Publisher, u64)>,
    now: u64,
    window_ns: u64,
)
    requires
        seen.wf(),
    ensures
        unexpired(seen, now, window_ns).wf(),
        unexpired(seen, now, window_ns).len() <= seen.len(),
        forall|e: OrderEvent| #[trigger]
            seen.has(e) && elapsed(seen.map[e].1, now) <= window_ns ==> unexpired(
                seen,
                now,
                window_ns,
            ).has(e),
    decreases seen.order.len(),
{
    if seen.order.len() > 0 && elapsed(seen.map[seen.order[0]].1, now) > window_ns {
        crate::recent::lemma_pop_wf(seen);
        lemma_unexpired(seen.pop(), now, window_ns);
        assert forall|e: OrderEvent| #[trigger]
            seen.has(e) && elapsed(seen.map[e].1, now) <= window_ns implies unexpired(
            seen,
            now,
            window_ns,
        ).has(e) by {
            assert(seen.pop().has(e));
        }
    }
}

proof fn lemma_track(v: EventsView, order_id: u64, slot: Option<(i128, Publisher)>, how: Origin)
    requires
        v.wf(),
    ensures
        v.track(order_id, slot, how).wf(),
        v.track(order_id, slot, how).seen == v.seen,
{
    if v.resting.has(order_id) {
        let r = Resting { slot, delivered: v.resting.map[order_id].delivered };
        let after = v.resting.set(order_id, r);
        assert forall|x: u64| #[trigger] after.map.contains_key(x) <==> after.order.contains(x) by {
            assert(v.resting.map.contains_key(x) <==> v.resting.order.contains(x));
        }
    } else {
        let r = Resting { slot, delivered: how.delivered_at_spec() };
        crate::recent::lemma_push_wf(v.resting, order_id, r);
        crate::recent::lemma_pop_wf(v.resting.push(order_id, r));
    }
}

/// Whatever arrives, the memory of events and of orders stays within its cap.
pub proof fn law_events_are_bounded(
    v: EventsView,
    ev: OrderEvent,
    publisher: Publisher,
    arrival_ns: u64,
    window_ns: u64,
)
    requires
        v.wf(),
    ensures
        v.step(ev, publisher, arrival_ns, window_ns).0.wf(),
{
    lemma_unexpired(v.seen, arrival_ns, window_ns);
    let seen = unexpired(v.seen, arrival_ns, window_ns);
    if !seen.has(ev) {
        crate::recent::lemma_push_wf(seen, ev, (publisher, arrival_ns));
        crate::recent::lemma_pop_wf(seen.push(ev, (publisher, arrival_ns)));
        let now = EventsView {
            seen: seen.push(ev, (publisher, arrival_ns)).trim(MAX_SEEN_ORDER_EVENTS as int),
            ..v
        };
        let slot = if ev.size == 0 {
            None
        } else {
            Some((ev.size, publisher))
        };
        lemma_track(now, ev.order_id, slot, Origin::Delivered { at: arrival_ns, window_ns });
        lemma_track(now, ev.order_id, None, Origin::Seeded);
        lemma_track(now, ev.order_id, Some((ev.size, publisher)), Origin::Seeded);
    }
}

/// An event delivered no more than the window ago is never delivered again, whoever sends it.
pub proof fn law_an_event_is_delivered_once(
    v: EventsView,
    ev: OrderEvent,
    publisher: Publisher,
    arrival_ns: u64,
    window_ns: u64,
)
    requires
        v.wf(),
        v.seen.has(ev),
        elapsed(v.seen.map[ev].1, arrival_ns) <= window_ns,
    ensures
        v.step(ev, publisher, arrival_ns, window_ns).1 == EventVerdict::Duplicate,
{
    lemma_unexpired(v.seen, arrival_ns, window_ns);
}

/// A delivered event is remembered, with its publisher and its arrival.
pub proof fn law_a_delivered_event_is_remembered(
    v: EventsView,
    ev: OrderEvent,
    publisher: Publisher,
    arrival_ns: u64,
    window_ns: u64,
)
    requires
        v.wf(),
        v.step(ev, publisher, arrival_ns, window_ns).1 == EventVerdict::Deliver,
    ensures
        v.step(ev, publisher, arrival_ns, window_ns).0.seen.has(ev),
        v.step(ev, publisher, arrival_ns, window_ns).0.seen.map[ev] == (publisher, arrival_ns),
{
    lemma_unexpired(v.seen, arrival_ns, window_ns);
    let seen = unexpired(v.seen, arrival_ns, window_ns);
    let pushed = seen.push(ev, (publisher, arrival_ns));
    if pushed.len() > MAX_SEEN_ORDER_EVENTS {
        assert(seen.order.contains(seen.order[0]));
        assert(seen.map.contains_key(seen.order[0]));
        assert(pushed.order[0] == seen.order[0]);
    }
}

/// An order that is gone is not resurrected: no later event that claims it is resting is delivered,
/// and no event but that of its own eviction makes the market forget it. If it is evicted while a
/// copy could still be racing, the market is forced to re-baseline.
pub proof fn law_a_gone_order_stays_gone(
    v: EventsView,
    order_id: u64,
    ev: OrderEvent,
    publisher: Publisher,
    arrival_ns: u64,
    window_ns: u64,
)
    requires
        v.wf(),
        v.resting.has(order_id),
        v.resting.map[order_id].slot is None,
    ensures
        ev.order_id == order_id && ev.size != 0 ==> v.step(
            ev,
            publisher,
            arrival_ns,
            window_ns,
        ).1 != EventVerdict::Deliver,
        ({
            let after = v.step(ev, publisher, arrival_ns, window_ns).0;
            if after.resting.has(order_id) {
                after.resting.map[order_id].slot is None
            } else {
                &&& v.resting.len() == MAX_SEEN_ORDER_EVENTS
                &&& v.resting.order[0] == order_id
                &&& (Origin::Delivered { at: arrival_ns, window_ns }).races_with_spec(
                    v.resting.map[order_id].delivered,
                ) ==> after.forced is Some
            }
        }),
{
}

/// A re-baseline keeps the record of every order that is gone and that its own book does not list.
pub proof fn law_a_rebaseline_keeps_the_gone(
    v: EventsView,
    order_id: u64,
    changes: Seq<BookChange>,
    n: int,
    publisher: Publisher,
)
    requires
        0 <= n <= changes.len(),
        v.resting.has(order_id),
        v.resting.map[order_id].slot is None,
        forall|i: int|
            0 <= i < changes.len() ==> (#[trigger] changes[i]).order_id != order_id
                || changes[i].size == 0,
    ensures
        v.seeded(changes, n, publisher).resting.has(order_id) ==> v.seeded(
            changes,
            n,
            publisher,
        ).resting.map[order_id].slot is None,
    decreases n,
{
    if n > 0 {
        law_a_rebaseline_keeps_the_gone(v, order_id, changes, n - 1, publisher);
    }
}

/// A delivered event never raises what a peer reported as resting.
pub proof fn law_a_delivery_never_rewinds_a_peer(
    v: EventsView,
    ev: OrderEvent,
    publisher: Publisher,
    arrival_ns: u64,
    window_ns: u64,
)
    requires
        v.wf(),
        v.resting.has(ev.order_id),
        v.resting.map[ev.order_id].slot is Some,
        (v.resting.map[ev.order_id].slot->0).1 != publisher,
        v.step(ev, publisher, arrival_ns, window_ns).1 == EventVerdict::Deliver,
    ensures
        ev.size == 0 || ev.size <= (v.resting.map[ev.order_id].slot->0).0,
{
}

/// A disagreement always forces the market to re-baseline.
pub proof fn law_a_disagreement_forces(
    v: EventsView,
    ev: OrderEvent,
    publisher: Publisher,
    arrival_ns: u64,
    window_ns: u64,
)
    requires
        v.step(ev, publisher, arrival_ns, window_ns).1 == EventVerdict::Disagreement,
    ensures
        v.step(ev, publisher, arrival_ns, window_ns).0.forced is Some,
{
}

} // verus!
