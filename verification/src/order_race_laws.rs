//! What the race of order events delivers, told from the events alone.

use crate::model::{BookChange, Publisher};
use crate::order_race::{
    unexpired, EventVerdict, EventsView, Forced, Origin, OrderEvent, Resting,
};
use crate::recent::RecentView;
use vstd::prelude::*;

verus! {

/// Two changes are the same event exactly if they agree in order, action, price and size.
pub proof fn law_an_event_is_its_order_action_price_and_size(a: BookChange, b: BookChange)
    ensures
        OrderEvent::of_spec(a) == OrderEvent::of_spec(b) <==> a.order_id == b.order_id && a.action
            == b.action && a.price == b.price && a.size == b.size,
        OrderEvent::of_spec(a).order_id == a.order_id,
        OrderEvent::of_spec(a).size == a.size,
        OrderEvent::of_spec(a).price == a.price,
        OrderEvent::of_spec(a).action == a.action,
{
}

/// The events that expire are the oldest ones, up to the first that is still inside the window; the
/// others stay as they are.
pub proof fn law_events_expire_oldest_first(
    seen: RecentView<OrderEvent, (Publisher, u64)>,
    now: u64,
    window_ns: u64,
) -> (n: int)
    requires
        seen.wf(),
    ensures
        ({
            let left = unexpired(seen, now, window_ns);
            &&& 0 <= n <= seen.order.len()
            &&& forall|i: int|
                0 <= i < n ==> seen.map[#[trigger] seen.order[i]].1 + window_ns < now
            &&& n < seen.order.len() ==> seen.map[seen.order[n]].1 + window_ns >= now
            &&& left.order == seen.order.subrange(n, seen.order.len() as int)
            &&& left.wf()
            &&& forall|e: OrderEvent| #[trigger] left.has(e) ==> seen.has(e) && left.map[e] == seen.map[e]
        }),
    decreases seen.order.len(),
{
    let left = unexpired(seen, now, window_ns);
    if seen.order.len() > 0 && seen.map[seen.order[0]].1 + window_ns < now {
        crate::recent::lemma_pop_wf(seen);
        let rest = seen.pop();
        let n = law_events_expire_oldest_first(rest, now, window_ns);
        assert forall|i: int| 0 <= i < rest.order.len() implies #[trigger] rest.order[i]
            == seen.order[i + 1] && rest.map[rest.order[i]] == seen.map[seen.order[i + 1]] by {
            assert(seen.order[i + 1] != seen.order[0]);
        }
        assert forall|i: int| 0 <= i < n + 1 implies seen.map[#[trigger] seen.order[i]].1 + window_ns
            < now by {
            if i > 0 {
                assert(rest.order[i - 1] == seen.order[i]);
            }
        }
        if n + 1 < seen.order.len() {
            assert(rest.order[n] == seen.order[n + 1]);
        }
        assert(left.order =~= seen.order.subrange(n + 1, seen.order.len() as int));
        assert forall|e: OrderEvent| #[trigger] left.has(e) implies seen.has(e) && left.map[e]
            == seen.map[e] by {
            assert(rest.has(e));
        }
        n + 1
    } else {
        assert(left.order =~= seen.order.subrange(0, seen.order.len() as int));
        0
    }
}

/// What becomes of an event: a copy of one that is remembered is a duplicate and changes no order.
/// Of the others, one of an order that is not tracked is delivered, and so is one that says that an
/// order is gone; one that says of a gone order that it rests is a resurrection; one that says that
/// more rests than another publisher said is a disagreement; the rest are delivered. What is
/// remembered of an order is the smallest size that was said of it, and who said so first, or that
/// it is gone.
pub proof fn law_what_becomes_of_an_event(
    v: EventsView,
    ev: OrderEvent,
    p: Publisher,
    at: u64,
    window_ns: u64,
)
    requires
        v.wf(),
    ensures
        ({
            let (w, verdict) = v.step(ev, p, at, window_ns);
            let id = ev.order_id;
            if unexpired(v.seen, at, window_ns).has(ev) {
                verdict == EventVerdict::Duplicate && w.resting == v.resting && w.forced == v.forced
            } else if !v.resting.has(id) {
                &&& verdict == EventVerdict::Deliver
                &&& w.resting.has(id)
                &&& w.resting.map[id].delivered == Some(at)
                &&& w.resting.map[id].slot == (if ev.size == 0 {
                    None
                } else {
                    Some((ev.size, p))
                })
                &&& w.resting.order.last() == id
                &&& v.resting.len() < 1024 ==> w.forced == v.forced && w.resting.len()
                    == v.resting.len() + 1
                &&& v.resting.len() == 1024 ==> {
                    let old = v.resting.order[0];
                    let first = v.resting.map[old].delivered;
                    let racing = first is Some && at <= first->0 + window_ns;
                    &&& w.resting.len() == 1024
                    &&& !w.resting.has(old)
                    &&& w.forced == (if v.forced is Some {
                        v.forced
                    } else if racing {
                        Some(Forced::GuardEvicted)
                    } else {
                        None
                    })
                }
            } else {
                let known = v.resting.map[id].slot;
                let more = known is Some && ev.size > (known->0).0 && (known->0).1 != p;
                &&& verdict == (if ev.size == 0 {
                    EventVerdict::Deliver
                } else if known is None {
                    EventVerdict::Resurrection
                } else if more {
                    EventVerdict::Disagreement
                } else {
                    EventVerdict::Deliver
                })
                &&& w.resting.order == v.resting.order
                &&& w.resting.has(id)
                &&& w.resting.map[id].delivered == v.resting.map[id].delivered
                &&& w.resting.map[id].slot == (if ev.size == 0 || known is None {
                    None
                } else if ev.size < (known->0).0 {
                    Some((ev.size, p))
                } else {
                    known
                })
                &&& w.forced == (if v.forced is None && verdict == EventVerdict::Disagreement {
                    Some(Forced::Disagreement)
                } else {
                    v.forced
                })
            }
        }),
        forall|o: u64|
            o != ev.order_id && #[trigger] v.step(ev, p, at, window_ns).0.resting.has(o) ==> {
                &&& v.resting.has(o)
                &&& v.step(ev, p, at, window_ns).0.resting.map[o] == v.resting.map[o]
            },
{
    let w = v.step(ev, p, at, window_ns).0;
    if v.resting.len() == 1024 {
        let old = v.resting.order[0];
        assert(v.resting.order.contains(old));
        assert(v.resting.map.contains_key(old));
        let pushed = v.resting.push(
            ev.order_id,
            Resting { slot: None, delivered: Some(at) },
        );
        assert(pushed.order[0] == old);
    }
}

/// One event offered to the race.
pub struct Told {
    pub ev: OrderEvent,
    pub publisher: Publisher,
    pub arrival_ns: u64,
}

/// The race after the first `n` events.
pub open spec fn after_events(told: Seq<Told>, window_ns: u64, n: int) -> EventsView
    decreases n,
{
    if n <= 0 {
        EventsView::empty()
    } else {
        let t = told[n - 1];
        after_events(told, window_ns, n - 1).step(t.ev, t.publisher, t.arrival_ns, window_ns).0
    }
}

/// What became of event number `n`.
pub open spec fn verdict_on(told: Seq<Told>, window_ns: u64, n: int) -> EventVerdict {
    let t = told[n];
    after_events(told, window_ns, n).step(t.ev, t.publisher, t.arrival_ns, window_ns).1
}

/// Some event before number `n` said of the order that this much of it was left.
pub open spec fn was_told(told: Seq<Told>, n: int, order_id: u64, size: i128) -> bool {
    exists|j: int|
        0 <= j < n && (#[trigger] told[j]).ev.order_id == order_id && told[j].ev.size == size
}

proof fn lemma_known_was_told(told: Seq<Told>, window_ns: u64, n: int)
    requires
        0 <= n <= told.len(),
    ensures
        ({
            let v = after_events(told, window_ns, n);
            &&& v.wf()
            &&& forall|e: OrderEvent| #[trigger]
                v.seen.has(e) ==> exists|j: int| 0 <= j < n && (#[trigger] told[j]).ev == e
            &&& forall|id: u64| #[trigger]
                v.resting.has(id) ==> match v.resting.map[id].slot {
                    None => was_told(told, n, id, 0),
                    Some((size, by)) => was_told(told, n, id, size),
                }
        }),
    decreases n,
{
    if n > 0 {
        lemma_known_was_told(told, window_ns, n - 1);
        let v = after_events(told, window_ns, n - 1);
        let w = after_events(told, window_ns, n);
        let t = told[n - 1];
        crate::order_race::law_events_are_bounded(v, t.ev, t.publisher, t.arrival_ns, window_ns);
        law_what_becomes_of_an_event(v, t.ev, t.publisher, t.arrival_ns, window_ns);
        let cut = law_events_expire_oldest_first(v.seen, t.arrival_ns, window_ns);
        assert forall|e: OrderEvent| #[trigger] w.seen.has(e) implies exists|j: int|
            0 <= j < n && (#[trigger] told[j]).ev == e by {
            if e == t.ev {
                assert(told[n - 1].ev == e);
            } else {
                assert(unexpired(v.seen, t.arrival_ns, window_ns).has(e));
                let j = choose|j: int| 0 <= j < n - 1 && (#[trigger] told[j]).ev == e;
                assert(told[j].ev == e);
            }
        }
        assert forall|id: u64| #[trigger] w.resting.has(id) implies match w.resting.map[id].slot {
            None => was_told(told, n, id, 0),
            Some((size, by)) => was_told(told, n, id, size),
        } by {
            assert(forall|size: i128| #[trigger]
                was_told(told, n - 1, id, size) ==> was_told(told, n, id, size)) by {
                assert forall|size: i128| #[trigger] was_told(told, n - 1, id, size) implies was_told(
                    told,
                    n,
                    id,
                    size,
                ) by {
                    let j = choose|j: int|
                        0 <= j < n - 1 && (#[trigger] told[j]).ev.order_id == id && told[j].ev.size
                            == size;
                    assert(told[j].ev.order_id == id);
                }
            }
            if id == t.ev.order_id {
                assert(told[n - 1].ev.order_id == id);
                assert(was_told(told, n, id, t.ev.size));
                if v.resting.has(id) {
                    assert(v.resting.map[id].slot is None ==> was_told(told, n - 1, id, 0));
                }
            } else {
                assert(v.resting.has(id));
            }
        }
    }
}

/// An event that nobody told before is delivered if nobody told of its order that it is gone, or
/// that less of it was left.
pub proof fn law_news_of_an_order_is_delivered(told: Seq<Told>, window_ns: u64, n: int)
    requires
        0 <= n < told.len(),
        forall|j: int| 0 <= j < n ==> (#[trigger] told[j]).ev != told[n].ev,
        forall|j: int|
            0 <= j < n && (#[trigger] told[j]).ev.order_id == told[n].ev.order_id ==> told[j].ev.size != 0
                && told[j].ev.size >= told[n].ev.size,
    ensures
        verdict_on(told, window_ns, n) == EventVerdict::Deliver,
{
    lemma_known_was_told(told, window_ns, n);
    let v = after_events(told, window_ns, n);
    let t = told[n];
    law_what_becomes_of_an_event(v, t.ev, t.publisher, t.arrival_ns, window_ns);
    let cut = law_events_expire_oldest_first(v.seen, t.arrival_ns, window_ns);
    if unexpired(v.seen, t.arrival_ns, window_ns).has(t.ev) {
        assert(v.seen.has(t.ev));
    }
    if v.resting.has(t.ev.order_id) {
        match v.resting.map[t.ev.order_id].slot {
            None => {
                assert(was_told(told, n, t.ev.order_id, 0));
            },
            Some((size, by)) => {
                assert(was_told(told, n, t.ev.order_id, size));
            },
        }
    }
}

/// That an order is gone is delivered, if nobody told it before in the same words.
pub proof fn law_the_end_of_an_order_is_delivered(told: Seq<Told>, window_ns: u64, n: int)
    requires
        0 <= n < told.len(),
        told[n].ev.size == 0,
        forall|j: int| 0 <= j < n ==> (#[trigger] told[j]).ev != told[n].ev,
    ensures
        verdict_on(told, window_ns, n) == EventVerdict::Deliver,
{
    lemma_known_was_told(told, window_ns, n);
    let v = after_events(told, window_ns, n);
    let t = told[n];
    law_what_becomes_of_an_event(v, t.ev, t.publisher, t.arrival_ns, window_ns);
    let cut = law_events_expire_oldest_first(v.seen, t.arrival_ns, window_ns);
    if unexpired(v.seen, t.arrival_ns, window_ns).has(t.ev) {
        assert(v.seen.has(t.ev));
    }
}

/// A re-baseline forgets the delivered events and the cause that forced it, and tracks each resting
/// order that it lists, as the publisher's and with the size last listed, while there is room.
pub proof fn law_a_rebaseline_tracks_its_book(
    v: EventsView,
    changes: Seq<BookChange>,
    p: Publisher,
    i: int,
)
    requires
        v.wf(),
        v.resting.len() + changes.len() <= 1024,
        0 <= i < changes.len(),
        changes[i].order_id != 0,
        changes[i].size != 0,
        forall|j: int|
            i < j < changes.len() ==> (#[trigger] changes[j]).order_id != changes[i].order_id,
    ensures
        ({
            let w = v.rebaselined(changes, p);
            &&& w.seen.len() == 0
            &&& w.forced is None
            &&& w.resting.has(changes[i].order_id)
            &&& w.resting.map[changes[i].order_id].slot == Some((changes[i].size, p))
        }),
{
    let start = EventsView { seen: RecentView::empty(), forced: None, ..v };
    lemma_seeded(start, changes, changes.len() as int, p, i);
}

proof fn lemma_seeded(v: EventsView, changes: Seq<BookChange>, n: int, p: Publisher, i: int)
    requires
        v.seen.len() == 0,
        v.forced is None,
        v.resting.len() + changes.len() <= 1024,
        0 <= n <= changes.len(),
        0 <= i < changes.len(),
        changes[i].order_id != 0,
        changes[i].size != 0,
        forall|j: int|
            i < j < changes.len() ==> (#[trigger] changes[j]).order_id != changes[i].order_id,
    ensures
        ({
            let w = v.seeded(changes, n, p);
            &&& w.seen.len() == 0
            &&& w.forced is None
            &&& w.resting.len() <= v.resting.len() + n
            &&& i < n ==> w.resting.has(changes[i].order_id) && w.resting.map[changes[i].order_id].slot
                == Some((changes[i].size, p))
        }),
    decreases n,
{
    if n > 0 {
        lemma_seeded(v, changes, n - 1, p, i);
    }
}

/// A re-baseline says nothing of an order that it does not list as resting: what was known of it
/// stays, and while there is room nothing is forgotten.
pub proof fn law_a_rebaseline_touches_no_other_order(
    v: EventsView,
    changes: Seq<BookChange>,
    p: Publisher,
    id: u64,
)
    requires
        v.wf(),
        v.resting.len() + changes.len() <= 1024,
        forall|i: int|
            0 <= i < changes.len() ==> (#[trigger] changes[i]).order_id != id || changes[i].size == 0
                || id == 0,
    ensures
        ({
            let w = v.rebaselined(changes, p);
            &&& w.resting.has(id) <==> v.resting.has(id)
            &&& v.resting.has(id) ==> w.resting.map[id] == v.resting.map[id]
        }),
{
    let start = EventsView { seen: RecentView::empty(), forced: None, ..v };
    lemma_seeded_others(start, changes, changes.len() as int, p, id);
}

proof fn lemma_seeded_others(v: EventsView, changes: Seq<BookChange>, n: int, p: Publisher, id: u64)
    requires
        v.resting.len() + changes.len() <= 1024,
        0 <= n <= changes.len(),
        forall|i: int|
            0 <= i < changes.len() ==> (#[trigger] changes[i]).order_id != id || changes[i].size == 0
                || id == 0,
    ensures
        ({
            let w = v.seeded(changes, n, p);
            &&& w.resting.len() <= v.resting.len() + n
            &&& w.resting.has(id) <==> v.resting.has(id)
            &&& v.resting.has(id) ==> w.resting.map[id] == v.resting.map[id]
        }),
    decreases n,
{
    if n > 0 {
        lemma_seeded_others(v, changes, n - 1, p, id);
        assert(changes[n - 1].order_id != id || changes[n - 1].size == 0 || id == 0);
    }
}

/// An order that is tracked keeps its place and when it was first delivered; one that is not takes
/// the last place, and past 1,024 of them the oldest goes. If that one was delivered no longer
/// before than the window that the new one races in, the market is to be re-baselined.
pub proof fn law_the_oldest_order_makes_room(
    v: EventsView,
    order_id: u64,
    slot: Option<(i128, Publisher)>,
    how: Origin,
)
    requires
        v.wf(),
    ensures
        ({
            let w = v.track(order_id, slot, how);
            &&& w.seen == v.seen
            &&& w.resting.has(order_id)
            &&& w.resting.map[order_id].slot == slot
            &&& v.resting.has(order_id) ==> w.resting.order == v.resting.order
                && w.resting.map[order_id].delivered == v.resting.map[order_id].delivered && w.forced
                == v.forced
            &&& !v.resting.has(order_id) ==> {
                &&& w.resting.order.last() == order_id
                &&& w.resting.map[order_id].delivered == (match how {
                    Origin::Delivered { at, .. } => Some(at),
                    Origin::Seeded => None,
                })
                &&& v.resting.len() < 1024 ==> w.forced == v.forced
                &&& v.resting.len() == 1024 ==> {
                    let first = v.resting.map[v.resting.order[0]].delivered;
                    let racing = how matches Origin::Delivered { at, window_ns } && first is Some && at
                        <= first->0 + window_ns;
                    &&& !w.resting.has(v.resting.order[0])
                    &&& w.forced == (if v.forced is None && racing {
                        Some(Forced::GuardEvicted)
                    } else {
                        v.forced
                    })
                }
            }
        }),
{
    if v.resting.len() == 1024 {
        let old = v.resting.order[0];
        assert(v.resting.order.contains(old));
        assert(v.resting.map.contains_key(old));
    }
}

} // verus!
