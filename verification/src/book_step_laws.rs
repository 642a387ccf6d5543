//! What each delta and each part of a snapshot does to the book, stated of the orders that rest before
//! and after.

use crate::book::{
    keyed, lemma_replay_listing, lemma_resting_with, lemma_resting_without, level_at, lists_orders,
    replay_order, resting_at, shown, BuildingView, DeltaKind, DeltaOp, OrderChange, Population,
    RestingOrder, StateView,
};
use crate::ordered::{less_pair_u64, listing};
use vstd::prelude::*;

verus! {

/// A book in sync, offered the delta that is next in sequence.
pub open spec fn is_next(v: StateView, op: DeltaOp) -> bool {
    v.wf() && v.synced && op.seq == v.last_instr_seq + 1
}

/// A delta that was taken is where the book stands, and what it does not concern stays: the buffer, the
/// snapshot under assembly.
pub open spec fn stands_at(v: StateView, op: DeltaOp, w: StateView) -> bool {
    &&& w.last_instr_seq == op.seq
    &&& w.last_applied_mktdata_seq == op.mktdata_seq
    &&& w.last_event_ts == op.ts
    &&& w.pending == v.pending
    &&& w.building == v.building
}

/// An order's id remembered as removed: behind the others, the oldest of 1,048,576 forgotten for it and
/// counted.
pub open spec fn remembers(v: StateView, id: u64, w: StateView) -> bool {
    if v.removed.contains(id) {
        w.removed == v.removed && w.removed_evicted == v.removed_evicted
    } else if v.removed.len() < 1_048_576 {
        w.removed == v.removed.push(id) && w.removed_evicted == v.removed_evicted
    } else {
        &&& w.removed.len() == 1_048_576
        &&& w.removed.last() == id
        &&& forall|i: int| 0 <= i < 1_048_575 ==> #[trigger] w.removed[i] == v.removed[i + 1]
        &&& w.removed_evicted == v.removed_evicted + 1 || (v.removed_evicted == u64::MAX
            && w.removed_evicted == u64::MAX)
    }
}

/// The next delta adds an order of an id that was not removed, and there is room for it: it rests as it
/// came, in place of one of its id; every other order rests as it did; and it is reported as it came.
pub proof fn law_an_added_order_rests_as_it_came(
    v: StateView,
    op: DeltaOp,
    order_id: u64,
    o: RestingOrder,
)
    requires
        is_next(v, op),
        op.kind == (DeltaKind::Add {
            order_id,
            is_bid: o.is_bid,
            price_raw: o.price_raw,
            qty_raw: o.qty_raw,
        }),
        !v.removed.contains(order_id),
        v.book.orders.contains_key(order_id) || v.book.orders.dom().len() < 262_144,
    ensures
        ({
            let (w, changes, applied) = v.offered(op);
            &&& applied
            &&& w.synced
            &&& w.book.orders == v.book.orders.insert(order_id, o)
            &&& changes == seq![
                OrderChange {
                    order_id,
                    is_bid: o.is_bid,
                    price_raw: o.price_raw,
                    qty_raw: o.qty_raw,
                },
            ]
            &&& stands_at(v, op, w)
            &&& w.removed == v.removed && w.removed_evicted == v.removed_evicted
        }),
{
    assert(v.offered(op).0.book.orders =~= v.book.orders.insert(order_id, o));
}

/// The next delta adds an order of a removed id: nothing rests that did not, nothing is reported.
pub proof fn law_an_added_order_of_a_removed_id_does_not_rest(
    v: StateView,
    op: DeltaOp,
    order_id: u64,
    o: RestingOrder,
)
    requires
        is_next(v, op),
        op.kind == (DeltaKind::Add {
            order_id,
            is_bid: o.is_bid,
            price_raw: o.price_raw,
            qty_raw: o.qty_raw,
        }),
        v.removed.contains(order_id),
    ensures
        ({
            let (w, changes, applied) = v.offered(op);
            &&& !applied
            &&& changes.len() == 0
            &&& w.synced
            &&& w.book == v.book
            &&& stands_at(v, op, w)
            &&& w.removed == v.removed && w.removed_evicted == v.removed_evicted
        }),
{
}

/// The next delta adds an order to a book of 262,144 others: the book is dropped, and waits for a
/// snapshot.
pub proof fn law_a_book_that_outgrows_its_cap_is_dropped(
    v: StateView,
    op: DeltaOp,
    order_id: u64,
    o: RestingOrder,
)
    requires
        is_next(v, op),
        op.kind == (DeltaKind::Add {
            order_id,
            is_bid: o.is_bid,
            price_raw: o.price_raw,
            qty_raw: o.qty_raw,
        }),
        !v.removed.contains(order_id),
        !v.book.orders.contains_key(order_id),
        v.book.orders.dom().len() == 262_144,
    ensures
        ({
            let (w, changes, applied) = v.offered(op);
            &&& applied
            &&& changes.len() == 0
            &&& !w.synced
            &&& w.book.orders.dom().is_empty() && w.book.bids.dom().is_empty()
                && w.book.asks.dom().is_empty()
            &&& stands_at(v, op, w)
        }),
{
    assert(v.offered(op).0.book.orders.dom() =~= Set::empty());
    assert(v.offered(op).0.book.bids.dom() =~= Set::empty());
    assert(v.offered(op).0.book.asks.dom() =~= Set::empty());
}

/// The next delta is a fill of less than what rests, and not marked as a full fill: the order rests
/// on, on the same side and at the same price, with its quantity less what was filled, and is
/// reported so. Every other order rests as it did.
pub proof fn law_a_partial_fill_leaves_the_rest(
    v: StateView,
    op: DeltaOp,
    order_id: u64,
    exec_qty_raw: u64,
)
    requires
        is_next(v, op),
        op.kind == (DeltaKind::Execute { order_id, exec_qty_raw, full_fill: false }),
        v.book.orders.contains_key(order_id),
        exec_qty_raw < v.book.orders[order_id].qty_raw,
    ensures
        ({
            let (w, changes, applied) = v.offered(op);
            let was = v.book.orders[order_id];
            let now = w.book.orders[order_id];
            &&& applied
            &&& w.synced
            &&& w.book.orders.dom() == v.book.orders.dom()
            &&& now.is_bid == was.is_bid
            &&& now.price_raw == was.price_raw
            &&& now.qty_raw + exec_qty_raw == was.qty_raw
            &&& forall|id: u64|
                id != order_id && v.book.orders.contains_key(id) ==> #[trigger] w.book.orders[id]
                    == v.book.orders[id]
            &&& changes.len() == 1 && changes[0].order_id == order_id && changes[0].is_bid == was.is_bid
                && changes[0].price_raw == was.price_raw && changes[0].qty_raw == now.qty_raw
            &&& stands_at(v, op, w)
            &&& w.removed == v.removed && w.removed_evicted == v.removed_evicted
        }),
{
    assert(v.offered(op).0.book.orders.dom() =~= v.book.orders.dom());
}

/// An order goes by cancel, by a full fill, or by a fill of at least what rests, and by no other
/// delta that is next in sequence and keeps the book in sync; gone, it is reported with nothing
/// left, on its side and at its price, and its id is remembered.
pub proof fn law_an_order_goes_only_when_it_is_done(v: StateView, op: DeltaOp, order_id: u64)
    requires
        is_next(v, op),
        v.book.orders.contains_key(order_id),
    ensures
        ({
            let (w, changes, applied) = v.offered(op);
            let was = v.book.orders[order_id];
            let done = match op.kind {
                DeltaKind::Add { .. } => false,
                DeltaKind::Cancel { order_id: id } => id == order_id,
                DeltaKind::Execute { order_id: id, exec_qty_raw, full_fill } => id == order_id && (
                full_fill || exec_qty_raw >= was.qty_raw),
            };
            &&& w.synced ==> (!w.book.orders.contains_key(order_id) <==> done)
            &&& done ==> {
                &&& applied
                &&& w.synced
                &&& w.book.orders == v.book.orders.remove(order_id)
                &&& changes == seq![
                    OrderChange {
                        order_id,
                        is_bid: was.is_bid,
                        price_raw: was.price_raw,
                        qty_raw: 0,
                    },
                ]
                &&& stands_at(v, op, w)
                &&& remembers(v, order_id, w)
            }
        }),
{
    let w = v.offered(op).0;
    if w.synced {
        assert(w.book.orders =~= v.book.orders.remove(order_id) || w.book.orders.contains_key(
            order_id,
        ));
    }
}

/// A cancel or a fill of an order that does not rest is taken, and changes no order.
pub proof fn law_a_delta_of_an_unknown_order_changes_nothing(v: StateView, op: DeltaOp)
    requires
        is_next(v, op),
        match op.kind {
            DeltaKind::Add { .. } => false,
            DeltaKind::Cancel { order_id } => !v.book.orders.contains_key(order_id),
            DeltaKind::Execute { order_id, .. } => !v.book.orders.contains_key(order_id),
        },
    ensures
        ({
            let (w, changes, applied) = v.offered(op);
            &&& applied
            &&& changes.len() == 0
            &&& w.synced
            &&& w.book == v.book
            &&& stands_at(v, op, w)
            &&& w.removed == v.removed && w.removed_evicted == v.removed_evicted
        }),
{
}

/// What rests at a price of a side is the sum over the orders there: nothing where there are none,
/// and an order put in adds its quantity at its own price of its own side and nothing anywhere
/// else.
pub proof fn law_a_level_sums_its_orders(
    orders: Map<u64, RestingOrder>,
    id: u64,
    o: RestingOrder,
    is_bid: bool,
    price: i64,
)
    requires
        orders.dom().finite(),
        !orders.contains_key(id),
    ensures
        resting_at(Map::empty(), is_bid, price) == 0,
        resting_at(orders.insert(id, o), is_bid, price) == resting_at(orders, is_bid, price) + (
        if o.is_bid == is_bid && o.price_raw == price {
            o.qty_raw as nat
        } else {
            0
        }),
{
    lemma_resting_with(orders, id, o, is_bid, price);
}

/// A level moves with its orders: a partial fill takes what was filled off the order's level, and
/// touches no other level.
pub proof fn law_a_partial_fill_lowers_its_level(
    v: StateView,
    op: DeltaOp,
    order_id: u64,
    exec_qty_raw: u64,
    is_bid: bool,
    price: i64,
)
    requires
        is_next(v, op),
        op.kind == (DeltaKind::Execute { order_id, exec_qty_raw, full_fill: false }),
        v.book.orders.contains_key(order_id),
        exec_qty_raw < v.book.orders[order_id].qty_raw,
    ensures
        ({
            let was = v.book.orders[order_id];
            let w = v.offered(op).0;
            level_at(v.book.side(is_bid), price) == level_at(w.book.side(is_bid), price) + (
            if was.is_bid == is_bid && was.price_raw == price {
                exec_qty_raw as nat
            } else {
                0
            })
        }),
{
    let was = v.book.orders[order_id];
    lemma_resting_without(v.book.orders, order_id, was.is_bid, was.price_raw);
    assert(level_at(v.book.side(was.is_bid), was.price_raw) == resting_at(
        v.book.orders,
        was.is_bid,
        was.price_raw,
    ));
}

/// A total is shown as it is; one that does not fit is shown as the largest number there is.
pub proof fn law_totals_are_shown_as_they_are(total: u128)
    ensures
        total <= 0xffff_ffff_ffff_ffff ==> shown(total) == total,
        total > 0xffff_ffff_ffff_ffff ==> shown(total) == 0xffff_ffff_ffff_ffff,
{
}

/// While a book waits for a snapshot, a delta is buffered behind those that came before it, up to
/// 262,144 of them; nothing else changes.
pub proof fn law_a_recovering_book_buffers(v: StateView, op: DeltaOp)
    requires
        v.wf(),
        !v.synced,
    ensures
        ({
            let (w, changes, applied) = v.offered(op);
            &&& !applied
            &&& changes.len() == 0
            &&& w == (StateView { pending: w.pending, ..v })
            &&& w.pending == (if v.pending.len() < 262_144 {
                v.pending.push(op)
            } else {
                v.pending
            })
        }),
{
}

/// A gap in the sequence leaves the orders as they were and the book out of sync, with the delta that
/// showed the gap alone in the buffer and the sequence where it was; an old delta changes nothing.
pub proof fn law_a_gap_waits_for_a_snapshot(v: StateView, op: DeltaOp)
    requires
        v.synced,
        op.seq != v.last_instr_seq + 1,
    ensures
        ({
            let (w, changes, applied) = v.offered(op);
            &&& !applied
            &&& changes.len() == 0
            &&& op.seq <= v.last_instr_seq ==> w == v
            &&& op.seq > v.last_instr_seq ==> w == (StateView {
                synced: false,
                pending: seq![op],
                ..v
            })
        }),
{
}

/// A snapshot is opened exactly if the book is out of sync or the snapshot is ahead of what was
/// last applied, and it promises no more than 262,144 orders; opened, it has no order yet. The book
/// itself is not touched, whichever way.
pub proof fn law_a_snapshot_opens_empty(
    v: StateView,
    snapshot_id: u32,
    anchor_seq: u64,
    total_orders: u32,
    last_instrument_seq: u32,
)
    ensures
        ({
            let w = v.begun(snapshot_id, anchor_seq, total_orders, last_instrument_seq);
            &&& w == (StateView { building: w.building, ..v })
            &&& w.building is Some <==> (!v.synced || anchor_seq > v.last_applied_mktdata_seq)
                && total_orders <= 262_144
            &&& w.building matches Some(b) ==> {
                &&& b.snapshot_id == snapshot_id
                &&& b.anchor_seq == anchor_seq
                &&& b.total_orders == total_orders
                &&& b.last_instrument_seq == last_instrument_seq
                &&& b.received_orders == 0
                &&& b.book.orders.dom().is_empty() && b.book.bids.dom().is_empty()
                    && b.book.asks.dom().is_empty()
            }
        }),
{
    let w = v.begun(snapshot_id, anchor_seq, total_orders, last_instrument_seq);
    if w.building is Some {
        let b = w.building->0;
        assert(b.book.orders.dom() =~= Set::empty());
        assert(b.book.bids.dom() =~= Set::empty());
        assert(b.book.asks.dom() =~= Set::empty());
    }
}

/// An order of the snapshot under assembly joins it and is counted, as long as there is room; one
/// of another snapshot is ignored. The book itself is not touched.
pub proof fn law_a_snapshot_order_joins_its_snapshot(
    v: StateView,
    snapshot_id: u32,
    order_id: u64,
    o: RestingOrder,
)
    ensures
        ({
            let w = v.order_received(snapshot_id, order_id, o);
            &&& w == (StateView { building: w.building, ..v })
            &&& v.building is None || v.building->0.snapshot_id != snapshot_id
                || v.building->0.book.orders.dom().len() >= 262_144 ==> w == v
            &&& (v.building is Some && v.building->0.snapshot_id == snapshot_id
                && v.building->0.book.orders.dom().len() < 262_144) ==> {
                let b = v.building->0;
                let n = w.building->0;
                &&& w.building is Some
                &&& n.book.orders == b.book.orders.insert(order_id, o)
                &&& n.received_orders == b.received_orders + 1 || (n.received_orders == u32::MAX
                    && b.received_orders == u32::MAX)
                &&& n.snapshot_id == b.snapshot_id && n.anchor_seq == b.anchor_seq
                    && n.total_orders == b.total_orders && n.last_instrument_seq
                    == b.last_instrument_seq
            }
        }),
{
    match v.building {
        Some(b) => {
            if b.snapshot_id == snapshot_id && b.book.orders.dom().len() < 262_144 {
                let n = v.order_received(snapshot_id, order_id, o).building->0;
                assert(n.book.orders =~= b.book.orders.insert(order_id, o));
            }
        },
        None => {},
    }
}

/// The book offered the first `n` of `ops`, one by one.
pub open spec fn offered_each(v: StateView, ops: Seq<DeltaOp>, n: int) -> StateView
    decreases n,
{
    if n <= 0 {
        v
    } else {
        offered_each(v, ops, n - 1).offered(ops[n - 1]).0
    }
}

/// The snapshot taken over, before anything buffered is looked at.
pub open spec fn taken_over(v: StateView, b: BuildingView, w: StateView) -> bool {
    &&& w.synced
    &&& w.book == b.book
    &&& w.last_instr_seq == b.last_instrument_seq
    &&& w.last_applied_mktdata_seq == b.anchor_seq
    &&& w.building is None
    &&& w.pending.len() == 0
    &&& w.removed.len() == 0
    &&& w.removed_evicted == v.removed_evicted
    &&& w.last_event_ts == v.last_event_ts
}

/// The snapshot under assembly taken over as `start`, and the first `n` of `ops` offered to it one
/// by one: all of them, or those up to the first that leaves the book out of sync.
pub open spec fn caught_up(
    v: StateView,
    start: StateView,
    ops: Seq<DeltaOp>,
    n: int,
    w: StateView,
) -> bool {
    &&& taken_over(v, v.building->0, start)
    &&& 0 <= n <= ops.len()
    &&& w == offered_each(start, ops, n)
    &&& forall|m: int| 0 <= m < n ==> (#[trigger] offered_each(start, ops, m)).synced
    &&& n == ops.len() || !w.synced
}

/// A snapshot closes well exactly if it is the one under assembly, by number and anchor, and as
/// many orders arrived as it promised: then the book is the snapshot's, with the buffered deltas
/// past it offered one by one for as long as it stays in sync. Any other snapshot under assembly is
/// given up and the book waits for another, its orders as they were; with none under assembly
/// nothing changes.
pub proof fn law_a_whole_snapshot_is_taken_over(v: StateView, anchor_seq: u64, snapshot_id: u32)
    ensures
        ({
            let (w, changed) = v.ended(anchor_seq, snapshot_id);
            let whole = v.building is Some && v.building->0.snapshot_id == snapshot_id
                && v.building->0.anchor_seq == anchor_seq && v.building->0.received_orders
                == v.building->0.total_orders;
            &&& changed == whole
            &&& v.building is None ==> w == v
            &&& v.building is Some && !whole ==> w == (StateView {
                building: None,
                synced: false,
                ..v
            })
            &&& whole ==> exists|start: StateView, n: int|
                #[trigger] caught_up(v, start, replay_order(v.pending, anchor_seq), n, w)
        }),
{
    match v.building {
        Some(b) => {
            if b.snapshot_id == snapshot_id && b.anchor_seq == anchor_seq && b.received_orders
                == b.total_orders {
                let ops = replay_order(v.pending, anchor_seq);
                let start = StateView {
                    book: b.book,
                    synced: true,
                    last_instr_seq: b.last_instrument_seq,
                    last_applied_mktdata_seq: b.anchor_seq,
                    building: None,
                    pending: Seq::empty(),
                    removed: Seq::empty(),
                    ..v
                };
                assert(taken_over(v, b, start));
                let n = lemma_replay_offers(start, ops, ops.len() as int);
                assert(caught_up(v, start, ops, n, v.ended(anchor_seq, snapshot_id).0));
            }
        },
        None => {},
    }
}

proof fn lemma_replay_offers(v: StateView, ops: Seq<DeltaOp>, len: int) -> (n: int)
    requires
        0 <= len,
        v.synced,
    ensures
        0 <= n <= len,
        v.replayed(ops, len) == offered_each(v, ops, n),
        forall|m: int| 0 <= m < n ==> (#[trigger] offered_each(v, ops, m)).synced,
        n == len || !v.replayed(ops, len).synced,
    decreases len,
{
    if len == 0 {
        0
    } else {
        let n = lemma_replay_offers(v, ops, len - 1);
        if v.replayed(ops, len - 1).synced {
            assert forall|m: int| 0 <= m < len implies (#[trigger] offered_each(v, ops, m)).synced by {
                assert(m == n || m < n);
            }
            len
        } else {
            n
        }
    }
}

/// `at` are the places of the buffered deltas past `anchor`, in order of datagram, those of one
/// datagram in order of arrival.
pub open spec fn replay_places(pending: Seq<DeltaOp>, anchor: u64, at: Seq<int>) -> bool {
    &&& forall|x: int|
        0 <= x < at.len() ==> 0 <= #[trigger] at[x] < pending.len() && pending[at[x]].mktdata_seq
            > anchor
    &&& forall|i: int|
        0 <= i < pending.len() && (#[trigger] pending[i]).mktdata_seq > anchor ==> at.contains(i)
    &&& forall|x: int, y: int|
        0 <= x < y < at.len() ==> pending[#[trigger] at[x]].mktdata_seq < pending[#[trigger] at[y]].mktdata_seq
            || (pending[at[x]].mktdata_seq == pending[at[y]].mktdata_seq && at[x] < at[y])
}

/// What is replayed is each buffered delta past the snapshot, once, in order of datagram, those of one
/// datagram in the order in which they came.
pub proof fn law_the_buffer_is_replayed_in_order(pending: Seq<DeltaOp>, anchor: u64) -> (at: Seq<int>)
    requires
        pending.len() <= 262_144,
    ensures
        replay_places(pending, anchor, at),
        replay_order(pending, anchor).len() == at.len(),
        forall|x: int|
            0 <= x < at.len() ==> #[trigger] replay_order(pending, anchor)[x] == pending[at[x]],
{
    lemma_replay_listing(pending, anchor);
    let m = keyed(pending, anchor);
    let l = listing(m, less_pair_u64());
    let at = Seq::new(l.len(), |x: int| (l[x].0).1 as int);
    assert forall|x: int| 0 <= x < at.len() implies 0 <= #[trigger] at[x] < pending.len()
        && pending[at[x]].mktdata_seq > anchor && pending[at[x]].mktdata_seq == (l[x].0).0 && l[x].1
        == pending[at[x]] by {
        assert(m.contains_key(l[x].0));
    }
    assert forall|i: int|
        0 <= i < pending.len() && (#[trigger] pending[i]).mktdata_seq > anchor implies at.contains(
        i,
    ) by {
        let k = (pending[i].mktdata_seq, i as u64);
        assert(m.contains_key(k));
        let x = choose|x: int| 0 <= x < l.len() && (#[trigger] l[x]).0 == k;
        assert(at[x] == i);
    }
    assert forall|x: int, y: int| 0 <= x < y < at.len() implies pending[#[trigger] at[x]].mktdata_seq
        < pending[#[trigger] at[y]].mktdata_seq || (pending[at[x]].mktdata_seq
        == pending[at[y]].mktdata_seq && at[x] < at[y]) by {
        assert((less_pair_u64())(l[x].0, l[y].0));
    }
    at
}

/// A reset drops the orders and the snapshot under assembly, and keeps of the buffer what is past
/// the new anchor, in order; the sequences stay where they are. A session's end drops everything
/// but the count of forgotten ids.
pub proof fn law_a_reset_waits_for_a_snapshot(v: StateView, anchor_seq: u64)
    ensures
        ({
            let w = v.reset(anchor_seq);
            &&& w.book.orders.dom().is_empty() && w.book.bids.dom().is_empty()
                && w.book.asks.dom().is_empty()
            &&& !w.synced
            &&& w.building is None
            &&& w.removed.len() == 0
            &&& w.pending == v.pending.filter(|op: DeltaOp| op.mktdata_seq > anchor_seq)
            &&& w.last_instr_seq == v.last_instr_seq
            &&& w.last_applied_mktdata_seq == v.last_applied_mktdata_seq
            &&& w.removed_evicted == v.removed_evicted
            &&& w.last_event_ts == 0
        }),
        ({
            let w = v.session_ended();
            &&& w.book.orders.dom().is_empty() && w.book.bids.dom().is_empty()
                && w.book.asks.dom().is_empty()
            &&& !w.synced
            &&& w.building is None
            &&& w.removed.len() == 0
            &&& w.pending.len() == 0
            &&& w.last_instr_seq == 0
            &&& w.last_applied_mktdata_seq == 0
            &&& w.removed_evicted == v.removed_evicted
            &&& w.last_event_ts == 0
        }),
{
    let empty = Population::empty();
    assert(empty.orders.dom() =~= Set::empty());
    assert(empty.bids.dom() =~= Set::empty());
    assert(empty.asks.dom() =~= Set::empty());
}

/// The orders are listed each once, as they rest: bids before asks, bids from the highest price
/// down and asks from the lowest up, those of one price by id.
pub proof fn law_orders_are_listed_best_first(orders: Map<u64, RestingOrder>, s: Seq<OrderChange>)
    requires
        lists_orders(orders, s),
    ensures
        forall|i: int|
            0 <= i < s.len() ==> orders.contains_key((#[trigger] s[i]).order_id)
                && orders[s[i].order_id] == (RestingOrder {
                is_bid: s[i].is_bid,
                price_raw: s[i].price_raw,
                qty_raw: s[i].qty_raw,
            }),
        forall|id: u64| #[trigger]
            orders.contains_key(id) ==> exists|i: int|
                0 <= i < s.len() && (#[trigger] s[i]).order_id == id,
        forall|i: int, j: int|
            0 <= i < j < s.len() ==> {
                let a = #[trigger] s[i];
                let b = #[trigger] s[j];
                &&& a.order_id != b.order_id
                &&& a.is_bid || !b.is_bid
                &&& a.is_bid && b.is_bid ==> a.price_raw >= b.price_raw
                &&& !a.is_bid && !b.is_bid ==> a.price_raw <= b.price_raw
                &&& a.is_bid == b.is_bid && a.price_raw == b.price_raw ==> a.order_id < b.order_id
            },
{
    assert forall|id: u64| #[trigger] orders.contains_key(id) implies exists|i: int|
        0 <= i < s.len() && (#[trigger] s[i]).order_id == id by {
        let c = crate::book::as_change(id, orders[id]);
        assert(s.contains(c));
        let i = s.index_of(c);
        assert(s[i].order_id == id);
    }
    assert forall|i: int, j: int| 0 <= i < j < s.len() implies (#[trigger] s[i]).order_id != (
    #[trigger] s[j]).order_id by {
        assert((crate::book::before())(s[i], s[j]));
        if s[i].order_id == s[j].order_id {
            assert(s[i] == s[j]);
        }
    }
}

} // verus!
