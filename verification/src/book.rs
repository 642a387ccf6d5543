//! Order-book reconstruction with snapshot and delta recovery.
//!
//! A [`BookState`] holds one instrument's resting orders and derives its price levels. Deltas apply
//! only in unbroken sequence; a gap drops the book to recovering, where deltas are buffered until a
//! snapshot re-establishes it, after which those past the snapshot are replayed.

use crate::ordered::{
    hashed_entries, less_i64, less_pair_i128, less_pair_u64, list_i64, list_pair_i128,
    list_pair_u64, listing, lists_in_order,
};
use std::collections::{BTreeMap, HashMap, HashSet, VecDeque};
use vstd::prelude::*;

verus! {

/// Cap on resting orders per book, in the live book and in a snapshot under assembly.
pub const MAX_ORDERS_PER_BOOK: usize = 262_144;

/// Cap on deltas buffered while recovering.
pub const MAX_PENDING_DELTAS: usize = 262_144;

/// Cap on remembered removed order ids, oldest forgotten first.
pub const MAX_REMOVED_ORDERS: usize = 1_048_576;

/// One aggregated price level as `(price_raw, qty_raw)`.
pub type Level = (i64, u64);

/// One order-level change, in raw wire integers.
#[derive(Debug, Clone, Copy, PartialEq, Eq, Structural)]
pub struct OrderChange {
    pub order_id: u64,
    pub is_bid: bool,
    pub price_raw: i64,
    /// Absolute resulting quantity; zero means the order is gone.
    pub qty_raw: u64,
}

/// One resting order.
#[derive(Debug, Clone, Copy, PartialEq, Eq, Structural)]
pub struct RestingOrder {
    pub is_bid: bool,
    pub price_raw: i64,
    pub qty_raw: u64,
}

/// A delta: its per-instrument sequence, the sequence of the datagram that carried it, its event time
/// and what it does.
#[derive(Debug, Clone, Copy, PartialEq, Eq, Structural)]
pub struct DeltaOp {
    pub seq: u32,
    pub mktdata_seq: u64,
    pub ts: u64,
    pub kind: DeltaKind,
}

/// What a delta does to the book.
#[derive(Debug, Clone, Copy, PartialEq, Eq, Structural)]
pub enum DeltaKind {
    Add { order_id: u64, is_bid: bool, price_raw: i64, qty_raw: u64 },
    Cancel { order_id: u64 },
    Execute { order_id: u64, exec_qty_raw: u64, full_fill: bool },
}

/// The resting orders of one book and the levels derived from them.
#[verifier::ext_equal]
pub struct Population {
    pub orders: Map<u64, RestingOrder>,
    /// Price to total resting quantity, per side.
    pub bids: Map<i64, u128>,
    pub asks: Map<i64, u128>,
}

/// A snapshot under assembly.
#[verifier::ext_equal]
pub struct BuildingView {
    pub snapshot_id: u32,
    pub anchor_seq: u64,
    /// How many orders the snapshot promised, and how many have arrived.
    pub total_orders: u32,
    pub received_orders: u32,
    pub last_instrument_seq: u32,
    pub book: Population,
}

/// What a [`BookState`] holds.
#[verifier::ext_equal]
pub struct StateView {
    pub book: Population,
    pub synced: bool,
    /// The last applied per-instrument sequence.
    pub last_instr_seq: u32,
    /// The datagram sequence of the last applied delta or installed snapshot.
    pub last_applied_mktdata_seq: u64,
    pub building: Option<BuildingView>,
    /// Deltas buffered while recovering, in order of arrival.
    pub pending: Seq<DeltaOp>,
    /// Ids of removed orders, oldest first.
    pub removed: Seq<u64>,
    /// How many removed ids were forgotten for want of room.
    pub removed_evicted: u64,
    pub last_event_ts: u64,
}

/// The total, or the largest number there is.
pub open spec fn capped_sum(a: u64, b: u64) -> u64 {
    if a + b <= u64::MAX {
        (a + b) as u64
    } else {
        u64::MAX
    }
}

/// A level's quantity; a level that is not there has none.
pub open spec fn level_at(levels: Map<i64, u128>, price: i64) -> nat {
    if levels.contains_key(price) {
        levels[price] as nat
    } else {
        0
    }
}

/// A side's levels with `qty` more at `price`.
pub open spec fn level_added(levels: Map<i64, u128>, price: i64, qty: u128) -> Map<i64, u128> {
    levels.insert(price, (level_at(levels, price) + qty) as u128)
}

/// A side's levels with up to `qty` less at `price`; a level left with nothing goes.
pub open spec fn level_removed(levels: Map<i64, u128>, price: i64, qty: u128) -> Map<i64, u128> {
    if level_at(levels, price) > qty {
        levels.insert(price, (levels[price] - qty) as u128)
    } else {
        levels.remove(price)
    }
}

/// What an order adds to one level.
pub open spec fn contribution(o: RestingOrder, is_bid: bool, price: i64) -> nat {
    if o.is_bid == is_bid && o.price_raw == price {
        o.qty_raw as nat
    } else {
        0
    }
}

/// The quantity that rests at one price of one side.
pub open spec fn resting_at(orders: Map<u64, RestingOrder>, is_bid: bool, price: i64) -> nat
    decreases orders.dom().len(),
{
    if orders.dom().finite() && orders.dom().len() > 0 {
        let id = orders.dom().choose();
        contribution(orders[id], is_bid, price) + resting_at(orders.remove(id), is_bid, price)
    } else {
        0
    }
}

/// An order of no quantity rests at one price of one side.
pub open spec fn idle_at(orders: Map<u64, RestingOrder>, is_bid: bool, price: i64) -> bool {
    exists|id: u64| #[trigger]
        orders.contains_key(id) && orders[id] == (RestingOrder {
            is_bid,
            price_raw: price,
            qty_raw: 0,
        })
}

/// One side's levels are the totals of the orders that rest at them; a level of nothing is there only
/// where an order of no quantity rests.
pub open spec fn totals(levels: Map<i64, u128>, orders: Map<u64, RestingOrder>, is_bid: bool) -> bool {
    &&& levels.dom().finite()
    &&& forall|price: i64| #[trigger]
        level_at(levels, price) == resting_at(orders, is_bid, price)
    &&& forall|price: i64| #[trigger]
        levels.contains_key(price) && levels[price] == 0 ==> idle_at(orders, is_bid, price)
}

impl Population {
    pub open spec fn empty() -> Self {
        Population { orders: Map::empty(), bids: Map::empty(), asks: Map::empty() }
    }

    /// No more orders than the cap, and every level is the total of the orders that rest at it.
    pub open spec fn wf(self) -> bool {
        &&& self.orders.dom().finite()
        &&& self.orders.dom().len() <= MAX_ORDERS_PER_BOOK
        &&& totals(self.bids, self.orders, true)
        &&& totals(self.asks, self.orders, false)
    }

    /// The levels of one side.
    pub open spec fn side(self, is_bid: bool) -> Map<i64, u128> {
        if is_bid {
            self.bids
        } else {
            self.asks
        }
    }

    /// `qty` taken off the level of an order.
    pub open spec fn lowered(self, o: RestingOrder, qty: u64) -> Self {
        if o.is_bid {
            Population { bids: level_removed(self.bids, o.price_raw, qty as u128), ..self }
        } else {
            Population { asks: level_removed(self.asks, o.price_raw, qty as u128), ..self }
        }
    }

    /// An order taken out, and all of its quantity off its level.
    pub open spec fn without(self, order_id: u64) -> Self {
        if self.orders.contains_key(order_id) {
            let o = self.orders[order_id];
            Population { orders: self.orders.remove(order_id), ..self }.lowered(o, o.qty_raw)
        } else {
            self
        }
    }

    /// An order put in, in place of one of its id, and its quantity added to its level.
    pub open spec fn with(self, order_id: u64, o: RestingOrder) -> Self {
        let w = self.without(order_id);
        let p = Population { orders: w.orders.insert(order_id, o), ..w };
        if o.is_bid {
            Population { bids: level_added(p.bids, o.price_raw, o.qty_raw as u128), ..p }
        } else {
            Population { asks: level_added(p.asks, o.price_raw, o.qty_raw as u128), ..p }
        }
    }

    /// A resting order filled in part.
    pub open spec fn filled(self, order_id: u64, qty: u64) -> Self {
        let o = self.orders[order_id];
        let rest = RestingOrder { qty_raw: (o.qty_raw - qty) as u64, ..o };
        Population { orders: self.orders.insert(order_id, rest), ..self }.lowered(o, qty)
    }
}

/// An order's state as a change.
pub open spec fn as_change(order_id: u64, o: RestingOrder) -> OrderChange {
    OrderChange { order_id, is_bid: o.is_bid, price_raw: o.price_raw, qty_raw: o.qty_raw }
}

impl StateView {
    pub open spec fn new() -> Self {
        StateView {
            book: Population::empty(),
            synced: false,
            last_instr_seq: 0,
            last_applied_mktdata_seq: 0,
            building: None,
            pending: Seq::empty(),
            removed: Seq::empty(),
            removed_evicted: 0,
            last_event_ts: 0,
        }
    }

    /// Every bound holds, every level is the total of its orders, and no removed id is listed twice.
    pub open spec fn wf(self) -> bool {
        &&& self.book.wf()
        &&& self.building matches Some(b) ==> b.total_orders <= MAX_ORDERS_PER_BOOK && b.book.wf()
        &&& self.pending.len() <= MAX_PENDING_DELTAS
        &&& self.removed.no_duplicates()
        &&& self.removed.len() <= MAX_REMOVED_ORDERS
    }

    /// A removed id remembered, the oldest forgotten if there are too many.
    pub open spec fn id_removed(self, order_id: u64) -> Self {
        if self.removed.contains(order_id) {
            self
        } else if self.removed.len() >= MAX_REMOVED_ORDERS {
            StateView {
                removed: self.removed.drop_first().push(order_id),
                removed_evicted: capped_sum(self.removed_evicted, 1),
                ..self
            }
        } else {
            StateView { removed: self.removed.push(order_id), ..self }
        }
    }

    /// A delta's effect: the state afterwards, the changes to report and whether it applied.
    pub open spec fn changed(self, kind: DeltaKind) -> (Self, Seq<OrderChange>, bool) {
        match kind {
            DeltaKind::Add { order_id, is_bid, price_raw, qty_raw } => if self.removed.contains(
                order_id,
            ) {
                (self, Seq::empty(), false)
            } else if self.book.orders.dom().len() >= MAX_ORDERS_PER_BOOK
                && !self.book.orders.contains_key(order_id) {
                (
                    StateView { book: Population::empty(), synced: false, ..self },
                    Seq::empty(),
                    true,
                )
            } else {
                let o = RestingOrder { is_bid, price_raw, qty_raw };
                (
                    StateView { book: self.book.with(order_id, o), ..self },
                    seq![as_change(order_id, o)],
                    true,
                )
            },
            DeltaKind::Cancel { order_id } => if self.book.orders.contains_key(order_id) {
                let o = self.book.orders[order_id];
                (
                    StateView { book: self.book.without(order_id), ..self }.id_removed(order_id),
                    seq![as_change(order_id, RestingOrder { qty_raw: 0, ..o })],
                    true,
                )
            } else {
                (self, Seq::empty(), true)
            },
            DeltaKind::Execute { order_id, exec_qty_raw, full_fill } => {
                if self.book.orders.contains_key(order_id) {
                    let o = self.book.orders[order_id];
                    if full_fill || exec_qty_raw >= o.qty_raw {
                        (
                            StateView { book: self.book.without(order_id), ..self }.id_removed(
                                order_id,
                            ),
                            seq![as_change(order_id, RestingOrder { qty_raw: 0, ..o })],
                            true,
                        )
                    } else {
                        let book = self.book.filled(order_id, exec_qty_raw);
                        (
                            StateView { book, ..self },
                            seq![as_change(order_id, book.orders[order_id])],
                            true,
                        )
                    }
                } else {
                    (self, Seq::empty(), true)
                }
            },
        }
    }

    /// A delta while in sync: an old one is ignored, the next one applies, and a gap drops the book
    /// to recovering with this delta buffered.
    pub open spec fn sequenced(self, op: DeltaOp) -> (Self, Seq<OrderChange>, bool) {
        if op.seq <= self.last_instr_seq {
            (self, Seq::empty(), false)
        } else if op.seq != self.last_instr_seq + 1 {
            (StateView { synced: false, pending: seq![op], ..self }, Seq::empty(), false)
        } else {
            StateView {
                last_instr_seq: op.seq,
                last_applied_mktdata_seq: op.mktdata_seq,
                last_event_ts: op.ts,
                ..self
            }.changed(op.kind)
        }
    }

    /// A delta offered to the book: buffered while recovering, if there is room.
    pub open spec fn offered(self, op: DeltaOp) -> (Self, Seq<OrderChange>, bool) {
        if self.synced {
            self.sequenced(op)
        } else if self.pending.len() < MAX_PENDING_DELTAS {
            (StateView { pending: self.pending.push(op), ..self }, Seq::empty(), false)
        } else {
            (self, Seq::empty(), false)
        }
    }

    /// A snapshot opened. One that is not ahead of a book in sync is stale, and one that promises too
    /// many orders is malformed: either leaves nothing under assembly.
    pub open spec fn begun(
        self,
        snapshot_id: u32,
        anchor_seq: u64,
        total_orders: u32,
        last_instrument_seq: u32,
    ) -> Self {
        if (self.synced && anchor_seq <= self.last_applied_mktdata_seq) || total_orders
            > MAX_ORDERS_PER_BOOK {
            StateView { building: None, ..self }
        } else {
            StateView {
                building: Some(
                    BuildingView {
                        snapshot_id,
                        anchor_seq,
                        total_orders,
                        received_orders: 0,
                        last_instrument_seq,
                        book: Population::empty(),
                    },
                ),
                ..self
            }
        }
    }

    /// One order of the snapshot under assembly.
    pub open spec fn order_received(self, snapshot_id: u32, order_id: u64, o: RestingOrder) -> Self {
        match self.building {
            Some(b) => if b.snapshot_id == snapshot_id && b.book.orders.dom().len()
                < MAX_ORDERS_PER_BOOK {
                StateView {
                    building: Some(
                        BuildingView {
                            received_orders: if b.received_orders < u32::MAX {
                                (b.received_orders + 1) as u32
                            } else {
                                b.received_orders
                            },
                            book: b.book.with(order_id, o),
                            ..b
                        },
                    ),
                    ..self
                }
            } else {
                self
            },
            None => self,
        }
    }

    /// The first `n` of `ops` applied, up to the first one that leaves the book recovering.
    pub open spec fn replayed(self, ops: Seq<DeltaOp>, n: int) -> Self
        decreases n,
    {
        if n <= 0 {
            self
        } else {
            let before = self.replayed(ops, n - 1);
            if before.synced {
                before.sequenced(ops[n - 1]).0
            } else {
                before
            }
        }
    }

    /// The snapshot installed and the buffered deltas past it replayed.
    pub open spec fn installed(self, b: BuildingView) -> Self {
        let ops = replay_order(self.pending, b.anchor_seq);
        StateView {
            book: b.book,
            synced: true,
            last_instr_seq: b.last_instrument_seq,
            last_applied_mktdata_seq: b.anchor_seq,
            building: None,
            pending: Seq::empty(),
            removed: Seq::empty(),
            ..self
        }.replayed(ops, ops.len() as int)
    }

    /// A snapshot closed: installed if it is the one that was opened and every promised order
    /// arrived, else discarded. The flag says whether the book changed.
    pub open spec fn ended(self, anchor_seq: u64, snapshot_id: u32) -> (Self, bool) {
        match self.building {
            None => (self, false),
            Some(b) => if b.snapshot_id == snapshot_id && b.anchor_seq == anchor_seq
                && b.received_orders == b.total_orders {
                (self.installed(b), true)
            } else {
                (StateView { building: None, synced: false, ..self }, false)
            },
        }
    }

    /// The session over: nothing of it is left.
    pub open spec fn session_ended(self) -> Self {
        StateView { removed_evicted: self.removed_evicted, ..StateView::new() }
    }

    /// The book dropped to await a snapshot at `anchor_seq`; only deltas past it stay buffered.
    pub open spec fn reset(self, anchor_seq: u64) -> Self {
        StateView {
            book: Population::empty(),
            synced: false,
            building: None,
            pending: self.pending.filter(|op: DeltaOp| op.mktdata_seq > anchor_seq),
            removed: Seq::empty(),
            last_event_ts: 0,
            ..self
        }
    }
}

/// The buffered deltas past `anchor`, each under its datagram sequence and its place in the buffer.
pub open spec fn keyed(pending: Seq<DeltaOp>, anchor: u64) -> Map<(u64, u64), DeltaOp> {
    Map::new(
        |k: (u64, u64)|
            k.1 < pending.len() && pending[k.1 as int].mktdata_seq == k.0 && k.0 > anchor,
        |k: (u64, u64)| pending[k.1 as int],
    )
}

/// The buffered deltas past `anchor` in order of their datagram sequence, those of one datagram in
/// order of arrival.
pub open spec fn replay_order(pending: Seq<DeltaOp>, anchor: u64) -> Seq<DeltaOp> {
    listing(keyed(pending, anchor), less_pair_u64()).map_values(|e: ((u64, u64), DeltaOp)| e.1)
}

/// Bids before asks, better prices first, then by order id.
pub open spec fn before() -> spec_fn(OrderChange, OrderChange) -> bool {
    |a: OrderChange, b: OrderChange|
        if a.is_bid != b.is_bid {
            a.is_bid
        } else if a.price_raw != b.price_raw {
            if a.is_bid {
                a.price_raw > b.price_raw
            } else {
                a.price_raw < b.price_raw
            }
        } else {
            a.order_id < b.order_id
        }
}

/// The resting orders as changes.
pub open spec fn order_changes(orders: Map<u64, RestingOrder>) -> Map<OrderChange, ()> {
    Map::new(
        |c: OrderChange|
            orders.contains_key(c.order_id) && as_change(c.order_id, orders[c.order_id]) == c,
        |c: OrderChange| (),
    )
}

/// Every resting order once: bids before asks, better prices first, then by order id.
pub open spec fn order_list(orders: Map<u64, RestingOrder>) -> Seq<OrderChange> {
    listing(order_changes(orders), before()).map_values(|e: (OrderChange, ())| e.0)
}

/// `s` holds every resting order and nothing else, in the order of [`before`].
pub open spec fn lists_orders(orders: Map<u64, RestingOrder>, s: Seq<OrderChange>) -> bool {
    &&& forall|i: int|
        0 <= i < s.len() ==> orders.contains_key((#[trigger] s[i]).order_id) && s[i] == as_change(
            s[i].order_id,
            orders[s[i].order_id],
        )
    &&& forall|id: u64| #[trigger]
        orders.contains_key(id) ==> s.contains(as_change(id, orders[id]))
    &&& forall|i: int, j: int|
        0 <= i < j < s.len() ==> (before())(#[trigger] s[i], #[trigger] s[j])
}

/// The first `n` elements, or all if there are fewer.
pub open spec fn first_n<A>(s: Seq<A>, n: int) -> Seq<A> {
    if n <= s.len() {
        s.take(n)
    } else {
        s
    }
}

/// A total as it is shown: the largest number there is, where it does not fit.
pub open spec fn shown(total: u128) -> u64 {
    if total <= u64::MAX {
        total as u64
    } else {
        u64::MAX
    }
}

/// The levels as they are shown.
pub open spec fn shown_levels(levels: Seq<(i64, u128)>) -> Seq<Level> {
    levels.map_values(|l: (i64, u128)| (l.0, shown(l.1)))
}

impl Population {
    /// The best `n` bids, high to low.
    pub open spec fn top_bids(self, n: int) -> Seq<Level> {
        first_n(shown_levels(listing(self.bids, less_i64()).reverse()), n)
    }

    /// The best `n` asks, low to high.
    pub open spec fn top_asks(self, n: int) -> Seq<Level> {
        first_n(shown_levels(listing(self.asks, less_i64())), n)
    }
}

/// Add `qty` to a price level.
fn level_add(levels: &mut BTreeMap<i64, u128>, price: i64, qty: u128)
    requires
        level_at(old(levels)@, price) + qty <= u128::MAX,
    ensures
        final(levels)@ == level_added(old(levels)@, price, qty),
{
    broadcast use vstd::laws_cmp::group_laws_cmp;

    let total: u128 = match levels.get(&price) {
        Some(t) => *t + qty,
        None => qty,
    };
    let _was = levels.insert(price, total);
}

/// Remove up to `qty` from a price level, dropping the level when it reaches zero.
fn level_remove(levels: &mut BTreeMap<i64, u128>, price: i64, qty: u128)
    ensures
        final(levels)@ == level_removed(old(levels)@, price, qty),
{
    broadcast use vstd::laws_cmp::group_laws_cmp;

    let total: u128 = match levels.get(&price) {
        Some(t) => *t,
        None => 0,
    };
    if total > qty {
        let _was = levels.insert(price, total - qty);
    } else {
        let _was = levels.remove(&price);
        assert(levels@ =~= old(levels)@.remove(price));
    }
}

/// The orders and levels of one book.
struct Orders {
    orders: HashMap<u64, RestingOrder>,
    bids: BTreeMap<i64, u128>,
    asks: BTreeMap<i64, u128>,
}

impl View for Orders {
    type V = Population;

    closed spec fn view(&self) -> Population {
        Population { orders: self.orders@, bids: self.bids@, asks: self.asks@ }
    }
}

impl Orders {
    fn new() -> (r: Self)
        ensures
            r@ == Population::empty(),
    {
        Orders { orders: HashMap::new(), bids: BTreeMap::new(), asks: BTreeMap::new() }
    }

    fn put(&mut self, order_id: u64, o: RestingOrder)
        requires
            old(self)@.wf(),
        ensures
            final(self)@ == old(self)@.with(order_id, o),
    {
        proof {
            lemma_without_wf(self@, order_id);
        }
        let _old = self.take(order_id);
        proof {
            lemma_resting_bound(self@.orders, o.is_bid, o.price_raw);
            assert(level_at(self@.side(o.is_bid), o.price_raw) == resting_at(
                self@.orders,
                o.is_bid,
                o.price_raw,
            ));
        }
        let _was = self.orders.insert(order_id, o);
        if o.is_bid {
            level_add(&mut self.bids, o.price_raw, o.qty_raw as u128);
        } else {
            level_add(&mut self.asks, o.price_raw, o.qty_raw as u128);
        }
    }

    /// Take an order out, and all of its quantity off its level.
    fn take(&mut self, order_id: u64) -> (r: Option<RestingOrder>)
        ensures
            final(self)@ == old(self)@.without(order_id),
            r == (if old(self)@.orders.contains_key(order_id) {
                Some(old(self)@.orders[order_id])
            } else {
                None
            }),
    {
        match self.orders.remove(&order_id) {
            Some(o) => {
                self.lower(o, o.qty_raw);
                Some(o)
            },
            None => {
                assert(self@.orders =~= old(self)@.orders);
                None
            },
        }
    }

    /// Fill a resting order in part.
    fn fill(&mut self, order_id: u64, o: RestingOrder, qty: u64)
        requires
            old(self)@.orders.contains_key(order_id),
            old(self)@.orders[order_id] == o,
            qty <= o.qty_raw,
        ensures
            final(self)@ == old(self)@.filled(order_id, qty),
    {
        let _was = self.orders.insert(
            order_id,
            RestingOrder {
                is_bid: o.is_bid,
                price_raw: o.price_raw,
                qty_raw: o.qty_raw - qty,
            },
        );
        self.lower(o, qty);
    }

    fn lower(&mut self, o: RestingOrder, qty: u64)
        ensures
            final(self)@ == old(self)@.lowered(o, qty),
    {
        if o.is_bid {
            level_remove(&mut self.bids, o.price_raw, qty as u128);
        } else {
            level_remove(&mut self.asks, o.price_raw, qty as u128);
        }
    }
}

struct Building {
    snapshot_id: u32,
    anchor_seq: u64,
    total_orders: u32,
    received_orders: u32,
    last_instrument_seq: u32,
    book: Orders,
}

impl View for Building {
    type V = BuildingView;

    closed spec fn view(&self) -> BuildingView {
        BuildingView {
            snapshot_id: self.snapshot_id,
            anchor_seq: self.anchor_seq,
            total_orders: self.total_orders,
            received_orders: self.received_orders,
            last_instrument_seq: self.last_instrument_seq,
            book: self.book@,
        }
    }
}

/// One instrument's book and where it stands in the recovery of it.
pub struct BookState {
    book: Orders,
    synced: bool,
    last_instr_seq: u32,
    last_applied_mktdata_seq: u64,
    building: Option<Building>,
    pending: Vec<DeltaOp>,
    removed: HashSet<u64>,
    removed_order: VecDeque<u64>,
    removed_evicted: u64,
    last_event_ts: u64,
}

impl View for BookState {
    type V = StateView;

    closed spec fn view(&self) -> StateView {
        StateView {
            book: self.book@,
            synced: self.synced,
            last_instr_seq: self.last_instr_seq,
            last_applied_mktdata_seq: self.last_applied_mktdata_seq,
            building: match self.building {
                Some(b) => Some(b@),
                None => None,
            },
            pending: self.pending@,
            removed: self.removed_order@,
            removed_evicted: self.removed_evicted,
            last_event_ts: self.last_event_ts,
        }
    }
}

impl Default for BookState {
    fn default() -> (r: Self)
        ensures
            r.wf(),
            r@ == StateView::new(),
    {
        BookState::new()
    }
}

impl BookState {
    pub closed spec fn wf(&self) -> bool {
        &&& self@.wf()
        &&& forall|id: u64| #[trigger]
            self.removed@.contains(id) <==> self.removed_order@.contains(id)
    }

    /// Every bound holds of a well-formed book.
    pub proof fn lemma_wf(&self)
        requires
            self.wf(),
        ensures
            self@.wf(),
    {
    }

    pub fn new() -> (r: Self)
        ensures
            r.wf(),
            r@ == StateView::new(),
    {
        BookState {
            book: Orders::new(),
            synced: false,
            last_instr_seq: 0,
            last_applied_mktdata_seq: 0,
            building: None,
            pending: Vec::new(),
            removed: HashSet::new(),
            removed_order: VecDeque::new(),
            removed_evicted: 0,
            last_event_ts: 0,
        }
    }

    pub fn is_synced(&self) -> (r: bool)
        ensures
            r == self@.synced,
    {
        self.synced
    }

    pub fn has_order(&self, order_id: u64) -> (r: bool)
        ensures
            r == self@.book.orders.contains_key(order_id),
    {
        self.book.orders.contains_key(&order_id)
    }

    /// How many orders rest.
    pub fn orders_len(&self) -> (r: usize)
        requires
            self.wf(),
        ensures
            r == self@.book.orders.dom().len(),
    {
        self.book.orders.len()
    }

    /// How many removed ids are remembered.
    pub fn removed_len(&self) -> (r: usize)
        ensures
            r == self@.removed.len(),
    {
        self.removed_order.len()
    }

    /// How many removed ids were forgotten for want of room.
    pub fn removed_evicted(&self) -> (r: u64)
        ensures
            r == self@.removed_evicted,
    {
        self.removed_evicted
    }

    /// How many deltas are buffered.
    pub fn pending_len(&self) -> (r: usize)
        ensures
            r == self@.pending.len(),
    {
        self.pending.len()
    }

    /// The last applied per-instrument sequence.
    pub fn last_instr_seq(&self) -> (r: u32)
        ensures
            r == self@.last_instr_seq,
    {
        self.last_instr_seq
    }

    /// The datagram sequence of the last applied delta or installed snapshot.
    pub fn last_applied_mktdata_seq(&self) -> (r: u64)
        ensures
            r == self@.last_applied_mktdata_seq,
    {
        self.last_applied_mktdata_seq
    }

    /// The time of the last applied event; zero until there is one.
    pub fn last_event_ts(&self) -> (r: u64)
        ensures
            r == self@.last_event_ts,
    {
        self.last_event_ts
    }

    /// The session is over: drop the book, the sequences, the buffered deltas and the event clock,
    /// and await the next session's snapshot.
    pub fn on_end_of_session(&mut self)
        requires
            old(self).wf(),
        ensures
            final(self).wf(),
            final(self)@ == old(self)@.session_ended(),
    {
        self.book = Orders::new();
        self.building = None;
        self.pending.clear();
        self.removed.clear();
        self.removed_order.clear();
        self.synced = false;
        self.last_instr_seq = 0;
        self.last_applied_mktdata_seq = 0;
        self.last_event_ts = 0;
    }

    /// Drop the book and any open snapshot and await a fresh one anchored at `new_anchor_seq`.
    /// Buffered deltas at or below it are discarded, those past it are kept for replay.
    pub fn on_instrument_reset(&mut self, new_anchor_seq: u64)
        requires
            old(self).wf(),
        ensures
            final(self).wf(),
            final(self)@ == old(self)@.reset(new_anchor_seq),
    {
        let ghost keep = |op: DeltaOp| op.mktdata_seq > new_anchor_seq;
        let ghost all = self.pending@;
        let mut kept: Vec<DeltaOp> = Vec::new();
        let mut i: usize = 0;
        proof {
            reveal(Seq::filter);
            assert(all.take(0) =~= Seq::empty());
        }
        while i < self.pending.len()
            invariant
                self.pending@ == all,
                i <= all.len(),
                keep == (|op: DeltaOp| op.mktdata_seq > new_anchor_seq),
                kept@ == all.take(i as int).filter(keep),
                kept@.len() <= i,
                *self == *old(self),
            decreases all.len() - i,
        {
            let op = self.pending[i];
            proof {
                reveal(Seq::filter);
                assert(all.take(i as int + 1).drop_last() =~= all.take(i as int));
            }
            if op.mktdata_seq > new_anchor_seq {
                kept.push(op);
            }
            i += 1;
        }
        assert(all.take(i as int) =~= all);
        self.book = Orders::new();
        self.building = None;
        self.pending = kept;
        self.removed.clear();
        self.removed_order.clear();
        self.synced = false;
        self.last_event_ts = 0;
    }

    /// Begin assembling a snapshot. A new begin supersedes a half-built one.
    pub fn on_snapshot_begin(
        &mut self,
        snapshot_id: u32,
        anchor_seq: u64,
        total_orders: u32,
        last_instrument_seq: u32,
    )
        requires
            old(self).wf(),
        ensures
            final(self).wf(),
            final(self)@ == old(self)@.begun(
                snapshot_id,
                anchor_seq,
                total_orders,
                last_instrument_seq,
            ),
    {
        if (self.synced && anchor_seq <= self.last_applied_mktdata_seq) || total_orders as usize
            > MAX_ORDERS_PER_BOOK {
            self.building = None;
            return ;
        }
        self.building = Some(
            Building {
                snapshot_id,
                anchor_seq,
                total_orders,
                received_orders: 0,
                last_instrument_seq,
                book: Orders::new(),
            },
        );
    }

    /// Add one resting order to the snapshot under assembly, if it belongs to it.
    pub fn on_snapshot_order(
        &mut self,
        snapshot_id: u32,
        order_id: u64,
        is_bid: bool,
        price_raw: i64,
        qty_raw: u64,
    )
        requires
            old(self).wf(),
        ensures
            final(self).wf(),
            final(self)@ == old(self)@.order_received(
                snapshot_id,
                order_id,
                RestingOrder { is_bid, price_raw, qty_raw },
            ),
    {
        proof {
            lemma_empty_wf();
            match self@.building {
                Some(b) => {
                    if b.book.orders.dom().len() < MAX_ORDERS_PER_BOOK {
                        lemma_with_wf(b.book, order_id, RestingOrder { is_bid, price_raw, qty_raw });
                    }
                },
                None => {},
            }
        }
        match &mut self.building {
            Some(b) => {
                if b.snapshot_id == snapshot_id && b.book.orders.len() < MAX_ORDERS_PER_BOOK {
                    b.book.put(order_id, RestingOrder { is_bid, price_raw, qty_raw });
                    b.received_orders = b.received_orders.saturating_add(1);
                }
            },
            None => {},
        }
    }

    /// Remember a removed order id, forgetting the oldest past [`MAX_REMOVED_ORDERS`].
    fn note_removed(&mut self, order_id: u64)
        requires
            old(self).wf(),
        ensures
            final(self).wf(),
            final(self)@ == old(self)@.id_removed(order_id),
    {
        let ghost was = self.removed_order@;
        if self.removed.contains(&order_id) {
            return ;
        }
        assert(!was.contains(order_id));
        let _new = self.removed.insert(order_id);
        self.removed_order.push_back(order_id);
        let ghost mid = self.removed_order@;
        proof {
            assert forall|id: u64| mid.contains(id) <==> was.contains(id) || id == order_id by {
                if was.contains(id) {
                    let i = was.index_of(id);
                    assert(mid[i] == id);
                }
                assert(mid[was.len() as int] == order_id);
            }
        }
        if self.removed_order.len() > MAX_REMOVED_ORDERS {
            match self.removed_order.pop_front() {
                Some(oldest) => {
                    let _gone = self.removed.remove(&oldest);
                    self.removed_evicted = self.removed_evicted.saturating_add(1);
                },
                None => {},
            }
            proof {
                let now = self.removed_order@;
                assert(now =~= was.drop_first().push(order_id));
                assert forall|id: u64| now.contains(id) <==> mid.contains(id) && id != mid[0] by {
                    if mid.contains(id) && id != mid[0] {
                        let i = mid.index_of(id);
                        assert(now[i - 1] == id);
                    }
                    if now.contains(id) {
                        let i = now.index_of(id);
                        assert(mid[i + 1] == id);
                        assert(mid.no_duplicates());
                    }
                }
            }
        }
    }

    /// Mutate the book, appending the change to report; whether it applied.
    fn apply(&mut self, kind: DeltaKind, out: &mut Vec<OrderChange>) -> (r: bool)
        requires
            old(self).wf(),
        ensures
            final(self).wf(),
            ({
                let (after, reported, applied) = old(self)@.changed(kind);
                &&& final(self)@ == after
                &&& final(out)@ == old(out)@ + reported
                &&& r == applied
            }),
    {
        let ghost said = out@;
        assert(said + Seq::<OrderChange>::empty() =~= said);
        proof {
            lemma_changed_book_wf(self@, kind);
        }
        match kind {
            DeltaKind::Add { order_id, is_bid, price_raw, qty_raw } => {
                if self.removed.contains(&order_id) {
                    assert(self@.removed.contains(order_id));
                    return false;
                }
                assert(!self@.removed.contains(order_id));
                if self.book.orders.len() >= MAX_ORDERS_PER_BOOK && !self.book.orders.contains_key(
                    &order_id,
                ) {
                    self.book = Orders::new();
                    self.synced = false;
                    return true;
                }
                self.book.put(order_id, RestingOrder { is_bid, price_raw, qty_raw });
                out.push(OrderChange { order_id, is_bid, price_raw, qty_raw });
                true
            },
            DeltaKind::Cancel { order_id } => {
                match self.book.take(order_id) {
                    Some(o) => {
                        out.push(
                            OrderChange {
                                order_id,
                                is_bid: o.is_bid,
                                price_raw: o.price_raw,
                                qty_raw: 0,
                            },
                        );
                        self.note_removed(order_id);
                    },
                    None => {},
                }
                true
            },
            DeltaKind::Execute { order_id, exec_qty_raw, full_fill } => {
                let resting: Option<RestingOrder> = match self.book.orders.get(&order_id) {
                    Some(o) => Some(*o),
                    None => None,
                };
                match resting {
                    Some(o) => {
                        let gone: bool = full_fill || exec_qty_raw >= o.qty_raw;
                        if gone {
                            let _taken = self.book.take(order_id);
                        } else {
                            self.book.fill(order_id, o, exec_qty_raw);
                        }
                        out.push(
                            OrderChange {
                                order_id,
                                is_bid: o.is_bid,
                                price_raw: o.price_raw,
                                qty_raw: if gone {
                                    0
                                } else {
                                    o.qty_raw - exec_qty_raw
                                },
                            },
                        );
                        if gone {
                            self.note_removed(order_id);
                        }
                    },
                    None => {},
                }
                true
            },
        }
    }

    fn apply_or_recover(&mut self, op: DeltaOp, out: &mut Vec<OrderChange>) -> (r: bool)
        requires
            old(self).wf(),
        ensures
            final(self).wf(),
            ({
                let (after, reported, applied) = old(self)@.sequenced(op);
                &&& final(self)@ == after
                &&& final(out)@ == old(out)@ + reported
                &&& r == applied
            }),
    {
        assert(out@ + Seq::<OrderChange>::empty() =~= out@);
        if op.seq <= self.last_instr_seq {
            return false;
        }
        if op.seq != self.last_instr_seq + 1 {
            self.synced = false;
            self.pending.clear();
            self.pending.push(op);
            assert(self.pending@ =~= seq![op]);
            return false;
        }
        self.last_instr_seq = op.seq;
        self.last_applied_mktdata_seq = op.mktdata_seq;
        self.last_event_ts = op.ts;
        self.apply(op.kind, out)
    }

    /// Apply a delta, appending the order-level change it produced; whether it applied. While
    /// recovering it is buffered instead. Nothing is reported for an event the book rejects.
    pub fn on_delta_reporting(&mut self, op: DeltaOp, out: &mut Vec<OrderChange>) -> (r: bool)
        requires
            old(self).wf(),
        ensures
            final(self).wf(),
            ({
                let (after, reported, applied) = old(self)@.offered(op);
                &&& final(self)@ == after
                &&& final(out)@ == old(out)@ + reported
                &&& r == applied
            }),
    {
        if self.synced {
            return self.apply_or_recover(op, out);
        }
        assert(out@ + Seq::<OrderChange>::empty() =~= out@);
        if self.pending.len() < MAX_PENDING_DELTAS {
            self.pending.push(op);
        }
        false
    }

    /// [`Self::on_delta_reporting`] for a caller that only needs to know whether the delta applied.
    pub fn on_delta(&mut self, op: DeltaOp) -> (r: bool)
        requires
            old(self).wf(),
        ensures
            final(self).wf(),
            final(self)@ == old(self)@.offered(op).0,
            r == old(self)@.offered(op).2,
    {
        let mut out: Vec<OrderChange> = Vec::new();
        self.on_delta_reporting(op, &mut out)
    }

    /// Close the snapshot under assembly: if it is the one that was opened and complete, install it
    /// and replay the buffered deltas past it. Whether the book changed.
    pub fn on_snapshot_end(&mut self, anchor_seq: u64, snapshot_id: u32) -> (r: bool)
        requires
            old(self).wf(),
        ensures
            final(self).wf(),
            (final(self)@, r) == old(self)@.ended(anchor_seq, snapshot_id),
    {
        let b = match self.building.take() {
            Some(b) => b,
            None => {
                return false;
            },
        };
        let ghost bv = b@;
        if b.snapshot_id != snapshot_id || b.anchor_seq != anchor_seq || b.received_orders
            != b.total_orders {
            self.synced = false;
            return false;
        }
        let ops = in_replay_order(&self.pending, b.anchor_seq);
        self.last_instr_seq = b.last_instrument_seq;
        self.last_applied_mktdata_seq = b.anchor_seq;
        self.book = b.book;
        self.synced = true;
        self.removed.clear();
        self.removed_order.clear();
        self.pending.clear();
        let ghost start = self@;
        proof {
            assert(start == (StateView {
                book: bv.book,
                synced: true,
                last_instr_seq: bv.last_instrument_seq,
                last_applied_mktdata_seq: bv.anchor_seq,
                building: None,
                pending: Seq::empty(),
                removed: Seq::empty(),
                ..old(self)@
            }));
        }
        let mut unreported: Vec<OrderChange> = Vec::new();
        let mut i: usize = 0;
        while i < ops.len() && self.synced
            invariant
                self.wf(),
                i <= ops@.len(),
                self@ == start.replayed(ops@, i as int),
            decreases ops@.len() - i,
        {
            let _applied = self.apply_or_recover(ops[i], &mut unreported);
            i += 1;
        }
        proof {
            lemma_replay_stops(start, ops@, i as int, ops@.len() as int);
        }
        true
    }

    /// Every resting order, bids best first then asks best first, ties broken by order id.
    pub fn order_set(&self, out: &mut Vec<OrderChange>)
        ensures
            final(out)@ == order_list(self@.book.orders),
            lists_orders(self@.book.orders, final(out)@),
    {
        *out = orders_in_order(&self.book.orders);
    }

    /// The best `n` price levels per side: bids high to low, asks low to high.
    pub fn top_levels(&self, n: usize) -> (r: (Vec<Level>, Vec<Level>))
        ensures
            r.0@ == self@.book.top_bids(n as int),
            r.1@ == self@.book.top_asks(n as int),
    {
        let mut bids: Vec<Level> = Vec::new();
        let up = list_i64(&self.book.bids);
        let ghost down = shown_levels(up@.reverse());
        let mut i: usize = 0;
        while i < n && i < up.len()
            invariant
                i <= n,
                i <= up@.len(),
                down == shown_levels(up@.reverse()),
                bids@ == down.take(i as int),
            decreases up@.len() - i,
        {
            let (price, total) = up[up.len() - 1 - i];
            bids.push((price, shown_total(total)));
            assert(bids@ =~= down.take(i as int + 1));
            i += 1;
        }
        assert(bids@ =~= first_n(down, n as int));
        let mut asks: Vec<Level> = Vec::new();
        let low = list_i64(&self.book.asks);
        let ghost rising = shown_levels(low@);
        let mut j: usize = 0;
        while j < n && j < low.len()
            invariant
                j <= n,
                j <= low@.len(),
                rising == shown_levels(low@),
                asks@ == rising.take(j as int),
            decreases low@.len() - j,
        {
            let (price, total) = low[j];
            asks.push((price, shown_total(total)));
            assert(asks@ =~= rising.take(j as int + 1));
            j += 1;
        }
        assert(asks@ =~= first_n(rising, n as int));
        (bids, asks)
    }
}

fn shown_total(total: u128) -> (r: u64)
    ensures
        r == shown(total),
{
    if total <= u64::MAX as u128 {
        total as u64
    } else {
        u64::MAX
    }
}

proof fn lemma_replay_stops(v: StateView, ops: Seq<DeltaOp>, i: int, n: int)
    requires
        0 <= i <= n <= ops.len(),
        i == n || !v.replayed(ops, i).synced,
    ensures
        v.replayed(ops, n) == v.replayed(ops, i),
    decreases n - i,
{
    if i < n {
        lemma_replay_stops(v, ops, i, n - 1);
    }
}

/// The deltas past `anchor` in replay order.
fn in_replay_order(pending: &Vec<DeltaOp>, anchor: u64) -> (r: Vec<DeltaOp>)
    requires
        pending@.len() <= MAX_PENDING_DELTAS,
    ensures
        r@ == replay_order(pending@, anchor),
{
    let sorted = keyed_in_order(pending, anchor);
    let mut out: Vec<DeltaOp> = Vec::new();
    let mut i: usize = 0;
    while i < sorted.len()
        invariant
            i <= sorted@.len(),
            out@ == sorted@.map_values(|e: ((u64, u64), DeltaOp)| e.1).take(i as int),
        decreases sorted@.len() - i,
    {
        out.push(sorted[i].1);
        assert(out@ =~= sorted@.map_values(|e: ((u64, u64), DeltaOp)| e.1).take(i as int + 1));
        i += 1;
    }
    assert(out@ =~= sorted@.map_values(|e: ((u64, u64), DeltaOp)| e.1));
    out
}

fn keyed_in_order(pending: &Vec<DeltaOp>, anchor: u64) -> (r: Vec<((u64, u64), DeltaOp)>)
    requires
        pending@.len() <= MAX_PENDING_DELTAS,
    ensures
        r@ == listing(keyed(pending@, anchor), less_pair_u64()),
{
    let mut by_key: BTreeMap<(u64, u64), DeltaOp> = BTreeMap::new();
    let mut i: usize = 0;
    let mut at: u64 = 0;
    assert(by_key@ =~= keyed(pending@.take(0), anchor));
    while i < pending.len()
        invariant
            pending@.len() <= MAX_PENDING_DELTAS,
            i <= pending@.len(),
            at == i,
            by_key@ == keyed(pending@.take(i as int), anchor),
        decreases pending@.len() - i,
    {
        let op = pending[i];
        let ghost was = by_key@;
        if op.mktdata_seq > anchor {
            put_pair(&mut by_key, (op.mktdata_seq, at), op);
        }
        proof {
            let p = pending@.take(i as int);
            let q = pending@.take(i as int + 1);
            assert forall|k: (u64, u64)| keyed(q, anchor).contains_key(k) == (keyed(
                p,
                anchor,
            ).contains_key(k) || (k == (op.mktdata_seq, at) && op.mktdata_seq > anchor)) by {
                if k.1 < i {
                    assert(q[k.1 as int] == p[k.1 as int]);
                }
            }
            assert(by_key@ =~= keyed(q, anchor));
        }
        at += 1;
        i += 1;
    }
    assert(pending@.take(i as int) =~= pending@);
    list_pair_u64(&by_key)
}

fn put_pair(m: &mut BTreeMap<(u64, u64), DeltaOp>, k: (u64, u64), v: DeltaOp)
    ensures
        final(m)@ == old(m)@.insert(k, v),
{
    broadcast use vstd::laws_cmp::group_laws_cmp;

    let _was = m.insert(k, v);
}

fn put_priced(m: &mut BTreeMap<(i128, u64), OrderChange>, k: (i128, u64), v: OrderChange)
    ensures
        final(m)@ == old(m)@.insert(k, v),
{
    broadcast use vstd::laws_cmp::group_laws_cmp;

    let _was = m.insert(k, v);
}

/// Where a change comes on its side: better prices first, then by order id.
spec fn place(c: OrderChange) -> (i128, u64) {
    (
        if c.is_bid {
            -(c.price_raw as int) as i128
        } else {
            c.price_raw as i128
        },
        c.order_id,
    )
}

/// The changes of one side among the first `n` of `entries`, each at its place.
spec fn placed(entries: Seq<(u64, RestingOrder)>, n: int, is_bid: bool) -> Map<
    (i128, u64),
    OrderChange,
>
    decreases n,
{
    if n <= 0 {
        Map::empty()
    } else {
        let c = as_change(entries[n - 1].0, entries[n - 1].1);
        let m = placed(entries, n - 1, is_bid);
        if c.is_bid == is_bid {
            m.insert(place(c), c)
        } else {
            m
        }
    }
}

proof fn lemma_placed(entries: Seq<(u64, RestingOrder)>, n: int, is_bid: bool)
    requires
        0 <= n <= entries.len(),
    ensures
        forall|k: (i128, u64)| #[trigger]
            placed(entries, n, is_bid).contains_key(k) ==> {
                let c = placed(entries, n, is_bid)[k];
                &&& place(c) == k
                &&& c.is_bid == is_bid
                &&& exists|i: int|
                    0 <= i < n && as_change((#[trigger] entries[i]).0, entries[i].1) == c
            },
        forall|i: int|
            0 <= i < n && (#[trigger] entries[i]).1.is_bid == is_bid ==> placed(
                entries,
                n,
                is_bid,
            ).contains_key(place(as_change(entries[i].0, entries[i].1))),
    decreases n,
{
    if n > 0 {
        lemma_placed(entries, n - 1, is_bid);
        let m = placed(entries, n - 1, is_bid);
        let w = placed(entries, n, is_bid);
        let c = as_change(entries[n - 1].0, entries[n - 1].1);
        assert forall|k: (i128, u64)| #[trigger] w.contains_key(k) implies {
            let d = w[k];
            &&& place(d) == k
            &&& d.is_bid == is_bid
            &&& exists|i: int| 0 <= i < n && as_change((#[trigger] entries[i]).0, entries[i].1) == d
        } by {
            if c.is_bid == is_bid && k == place(c) {
                assert(as_change(entries[n - 1].0, entries[n - 1].1) == w[k]);
            } else {
                assert(m.contains_key(k));
                let i = choose|i: int|
                    0 <= i < n - 1 && as_change((#[trigger] entries[i]).0, entries[i].1) == m[k];
                assert(as_change(entries[i].0, entries[i].1) == w[k]);
            }
        }
    }
}

/// The resting orders in the order of [`order_list`].
fn orders_in_order(orders: &HashMap<u64, RestingOrder>) -> (r: Vec<OrderChange>)
    ensures
        r@ == order_list(orders@),
        lists_orders(orders@, r@),
{
    let entries = hashed_entries(orders);
    let mut bids: BTreeMap<(i128, u64), OrderChange> = BTreeMap::new();
    let mut asks: BTreeMap<(i128, u64), OrderChange> = BTreeMap::new();
    let mut i: usize = 0;
    while i < entries.len()
        invariant
            i <= entries@.len(),
            bids@ == placed(entries@, i as int, true),
            asks@ == placed(entries@, i as int, false),
        decreases entries@.len() - i,
    {
        let (order_id, o) = entries[i];
        let c = OrderChange {
            order_id,
            is_bid: o.is_bid,
            price_raw: o.price_raw,
            qty_raw: o.qty_raw,
        };
        if o.is_bid {
            put_priced(&mut bids, (-(o.price_raw as i128), order_id), c);
        } else {
            put_priced(&mut asks, (o.price_raw as i128, order_id), c);
        }
        i += 1;
    }
    let bid_list = list_pair_i128(&bids);
    let ask_list = list_pair_i128(&asks);
    let mut out: Vec<OrderChange> = Vec::new();
    let mut a: usize = 0;
    while a < bid_list.len()
        invariant
            a <= bid_list@.len(),
            out@.len() == a,
            forall|x: int| 0 <= x < a ==> #[trigger] out@[x] == bid_list@[x].1,
        decreases bid_list@.len() - a,
    {
        out.push(bid_list[a].1);
        a += 1;
    }
    let mut b: usize = 0;
    while b < ask_list.len()
        invariant
            b <= ask_list@.len(),
            out@.len() == bid_list@.len() + b,
            forall|x: int| 0 <= x < bid_list@.len() ==> #[trigger] out@[x] == bid_list@[x].1,
            forall|x: int|
                bid_list@.len() <= x < out@.len() ==> #[trigger] out@[x] == ask_list@[x
                    - bid_list@.len()].1,
        decreases ask_list@.len() - b,
    {
        out.push(ask_list[b].1);
        b += 1;
    }
    proof {
        lemma_placed(entries@, entries@.len() as int, true);
        lemma_placed(entries@, entries@.len() as int, false);
        let m = order_changes(orders@);
        let s = Seq::new(out@.len(), |x: int| (out@[x], ()));
        assert forall|x: int| 0 <= x < out@.len() implies m.contains_key(#[trigger] out@[x]) by {
            let c = out@[x];
            if x < bid_list@.len() {
                assert(bids@.contains_key(bid_list@[x].0));
            } else {
                assert(asks@.contains_key(ask_list@[x - bid_list@.len()].0));
            }
            let e = choose|e: int|
                0 <= e < entries@.len() && as_change((#[trigger] entries@[e]).0, entries@[e].1) == c;
            assert(orders@.contains_key(entries@[e].0));
        }
        assert forall|x: int, y: int| 0 <= x < y < s.len() implies (before())(
            (#[trigger] s[x]).0,
            (#[trigger] s[y]).0,
        ) by {
            let n = bid_list@.len();
            if y < n {
                let (p, q) = (bid_list@[x], bid_list@[y]);
                assert(bids@.contains_key(p.0) && bids@.contains_key(q.0));
                assert((less_pair_i128())(p.0, q.0));
            } else if x < n {
                let (p, q) = (bid_list@[x], ask_list@[y - n]);
                assert(bids@.contains_key(p.0) && asks@.contains_key(q.0));
            } else {
                let (p, q) = (ask_list@[x - n], ask_list@[y - n]);
                assert(asks@.contains_key(p.0) && asks@.contains_key(q.0));
                assert((less_pair_i128())(p.0, q.0));
            }
        }
        assert forall|c: OrderChange| #[trigger] m.contains_key(c) implies exists|x: int|
            0 <= x < s.len() && (#[trigger] s[x]).0 == c by {
            assert(orders@.contains_key(c.order_id));
            let e = choose|e: int| 0 <= e < entries@.len() && (#[trigger] entries@[e]).0 == c.order_id;
            assert(as_change(entries@[e].0, entries@[e].1) == c);
            if c.is_bid {
                assert(bids@.contains_key(place(c)));
                let x = choose|x: int| 0 <= x < bid_list@.len() && (#[trigger] bid_list@[x]).0 == place(c);
                let d = bids@[place(c)];
                assert(d.order_id == c.order_id);
                let f = choose|f: int|
                    0 <= f < entries@.len() && as_change((#[trigger] entries@[f]).0, entries@[f].1)
                        == d;
                assert(orders@.contains_key(entries@[f].0));
                assert(s[x].0 == c);
            } else {
                assert(asks@.contains_key(place(c)));
                let x = choose|x: int| 0 <= x < ask_list@.len() && (#[trigger] ask_list@[x]).0 == place(c);
                let d = asks@[place(c)];
                assert(d.order_id == c.order_id);
                let f = choose|f: int|
                    0 <= f < entries@.len() && as_change((#[trigger] entries@[f]).0, entries@[f].1)
                        == d;
                assert(orders@.contains_key(entries@[f].0));
                assert(s[bid_list@.len() + x].0 == c);
            }
        }
        assert(lists_in_order(m, s, before()));
        crate::ordered::lemma_is_listing(m, s, before());
        assert(out@ =~= order_list(orders@));
        assert forall|x: int, y: int| 0 <= x < y < out@.len() implies (before())(
            #[trigger] out@[x],
            #[trigger] out@[y],
        ) by {
            assert(s[x].0 == out@[x] && s[y].0 == out@[y]);
        }
        assert forall|id: u64| #[trigger] orders@.contains_key(id) implies out@.contains(
            as_change(id, orders@[id]),
        ) by {
            assert(m.contains_key(as_change(id, orders@[id])));
            let x = choose|x: int|
                0 <= x < s.len() && (#[trigger] s[x]).0 == as_change(id, orders@[id]);
            assert(out@[x] == as_change(id, orders@[id]));
        }
    }
    out
}

/// An order taken out takes its share of every level with it.
pub proof fn lemma_resting_without(
    orders: Map<u64, RestingOrder>,
    id: u64,
    is_bid: bool,
    price: i64,
)
    requires
        orders.dom().finite(),
        orders.contains_key(id),
    ensures
        resting_at(orders, is_bid, price) == contribution(orders[id], is_bid, price) + resting_at(
            orders.remove(id),
            is_bid,
            price,
        ),
    decreases orders.dom().len(),
{
    assert(orders.dom().contains(id));
    assert(orders.dom().len() > 0);
    let c = orders.dom().choose();
    assert(orders.dom().contains(c));
    if c != id {
        let a = orders.remove(c);
        let b = orders.remove(id);
        assert(a.dom() =~= orders.dom().remove(c));
        assert(b.dom() =~= orders.dom().remove(id));
        lemma_resting_without(a, id, is_bid, price);
        lemma_resting_without(b, c, is_bid, price);
        assert(a.remove(id) =~= b.remove(c));
    }
}

/// An order put in adds its share to every level.
pub proof fn lemma_resting_with(
    orders: Map<u64, RestingOrder>,
    id: u64,
    o: RestingOrder,
    is_bid: bool,
    price: i64,
)
    requires
        orders.dom().finite(),
        !orders.contains_key(id),
    ensures
        resting_at(orders.insert(id, o), is_bid, price) == contribution(o, is_bid, price)
            + resting_at(orders, is_bid, price),
{
    let w = orders.insert(id, o);
    lemma_resting_without(w, id, is_bid, price);
    assert(w.remove(id) =~= orders);
}

proof fn lemma_resting_bound(orders: Map<u64, RestingOrder>, is_bid: bool, price: i64)
    requires
        orders.dom().finite(),
    ensures
        resting_at(orders, is_bid, price) <= orders.dom().len() * u64::MAX,
    decreases orders.dom().len(),
{
    if orders.dom().len() > 0 {
        let id = orders.dom().choose();
        assert(orders.remove(id).dom() =~= orders.dom().remove(id));
        lemma_resting_bound(orders.remove(id), is_bid, price);
        let n = orders.dom().len() as int;
        assert((n - 1) * u64::MAX + u64::MAX == n * u64::MAX) by (nonlinear_arith);
    }
}

proof fn lemma_empty_wf()
    ensures
        Population::empty().wf(),
{
}

/// One side's levels stay its orders' totals when `taken` of an order's quantity goes.
proof fn lemma_side_lowered(
    p: Population,
    is_bid: bool,
    id: u64,
    rest: Option<RestingOrder>,
    taken: u64,
)
    requires
        p.wf(),
        p.orders.contains_key(id),
        taken <= p.orders[id].qty_raw,
        match rest {
            Some(r) => taken < p.orders[id].qty_raw && r == (RestingOrder {
                qty_raw: (p.orders[id].qty_raw - taken) as u64,
                ..p.orders[id]
            }),
            None => taken == p.orders[id].qty_raw,
        },
    ensures
        ({
            let o = p.orders[id];
            let orders = match rest {
                Some(r) => p.orders.insert(id, r),
                None => p.orders.remove(id),
            };
            totals(
                if o.is_bid == is_bid {
                    level_removed(p.side(is_bid), o.price_raw, taken as u128)
                } else {
                    p.side(is_bid)
                },
                orders,
                is_bid,
            )
        }),
{
    let o = p.orders[id];
    let gone = p.orders.remove(id);
    let orders = match rest {
        Some(r) => p.orders.insert(id, r),
        None => gone,
    };
    let was = p.side(is_bid);
    let now = if o.is_bid == is_bid {
        level_removed(was, o.price_raw, taken as u128)
    } else {
        was
    };
    assert forall|price: i64| #[trigger]
        level_at(now, price) == resting_at(orders, is_bid, price) by {
        assert(level_at(was, price) == resting_at(p.orders, is_bid, price));
        lemma_resting_without(p.orders, id, is_bid, price);
        match rest {
            Some(r) => {
                assert(gone.insert(id, r) =~= orders);
                lemma_resting_with(gone, id, r, is_bid, price);
            },
            None => {},
        }
    }
    assert forall|price: i64| #[trigger] now.contains_key(price) && now[price] == 0 implies idle_at(
        orders,
        is_bid,
        price,
    ) by {
        assert(was.contains_key(price) && was[price] == 0);
        assert(idle_at(p.orders, is_bid, price));
        let x = choose|x: u64| #[trigger]
            p.orders.contains_key(x) && p.orders[x] == (RestingOrder {
                is_bid,
                price_raw: price,
                qty_raw: 0,
            });
        if x == id {
            assert(!now.contains_key(price));
        }
        assert(orders.contains_key(x));
    }
}

pub proof fn lemma_without_wf(p: Population, id: u64)
    requires
        p.wf(),
    ensures
        p.without(id).wf(),
        !p.without(id).orders.contains_key(id),
        p.orders.contains_key(id) ==> p.without(id).orders.dom().len() < p.orders.dom().len(),
{
    if p.orders.contains_key(id) {
        let o = p.orders[id];
        assert(p.orders.remove(id).dom() =~= p.orders.dom().remove(id));
        lemma_side_lowered(p, true, id, None, o.qty_raw);
        lemma_side_lowered(p, false, id, None, o.qty_raw);
    }
}

pub proof fn lemma_with_wf(p: Population, id: u64, o: RestingOrder)
    requires
        p.wf(),
        p.orders.contains_key(id) || p.orders.dom().len() < MAX_ORDERS_PER_BOOK,
    ensures
        p.with(id, o).wf(),
{
    lemma_without_wf(p, id);
    let w = p.without(id);
    let now = p.with(id, o);
    assert(now.orders.dom() =~= w.orders.dom().insert(id));
    assert forall|is_bid: bool| #[trigger] totals(now.side(is_bid), now.orders, is_bid) by {
        let was = w.side(is_bid);
        let levels = now.side(is_bid);
        assert(totals(was, w.orders, is_bid));
        lemma_resting_bound(w.orders, is_bid, o.price_raw);
        assert(level_at(was, o.price_raw) == resting_at(w.orders, is_bid, o.price_raw));
        assert forall|price: i64| #[trigger]
            level_at(levels, price) == resting_at(now.orders, is_bid, price) by {
            lemma_resting_with(w.orders, id, o, is_bid, price);
            assert(level_at(was, price) == resting_at(w.orders, is_bid, price));
        }
        assert forall|price: i64| #[trigger]
            levels.contains_key(price) && levels[price] == 0 implies idle_at(
            now.orders,
            is_bid,
            price,
        ) by {
            if o.is_bid == is_bid && o.price_raw == price {
                assert(now.orders.contains_key(id));
            } else {
                assert(was.contains_key(price) && was[price] == 0);
                assert(idle_at(w.orders, is_bid, price));
                let x = choose|x: u64| #[trigger]
                    w.orders.contains_key(x) && w.orders[x] == (RestingOrder {
                        is_bid,
                        price_raw: price,
                        qty_raw: 0,
                    });
                assert(now.orders.contains_key(x));
            }
        }
    }
    assert(totals(now.side(true), now.orders, true));
    assert(totals(now.side(false), now.orders, false));
}

pub proof fn lemma_filled_wf(p: Population, id: u64, qty: u64)
    requires
        p.wf(),
        p.orders.contains_key(id),
        qty < p.orders[id].qty_raw,
    ensures
        p.filled(id, qty).wf(),
{
    let o = p.orders[id];
    let rest = RestingOrder { qty_raw: (o.qty_raw - qty) as u64, ..o };
    assert(p.orders.insert(id, rest).dom() =~= p.orders.dom());
    lemma_side_lowered(p, true, id, Some(rest), qty);
    lemma_side_lowered(p, false, id, Some(rest), qty);
}

/// A delta leaves every level the total of the orders that rest at it.
proof fn lemma_changed_book_wf(v: StateView, kind: DeltaKind)
    requires
        v.wf(),
    ensures
        v.changed(kind).0.book.wf(),
{
    lemma_empty_wf();
    match kind {
        DeltaKind::Add { order_id, is_bid, price_raw, qty_raw } => {
            if v.book.orders.contains_key(order_id) || v.book.orders.dom().len()
                < MAX_ORDERS_PER_BOOK {
                lemma_with_wf(v.book, order_id, RestingOrder { is_bid, price_raw, qty_raw });
            }
        },
        DeltaKind::Cancel { order_id } => {
            lemma_without_wf(v.book, order_id);
        },
        DeltaKind::Execute { order_id, exec_qty_raw, full_fill } => {
            lemma_without_wf(v.book, order_id);
            if v.book.orders.contains_key(order_id) && exec_qty_raw < v.book.orders[order_id].qty_raw {
                lemma_filled_wf(v.book, order_id, exec_qty_raw);
            }
        },
    }
}

/// No removed order rests.
pub open spec fn removed_are_gone(v: StateView) -> bool {
    forall|id: u64| #[trigger] v.removed.contains(id) ==> !v.book.orders.contains_key(id)
}

/// An order this book has removed is not brought back by any delta: it does not rest afterwards, and
/// its id stays remembered unless the memory is full and it is the oldest.
pub proof fn law_a_removed_order_is_never_resurrected(v: StateView, op: DeltaOp, id: u64)
    requires
        v.wf(),
        removed_are_gone(v),
        v.removed.contains(id),
    ensures
        removed_are_gone(v.offered(op).0),
        !v.offered(op).0.book.orders.contains_key(id),
        v.offered(op).0.removed.contains(id) || (v.removed.len() == MAX_REMOVED_ORDERS
            && v.removed[0] == id),
{
    if v.synced && op.seq == v.last_instr_seq + 1 {
        let w = StateView {
            last_instr_seq: op.seq,
            last_applied_mktdata_seq: op.mktdata_seq,
            last_event_ts: op.ts,
            ..v
        };
        assert(removed_are_gone(w));
        lemma_removed_stay_gone(w, op.kind, id);
    }
}

proof fn lemma_removed_stay_gone(v: StateView, kind: DeltaKind, id: u64)
    requires
        v.wf(),
        removed_are_gone(v),
        v.removed.contains(id),
    ensures
        removed_are_gone(v.changed(kind).0),
        v.changed(kind).0.removed.contains(id) || (v.removed.len() == MAX_REMOVED_ORDERS
            && v.removed[0] == id),
        !v.changed(kind).0.book.orders.contains_key(id),
{
    let named = match kind {
        DeltaKind::Add { order_id, .. } => order_id,
        DeltaKind::Cancel { order_id } => order_id,
        DeltaKind::Execute { order_id, .. } => order_id,
    };
    let after = v.changed(kind).0;
    let grown = v.removed.push(named);
    let turned = v.removed.drop_first().push(named);
    assert(after.removed == v.removed || after.removed == grown || after.removed == turned);
    assert forall|x: u64| #[trigger] after.removed.contains(x) implies v.removed.contains(x) || x
        == named by {
        let i = after.removed.index_of(x);
        if after.removed == grown && i < v.removed.len() {
            assert(v.removed[i] == x);
        }
        if after.removed == turned && i < v.removed.len() - 1 {
            assert(v.removed[i + 1] == x);
        }
    }
    let at = v.removed.index_of(id);
    if after.removed == grown {
        assert(grown[at] == id);
    }
    if after.removed == turned && at > 0 {
        assert(turned[at - 1] == id);
    }
}

/// A delta that the book rejects reports nothing and leaves every resting order and level as it was.
pub proof fn law_a_rejected_delta_reports_nothing(v: StateView, op: DeltaOp)
    requires
        !v.offered(op).2,
    ensures
        v.offered(op).1 == Seq::<OrderChange>::empty(),
        v.offered(op).0.book == v.book,
{
}

/// What a delta reports is what then rests: the order as it is, or gone with a quantity of zero.
pub proof fn law_a_report_is_the_order_as_it_rests(v: StateView, op: DeltaOp, i: int)
    requires
        0 <= i < v.offered(op).1.len(),
    ensures
        v.offered(op).1.len() == 1,
        ({
            let c = v.offered(op).1[i];
            let orders = v.offered(op).0.book.orders;
            if orders.contains_key(c.order_id) {
                as_change(c.order_id, orders[c.order_id]) == c
            } else {
                c.qty_raw == 0
            }
        }),
{
}

/// A delta touches no other order than the one it names, unless the book is dropped for being too
/// large.
pub proof fn law_a_delta_touches_one_order(v: StateView, op: DeltaOp, id: u64)
    requires
        v.offered(op).0.synced,
        match op.kind {
            DeltaKind::Add { order_id, .. } => order_id != id,
            DeltaKind::Cancel { order_id } => order_id != id,
            DeltaKind::Execute { order_id, .. } => order_id != id,
        },
    ensures
        v.offered(op).0.book.orders.contains_key(id) == v.book.orders.contains_key(id),
        v.book.orders.contains_key(id) ==> v.offered(op).0.book.orders[id] == v.book.orders[id],
{
}

/// Deltas apply in unbroken sequence: one that applies is the next, and moves the sequence by one.
pub proof fn law_deltas_apply_in_sequence(v: StateView, op: DeltaOp)
    ensures
        v.offered(op).2 ==> v.synced && op.seq == v.last_instr_seq + 1
            && v.offered(op).0.last_instr_seq == op.seq,
        v.synced && op.seq <= v.last_instr_seq ==> v.offered(op).0 == v,
        v.synced && op.seq > v.last_instr_seq + 1 ==> {
            let after = v.offered(op).0;
            &&& !after.synced
            &&& after.pending == seq![op]
            &&& after.book == v.book
        },
{
}

/// A snapshot that is not ahead of a book in sync changes nothing of it, whatever orders follow.
pub proof fn law_a_stale_snapshot_is_ignored(
    v: StateView,
    snapshot_id: u32,
    anchor_seq: u64,
    total_orders: u32,
    last_instrument_seq: u32,
    order_id: u64,
    o: RestingOrder,
)
    requires
        v.synced,
        anchor_seq <= v.last_applied_mktdata_seq,
    ensures
        ({
            let begun = v.begun(snapshot_id, anchor_seq, total_orders, last_instrument_seq);
            let after = begun.order_received(snapshot_id, order_id, o);
            &&& after == begun
            &&& after == (StateView { building: None, ..v })
            &&& after.ended(anchor_seq, snapshot_id) == (after, false)
        }),
{
}

/// A snapshot of which not every promised order arrived is never installed.
pub proof fn law_an_incomplete_snapshot_is_discarded(v: StateView, anchor_seq: u64, snapshot_id: u32)
    requires
        v.building is Some,
        v.building->0.received_orders != v.building->0.total_orders,
    ensures
        !v.ended(anchor_seq, snapshot_id).1,
        !v.ended(anchor_seq, snapshot_id).0.synced,
        v.ended(anchor_seq, snapshot_id).0.book == v.book,
{
}

/// The deltas that are replayed are past the snapshot, and in order of their datagram sequence.
pub proof fn law_replay_is_past_the_snapshot_and_in_order(
    pending: Seq<DeltaOp>,
    anchor: u64,
    i: int,
    j: int,
)
    requires
        pending.len() <= MAX_PENDING_DELTAS,
        0 <= i < j < replay_order(pending, anchor).len(),
    ensures
        anchor < replay_order(pending, anchor)[i].mktdata_seq,
        replay_order(pending, anchor)[i].mktdata_seq <= replay_order(pending, anchor)[j].mktdata_seq,
        pending.contains(replay_order(pending, anchor)[i]),
{
    lemma_replay_listing(pending, anchor);
    let l = listing(keyed(pending, anchor), less_pair_u64());
    let m = keyed(pending, anchor);
    assert(m.contains_key(l[i].0) && m.contains_key(l[j].0));
    assert((less_pair_u64())(l[i].0, l[j].0));
    assert(pending[(l[i].0).1 as int] == l[i].1);
}

/// What is replayed was buffered.
pub proof fn lemma_replayed_was_buffered(pending: Seq<DeltaOp>, anchor: u64, i: int)
    requires
        pending.len() <= MAX_PENDING_DELTAS,
        0 <= i < replay_order(pending, anchor).len(),
    ensures
        pending.contains(replay_order(pending, anchor)[i]),
{
    lemma_replay_listing(pending, anchor);
    let l = listing(keyed(pending, anchor), less_pair_u64());
    assert(keyed(pending, anchor).contains_key(l[i].0));
    assert(pending[(l[i].0).1 as int] == l[i].1);
}

/// Every buffered delta past the snapshot is replayed.
pub proof fn law_every_delta_past_the_snapshot_is_replayed(
    pending: Seq<DeltaOp>,
    anchor: u64,
    i: int,
)
    requires
        pending.len() <= MAX_PENDING_DELTAS,
        0 <= i < pending.len(),
        pending[i].mktdata_seq > anchor,
    ensures
        replay_order(pending, anchor).contains(pending[i]),
{
    lemma_replay_listing(pending, anchor);
    let l = listing(keyed(pending, anchor), less_pair_u64());
    let m = keyed(pending, anchor);
    let k = (pending[i].mktdata_seq, i as u64);
    assert(m.contains_key(k));
    let x = choose|x: int| 0 <= x < l.len() && (#[trigger] l[x]).0 == k;
    assert(l[x].1 == pending[i]);
    assert(replay_order(pending, anchor)[x] == pending[i]);
}

/// The buffered deltas can be listed in order.
pub proof fn lemma_replay_listing(pending: Seq<DeltaOp>, anchor: u64)
    requires
        pending.len() <= MAX_PENDING_DELTAS,
    ensures
        lists_in_order(
            keyed(pending, anchor),
            listing(keyed(pending, anchor), less_pair_u64()),
            less_pair_u64(),
        ),
{
    let m = keyed(pending, anchor);
    let all = Seq::new(pending.len(), |i: int| (pending[i].mktdata_seq, i as u64));
    vstd::seq_lib::seq_to_set_is_finite(all);
    assert(m.dom().subset_of(all.to_set())) by {
        assert forall|k: (u64, u64)| m.dom().contains(k) implies all.to_set().contains(k) by {
            assert(all[k.1 as int] == k);
        }
    }
    vstd::set_lib::lemma_len_subset(m.dom(), all.to_set());
    crate::ordered::lemma_listing_exists(m, less_pair_u64());
}

/// A session's end leaves nothing of it: the book is as new, so the next session's snapshot is taken
/// whatever its anchor.
pub proof fn law_a_session_end_leaves_a_new_book(v: StateView)
    ensures
        v.session_ended() == (StateView { removed_evicted: v.removed_evicted, ..StateView::new() }),
        v.session_ended().wf(),
{
}

} // verus!
