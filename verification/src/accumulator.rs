//! The book that a stream of batches adds up to.

use crate::model::{
    copy_changes, BookAction, BookChange, BookSide, BookView, MarketId, MarketKey, NormalizedBook,
};
use crate::ordered::{less_i128, less_u64, list_i128, list_u64, listing};
use crate::table::Key;
use std::collections::BTreeMap;
use vstd::prelude::*;

verus! {

/// Cap on changes held back for a logical event that is not closed yet. Past it the stream is taken
/// to have lost its event boundaries.
pub const MAX_PENDING_CHANGES: usize = 8192;

/// What a [`BookAccumulator`] holds.
#[verifier::ext_equal]
pub struct AccView {
    pub symbol: Seq<char>,
    pub source: Seq<char>,
    pub source_id: u16,
    pub source_ts_ns: u64,
    /// Price to quantity.
    pub bids: Map<i128, i128>,
    pub asks: Map<i128, i128>,
    /// Order to its price and quantity.
    pub bid_orders: Map<u64, (i128, i128)>,
    pub ask_orders: Map<u64, (i128, i128)>,
    /// Changes of the logical event that is not closed yet.
    pub pending: Seq<BookChange>,
    /// The producer has re-baselined the book, so what is held is all of it.
    pub baselined: bool,
}

/// A `clear` of the whole book.
pub open spec fn clear_both_spec() -> BookChange {
    BookChange {
        action: BookAction::Clear,
        side: BookSide::Both,
        price: 0,
        size: 0,
        order_id: 0,
    }
}

/// A `clear` of the whole book.
pub fn clear_both() -> (r: BookChange)
    ensures
        r == clear_both_spec(),
{
    BookChange {
        action: BookAction::Clear,
        side: BookSide::Both,
        price: 0,
        size: 0,
        order_id: 0,
    }
}

/// One side's levels after a change of one of them.
pub open spec fn level_changed(levels: Map<i128, i128>, c: BookChange) -> Map<i128, i128> {
    if c.action == BookAction::Update && c.size != 0 {
        levels.insert(c.price, c.size)
    } else {
        levels.remove(c.price)
    }
}

impl AccView {
    pub open spec fn empty(symbol: Seq<char>) -> Self {
        AccView {
            symbol,
            source: Seq::empty(),
            source_id: 0,
            source_ts_ns: 0,
            bids: Map::empty(),
            asks: Map::empty(),
            bid_orders: Map::empty(),
            ask_orders: Map::empty(),
            pending: Seq::empty(),
            baselined: false,
        }
    }

    /// One change applied: a `clear` empties a side or, as a re-baseline, the whole book; any other
    /// change sets or removes one order, or one level where it names no order.
    pub open spec fn changed(self, c: BookChange) -> Self {
        if c.action == BookAction::Clear {
            match c.side {
                BookSide::Both => AccView {
                    bids: Map::empty(),
                    asks: Map::empty(),
                    bid_orders: Map::empty(),
                    ask_orders: Map::empty(),
                    baselined: true,
                    ..self
                },
                BookSide::Bid => AccView {
                    bids: Map::empty(),
                    bid_orders: Map::empty(),
                    ..self
                },
                BookSide::Ask => AccView {
                    asks: Map::empty(),
                    ask_orders: Map::empty(),
                    ..self
                },
            }
        } else if c.order_id != 0 {
            let gone = AccView {
                bid_orders: self.bid_orders.remove(c.order_id),
                ask_orders: self.ask_orders.remove(c.order_id),
                ..self
            };
            if c.action == BookAction::Update && c.size != 0 {
                match c.side {
                    BookSide::Bid => AccView {
                        bid_orders: gone.bid_orders.insert(c.order_id, (c.price, c.size)),
                        ..gone
                    },
                    BookSide::Ask => AccView {
                        ask_orders: gone.ask_orders.insert(c.order_id, (c.price, c.size)),
                        ..gone
                    },
                    BookSide::Both => gone,
                }
            } else {
                gone
            }
        } else {
            match c.side {
                BookSide::Bid => AccView { bids: level_changed(self.bids, c), ..self },
                BookSide::Ask => AccView { asks: level_changed(self.asks, c), ..self },
                BookSide::Both => self,
            }
        }
    }

    /// The first `n` of `changes` applied in order.
    pub open spec fn all_changed(self, changes: Seq<BookChange>, n: int) -> Self
        decreases n,
    {
        if n <= 0 {
            self
        } else {
            self.all_changed(changes, n - 1).changed(changes[n - 1])
        }
    }

    /// A batch applied. Changes take effect when their logical event is closed; an event that never
    /// closes loses the book.
    pub open spec fn applied(self, b: BookView) -> Self {
        let now = AccView {
            source: b.source,
            source_id: b.source_id,
            source_ts_ns: b.source_ts_ns,
            ..self
        };
        if b.last {
            let done = AccView { pending: Seq::empty(), ..now }.all_changed(
                self.pending,
                self.pending.len() as int,
            );
            done.all_changed(b.changes, b.changes.len() as int)
        } else if self.pending.len() + b.changes.len() > MAX_PENDING_CHANGES {
            AccView {
                source: b.source,
                source_id: b.source_id,
                source_ts_ns: b.source_ts_ns,
                ..AccView::empty(self.symbol)
            }
        } else {
            AccView { pending: self.pending + b.changes, ..now }
        }
    }

    /// The book as changes that rebuild it from nothing: a `clear`, then bids best first, asks best
    /// first, and each side's orders by id.
    pub open spec fn rebuild(self) -> Seq<BookChange> {
        seq![clear_both_spec()] + level_changes(listing(self.bids, less_i128()).reverse(), BookSide::Bid)
            + level_changes(listing(self.asks, less_i128()), BookSide::Ask) + order_changes(
            listing(self.bid_orders, less_u64()),
            BookSide::Bid,
        ) + order_changes(listing(self.ask_orders, less_u64()), BookSide::Ask)
    }

    /// The whole book of market `k` as one closed event.
    pub open spec fn as_book(self, k: MarketId, now_ns: u64) -> BookView {
        BookView {
            venue: k.scope.0,
            source: self.source,
            source_id: self.source_id,
            symbol: self.symbol,
            channel: k.channel,
            instrument_id: k.instrument_id,
            category: k.scope.1,
            changes: self.rebuild(),
            snapshot: true,
            last: true,
            source_ts_ns: self.source_ts_ns,
            recv_ts_ns: now_ns,
            kernel_rx_ts_ns: 0,
            ws_send_ts_ns: 0,
        }
    }
}

/// Levels as changes.
pub open spec fn level_changes(levels: Seq<(i128, i128)>, side: BookSide) -> Seq<BookChange> {
    Seq::new(
        levels.len(),
        |i: int|
            BookChange {
                action: BookAction::Update,
                side,
                price: levels[i].0,
                size: levels[i].1,
                order_id: 0,
            },
    )
}

/// Orders as changes.
pub open spec fn order_changes(orders: Seq<(u64, (i128, i128))>, side: BookSide) -> Seq<BookChange> {
    Seq::new(
        orders.len(),
        |i: int|
            BookChange {
                action: BookAction::Update,
                side,
                price: (orders[i].1).0,
                size: (orders[i].1).1,
                order_id: orders[i].0,
            },
    )
}

/// One market's accumulated book.
pub struct BookAccumulator {
    symbol: String,
    source: String,
    source_id: u16,
    source_ts_ns: u64,
    bids: BTreeMap<i128, i128>,
    asks: BTreeMap<i128, i128>,
    bid_orders: BTreeMap<u64, (i128, i128)>,
    ask_orders: BTreeMap<u64, (i128, i128)>,
    pending: Vec<BookChange>,
    baselined: bool,
}

impl View for BookAccumulator {
    type V = AccView;

    closed spec fn view(&self) -> AccView {
        AccView {
            symbol: self.symbol@,
            source: self.source@,
            source_id: self.source_id,
            source_ts_ns: self.source_ts_ns,
            bids: self.bids@,
            asks: self.asks@,
            bid_orders: self.bid_orders@,
            ask_orders: self.ask_orders@,
            pending: self.pending@,
            baselined: self.baselined,
        }
    }
}

impl BookAccumulator {
    pub fn new(symbol: String) -> (r: Self)
        ensures
            r@ == AccView::empty(symbol@),
    {
        BookAccumulator {
            symbol,
            source: String::new(),
            source_id: 0,
            source_ts_ns: 0,
            bids: BTreeMap::new(),
            asks: BTreeMap::new(),
            bid_orders: BTreeMap::new(),
            ask_orders: BTreeMap::new(),
            pending: Vec::new(),
            baselined: false,
        }
    }

    /// A copy of the book.
    pub fn dup(&self) -> (r: Self)
        ensures
            r@ == self@,
    {
        BookAccumulator {
            symbol: self.symbol.clone(),
            source: self.source.clone(),
            source_id: self.source_id,
            source_ts_ns: self.source_ts_ns,
            bids: self.bids.clone(),
            asks: self.asks.clone(),
            bid_orders: self.bid_orders.clone(),
            ask_orders: self.ask_orders.clone(),
            pending: copy_changes(&self.pending),
            baselined: self.baselined,
        }
    }

    /// Whether the producer has re-baselined the book since it was last lost.
    pub fn baselined(&self) -> (r: bool)
        ensures
            r == self@.baselined,
    {
        self.baselined
    }

    fn change(&mut self, c: BookChange)
        ensures
            final(self)@ == old(self)@.changed(c),
    {
        broadcast use vstd::laws_cmp::group_laws_cmp;

        if c.action == BookAction::Clear {
            match c.side {
                BookSide::Both => {
                    self.bids.clear();
                    self.asks.clear();
                    self.bid_orders.clear();
                    self.ask_orders.clear();
                    self.baselined = true;
                },
                BookSide::Bid => {
                    self.bids.clear();
                    self.bid_orders.clear();
                },
                BookSide::Ask => {
                    self.asks.clear();
                    self.ask_orders.clear();
                },
            }
        } else if c.order_id != 0 {
            let _bid = self.bid_orders.remove(&c.order_id);
            let _ask = self.ask_orders.remove(&c.order_id);
            if c.action == BookAction::Update && c.size != 0 {
                match c.side {
                    BookSide::Bid => {
                        let _was = self.bid_orders.insert(c.order_id, (c.price, c.size));
                    },
                    BookSide::Ask => {
                        let _was = self.ask_orders.insert(c.order_id, (c.price, c.size));
                    },
                    BookSide::Both => {},
                }
            }
        } else {
            let keep: bool = c.action == BookAction::Update && c.size != 0;
            match c.side {
                BookSide::Bid => {
                    if keep {
                        let _was = self.bids.insert(c.price, c.size);
                    } else {
                        let _was = self.bids.remove(&c.price);
                    }
                },
                BookSide::Ask => {
                    if keep {
                        let _was = self.asks.insert(c.price, c.size);
                    } else {
                        let _was = self.asks.remove(&c.price);
                    }
                },
                BookSide::Both => {},
            }
        }
    }

    fn change_all(&mut self, changes: &Vec<BookChange>)
        ensures
            final(self)@ == old(self)@.all_changed(changes@, changes@.len() as int),
    {
        let ghost start = self@;
        let mut i: usize = 0;
        while i < changes.len()
            invariant
                i <= changes@.len(),
                self@ == start.all_changed(changes@, i as int),
            decreases changes@.len() - i,
        {
            self.change(changes[i]);
            i += 1;
        }
    }

    /// Apply one batch. Its changes take effect when their logical event is closed.
    pub fn apply(&mut self, b: &NormalizedBook)
        ensures
            final(self)@ == old(self)@.applied(b@),
    {
        self.source = b.source.clone();
        self.source_id = b.source_id;
        self.source_ts_ns = b.source_ts_ns;
        if b.last {
            let pending = copy_changes(&self.pending);
            self.pending.clear();
            self.change_all(&pending);
            self.change_all(&b.changes);
        } else if b.changes.len() > MAX_PENDING_CHANGES || self.pending.len()
            > MAX_PENDING_CHANGES - b.changes.len() {
            let symbol = self.symbol.clone();
            let mut fresh = BookAccumulator::new(symbol);
            fresh.source = b.source.clone();
            fresh.source_id = b.source_id;
            fresh.source_ts_ns = b.source_ts_ns;
            *self = fresh;
        } else {
            let ghost was = self.pending@;
            let mut more = copy_changes(&b.changes);
            self.pending.append(&mut more);
            assert(self.pending@ =~= was + b.changes@);
        }
    }

    /// The whole book of market `key` as one closed event, stamped as built at `now_ns`.
    pub fn to_book(&self, key: &MarketKey, now_ns: u64) -> (r: NormalizedBook)
        ensures
            r@ == self@.as_book(key.id(), now_ns),
    {
        let mut changes: Vec<BookChange> = Vec::new();
        changes.push(clear_both());
        let bids = list_i128(&self.bids);
        push_levels_down(&mut changes, &bids, BookSide::Bid);
        let asks = list_i128(&self.asks);
        push_levels(&mut changes, &asks, BookSide::Ask);
        let bid_orders = list_u64(&self.bid_orders);
        push_orders(&mut changes, &bid_orders, BookSide::Bid);
        let ask_orders = list_u64(&self.ask_orders);
        push_orders(&mut changes, &ask_orders, BookSide::Ask);
        assert(changes@ =~= self@.rebuild());
        NormalizedBook {
            venue: key.scope.venue.clone(),
            source: self.source.clone(),
            source_id: self.source_id,
            symbol: self.symbol.clone(),
            channel: key.channel,
            instrument_id: key.instrument_id,
            category: key.scope.category.clone(),
            changes,
            snapshot: true,
            last: true,
            source_ts_ns: self.source_ts_ns,
            recv_ts_ns: now_ns,
            kernel_rx_ts_ns: 0,
            ws_send_ts_ns: 0,
        }
    }
}

fn push_levels(out: &mut Vec<BookChange>, levels: &Vec<(i128, i128)>, side: BookSide)
    ensures
        final(out)@ == old(out)@ + level_changes(levels@, side),
{
    let ghost was = out@;
    let mut i: usize = 0;
    while i < levels.len()
        invariant
            i <= levels@.len(),
            out@ == was + level_changes(levels@, side).take(i as int),
        decreases levels@.len() - i,
    {
        let (price, size) = levels[i];
        out.push(BookChange { action: BookAction::Update, side, price, size, order_id: 0 });
        assert(out@ =~= was + level_changes(levels@, side).take(i as int + 1));
        i += 1;
    }
    assert(out@ =~= was + level_changes(levels@, side));
}

fn push_levels_down(out: &mut Vec<BookChange>, levels: &Vec<(i128, i128)>, side: BookSide)
    ensures
        final(out)@ == old(out)@ + level_changes(levels@.reverse(), side),
{
    let ghost was = out@;
    let n: usize = levels.len();
    let mut i: usize = 0;
    while i < n
        invariant
            n == levels@.len(),
            i <= n,
            out@ == was + level_changes(levels@.reverse(), side).take(i as int),
        decreases n - i,
    {
        let (price, size) = levels[n - 1 - i];
        out.push(BookChange { action: BookAction::Update, side, price, size, order_id: 0 });
        assert(out@ =~= was + level_changes(levels@.reverse(), side).take(i as int + 1));
        i += 1;
    }
    assert(out@ =~= was + level_changes(levels@.reverse(), side));
}

fn push_orders(out: &mut Vec<BookChange>, orders: &Vec<(u64, (i128, i128))>, side: BookSide)
    ensures
        final(out)@ == old(out)@ + order_changes(orders@, side),
{
    let ghost was = out@;
    let mut i: usize = 0;
    while i < orders.len()
        invariant
            i <= orders@.len(),
            out@ == was + order_changes(orders@, side).take(i as int),
        decreases orders@.len() - i,
    {
        let (order_id, (price, size)) = orders[i];
        out.push(BookChange { action: BookAction::Update, side, price, size, order_id });
        assert(out@ =~= was + order_changes(orders@, side).take(i as int + 1));
        i += 1;
    }
    assert(out@ =~= was + order_changes(orders@, side));
}

impl AccView {
    /// No level or order rests with nothing, no order is unnamed, and none rests on both sides.
    pub open spec fn wf(self) -> bool {
        &&& self.bids.dom().finite()
        &&& self.asks.dom().finite()
        &&& self.bid_orders.dom().finite()
        &&& self.ask_orders.dom().finite()
        &&& forall|p: i128| #[trigger] self.bids.contains_key(p) ==> self.bids[p] != 0
        &&& forall|p: i128| #[trigger] self.asks.contains_key(p) ==> self.asks[p] != 0
        &&& forall|o: u64| #[trigger]
            self.bid_orders.contains_key(o) ==> o != 0 && self.bid_orders[o].1 != 0
                && !self.ask_orders.contains_key(o)
        &&& forall|o: u64| #[trigger]
            self.ask_orders.contains_key(o) ==> o != 0 && self.ask_orders[o].1 != 0
                && !self.bid_orders.contains_key(o)
    }

    /// Two accumulated books hold the same levels and orders.
    pub open spec fn same_book(self, other: AccView) -> bool {
        &&& self.bids == other.bids
        &&& self.asks == other.asks
        &&& self.bid_orders == other.bid_orders
        &&& self.ask_orders == other.ask_orders
    }
}

proof fn lemma_changed_wf(v: AccView, c: BookChange)
    requires
        v.wf(),
    ensures
        v.changed(c).wf(),
{
}

proof fn lemma_all_changed_wf(v: AccView, changes: Seq<BookChange>, n: int)
    requires
        v.wf(),
    ensures
        v.all_changed(changes, n).wf(),
    decreases n,
{
    if n > 0 {
        lemma_all_changed_wf(v, changes, n - 1);
        lemma_changed_wf(v.all_changed(changes, n - 1), changes[n - 1]);
    }
}

/// Every batch leaves a book in which nothing rests with no quantity and no order rests twice.
pub proof fn law_apply_keeps_the_book_well_formed(v: AccView, b: BookView)
    requires
        v.wf(),
    ensures
        v.applied(b).wf(),
{
    let now = AccView {
        source: b.source,
        source_id: b.source_id,
        source_ts_ns: b.source_ts_ns,
        pending: Seq::empty(),
        ..v
    };
    lemma_all_changed_wf(now, v.pending, v.pending.len() as int);
    let done = now.all_changed(v.pending, v.pending.len() as int);
    lemma_all_changed_wf(done, b.changes, b.changes.len() as int);
}

/// A new accumulator is well formed.
pub proof fn law_an_empty_book_is_well_formed(symbol: Seq<char>)
    ensures
        AccView::empty(symbol).wf(),
{
}

proof fn lemma_all_changed_concat(v: AccView, a: Seq<BookChange>, b: Seq<BookChange>, n: int)
    requires
        0 <= n <= b.len(),
    ensures
        v.all_changed(a + b, a.len() + n) == v.all_changed(a, a.len() as int).all_changed(b, n),
    decreases n,
{
    if n == 0 {
        lemma_all_changed_prefix(v, a, b, a.len() as int);
    } else {
        lemma_all_changed_concat(v, a, b, n - 1);
        assert((a + b)[a.len() + n - 1] == b[n - 1]);
    }
}

proof fn lemma_all_changed_prefix(v: AccView, a: Seq<BookChange>, b: Seq<BookChange>, n: int)
    requires
        0 <= n <= a.len(),
    ensures
        v.all_changed(a + b, n) == v.all_changed(a, n),
    decreases n,
{
    if n > 0 {
        lemma_all_changed_prefix(v, a, b, n - 1);
        assert((a + b)[n - 1] == a[n - 1]);
    }
}

/// The first `n` of `entries` put into `m` in order.
spec fn put_all<K, V>(m: Map<K, V>, entries: Seq<(K, V)>, n: int) -> Map<K, V>
    decreases n,
{
    if n <= 0 {
        m
    } else {
        put_all(m, entries, n - 1).insert(entries[n - 1].0, entries[n - 1].1)
    }
}

proof fn lemma_put_all<K, V>(m: Map<K, V>, entries: Seq<(K, V)>, n: int)
    requires
        0 <= n <= entries.len(),
        forall|i: int|
            0 <= i < entries.len() ==> m.contains_key((#[trigger] entries[i]).0)
                && m[entries[i].0] == entries[i].1,
    ensures
        put_all(Map::empty(), entries, n).submap_of(m),
        forall|i: int| 0 <= i < n ==> put_all(Map::empty(), entries, n).contains_key(
            (#[trigger] entries[i]).0,
        ),
    decreases n,
{
    if n > 0 {
        lemma_put_all(m, entries, n - 1);
        let before = put_all(Map::empty(), entries, n - 1);
        let after = put_all(Map::empty(), entries, n);
        assert(m.contains_key(entries[n - 1].0));
        assert forall|k: K| #[trigger] after.dom().contains(k) implies m.dom().contains(k) && after[k]
            == m[k] by {
            if k != entries[n - 1].0 {
                assert(before.dom().contains(k));
            }
        }
    }
}

/// Entries that list a map, in whatever order, put together are that map.
proof fn lemma_put_listing<K, V>(m: Map<K, V>, entries: Seq<(K, V)>)
    requires
        forall|i: int|
            0 <= i < entries.len() ==> m.contains_key((#[trigger] entries[i]).0)
                && m[entries[i].0] == entries[i].1,
        forall|k: K| #[trigger]
            m.contains_key(k) ==> exists|i: int|
                0 <= i < entries.len() && (#[trigger] entries[i]).0 == k,
    ensures
        put_all(Map::empty(), entries, entries.len() as int) == m,
{
    lemma_put_all(m, entries, entries.len() as int);
    let all = put_all(Map::empty(), entries, entries.len() as int);
    assert forall|k: K| #[trigger] m.dom().contains(k) implies all.dom().contains(k) by {
        assert(m.contains_key(k));
        let i = choose|i: int| 0 <= i < entries.len() && (#[trigger] entries[i]).0 == k;
        assert(all.contains_key(entries[i].0));
    }
    assert forall|k: K| #[trigger] all.dom().contains(k) implies m.dom().contains(k) && all[k] == m[k] by {
        assert(all.submap_of(m));
        assert(all.contains_key(k));
    }
    assert(all =~= m);
}

proof fn lemma_put_levels(v: AccView, levels: Seq<(i128, i128)>, side: BookSide, n: int)
    requires
        0 <= n <= levels.len(),
        forall|i: int| 0 <= i < levels.len() ==> (#[trigger] levels[i]).1 != 0,
    ensures
        v.all_changed(level_changes(levels, side), n) == (match side {
            BookSide::Bid => AccView { bids: put_all(v.bids, levels, n), ..v },
            BookSide::Ask => AccView { asks: put_all(v.asks, levels, n), ..v },
            BookSide::Both => v,
        }),
    decreases n,
{
    if n > 0 {
        lemma_put_levels(v, levels, side, n - 1);
    }
}

proof fn lemma_put_orders(v: AccView, orders: Seq<(u64, (i128, i128))>, side: BookSide, n: int)
    requires
        0 <= n <= orders.len(),
        side != BookSide::Both,
        forall|i: int|
            0 <= i < orders.len() ==> (#[trigger] orders[i]).0 != 0 && (orders[i].1).1 != 0
                && !(if side == BookSide::Bid {
                v.ask_orders
            } else {
                v.bid_orders
            }).contains_key(orders[i].0),
    ensures
        v.all_changed(order_changes(orders, side), n) == (if side == BookSide::Bid {
            AccView { bid_orders: put_all(v.bid_orders, orders, n), ..v }
        } else {
            AccView { ask_orders: put_all(v.ask_orders, orders, n), ..v }
        }),
    decreases n,
{
    if n > 0 {
        lemma_put_orders(v, orders, side, n - 1);
        let before = v.all_changed(order_changes(orders, side), n - 1);
        let o = orders[n - 1];
        let after = before.changed(order_changes(orders, side)[n - 1]);
        if side == BookSide::Bid {
            assert(after.bid_orders =~= before.bid_orders.insert(o.0, o.1));
            assert(after.ask_orders =~= before.ask_orders);
        } else {
            assert(after.ask_orders =~= before.ask_orders.insert(o.0, o.1));
            assert(after.bid_orders =~= before.bid_orders);
        }
    }
}

/// A whole book broadcast as one event replaces whatever the consumer held, an event left open
/// included: what it then holds is exactly that book.
pub proof fn law_a_rebaseline_replaces_the_consumers_book(
    v: AccView,
    consumer: AccView,
    k: MarketId,
    now_ns: u64,
)
    requires
        v.wf(),
    ensures
        consumer.applied(v.as_book(k, now_ns)).same_book(v),
        consumer.applied(v.as_book(k, now_ns)).baselined,
        consumer.applied(v.as_book(k, now_ns)).pending == Seq::<BookChange>::empty(),
{
    let b = v.as_book(k, now_ns);
    let less = less_i128();
    let less_o = less_u64();
    crate::ordered::lemma_listing_exists(v.bids, less);
    crate::ordered::lemma_listing_exists(v.asks, less);
    crate::ordered::lemma_listing_exists(v.bid_orders, less_o);
    crate::ordered::lemma_listing_exists(v.ask_orders, less_o);
    let bids = listing(v.bids, less).reverse();
    let asks = listing(v.asks, less);
    let bid_orders = listing(v.bid_orders, less_o);
    let ask_orders = listing(v.ask_orders, less_o);
    let up = listing(v.bids, less);
    assert forall|i: int| 0 <= i < bids.len() implies v.bids.contains_key((#[trigger] bids[i]).0)
        && v.bids[bids[i].0] == bids[i].1 by {
        assert(bids[i] == up[up.len() - 1 - i]);
    }
    assert forall|p: i128| #[trigger] v.bids.contains_key(p) implies exists|i: int|
        0 <= i < bids.len() && (#[trigger] bids[i]).0 == p by {
        let j = choose|j: int| 0 <= j < up.len() && (#[trigger] up[j]).0 == p;
        assert(bids[up.len() - 1 - j].0 == p);
    }
    lemma_put_listing(v.bids, bids);
    lemma_put_listing(v.asks, asks);
    lemma_put_listing(v.bid_orders, bid_orders);
    lemma_put_listing(v.ask_orders, ask_orders);
    let start = AccView {
        source: b.source,
        source_id: b.source_id,
        source_ts_ns: b.source_ts_ns,
        pending: Seq::empty(),
        ..consumer
    }.all_changed(consumer.pending, consumer.pending.len() as int);
    lemma_changes_keep_pending(
        AccView {
            source: b.source,
            source_id: b.source_id,
            source_ts_ns: b.source_ts_ns,
            pending: Seq::empty(),
            ..consumer
        },
        consumer.pending,
        consumer.pending.len() as int,
    );
    let c0 = seq![clear_both_spec()];
    let c1 = level_changes(bids, BookSide::Bid);
    let c2 = level_changes(asks, BookSide::Ask);
    let c3 = order_changes(bid_orders, BookSide::Bid);
    let c4 = order_changes(ask_orders, BookSide::Ask);
    lemma_all_changed_concat(start, c0 + c1 + c2 + c3, c4, c4.len() as int);
    lemma_all_changed_concat(start, c0 + c1 + c2, c3, c3.len() as int);
    lemma_all_changed_concat(start, c0 + c1, c2, c2.len() as int);
    lemma_all_changed_concat(start, c0, c1, c1.len() as int);
    assert(b.changes == c0 + c1 + c2 + c3 + c4);
    reveal_with_fuel(AccView::all_changed, 2);
    let s0 = start.all_changed(c0, 1);
    assert(s0 == start.changed(clear_both_spec()));
    assert forall|i: int| 0 <= i < bids.len() implies (#[trigger] bids[i]).1 != 0 by {
        assert(v.bids.contains_key(bids[i].0));
    }
    assert forall|i: int| 0 <= i < asks.len() implies (#[trigger] asks[i]).1 != 0 by {
        assert(v.asks.contains_key(asks[i].0));
    }
    lemma_put_levels(s0, bids, BookSide::Bid, bids.len() as int);
    let s1 = s0.all_changed(c1, c1.len() as int);
    lemma_put_levels(s1, asks, BookSide::Ask, asks.len() as int);
    let s2 = s1.all_changed(c2, c2.len() as int);
    assert forall|i: int| 0 <= i < bid_orders.len() implies (#[trigger] bid_orders[i]).0 != 0 && (
    bid_orders[i].1).1 != 0 && !s2.ask_orders.contains_key(bid_orders[i].0) by {
        assert(v.bid_orders.contains_key(bid_orders[i].0));
    }
    lemma_put_orders(s2, bid_orders, BookSide::Bid, bid_orders.len() as int);
    let s3 = s2.all_changed(c3, c3.len() as int);
    assert forall|i: int| 0 <= i < ask_orders.len() implies (#[trigger] ask_orders[i]).0 != 0 && (
    ask_orders[i].1).1 != 0 && !s3.bid_orders.contains_key(ask_orders[i].0) by {
        assert(v.ask_orders.contains_key(ask_orders[i].0));
    }
    lemma_put_orders(s3, ask_orders, BookSide::Ask, ask_orders.len() as int);
}

proof fn lemma_changes_keep_pending(v: AccView, changes: Seq<BookChange>, n: int)
    ensures
        v.all_changed(changes, n).pending == v.pending,
    decreases n,
{
    if n > 0 {
        lemma_changes_keep_pending(v, changes, n - 1);
    }
}

} // verus!
