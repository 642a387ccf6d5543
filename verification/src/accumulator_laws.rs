//! What a stream of batches leaves in the book: what was last said of each level and each order.

use crate::accumulator::{level_changes, order_changes, AccView};
use crate::model::{BookAction, BookChange, BookSide, BookView, MarketId};
use crate::ordered::{lemma_listing_exists, less_i128, less_u64, listing};
use vstd::prelude::*;

verus! {

/// The quantity at a price of a side, if there is a level.
pub open spec fn level(v: AccView, is_bid: bool, price: i128) -> Option<i128> {
    let levels = if is_bid {
        v.bids
    } else {
        v.asks
    };
    if levels.contains_key(price) {
        Some(levels[price])
    } else {
        None
    }
}

/// The price and quantity of an order that rests on a side, if it does.
pub open spec fn order(v: AccView, is_bid: bool, id: u64) -> Option<(i128, i128)> {
    let orders = if is_bid {
        v.bid_orders
    } else {
        v.ask_orders
    };
    if orders.contains_key(id) {
        Some(orders[id])
    } else {
        None
    }
}

/// The change is about this side.
pub open spec fn about_side(c: BookChange, is_bid: bool) -> bool {
    c.side == (if is_bid {
        BookSide::Bid
    } else {
        BookSide::Ask
    })
}

/// The change empties this side.
pub open spec fn empties(c: BookChange, is_bid: bool) -> bool {
    c.action == BookAction::Clear && (about_side(c, is_bid) || c.side == BookSide::Both)
}

/// The change says something of the level: it empties its side, or it names no order and is of this
/// side and price.
pub open spec fn speaks_of_level(c: BookChange, is_bid: bool, price: i128) -> bool {
    empties(c, is_bid) || (c.action != BookAction::Clear && c.order_id == 0 && about_side(c, is_bid)
        && c.price == price)
}

/// The change says something of the order on this side: it empties the side, or it names the order.
pub open spec fn speaks_of_order(c: BookChange, is_bid: bool, id: u64) -> bool {
    empties(c, is_bid) || (c.action != BookAction::Clear && c.order_id == id)
}

/// A level is what was last said of it: a quantity if that was an update to one, else nothing; and
/// what nothing was said of stays.
pub proof fn law_a_level_is_what_was_last_said(
    v: AccView,
    changes: Seq<BookChange>,
    n: int,
    is_bid: bool,
    price: i128,
    i: int,
)
    requires
        -1 <= i < n <= changes.len(),
        i >= 0 ==> speaks_of_level(changes[i], is_bid, price),
        forall|j: int| i < j < n ==> !speaks_of_level(#[trigger] changes[j], is_bid, price),
    ensures
        level(v.all_changed(changes, n), is_bid, price) == (if i < 0 {
            level(v, is_bid, price)
        } else if changes[i].action == BookAction::Update && changes[i].size != 0 {
            Some(changes[i].size)
        } else {
            None
        }),
    decreases n,
{
    if n > 0 {
        let w = v.all_changed(changes, n - 1);
        if i < n - 1 {
            law_a_level_is_what_was_last_said(v, changes, n - 1, is_bid, price, i);
            assert(!speaks_of_level(changes[n - 1], is_bid, price));
        }
        assert(v.all_changed(changes, n) == w.changed(changes[n - 1]));
    }
}

/// An order is what was last said of it: where it rests and with what quantity, if that was an
/// update to one, and on the side of that update alone; else gone. What nothing was said of stays.
pub proof fn law_an_order_is_what_was_last_said(
    v: AccView,
    changes: Seq<BookChange>,
    n: int,
    is_bid: bool,
    id: u64,
    i: int,
)
    requires
        id != 0,
        -1 <= i < n <= changes.len(),
        i >= 0 ==> speaks_of_order(changes[i], is_bid, id),
        forall|j: int| i < j < n ==> !speaks_of_order(#[trigger] changes[j], is_bid, id),
    ensures
        order(v.all_changed(changes, n), is_bid, id) == (if i < 0 {
            order(v, is_bid, id)
        } else if changes[i].action == BookAction::Update && changes[i].size != 0 && about_side(
            changes[i],
            is_bid,
        ) {
            Some((changes[i].price, changes[i].size))
        } else {
            None
        }),
    decreases n,
{
    if n > 0 {
        let w = v.all_changed(changes, n - 1);
        if i < n - 1 {
            law_an_order_is_what_was_last_said(v, changes, n - 1, is_bid, id, i);
            assert(!speaks_of_order(changes[n - 1], is_bid, id));
        }
        assert(v.all_changed(changes, n) == w.changed(changes[n - 1]));
    }
}

/// A book is whole once it was emptied on both sides at once; no change touches who published it,
/// its symbol, or what is held back.
pub proof fn law_a_clear_of_both_sides_makes_the_book_whole(
    v: AccView,
    changes: Seq<BookChange>,
    n: int,
)
    requires
        0 <= n <= changes.len(),
    ensures
        ({
            let w = v.all_changed(changes, n);
            &&& w.baselined <==> v.baselined || exists|i: int|
                0 <= i < n && (#[trigger] changes[i]).action == BookAction::Clear && changes[i].side
                    == BookSide::Both
            &&& w.symbol == v.symbol && w.source == v.source && w.source_id == v.source_id
                && w.source_ts_ns == v.source_ts_ns && w.pending == v.pending
        }),
    decreases n,
{
    if n > 0 {
        law_a_clear_of_both_sides_makes_the_book_whole(v, changes, n - 1);
        let c = changes[n - 1];
        if exists|i: int|
            0 <= i < n - 1 && (#[trigger] changes[i]).action == BookAction::Clear && changes[i].side
                == BookSide::Both {
            let i = choose|i: int|
                0 <= i < n - 1 && (#[trigger] changes[i]).action == BookAction::Clear && changes[i].side
                    == BookSide::Both;
            assert(changes[i].action == BookAction::Clear);
        }
        if exists|i: int|
            0 <= i < n && (#[trigger] changes[i]).action == BookAction::Clear && changes[i].side
                == BookSide::Both {
            let i = choose|i: int|
                0 <= i < n && (#[trigger] changes[i]).action == BookAction::Clear && changes[i].side
                    == BookSide::Both;
            if i < n - 1 {
                assert(changes[i].action == BookAction::Clear);
            }
        }
    }
}

/// Nothing of a batch takes effect before its event is closed. Closed, what was held back takes
/// effect before what closes it; open, it is held back behind what was, up to 8,192 changes, past
/// which the book is lost.
pub proof fn law_an_event_takes_effect_when_it_closes(v: AccView, b: BookView)
    ensures
        ({
            let w = v.applied(b);
            let all = v.pending + b.changes;
            &&& w.symbol == v.symbol
            &&& w.source == b.source && w.source_id == b.source_id && w.source_ts_ns == b.source_ts_ns
            &&& b.last ==> {
                let done = v.all_changed(all, all.len() as int);
                &&& w.pending.len() == 0
                &&& w.bids == done.bids && w.asks == done.asks
                &&& w.bid_orders == done.bid_orders && w.ask_orders == done.ask_orders
                &&& w.baselined == done.baselined
            }
            &&& !b.last && all.len() <= 8192 ==> {
                &&& w.pending == all
                &&& w.bids == v.bids && w.asks == v.asks
                &&& w.bid_orders == v.bid_orders && w.ask_orders == v.ask_orders
                &&& w.baselined == v.baselined
            }
            &&& !b.last && all.len() > 8192 ==> {
                &&& w.pending.len() == 0
                &&& w.bids.dom().is_empty() && w.asks.dom().is_empty()
                &&& w.bid_orders.dom().is_empty() && w.ask_orders.dom().is_empty()
                &&& !w.baselined
            }
        }),
{
    if b.last {
        let now = AccView {
            source: b.source,
            source_id: b.source_id,
            source_ts_ns: b.source_ts_ns,
            pending: Seq::empty(),
            ..v
        };
        let n = v.pending.len() as int;
        let all = v.pending + b.changes;
        lemma_concat(now, v.pending, b.changes, b.changes.len() as int);
        lemma_alike(now, v, all, all.len() as int);
        law_a_clear_of_both_sides_makes_the_book_whole(now, all, all.len() as int);
    } else {
        let none = AccView::empty(v.symbol);
        assert(none.bids.dom() =~= Set::empty());
        assert(none.asks.dom() =~= Set::empty());
        assert(none.bid_orders.dom() =~= Set::empty());
        assert(none.ask_orders.dom() =~= Set::empty());
    }
}

proof fn lemma_concat(v: AccView, a: Seq<BookChange>, b: Seq<BookChange>, n: int)
    requires
        0 <= n <= b.len(),
    ensures
        v.all_changed(a + b, a.len() + n) == v.all_changed(a, a.len() as int).all_changed(b, n),
    decreases n,
{
    if n == 0 {
        lemma_prefix(v, a, b, a.len() as int);
    } else {
        lemma_concat(v, a, b, n - 1);
        assert((a + b)[a.len() + n - 1] == b[n - 1]);
    }
}

proof fn lemma_prefix(v: AccView, a: Seq<BookChange>, b: Seq<BookChange>, n: int)
    requires
        0 <= n <= a.len(),
    ensures
        v.all_changed(a + b, n) == v.all_changed(a, n),
    decreases n,
{
    if n > 0 {
        lemma_prefix(v, a, b, n - 1);
        assert((a + b)[n - 1] == a[n - 1]);
    }
}

/// What a change does to a book does not depend on what is told beside the book.
proof fn lemma_alike(v: AccView, w: AccView, changes: Seq<BookChange>, n: int)
    requires
        v.bids == w.bids,
        v.asks == w.asks,
        v.bid_orders == w.bid_orders,
        v.ask_orders == w.ask_orders,
        v.baselined == w.baselined,
    ensures
        ({
            let x = v.all_changed(changes, n);
            let y = w.all_changed(changes, n);
            x.bids == y.bids && x.asks == y.asks && x.bid_orders == y.bid_orders && x.ask_orders
                == y.ask_orders && x.baselined == y.baselined
        }),
    decreases n,
{
    if n > 0 {
        lemma_alike(v, w, changes, n - 1);
    }
}

/// Where a change of a whole book stands: bid levels, ask levels, bid orders, ask orders.
pub open spec fn rank(c: BookChange) -> int {
    (if c.order_id == 0 {
        0int
    } else {
        2
    }) + (if c.side == BookSide::Bid {
        0int
    } else {
        1
    })
}

/// A book told whole opens with a clear of both sides; then come its bid levels from the highest
/// price down, its ask levels from the lowest up, and each side's orders by id. It says of whom and
/// of what it is, and that it is a whole book and a closed event.
pub proof fn law_a_whole_book_is_told_best_first(v: AccView, k: MarketId, now_ns: u64)
    requires
        v.wf(),
    ensures
        ({
            let b = v.as_book(k, now_ns);
            let s = b.changes;
            &&& s.len() == 1 + v.bids.dom().len() + v.asks.dom().len() + v.bid_orders.dom().len()
                + v.ask_orders.dom().len()
            &&& s[0].action == BookAction::Clear && s[0].side == BookSide::Both
            &&& forall|i: int|
                1 <= i < s.len() ==> (#[trigger] s[i]).action == BookAction::Update && s[i].size != 0
                    && s[i].side != BookSide::Both
            &&& forall|i: int, j: int|
                1 <= i < j < s.len() ==> {
                    let x = #[trigger] s[i];
                    let y = #[trigger] s[j];
                    &&& rank(x) <= rank(y)
                    &&& rank(x) == rank(y) && rank(x) == 0 ==> x.price > y.price
                    &&& rank(x) == rank(y) && rank(x) == 1 ==> x.price < y.price
                    &&& rank(x) == rank(y) && rank(x) >= 2 ==> x.order_id < y.order_id
                }
            &&& b.snapshot && b.last
            &&& b.venue == k.scope.0 && b.category == k.scope.1 && b.channel == k.channel
                && b.instrument_id == k.instrument_id
            &&& b.symbol == v.symbol && b.source == v.source && b.source_id == v.source_id
                && b.source_ts_ns == v.source_ts_ns
            &&& b.recv_ts_ns == now_ns
        }),
{
    let less = less_i128();
    let less_o = less_u64();
    lemma_listing_exists(v.bids, less);
    lemma_listing_exists(v.asks, less);
    lemma_listing_exists(v.bid_orders, less_o);
    lemma_listing_exists(v.ask_orders, less_o);
    let up = listing(v.bids, less);
    let bids = up.reverse();
    let asks = listing(v.asks, less);
    let bid_orders = listing(v.bid_orders, less_o);
    let ask_orders = listing(v.ask_orders, less_o);
    lemma_listed(v.bids, up, less);
    lemma_listed(v.asks, asks, less);
    lemma_listed(v.bid_orders, bid_orders, less_o);
    lemma_listed(v.ask_orders, ask_orders, less_o);
    let a = level_changes(bids, BookSide::Bid);
    let b = level_changes(asks, BookSide::Ask);
    let c = order_changes(bid_orders, BookSide::Bid);
    let d = order_changes(ask_orders, BookSide::Ask);
    let s = v.rebuild();
    let la = a.len() as int;
    let lb = b.len() as int;
    let lc = c.len() as int;
    let ld = d.len() as int;
    assert(s.len() == 1 + la + lb + lc + ld);
    assert forall|i: int| 1 <= i < s.len() implies #[trigger] s[i] == (if i < 1 + la {
        a[i - 1]
    } else if i < 1 + la + lb {
        b[i - 1 - la]
    } else if i < 1 + la + lb + lc {
        c[i - 1 - la - lb]
    } else {
        d[i - 1 - la - lb - lc]
    }) by {}
    assert forall|i: int| 0 <= i < la implies (#[trigger] a[i]).size != 0 by {
        assert(bids[i] == up[la - 1 - i]);
        assert(v.bids.contains_key(up[la - 1 - i].0));
    }
    assert forall|i: int| 0 <= i < lb implies (#[trigger] b[i]).size != 0 by {
        assert(v.asks.contains_key(asks[i].0));
    }
    assert forall|i: int| 0 <= i < lc implies (#[trigger] c[i]).size != 0 && c[i].order_id != 0 by {
        assert(v.bid_orders.contains_key(bid_orders[i].0));
    }
    assert forall|i: int| 0 <= i < ld implies (#[trigger] d[i]).size != 0 && d[i].order_id != 0 by {
        assert(v.ask_orders.contains_key(ask_orders[i].0));
    }
    assert forall|i: int, j: int| 0 <= i < j < la implies (#[trigger] a[i]).price > (
    #[trigger] a[j]).price by {
        assert(bids[i] == up[la - 1 - i] && bids[j] == up[la - 1 - j]);
        assert(less(up[la - 1 - j].0, up[la - 1 - i].0));
    }
    assert forall|i: int, j: int| 0 <= i < j < lb implies (#[trigger] b[i]).price < (
    #[trigger] b[j]).price by {
        assert(less(asks[i].0, asks[j].0));
    }
    assert forall|i: int, j: int| 0 <= i < j < lc implies (#[trigger] c[i]).order_id < (
    #[trigger] c[j]).order_id by {
        assert(less_o(bid_orders[i].0, bid_orders[j].0));
    }
    assert forall|i: int, j: int| 0 <= i < j < ld implies (#[trigger] d[i]).order_id < (
    #[trigger] d[j]).order_id by {
        assert(less_o(ask_orders[i].0, ask_orders[j].0));
    }
    assert forall|i: int, j: int| 1 <= i < j < s.len() implies rank(#[trigger] s[i]) <= rank(
        #[trigger] s[j],
    ) && (rank(s[i]) == rank(s[j]) && rank(s[i]) == 0 ==> s[i].price > s[j].price) && (rank(s[i])
        == rank(s[j]) && rank(s[i]) == 1 ==> s[i].price < s[j].price) && (rank(s[i]) == rank(s[j])
        && rank(s[i]) >= 2 ==> s[i].order_id < s[j].order_id) by {
        if j < 1 + la {
            assert(a[i - 1].price > a[j - 1].price);
        } else if i >= 1 + la && j < 1 + la + lb {
            assert(b[i - 1 - la].price < b[j - 1 - la].price);
        } else if i >= 1 + la + lb && j < 1 + la + lb + lc {
            assert(c[i - 1 - la - lb].order_id < c[j - 1 - la - lb].order_id);
        } else if i >= 1 + la + lb + lc {
            assert(d[i - 1 - la - lb - lc].order_id < d[j - 1 - la - lb - lc].order_id);
        }
    }
}

proof fn lemma_listed<K, V>(m: Map<K, V>, s: Seq<(K, V)>, less: spec_fn(K, K) -> bool)
    requires
        crate::ordered::lists_in_order(m, s, less),
        crate::ordered::strict(less),
        m.dom().finite(),
    ensures
        s.len() == m.dom().len(),
{
    let keys = s.map_values(|e: (K, V)| e.0);
    assert(keys.no_duplicates()) by {
        assert forall|i: int, j: int| 0 <= i < keys.len() && 0 <= j < keys.len() && i != j implies keys[i]
            != keys[j] by {
            if i < j {
                assert(less(s[i].0, s[j].0));
            } else {
                assert(less(s[j].0, s[i].0));
            }
        }
    }
    keys.unique_seq_to_set();
    assert(keys.to_set() =~= m.dom()) by {
        assert forall|k: K| m.dom().contains(k) implies keys.to_set().contains(k) by {
            assert(m.contains_key(k));
            let i = choose|i: int| 0 <= i < s.len() && (#[trigger] s[i]).0 == k;
            assert(keys[i] == k);
        }
        assert forall|k: K| keys.to_set().contains(k) implies m.dom().contains(k) by {
            let i = choose|i: int| 0 <= i < keys.len() && keys[i] == k;
            assert(m.contains_key(s[i].0));
        }
    }
}

} // verus!
