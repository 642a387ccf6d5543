//! Laws of the order book over whole runs of calls.

use crate::book::{
    first_n, lemma_filled_wf, lemma_with_wf, lemma_without_wf, replay_order, resting_at, shown,
    shown_levels, BuildingView, DeltaKind, DeltaOp, Level, Population, RestingOrder, StateView,
    MAX_ORDERS_PER_BOOK,
};
use crate::ordered::{less_i64, lemma_listing_exists, listing, lists_in_order};
use vstd::prelude::*;

verus! {

/// One call on a book.
pub enum Call {
    SnapshotBegin {
        snapshot_id: u32,
        anchor_seq: u64,
        total_orders: u32,
        last_instrument_seq: u32,
    },
    SnapshotOrder { snapshot_id: u32, order_id: u64, o: RestingOrder },
    SnapshotEnd { anchor_seq: u64, snapshot_id: u32 },
    Delta { op: DeltaOp },
    InstrumentReset { anchor_seq: u64 },
    EndOfSession,
}

impl StateView {
    /// The book after one call.
    pub open spec fn called(self, c: Call) -> Self {
        match c {
            Call::SnapshotBegin { snapshot_id, anchor_seq, total_orders, last_instrument_seq } => {
                self.begun(snapshot_id, anchor_seq, total_orders, last_instrument_seq)
            },
            Call::SnapshotOrder { snapshot_id, order_id, o } => {
                self.order_received(snapshot_id, order_id, o)
            },
            Call::SnapshotEnd { anchor_seq, snapshot_id } => self.ended(anchor_seq, snapshot_id).0,
            Call::Delta { op } => self.offered(op).0,
            Call::InstrumentReset { anchor_seq } => self.reset(anchor_seq),
            Call::EndOfSession => self.session_ended(),
        }
    }

    /// A new book after a run of calls.
    pub open spec fn after(calls: Seq<Call>) -> Self
        decreases calls.len(),
    {
        if calls.len() == 0 {
            StateView::new()
        } else {
            StateView::after(calls.drop_last()).called(calls.last())
        }
    }
}

/// The delta adds no order of no quantity.
pub open spec fn adds_something(op: DeltaOp) -> bool {
    op.kind matches DeltaKind::Add { qty_raw, .. } ==> qty_raw > 0
}

/// The call names no order of no quantity.
pub open spec fn names_something(c: Call) -> bool {
    match c {
        Call::SnapshotOrder { o, .. } => o.qty_raw > 0,
        Call::Delta { op } => adds_something(op),
        _ => true,
    }
}

/// Every resting order has a quantity.
pub open spec fn all_rest(p: Population) -> bool {
    forall|id: u64| #[trigger] p.orders.contains_key(id) ==> p.orders[id].qty_raw > 0
}

/// Every order of the book, of the snapshot under assembly and of the buffered deltas has a quantity.
pub open spec fn nothing_idle(v: StateView) -> bool {
    &&& all_rest(v.book)
    &&& v.building matches Some(b) ==> all_rest(b.book)
    &&& forall|i: int| 0 <= i < v.pending.len() ==> adds_something(#[trigger] v.pending[i])
}

proof fn lemma_id_removed_wf(v: StateView, id: u64)
    requires
        v.wf(),
    ensures
        v.id_removed(id).wf(),
{
    let turned = v.removed.drop_first().push(id);
    assert(v.removed.push(id).no_duplicates() || v.removed.contains(id));
    if !v.removed.contains(id) && v.removed.len() > 0 {
        assert(turned.no_duplicates()) by {
            assert forall|i: int, j: int|
                0 <= i < turned.len() && 0 <= j < turned.len() && i != j implies turned[i]
                != turned[j] by {
                if i < turned.len() - 1 {
                    assert(turned[i] == v.removed[i + 1]);
                }
                if j < turned.len() - 1 {
                    assert(turned[j] == v.removed[j + 1]);
                }
            }
        }
    }
}

proof fn lemma_changed_wf(v: StateView, kind: DeltaKind)
    requires
        v.wf(),
    ensures
        v.changed(kind).0.wf(),
        nothing_idle(v) && (kind matches DeltaKind::Add { qty_raw, .. } ==> qty_raw > 0)
            ==> nothing_idle(v.changed(kind).0),
{
    match kind {
        DeltaKind::Add { order_id, is_bid, price_raw, qty_raw } => {
            if v.book.orders.contains_key(order_id) || v.book.orders.dom().len()
                < MAX_ORDERS_PER_BOOK {
                lemma_with_wf(v.book, order_id, RestingOrder { is_bid, price_raw, qty_raw });
            }
        },
        DeltaKind::Cancel { order_id } => {
            lemma_without_wf(v.book, order_id);
            lemma_id_removed_wf(StateView { book: v.book.without(order_id), ..v }, order_id);
        },
        DeltaKind::Execute { order_id, exec_qty_raw, .. } => {
            lemma_without_wf(v.book, order_id);
            lemma_id_removed_wf(StateView { book: v.book.without(order_id), ..v }, order_id);
            if v.book.orders.contains_key(order_id) && exec_qty_raw
                < v.book.orders[order_id].qty_raw {
                lemma_filled_wf(v.book, order_id, exec_qty_raw);
            }
        },
    }
}

proof fn lemma_sequenced_wf(v: StateView, op: DeltaOp)
    requires
        v.wf(),
    ensures
        v.sequenced(op).0.wf(),
        nothing_idle(v) && adds_something(op) ==> nothing_idle(v.sequenced(op).0),
{
    if op.seq == v.last_instr_seq + 1 {
        lemma_changed_wf(
            StateView {
                last_instr_seq: op.seq,
                last_applied_mktdata_seq: op.mktdata_seq,
                last_event_ts: op.ts,
                ..v
            },
            op.kind,
        );
    }
}

proof fn lemma_replayed_wf(v: StateView, ops: Seq<DeltaOp>, n: int)
    requires
        v.wf(),
        0 <= n <= ops.len(),
    ensures
        v.replayed(ops, n).wf(),
        nothing_idle(v) && (forall|i: int| 0 <= i < ops.len() ==> adds_something(#[trigger] ops[i]))
            ==> nothing_idle(v.replayed(ops, n)),
    decreases n,
{
    if n > 0 {
        lemma_replayed_wf(v, ops, n - 1);
        lemma_sequenced_wf(v.replayed(ops, n - 1), ops[n - 1]);
    }
}

proof fn lemma_installed_wf(v: StateView, b: BuildingView)
    requires
        v.wf(),
        v.building == Some(b),
    ensures
        v.installed(b).wf(),
        nothing_idle(v) ==> nothing_idle(v.installed(b)),
{
    let ops = replay_order(v.pending, b.anchor_seq);
    let start = StateView {
        book: b.book,
        synced: true,
        last_instr_seq: b.last_instrument_seq,
        last_applied_mktdata_seq: b.anchor_seq,
        building: None,
        pending: Seq::empty(),
        removed: Seq::empty(),
        ..v
    };
    assert(start.wf());
    if nothing_idle(v) {
        assert forall|i: int| 0 <= i < ops.len() implies adds_something(#[trigger] ops[i]) by {
            crate::book::lemma_replayed_was_buffered(v.pending, b.anchor_seq, i);
            assert(v.pending[v.pending.index_of(ops[i])] == ops[i]);
        }
    }
    lemma_replayed_wf(start, ops, ops.len() as int);
}

proof fn lemma_called_wf(v: StateView, c: Call)
    requires
        v.wf(),
    ensures
        v.called(c).wf(),
        nothing_idle(v) && names_something(c) ==> nothing_idle(v.called(c)),
{
    match c {
        Call::SnapshotOrder { snapshot_id, order_id, o } => {
            match v.building {
                Some(b) => {
                    if b.book.orders.dom().len() < MAX_ORDERS_PER_BOOK {
                        lemma_with_wf(b.book, order_id, o);
                        lemma_without_wf(b.book, order_id);
                    }
                },
                None => {},
            }
        },
        Call::SnapshotEnd { .. } => {
            match v.building {
                Some(b) => {
                    lemma_installed_wf(v, b);
                },
                None => {},
            }
        },
        Call::Delta { op } => {
            lemma_sequenced_wf(v, op);
        },
        Call::InstrumentReset { anchor_seq } => {
            let keep = |op: DeltaOp| op.mktdata_seq > anchor_seq;
            crate::recent::lemma_filter(v.pending, keep);
            assert forall|i: int|
                0 <= i < v.reset(anchor_seq).pending.len() && nothing_idle(
                    v,
                ) implies adds_something(#[trigger] v.reset(anchor_seq).pending[i]) by {
                let op = v.reset(anchor_seq).pending[i];
                assert(v.pending.filter(keep).contains(op));
                assert(v.pending[v.pending.index_of(op)] == op);
            }
        },
        _ => {},
    }
}

/// Whatever calls are made on a book, snapshots and their replay included, the bounds hold and every
/// level is the total of the orders that rest at it; and if no call names an order of no quantity,
/// no order of no quantity rests.
pub proof fn law_levels_are_totals_in_every_run(calls: Seq<Call>)
    ensures
        StateView::after(calls).wf(),
        (forall|i: int| 0 <= i < calls.len() ==> names_something(#[trigger] calls[i]))
            ==> nothing_idle(StateView::after(calls)),
    decreases calls.len(),
{
    if calls.len() > 0 {
        law_levels_are_totals_in_every_run(calls.drop_last());
        lemma_called_wf(StateView::after(calls.drop_last()), calls.last());
        if forall|i: int| 0 <= i < calls.len() ==> names_something(#[trigger] calls[i]) {
            assert(names_something(calls[calls.len() - 1]));
            assert forall|i: int| 0 <= i < calls.drop_last().len() implies names_something(
                #[trigger] calls.drop_last()[i],
            ) by {
                assert(names_something(calls[i]));
            }
        }
    }
}

/// `top` is the best `n` levels of one side: prices strictly worsening, each with the total that rests
/// there, none of nothing, and every price that is left out is worse than all of `n` listed ones.
pub open spec fn best_levels(p: Population, is_bid: bool, top: Seq<Level>, n: int) -> bool {
    &&& top.len() <= n
    &&& forall|i: int, j: int|
        0 <= i < j < top.len() ==> if is_bid {
            (#[trigger] top[i]).0 > (#[trigger] top[j]).0
        } else {
            top[i].0 < top[j].0
        }
    &&& forall|i: int|
        0 <= i < top.len() ==> (#[trigger] top[i]).1 == shown(
            resting_at(p.orders, is_bid, top[i].0) as u128,
        ) && top[i].1 > 0
    &&& forall|price: i64| #[trigger]
        resting_at(p.orders, is_bid, price) > 0 ==> (exists|i: int|
            0 <= i < top.len() && (#[trigger] top[i]).0 == price) || (top.len() == n && forall|i: int|

            0 <= i < top.len() ==> if is_bid {
                (#[trigger] top[i]).0 > price
            } else {
                top[i].0 < price
            })
}

proof fn lemma_best_levels(p: Population, is_bid: bool, n: int)
    requires
        p.wf(),
        all_rest(p),
        0 <= n,
    ensures
        best_levels(
            p,
            is_bid,
            if is_bid {
                p.top_bids(n)
            } else {
                p.top_asks(n)
            },
            n,
        ),
{
    let levels = p.side(is_bid);
    lemma_listing_exists(levels, less_i64());
    let up = listing(levels, less_i64());
    assert(lists_in_order(levels, up, less_i64()));
    let all = if is_bid {
        up.reverse()
    } else {
        up
    };
    let top = if is_bid {
        p.top_bids(n)
    } else {
        p.top_asks(n)
    };
    assert(top == first_n(shown_levels(all), n));
    assert forall|i: int, j: int| 0 <= i < j < all.len() implies if is_bid {
        (#[trigger] all[i]).0 > (#[trigger] all[j]).0
    } else {
        all[i].0 < all[j].0
    } by {
        if is_bid {
            let x = up.len() - 1 - i;
            let y = up.len() - 1 - j;
            assert(all[i] == up[x] && all[j] == up[y]);
            assert((less_i64())(up[y].0, up[x].0));
        } else {
            assert((less_i64())(up[i].0, up[j].0));
        }
    }
    assert forall|i: int| 0 <= i < all.len() implies (#[trigger] all[i]).1 == resting_at(
        p.orders,
        is_bid,
        all[i].0,
    ) && all[i].1 > 0 by {
        let x = if is_bid {
            up.len() - 1 - i
        } else {
            i
        };
        assert(all[i] == up[x]);
        assert(levels.contains_key(up[x].0));
        assert(crate::book::level_at(levels, up[x].0) == resting_at(p.orders, is_bid, up[x].0));
        if up[x].1 == 0 {
            assert(crate::book::idle_at(p.orders, is_bid, up[x].0));
            let id = choose|id: u64| #[trigger]
                p.orders.contains_key(id) && p.orders[id] == (RestingOrder {
                    is_bid,
                    price_raw: up[x].0,
                    qty_raw: 0,
                });
            assert(p.orders[id].qty_raw > 0);
        }
    }
    assert forall|i: int| 0 <= i < top.len() implies #[trigger] top[i] == (
        all[i].0,
        shown(all[i].1),
    ) by {}
    assert forall|i: int| 0 <= i < top.len() implies (#[trigger] top[i]).1 == shown(
        resting_at(p.orders, is_bid, top[i].0) as u128,
    ) && top[i].1 > 0 by {
        assert(all[i].1 > 0);
    }
    assert forall|i: int, j: int| 0 <= i < j < top.len() implies if is_bid {
        (#[trigger] top[i]).0 > (#[trigger] top[j]).0
    } else {
        top[i].0 < top[j].0
    } by {
        assert(top[i].0 == all[i].0 && top[j].0 == all[j].0);
    }
    assert forall|price: i64| #[trigger] resting_at(p.orders, is_bid, price) > 0 implies (exists|
        i: int,
    |
        0 <= i < top.len() && (#[trigger] top[i]).0 == price) || (top.len() == n && forall|i: int|
        0 <= i < top.len() ==> if is_bid {
            (#[trigger] top[i]).0 > price
        } else {
            top[i].0 < price
        }) by {
        assert(crate::book::level_at(levels, price) == resting_at(p.orders, is_bid, price));
        assert(levels.contains_key(price));
        let x = choose|x: int| 0 <= x < up.len() && (#[trigger] up[x]).0 == price;
        let at = if is_bid {
            up.len() - 1 - x
        } else {
            x
        };
        assert(all[at] == up[x]);
        if at < top.len() {
            assert(top[at].0 == price);
        } else {
            assert forall|i: int| 0 <= i < top.len() implies if is_bid {
                (#[trigger] top[i]).0 > price
            } else {
                top[i].0 < price
            } by {
                assert(top[i].0 == all[i].0);
                assert(all[at].0 == price);
            }
        }
    }
}

/// After any run of calls that names no order of no quantity, the top levels of each side are the best
/// prices at which orders rest, each with the total that rests there; none is missing and none is of
/// nothing.
pub proof fn law_top_levels_are_the_best_totals(calls: Seq<Call>, n: usize)
    requires
        forall|i: int| 0 <= i < calls.len() ==> names_something(#[trigger] calls[i]),
    ensures
        ({
            let p = StateView::after(calls).book;
            &&& best_levels(p, true, p.top_bids(n as int), n as int)
            &&& best_levels(p, false, p.top_asks(n as int), n as int)
        }),
{
    law_levels_are_totals_in_every_run(calls);
    let p = StateView::after(calls).book;
    lemma_best_levels(p, true, n as int);
    lemma_best_levels(p, false, n as int);
}

/// Fewer top levels are the first of more.
pub proof fn law_fewer_top_levels_are_a_prefix(p: Population, n: usize, m: usize)
    requires
        n <= m,
    ensures
        p.top_bids(n as int).is_prefix_of(p.top_bids(m as int)),
        p.top_asks(n as int).is_prefix_of(p.top_asks(m as int)),
{
    assert(p.top_bids(n as int) =~= p.top_bids(m as int).subrange(
        0,
        p.top_bids(n as int).len() as int,
    ));
    assert(p.top_asks(n as int) =~= p.top_asks(m as int).subrange(
        0,
        p.top_asks(n as int).len() as int,
    ));
}

} // verus!
