//! Order book reconstruction.

use edge_ingest::book::{
    BookState, DeltaKind, DeltaOp, OrderChange, MAX_ORDERS_PER_BOOK, MAX_PENDING_DELTAS,
    MAX_REMOVED_ORDERS,
};

fn add(seq: u32, order_id: u64, is_bid: bool, price: i64, qty: u64) -> DeltaOp {
    DeltaOp {
        seq,
        mktdata_seq: seq as u64,
        ts: seq as u64,
        kind: DeltaKind::Add {
            order_id,
            is_bid,
            price_raw: price,
            qty_raw: qty,
        },
    }
}

fn cancel_op(seq: u32, order_id: u64) -> DeltaOp {
    DeltaOp {
        seq,
        mktdata_seq: seq as u64,
        ts: seq as u64,
        kind: DeltaKind::Cancel { order_id },
    }
}

fn exec_op(seq: u32, order_id: u64, exec_qty_raw: u64, full_fill: bool) -> DeltaOp {
    DeltaOp {
        seq,
        mktdata_seq: seq as u64,
        ts: seq as u64,
        kind: DeltaKind::Execute {
            order_id,
            exec_qty_raw,
            full_fill,
        },
    }
}

fn synced_book() -> BookState {
    let mut b = BookState::new();
    assert!(!b.is_synced());
    b.on_snapshot_begin(1, 0, 2, 0);
    b.on_snapshot_order(1, 100, true, 18_400, 5);
    b.on_snapshot_order(1, 200, false, 18_410, 8);
    assert!(b.on_snapshot_end(0, 1));
    assert!(b.is_synced());
    b
}

fn synced_empty_book() -> BookState {
    let mut b = BookState::new();
    b.on_snapshot_begin(1, 0, 0, 0);
    assert!(b.on_snapshot_end(0, 1));
    b
}

#[test]
fn deltas_report_the_order_they_touched() {
    let mut b = synced_empty_book();
    let mut out = Vec::new();

    assert!(b.on_delta_reporting(add(1, 7, true, 18_400, 5), &mut out));
    assert_eq!(
        out,
        vec![OrderChange {
            order_id: 7,
            is_bid: true,
            price_raw: 18_400,
            qty_raw: 5,
        }]
    );

    out.clear();
    assert!(b.on_delta_reporting(exec_op(2, 7, 2, false), &mut out));
    assert_eq!(
        out,
        vec![OrderChange {
            order_id: 7,
            is_bid: true,
            price_raw: 18_400,
            qty_raw: 3,
        }]
    );

    out.clear();
    assert!(b.on_delta_reporting(cancel_op(3, 7), &mut out));
    assert_eq!(
        out,
        vec![OrderChange {
            order_id: 7,
            is_bid: true,
            price_raw: 18_400,
            qty_raw: 0,
        }]
    );
}

#[test]
fn a_rejected_delta_reports_nothing() {
    let mut b = synced_empty_book();
    let mut out = Vec::new();
    assert!(b.on_delta_reporting(add(1, 7, true, 18_400, 5), &mut out));

    out.clear();
    assert!(!b.on_delta_reporting(add(1, 8, true, 18_401, 1), &mut out));
    assert!(out.is_empty());
}

#[test]
fn a_removed_order_is_never_resurrected() {
    let mut b = synced_empty_book();
    let mut out = Vec::new();
    assert!(b.on_delta_reporting(add(1, 7, true, 18_400, 5), &mut out));
    assert!(b.on_delta_reporting(cancel_op(2, 7), &mut out));

    out.clear();
    assert!(!b.on_delta_reporting(add(3, 7, true, 18_400, 5), &mut out));
    assert!(out.is_empty());
    assert!(!b.has_order(7));

    assert!(b.on_delta_reporting(add(4, 8, true, 18_390, 1), &mut out));
    assert!(b.is_synced());
    assert!(b.has_order(8));
}

#[test]
fn a_fully_executed_order_is_never_resurrected() {
    let mut b = synced_empty_book();
    let mut out = Vec::new();
    assert!(b.on_delta_reporting(add(1, 7, true, 18_400, 5), &mut out));
    assert!(b.on_delta_reporting(exec_op(2, 7, 5, true), &mut out));

    out.clear();
    assert!(!b.on_delta_reporting(add(3, 7, true, 18_400, 5), &mut out));
    assert!(out.is_empty());
    assert!(!b.has_order(7));

    assert!(b.on_delta_reporting(add(4, 8, true, 18_390, 1), &mut out));
    assert!(b.is_synced());
    assert!(b.has_order(8));
}

#[test]
fn the_removed_set_is_bounded() {
    let mut b = synced_empty_book();
    let mut out = Vec::new();
    let mut seq = 0u32;
    for order_id in 0..(MAX_REMOVED_ORDERS as u64 + 1_000) {
        seq += 1;
        assert!(b.on_delta_reporting(add(seq, order_id, true, 100, 1), &mut out));
        seq += 1;
        assert!(b.on_delta_reporting(cancel_op(seq, order_id), &mut out));
        out.clear();
    }
    assert!(
        b.removed_len() <= MAX_REMOVED_ORDERS,
        "removed ids must stay bounded, got {}",
        b.removed_len()
    );
}

#[test]
fn a_session_reset_reopens_the_id_space() {
    for end_of_session in [true, false] {
        let mut b = synced_empty_book();
        let mut out = Vec::new();
        assert!(b.on_delta_reporting(add(1, 7, true, 18_400, 5), &mut out));
        assert!(b.on_delta_reporting(cancel_op(2, 7), &mut out));

        if end_of_session {
            b.on_end_of_session();
        } else {
            b.on_instrument_reset(0);
        }
        assert_eq!(b.removed_len(), 0);

        b.on_snapshot_begin(2, 0, 0, 0);
        assert!(b.on_snapshot_end(0, 2));
        out.clear();
        assert!(b.on_delta_reporting(add(1, 7, true, 18_400, 5), &mut out));
        assert!(b.has_order(7), "end_of_session={end_of_session}");
    }
}

#[test]
fn order_set_is_complete_and_deterministically_ordered() {
    let mut b = synced_empty_book();
    let mut out = Vec::new();
    assert!(b.on_delta_reporting(add(1, 10, true, 101, 1), &mut out));
    assert!(b.on_delta_reporting(add(2, 20, false, 105, 2), &mut out));
    assert!(b.on_delta_reporting(add(3, 30, true, 100, 3), &mut out));
    assert!(b.on_delta_reporting(add(4, 40, true, 100, 4), &mut out));

    b.order_set(&mut out);
    assert_eq!(
        out,
        vec![
            OrderChange {
                order_id: 10,
                is_bid: true,
                price_raw: 101,
                qty_raw: 1,
            },
            OrderChange {
                order_id: 30,
                is_bid: true,
                price_raw: 100,
                qty_raw: 3,
            },
            OrderChange {
                order_id: 40,
                is_bid: true,
                price_raw: 100,
                qty_raw: 4,
            },
            OrderChange {
                order_id: 20,
                is_bid: false,
                price_raw: 105,
                qty_raw: 2,
            },
        ]
    );
}

#[test]
fn order_set_tolerates_extreme_prices() {
    let mut b = synced_empty_book();
    let mut out = Vec::new();
    assert!(b.on_delta_reporting(add(1, 1, true, i64::MIN, 1), &mut out));
    assert!(b.on_delta_reporting(add(2, 2, true, i64::MAX, 1), &mut out));
    assert!(b.on_delta_reporting(add(3, 3, false, i64::MIN, 1), &mut out));

    b.order_set(&mut out);
    let ids: Vec<u64> = out.iter().map(|c| c.order_id).collect();
    assert_eq!(ids, vec![2, 1, 3]);
}

#[test]
fn end_of_session_drops_book_sequences_and_event_clock() {
    let mut b = synced_book();
    assert!(b.on_delta(add(1, 101, true, 18_405, 3)));
    assert!(!b.on_delta(add(5, 102, true, 18_406, 1)));
    b.on_end_of_session();
    assert!(!b.is_synced());
    assert_eq!(b.last_event_ts(), 0);
    b.on_snapshot_begin(2, 0, 1, 0);
    b.on_snapshot_order(2, 300, true, 100, 1);
    assert!(b.on_snapshot_end(0, 2));
    assert!(b.is_synced());
    let (bids, asks) = b.top_levels(5);
    assert_eq!(bids, vec![(100, 1)]);
    assert_eq!(asks, vec![]);
    assert!(b.on_delta(add(1, 301, true, 101, 2)));
    assert_eq!(b.last_event_ts(), 1);
}

#[test]
fn instrument_reset_drops_the_event_clock() {
    let mut b = synced_book();
    assert!(b.on_delta(add(1, 101, true, 18_405, 3)));
    assert_eq!(b.last_event_ts(), 1);
    b.on_instrument_reset(1);
    assert_eq!(
        b.last_event_ts(),
        0,
        "the pre-reset event time must not survive the reset"
    );
}

#[test]
fn snapshot_then_contiguous_deltas_update_top_of_book() {
    let mut b = synced_book();
    let (bids, asks) = b.top_levels(5);
    assert_eq!(bids, vec![(18_400, 5)]);
    assert_eq!(asks, vec![(18_410, 8)]);

    assert!(b.on_delta(add(1, 101, true, 18_405, 3)));
    let (bids, _) = b.top_levels(5);
    assert_eq!(bids, vec![(18_405, 3), (18_400, 5)]);

    assert!(b.on_delta(DeltaOp {
        seq: 2,
        mktdata_seq: 2,
        ts: 2,
        kind: DeltaKind::Cancel { order_id: 101 },
    }));
    let (bids, _) = b.top_levels(5);
    assert_eq!(bids, vec![(18_400, 5)]);
}

#[test]
fn execute_reduces_then_removes_order() {
    let mut b = synced_book();
    assert!(b.on_delta(DeltaOp {
        seq: 1,
        mktdata_seq: 1,
        ts: 1,
        kind: DeltaKind::Execute {
            order_id: 200,
            exec_qty_raw: 3,
            full_fill: false,
        },
    }));
    let (_, asks) = b.top_levels(5);
    assert_eq!(asks, vec![(18_410, 5)]);
    assert!(b.on_delta(DeltaOp {
        seq: 2,
        mktdata_seq: 2,
        ts: 2,
        kind: DeltaKind::Execute {
            order_id: 200,
            exec_qty_raw: 5,
            full_fill: true,
        },
    }));
    let (_, asks) = b.top_levels(5);
    assert!(asks.is_empty());
}

#[test]
fn duplicate_and_old_deltas_are_ignored() {
    let mut b = synced_book();
    assert!(b.on_delta(add(1, 101, true, 18_405, 3)));
    assert!(!b.on_delta(add(1, 999, true, 18_406, 9)));
    assert!(!b.on_delta(add(0, 998, true, 18_407, 9)));
    let (bids, _) = b.top_levels(5);
    assert_eq!(bids, vec![(18_405, 3), (18_400, 5)]);
}

#[test]
fn gap_triggers_recovery_then_snapshot_replays_buffered_deltas() {
    let mut b = synced_book();
    assert!(b.on_delta(add(1, 101, true, 18_405, 3)));

    assert!(!b.on_delta(add(3, 102, true, 18_406, 1)));
    assert!(!b.is_synced());
    assert!(!b.on_delta(add(4, 103, false, 18_420, 2)));

    b.on_snapshot_begin(2, 2, 2, 2);
    b.on_snapshot_order(2, 100, true, 18_400, 5);
    b.on_snapshot_order(2, 200, false, 18_410, 8);
    assert!(b.on_snapshot_end(2, 2));
    assert!(b.is_synced());
    assert_eq!(b.last_instr_seq(), 4);

    let (bids, asks) = b.top_levels(5);
    assert_eq!(bids, vec![(18_406, 1), (18_400, 5)]);
    assert_eq!(asks, vec![(18_410, 8), (18_420, 2)]);
}

#[test]
fn instrument_reset_drops_book_until_resnapshot() {
    let mut b = synced_book();
    b.on_instrument_reset(0);
    assert!(!b.is_synced());
    assert!(!b.on_delta(add(1, 101, true, 18_405, 3)));
    b.on_snapshot_begin(7, 0, 1, 0);
    b.on_snapshot_order(7, 300, true, 18_390, 4);
    assert!(b.on_snapshot_end(0, 7));
    assert!(b.is_synced());
    let (bids, _) = b.top_levels(5);
    assert_eq!(bids, vec![(18_405, 3), (18_390, 4)]);
}

#[test]
fn periodic_snapshot_while_ready_is_ignored() {
    let mut b = synced_book();
    assert!(b.on_delta(add(1, 101, true, 18_405, 3)));
    assert!(b.on_delta(add(2, 102, true, 18_406, 1)));
    let before = b.top_levels(5);
    assert_eq!(b.last_instr_seq(), 2);
    assert_eq!(b.last_applied_mktdata_seq(), 2);

    b.on_snapshot_begin(9, 1, 1, 1);
    b.on_snapshot_order(9, 999, true, 99_999, 7);
    assert!(!b.on_snapshot_end(1, 9));

    assert!(b.is_synced());
    assert_eq!(b.last_instr_seq(), 2);
    assert_eq!(b.top_levels(5), before);

    assert!(b.on_delta(add(3, 103, false, 18_420, 2)));
    assert_eq!(b.last_instr_seq(), 3);
}

#[test]
fn stale_snapshot_ahead_rebootstraps() {
    let mut b = synced_book();
    assert!(b.on_delta(add(1, 101, true, 18_405, 3)));
    assert_eq!(b.last_applied_mktdata_seq(), 1);

    b.on_snapshot_begin(2, 5, 1, 5);
    b.on_snapshot_order(2, 500, false, 18_500, 9);
    assert!(b.on_snapshot_end(5, 2));

    assert!(b.is_synced());
    assert_eq!(b.last_instr_seq(), 5);
    assert_eq!(b.last_applied_mktdata_seq(), 5);
    let (bids, asks) = b.top_levels(5);
    assert!(bids.is_empty());
    assert_eq!(asks, vec![(18_500, 9)]);
}

#[test]
fn incomplete_snapshot_is_discarded() {
    let mut b = BookState::new();
    b.on_snapshot_begin(1, 0, 3, 0);
    b.on_snapshot_order(1, 100, true, 18_400, 5);
    b.on_snapshot_order(1, 200, false, 18_410, 8);
    assert!(!b.on_snapshot_end(0, 1));
    assert!(!b.is_synced());
}

#[test]
fn instrument_reset_keeps_post_anchor_buffered_deltas() {
    let mut b = synced_book();
    b.on_instrument_reset(5);
    assert!(!b.is_synced());

    let mut at_anchor = add(10, 400, true, 18_300, 1);
    at_anchor.mktdata_seq = 5;
    let mut past_anchor = add(11, 401, true, 18_310, 2);
    past_anchor.mktdata_seq = 6;
    assert!(!b.on_delta(at_anchor));
    assert!(!b.on_delta(past_anchor));

    b.on_snapshot_begin(3, 5, 0, 10);
    assert!(b.on_snapshot_end(5, 3));
    assert!(b.is_synced());
    assert_eq!(b.last_instr_seq(), 11);
    let (bids, _) = b.top_levels(5);
    assert_eq!(bids, vec![(18_310, 2)]);
}

#[test]
fn pending_buffer_is_bounded_while_recovering() {
    let mut b = BookState::new();
    for i in 0..(MAX_PENDING_DELTAS + 1_000) {
        assert!(!b.on_delta(add((i as u32).wrapping_add(1), i as u64, true, 100, 1)));
    }
    assert!(!b.is_synced());
    assert!(
        b.pending_len() <= MAX_PENDING_DELTAS,
        "pending must stay bounded, got {}",
        b.pending_len()
    );
}

#[test]
fn resting_orders_are_bounded_under_add_flood() {
    let mut b = synced_book();
    for i in 0..(MAX_ORDERS_PER_BOOK + 1_000) {
        let seq = (i as u32).wrapping_add(1);
        let oid = 1_000u64 + i as u64;
        b.on_delta(add(seq, oid, true, 100 + (i as i64 % 64), 1));
    }
    assert!(
        b.orders_len() <= MAX_ORDERS_PER_BOOK,
        "resting orders must stay bounded, got {}",
        b.orders_len()
    );
    assert!(!b.is_synced(), "an oversized book drops to Recovering");
}

#[test]
fn a_mismatched_end_discards_the_snapshot() {
    let mut b = BookState::new();
    b.on_snapshot_begin(1, 0, 1, 0);
    b.on_snapshot_order(1, 100, true, 18_400, 5);
    assert!(!b.on_snapshot_end(0, 2), "another snapshot's end");
    assert!(!b.is_synced());
    b.on_snapshot_begin(3, 7, 1, 0);
    b.on_snapshot_order(2, 100, true, 18_400, 5);
    assert!(!b.on_snapshot_end(7, 3), "another snapshot's order does not count");
}

#[test]
fn a_level_is_the_total_of_its_orders() {
    let mut b = synced_empty_book();
    assert!(b.on_delta(add(1, 1, true, 100, 5)));
    assert!(b.on_delta(add(2, 2, true, 100, 7)));
    assert_eq!(b.top_levels(1), (vec![(100, 12)], vec![]));
    assert!(b.on_delta(exec_op(3, 1, 2, false)));
    assert_eq!(b.top_levels(1), (vec![(100, 10)], vec![]));
    assert!(b.on_delta(cancel_op(4, 2)));
    assert_eq!(b.top_levels(1), (vec![(100, 3)], vec![]));
    assert_eq!(b.orders_len(), 1);
    assert_eq!(b.removed_len(), 1);
    assert_eq!(b.removed_evicted(), 0);
}

#[test]
fn an_over_fill_takes_no_more_than_rests() {
    let mut b = synced_empty_book();
    let mut out = Vec::new();
    assert!(b.on_delta(add(1, 1, false, 100, 5)));
    assert!(b.on_delta_reporting(exec_op(2, 1, 9, false), &mut out));
    assert_eq!(
        out,
        vec![OrderChange {
            order_id: 1,
            is_bid: false,
            price_raw: 100,
            qty_raw: 0,
        }]
    );
    assert!(!b.has_order(1));
    assert!(b.top_levels(5).1.is_empty());
}

#[test]
fn top_levels_are_best_first_and_cut_at_n() {
    let mut b = synced_empty_book();
    for (i, price) in [100i64, 103, 101, 102].iter().enumerate() {
        assert!(b.on_delta(add(2 * i as u32 + 1, i as u64 + 1, true, *price, 1)));
        assert!(b.on_delta(add(2 * i as u32 + 2, i as u64 + 11, false, *price + 10, 1)));
    }
    let (bids, asks) = b.top_levels(2);
    assert_eq!(bids, vec![(103, 1), (102, 1)]);
    assert_eq!(asks, vec![(110, 1), (111, 1)]);
    assert_eq!(BookState::default().top_levels(2), (vec![], vec![]));
}

#[test]
fn a_full_fill_leaves_no_level_behind() {
    let mut b = BookState::new();
    b.on_snapshot_begin(1, 0, 1, 0);
    b.on_snapshot_order(1, 200, false, 18_410, 8);
    assert!(b.on_snapshot_end(0, 1));
    let mut out = Vec::new();
    assert!(b.on_delta_reporting(exec_op(1, 200, 3, true), &mut out));
    assert_eq!(out[0].qty_raw, 0);
    assert!(!b.has_order(200));
    assert_eq!(b.top_levels(5), (vec![], vec![]));
}

#[test]
fn an_order_put_in_again_replaces_itself_and_its_quantity() {
    let mut b = synced_empty_book();
    assert!(b.on_delta(add(1, 7, true, 100, 5)));
    assert!(b.on_delta(add(2, 7, true, 100, 3)));
    assert_eq!(b.top_levels(5).0, vec![(100, 3)]);
    assert!(b.on_delta(add(3, 7, false, 120, 4)));
    assert_eq!(b.top_levels(5), (vec![], vec![(120, 4)]));
    assert!(b.on_delta(cancel_op(4, 7)));
    assert_eq!(b.top_levels(5), (vec![], vec![]));
}

#[test]
fn a_level_past_the_largest_number_still_empties() {
    let mut b = synced_empty_book();
    assert!(b.on_delta(add(1, 7, true, 100, u64::MAX)));
    assert!(b.on_delta(add(2, 8, true, 100, 5)));
    assert_eq!(b.top_levels(5).0, vec![(100, u64::MAX)]);
    assert!(b.on_delta(cancel_op(3, 7)));
    assert_eq!(b.top_levels(5).0, vec![(100, 5)]);
}

#[test]
fn fewer_top_levels_are_the_first_of_more() {
    let mut b = synced_empty_book();
    for i in 0..6u32 {
        assert!(b.on_delta(add(i + 1, i as u64 + 1, i % 2 == 0, 100 + i as i64, 5)));
    }
    let (bids, asks) = b.top_levels(3);
    for n in 0..3 {
        assert_eq!(b.top_levels(n).0, bids[..n].to_vec());
        assert_eq!(b.top_levels(n).1, asks[..n].to_vec());
    }
}
