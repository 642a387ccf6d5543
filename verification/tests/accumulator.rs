//! The book that a stream of batches adds up to.

use edge_ingest::accumulator::{clear_both, BookAccumulator, MAX_PENDING_CHANGES};
use edge_ingest::model::{
    BookAction, BookChange, BookSide, MarketKey, NormalizedBook, ScopeKey,
};

fn key() -> MarketKey {
    MarketKey {
        scope: ScopeKey {
            venue: "V".into(),
            category: "c".into(),
        },
        channel: 3,
        instrument_id: 9,
    }
}

fn level(side: BookSide, price: i128, size: i128) -> BookChange {
    order(side, price, size, 0)
}

fn order(side: BookSide, price: i128, size: i128, order_id: u64) -> BookChange {
    BookChange {
        action: BookAction::Update,
        side,
        price,
        size,
        order_id,
    }
}

fn clear(side: BookSide) -> BookChange {
    BookChange {
        side,
        ..clear_both()
    }
}

fn batch(changes: Vec<BookChange>, last: bool) -> NormalizedBook {
    NormalizedBook {
        venue: "V".into(),
        source: "src".into(),
        source_id: 7,
        symbol: "SYM".into(),
        channel: 3,
        instrument_id: 9,
        category: "c".into(),
        changes,
        snapshot: false,
        last,
        source_ts_ns: 11,
        recv_ts_ns: 12,
        kernel_rx_ts_ns: 13,
        ws_send_ts_ns: 14,
    }
}

fn acc() -> BookAccumulator {
    BookAccumulator::new("SYM".to_string())
}

#[test]
fn an_empty_book_rebuilds_as_a_bare_clear() {
    let a = acc();
    assert!(!a.baselined());
    let book = a.to_book(&key(), 99);
    assert_eq!(book.changes, vec![clear_both()]);
    assert!(book.snapshot && book.last);
    assert_eq!(book.recv_ts_ns, 99);
}

#[test]
fn a_book_rebuilds_best_first_and_orders_by_id() {
    let mut a = acc();
    a.apply(&batch(
        vec![
            clear_both(),
            level(BookSide::Bid, 10, 1),
            level(BookSide::Bid, 30, 3),
            level(BookSide::Ask, 50, 5),
            level(BookSide::Ask, 40, 4),
            order(BookSide::Ask, 41, 2, 8),
            order(BookSide::Bid, 29, 6, 5),
            order(BookSide::Bid, 28, 7, 4),
        ],
        true,
    ));
    assert!(a.baselined());
    let book = a.to_book(&key(), 99);
    assert_eq!(
        book.changes,
        vec![
            clear_both(),
            level(BookSide::Bid, 30, 3),
            level(BookSide::Bid, 10, 1),
            level(BookSide::Ask, 40, 4),
            level(BookSide::Ask, 50, 5),
            order(BookSide::Bid, 28, 7, 4),
            order(BookSide::Bid, 29, 6, 5),
            order(BookSide::Ask, 41, 2, 8),
        ]
    );
    assert_eq!(book.source, "src");
    assert_eq!(book.source_id, 7);
    assert_eq!(book.source_ts_ns, 11);
    assert_eq!((book.channel, book.instrument_id), (3, 9));
    assert_eq!((book.venue.as_str(), book.category.as_str()), ("V", "c"));
    assert_eq!((book.kernel_rx_ts_ns, book.ws_send_ts_ns), (0, 0));
}

#[test]
fn a_rebuilt_book_applied_elsewhere_is_the_same_book() {
    let mut a = acc();
    a.apply(&batch(
        vec![
            clear_both(),
            level(BookSide::Bid, 10, 1),
            order(BookSide::Ask, 12, 2, 77),
        ],
        true,
    ));
    let full = a.to_book(&key(), 50);
    let mut other = acc();
    other.apply(&batch(
        vec![
            level(BookSide::Bid, 1, 1),
            level(BookSide::Ask, 2, 2),
            order(BookSide::Bid, 3, 3, 3),
        ],
        true,
    ));
    other.apply(&full);
    assert!(other.baselined());
    assert_eq!(other.to_book(&key(), 50), full);
}

#[test]
fn an_open_event_takes_effect_when_it_closes() {
    let mut a = acc();
    a.apply(&batch(vec![clear_both(), level(BookSide::Bid, 10, 1)], false));
    assert_eq!(a.to_book(&key(), 0).changes, vec![clear_both()]);
    assert!(!a.baselined());
    a.apply(&batch(vec![level(BookSide::Bid, 11, 2)], true));
    assert!(a.baselined());
    assert_eq!(
        a.to_book(&key(), 0).changes,
        vec![
            clear_both(),
            level(BookSide::Bid, 11, 2),
            level(BookSide::Bid, 10, 1),
        ]
    );
}

#[test]
fn an_event_that_never_closes_loses_the_book() {
    let mut a = acc();
    a.apply(&batch(vec![clear_both(), level(BookSide::Bid, 10, 1)], true));
    a.apply(&batch(
        vec![level(BookSide::Bid, 10, 2); MAX_PENDING_CHANGES],
        false,
    ));
    assert!(a.baselined(), "the cap itself is not past it");
    a.apply(&batch(vec![level(BookSide::Bid, 10, 3)], false));
    assert!(!a.baselined());
    assert_eq!(a.to_book(&key(), 0).changes, vec![clear_both()]);
}

#[test]
fn a_side_clear_spares_the_other_side_and_is_no_baseline() {
    let mut a = acc();
    a.apply(&batch(
        vec![
            level(BookSide::Bid, 10, 1),
            order(BookSide::Bid, 9, 1, 4),
            level(BookSide::Ask, 20, 2),
            clear(BookSide::Bid),
        ],
        true,
    ));
    assert!(!a.baselined());
    assert_eq!(
        a.to_book(&key(), 0).changes,
        vec![clear_both(), level(BookSide::Ask, 20, 2)]
    );
}

#[test]
fn a_zero_size_or_a_delete_removes() {
    let mut a = acc();
    a.apply(&batch(
        vec![
            level(BookSide::Bid, 10, 1),
            level(BookSide::Bid, 11, 1),
            order(BookSide::Ask, 20, 1, 5),
            order(BookSide::Ask, 21, 1, 6),
            level(BookSide::Bid, 10, 0),
            BookChange {
                action: BookAction::Delete,
                ..level(BookSide::Bid, 11, 1)
            },
            order(BookSide::Ask, 20, 0, 5),
            BookChange {
                action: BookAction::Delete,
                ..order(BookSide::Ask, 21, 1, 6)
            },
        ],
        true,
    ));
    assert_eq!(a.to_book(&key(), 0).changes, vec![clear_both()]);
}

#[test]
fn an_order_that_changes_sides_rests_once() {
    let mut a = acc();
    a.apply(&batch(
        vec![
            order(BookSide::Bid, 10, 1, 5),
            order(BookSide::Ask, 20, 2, 5),
        ],
        true,
    ));
    assert_eq!(
        a.to_book(&key(), 0).changes,
        vec![clear_both(), order(BookSide::Ask, 20, 2, 5)]
    );
}
