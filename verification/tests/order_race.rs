//! Racing order events.

#![allow(dead_code)]

use edge_ingest::arbiter::{Arbiter, TRADE_DEDUP_WINDOW};
use edge_ingest::authority::AuthorityConfig;
use edge_ingest::book_gate::MAX_BOOK_MARKETS;
use edge_ingest::effects::{Clock, Effects, Note, What};
use edge_ingest::model::{
    Address, ArbitrationMode, BookAction, BookChange, BookSide, FeedMessage, MarketKey,
    NormalizedBook, NormalizedTrade, Publisher, ScopeKey, Side,
};
use edge_ingest::order_race::{Forced, MAX_SEEN_ORDER_EVENTS};
use edge_ingest::table::Table;

/// The category that a test which is not about categories emits under.
const TEST_CATEGORY: &str = "testcategory";

/// The wall clock of every test.
const WALL_NS: u64 = 1_780_000_000_000_000_000;

/// A price or a size in fixed point.
fn fixed(x: f64) -> i128 {
    (x * 1e8).round() as i128 * 10_000_000_000
}

/// A price or a size out of fixed point.
fn value(x: i128) -> f64 {
    (x / 10_000_000_000) as f64 / 1e8
}

fn arm(n: u8) -> Publisher {
    Publisher::Edge(Address::V4(u32::from_be_bytes([10, 0, 0, n])))
}

/// An arbiter, with what it has sent and counted.
struct Wire {
    a: Arbiter,
    sent: Vec<FeedMessage>,
    notes: Vec<Note>,
    margin_transfers: usize,
    clock: Clock,
}

impl Wire {
    fn new(trade_window: usize) -> Wire {
        Wire {
            a: Arbiter::new(trade_window),
            sent: Vec::new(),
            notes: Vec::new(),
            margin_transfers: 0,
            clock: Clock {
                wall_ns: WALL_NS,
                mono_ns: 1_000_000_000_000,
            },
        }
    }

    fn take(&mut self, fx: Effects) {
        self.sent.extend(fx.sent);
        self.notes.extend(fx.notes);
    }

    fn emit(&mut self, msg: FeedMessage, p: Publisher, category: &str) {
        let fx = self.a.emit(msg, p, category, self.clock);
        self.take(fx);
    }

    fn set_book_synced(&mut self, key: &MarketKey, p: Publisher, synced: bool) {
        let fx = self.a.set_book_synced(key, p, synced);
        self.take(fx);
    }

    fn close_authority_windows(&mut self) {
        let report = self.a.close_authority_windows(WALL_NS);
        self.margin_transfers += report.moved.len();
    }

    /// What was sent since the last call.
    fn drain(&mut self) -> Vec<FeedMessage> {
        self.sent.drain(..).collect()
    }

    /// How often something was counted for a venue.
    fn count(&self, venue: &str, what: What) -> usize {
        self.notes
            .iter()
            .filter(|n| n.venue == venue && n.what == what)
            .count()
    }
}

impl std::ops::Deref for Wire {
    type Target = Arbiter;

    fn deref(&self) -> &Arbiter {
        &self.a
    }
}

impl std::ops::DerefMut for Wire {
    fn deref_mut(&mut self) -> &mut Arbiter {
        &mut self.a
    }
}

fn drain_trades(a: &mut Wire) -> usize {
    a.drain()
        .iter()
        .filter(|m| matches!(m, FeedMessage::Trade(_)))
        .count()
}

fn trade(trade_id: u64) -> NormalizedTrade {
    NormalizedTrade {
        venue: "KALSHI".into(),
        source: "KALSHI".into(),
        source_id: 0,
        symbol: "KXBTCPERP".into(),
        channel: 0,
        instrument_id: 0,
        category: "default".into(),
        price: fixed(0.62),
        size: fixed(100.0),
        aggressor_side: Side::Buy,
        trade_id,
        cumulative_volume: 0,
        source_ts_ns: 1_000,
        recv_ts_ns: 2_000,
        kernel_rx_ts_ns: 0,
        ws_send_ts_ns: 0,
    }
}

const BOOK_CHANNEL: u32 = 2;
const BOOK_INSTRUMENT: u32 = 41;

fn market(venue: &str, category: &str, channel: u32, instrument_id: u32) -> MarketKey {
    MarketKey {
        scope: ScopeKey {
            venue: venue.into(),
            category: category.into(),
        },
        channel,
        instrument_id,
    }
}

fn bscope(venue: &str) -> ScopeKey {
    ScopeKey {
        venue: venue.into(),
        category: TEST_CATEGORY.into(),
    }
}

fn bid(price: f64, size: f64) -> BookChange {
    BookChange {
        action: BookAction::Update,
        side: BookSide::Bid,
        price: fixed(price),
        size: fixed(size),
        order_id: 0,
    }
}

fn clear_both() -> BookChange {
    BookChange {
        action: BookAction::Clear,
        side: BookSide::Both,
        price: 0,
        size: 0,
        order_id: 0,
    }
}

fn drain_books(a: &mut Wire) -> Vec<NormalizedBook> {
    a.drain()
        .into_iter()
        .filter_map(|m| match m {
            FeedMessage::Book(b) => Some(b),
            _ => None,
        })
        .collect()
}

fn sticky_cfg() -> AuthorityConfig {
    AuthorityConfig {
        leader_timeout_ns: u64::MAX,
        sample_interval_ns: 1_000,
        transfer_margin_ns: 1_000,
        transfer_win_rate_ppm: 800_000,
        min_window_samples: 5,
    }
}

fn gated(venue: &str, cfg: AuthorityConfig) -> Wire {
    let mut a = Wire::new(TRADE_DEDUP_WINDOW);
    a.set_authority(cfg, 1_000_000_000);
    synced(&mut a, venue, BOOK_INSTRUMENT, arm(1), 1_000);
    synced(&mut a, venue, BOOK_INSTRUMENT, arm(2), 1_001);
    let _ = drain_books(&mut a);
    a
}

fn synced(a: &mut Wire, venue: &str, instrument_id: u32, publisher: Publisher, recv_ns: u64) {
    a.emit(
        book(venue, instrument_id, vec![clear_both()], true, recv_ns),
        publisher,
        TEST_CATEGORY,
    );
}

fn tape_print(a: &mut Wire, venue: &str, p: Publisher, id: u64, recv_ts_ns: u64) {
    let mut t = trade(id);
    t.venue = venue.into();
    t.recv_ts_ns = recv_ts_ns;
    a.emit(FeedMessage::Trade(t), p, TEST_CATEGORY);
}

fn mkey(venue: &str, instrument_id: u32) -> MarketKey {
    market(venue, TEST_CATEGORY, BOOK_CHANNEL, instrument_id)
}

fn book(
    venue: &str,
    instrument_id: u32,
    changes: Vec<BookChange>,
    last: bool,
    recv_ns: u64,
) -> FeedMessage {
    FeedMessage::Book(NormalizedBook {
        venue: venue.into(),
        source: venue.into(),
        source_id: 0,
        symbol: "KXBTCPERP".into(),
        channel: BOOK_CHANNEL,
        instrument_id,
        category: TEST_CATEGORY.into(),
        changes,
        snapshot: false,
        last,
        source_ts_ns: 1_000,
        recv_ts_ns: recv_ns,
        kernel_rx_ts_ns: 0,
        ws_send_ts_ns: 0,
    })
}

const L3_VENUE: &str = "HYPERLIQUID";

fn order(action: BookAction, order_id: u64, price: f64, size: f64) -> BookChange {
    BookChange {
        action,
        side: BookSide::Bid,
        price: fixed(price),
        size: fixed(size),
        order_id,
    }
}

fn racing(venue: &str, arms: &[Publisher]) -> Wire {
    let mut a = Wire::new(TRADE_DEDUP_WINDOW);
    a.set_mode(venue, ArbitrationMode::Coordinated);
    a.set_book_replay(Table::new());
    let key: MarketKey = mkey(venue, BOOK_INSTRUMENT);
    for &p in arms {
        a.set_book_synced(&key, p, true);
    }
    a
}

fn l3_batch(venue: &str, changes: Vec<BookChange>, recv_ns: u64) -> FeedMessage {
    let FeedMessage::Book(mut b) = book(venue, BOOK_INSTRUMENT, changes, true, recv_ns) else {
        unreachable!()
    };
    b.symbol = "BTC".into();
    FeedMessage::Book(b)
}

fn disagreements(a: &Wire, venue: &str) -> u64 {
    a.notes
        .iter()
        .filter(|n| n.venue == venue)
        .map(|n| match n.what {
            What::ArmDisagreements(k) => k,
            _ => 0,
        })
        .sum()
}

#[test]
fn order_events_collapse_across_publishers_keeping_first_arrival() {
    let mut a = racing(L3_VENUE, &[arm(1), arm(2)]);
    let ev = |oid, size| vec![order(BookAction::Update, oid, 100.0, size)];

    a.emit(
        l3_batch(L3_VENUE, ev(7, 10.0), 1_000),
        arm(1),
        TEST_CATEGORY,
    );
    a.emit(
        l3_batch(L3_VENUE, ev(7, 10.0), 1_100),
        arm(2),
        TEST_CATEGORY,
    );
    a.emit(l3_batch(L3_VENUE, ev(8, 4.0), 1_200), arm(2), TEST_CATEGORY);
    a.emit(l3_batch(L3_VENUE, ev(8, 4.0), 1_300), arm(1), TEST_CATEGORY);

    let books = drain_books(&mut a);
    assert_eq!(
        books.len(),
        2,
        "each venue event reaches the wire exactly once"
    );
    assert_eq!(books[0].changes[0].order_id, 7);
    assert_eq!(books[1].changes[0].order_id, 8);
}

#[test]
fn successive_partial_fills_of_one_order_all_reach_the_wire() {
    let mut a = racing(L3_VENUE, &[arm(1), arm(2)]);
    for (i, remaining) in [10.0, 6.0, 3.0].iter().enumerate() {
        let recv = 1_000 + i as u64;
        let batch = vec![order(BookAction::Update, 7, 100.0, *remaining)];
        a.emit(
            l3_batch(L3_VENUE, batch.clone(), recv),
            arm(1),
            TEST_CATEGORY,
        );
        a.emit(l3_batch(L3_VENUE, batch, recv + 1), arm(2), TEST_CATEGORY);
    }
    let sizes: Vec<f64> = drain_books(&mut a)
        .iter()
        .map(|b| value(b.changes[0].size))
        .collect();
    assert_eq!(sizes, vec![10.0, 6.0, 3.0]);
}

#[test]
fn a_partly_duplicate_batch_publishes_only_its_new_events() {
    let mut a = racing(L3_VENUE, &[arm(1), arm(2)]);
    a.emit(
        l3_batch(
            L3_VENUE,
            vec![order(BookAction::Update, 7, 100.0, 6.0)],
            1_000,
        ),
        arm(1),
        TEST_CATEGORY,
    );
    a.emit(
        l3_batch(
            L3_VENUE,
            vec![order(BookAction::Update, 7, 100.0, 3.0)],
            1_001,
        ),
        arm(1),
        TEST_CATEGORY,
    );
    let _ = drain_books(&mut a);

    a.emit(
        l3_batch(
            L3_VENUE,
            vec![
                order(BookAction::Update, 7, 100.0, 6.0),
                order(BookAction::Update, 9, 99.0, 1.0),
            ],
            1_002,
        ),
        arm(2),
        TEST_CATEGORY,
    );
    let out = drain_books(&mut a);
    assert_eq!(out.len(), 1);
    assert_eq!(
        out[0]
            .changes
            .iter()
            .map(|c| (c.order_id, value(c.size)))
            .collect::<Vec<_>>(),
        vec![(9, 1.0)],
        "the stale copy of order 7 must not walk the consumer back to 6.0"
    );
}

#[test]
fn a_content_disagreement_is_counted() {
    const VENUE: &str = "BookDriftCounted";
    let mut a = racing(VENUE, &[arm(1), arm(2)]);
    let before = disagreements(&a, VENUE);
    a.emit(
        l3_batch(VENUE, vec![order(BookAction::Update, 7, 100.0, 6.0)], 1_000),
        arm(1),
        TEST_CATEGORY,
    );
    a.emit(
        l3_batch(VENUE, vec![order(BookAction::Update, 7, 100.0, 8.0)], 1_001),
        arm(2),
        TEST_CATEGORY,
    );
    assert_eq!(drain_books(&mut a).len(), 1);
    assert_eq!(disagreements(&a, VENUE), before + 1);
}

fn forced_rebaselines(a: &Wire, venue: &str, reason: Forced) -> usize {
    a.count(venue, What::ForcedRebaseline(reason))
}

#[test]
fn a_size_disagreement_forces_a_rebaseline_rather_than_a_guess() {
    const VENUE: &str = "BookDriftRebaseline";
    let mut a = racing(VENUE, &[arm(1), arm(2)]);
    let (before_dis, before_forced) = (
        disagreements(&a, VENUE),
        forced_rebaselines(&a, VENUE, Forced::Disagreement),
    );
    a.emit(
        l3_batch(
            VENUE,
            vec![clear_both(), order(BookAction::Update, 7, 100.0, 6.0)],
            1_000,
        ),
        arm(1),
        TEST_CATEGORY,
    );
    let _ = drain_books(&mut a);

    a.emit(
        l3_batch(VENUE, vec![order(BookAction::Update, 7, 100.0, 8.0)], 1_100),
        arm(2),
        TEST_CATEGORY,
    );
    assert!(
        drain_books(&mut a).is_empty(),
        "neither publisher's claim may reach the wire"
    );
    assert_eq!(disagreements(&a, VENUE), before_dis + 1);
    assert_eq!(
        forced_rebaselines(&a, VENUE, Forced::Disagreement),
        before_forced + 1
    );

    a.emit(
        l3_batch(VENUE, vec![order(BookAction::Update, 9, 99.0, 1.0)], 1_200),
        arm(1),
        TEST_CATEGORY,
    );
    let out = drain_books(&mut a);
    assert_eq!(out.len(), 2);
    assert_eq!(out[0].changes[0].action, BookAction::Clear);
    assert!(out[0].last, "a re-baseline must terminate its own event");
    assert_eq!(out[1].changes[0].order_id, 9);
}

#[test]
fn a_forced_rebaseline_republishes_the_wire_not_an_arms_own_book() {
    const VENUE: &str = "BookForgedInjection";
    let mut a = racing(VENUE, &[arm(1), arm(2)]);
    a.emit(
        l3_batch(
            VENUE,
            vec![clear_both(), order(BookAction::Update, 1, 100.0, 5.0)],
            1_000,
        ),
        arm(1),
        TEST_CATEGORY,
    );
    a.emit(
        l3_batch(VENUE, vec![order(BookAction::Update, 2, 99.0, 4.0)], 1_100),
        arm(1),
        TEST_CATEGORY,
    );
    a.emit(
        l3_batch(
            VENUE,
            vec![clear_both(), order(BookAction::Update, 999, 1.0, 7.0)],
            1_200,
        ),
        arm(2),
        TEST_CATEGORY,
    );
    a.emit(
        l3_batch(
            VENUE,
            vec![order(BookAction::Update, 1, 100.0, 50.0)],
            1_300,
        ),
        arm(2),
        TEST_CATEGORY,
    );
    let _ = drain_books(&mut a);

    a.emit(
        l3_batch(VENUE, vec![order(BookAction::Update, 3, 98.0, 1.0)], 1_400),
        arm(2),
        TEST_CATEGORY,
    );
    let out = drain_books(&mut a);
    let published: Vec<(u64, f64)> = out
        .iter()
        .flat_map(|b| b.changes.iter().map(|c| (c.order_id, value(c.size))))
        .collect();
    assert_eq!(
        published,
        vec![(0, 0.0), (1, 5.0), (2, 4.0), (3, 1.0)],
        "the wire's own book, then the triggering batch onto it"
    );
}

#[test]
fn a_book_larger_than_the_guard_stays_proportional_to_its_input() {
    const VENUE: &str = "BookOverCapProportional";
    const ORDERS: u64 = MAX_SEEN_ORDER_EVENTS as u64 * 2;
    let mut a = racing(VENUE, &[arm(1)]);
    a.set_book_dedup_window(1_000);
    let before = forced_rebaselines(&a, VENUE, Forced::GuardEvicted);
    let mut install = vec![clear_both()];
    install.extend((1..=ORDERS).map(|oid| order(BookAction::Update, oid, 100.0, 1.0)));
    a.emit(l3_batch(VENUE, install, 1_000), arm(1), TEST_CATEGORY);
    for oid in 1..=ORDERS {
        a.emit(
            l3_batch(
                VENUE,
                vec![order(BookAction::Update, oid, 100.0, 2.0)],
                2_000 + oid * 10_000,
            ),
            arm(1),
            TEST_CATEGORY,
        );
    }
    let published: usize = drain_books(&mut a).iter().map(|b| b.changes.len()).sum();
    let key: MarketKey = mkey(VENUE, BOOK_INSTRUMENT);
    assert_eq!(
        forced_rebaselines(&a, VENUE, Forced::GuardEvicted),
        before,
        "a re-baseline's own seeding must not re-arm the eviction that discharged it"
    );
    assert!(!a.gate().rebaseline_due(&key));
    assert!(
        published <= (ORDERS as usize + 1) * 2,
        "{published} changes published for {ORDERS} input changes"
    );
}

#[test]
fn evicting_a_tracked_order_marks_the_market_for_rebaseline() {
    const VENUE: &str = "BookGuardEvicted";
    let mut a = racing(VENUE, &[arm(1)]);
    let before = forced_rebaselines(&a, VENUE, Forced::GuardEvicted);
    for oid in 1..=(MAX_SEEN_ORDER_EVENTS as u64 + 1) {
        a.emit(
            l3_batch(
                VENUE,
                vec![order(BookAction::Update, oid, 100.0, 1.0)],
                1_000,
            ),
            arm(1),
            TEST_CATEGORY,
        );
    }
    let _ = drain_books(&mut a);
    let key: MarketKey = mkey(VENUE, BOOK_INSTRUMENT);
    assert!(
        a.gate().rebaseline_due(&key),
        "a lost guard entry must stop the market being served from deltas"
    );
    assert_eq!(
        forced_rebaselines(&a, VENUE, Forced::GuardEvicted),
        before + 1,
        "and it must be separable from a disagreement in production"
    );
}

#[test]
fn evicting_an_order_past_the_race_horizon_does_not_force_a_rebaseline() {
    const VENUE: &str = "BookGuardAged";
    let mut a = racing(VENUE, &[arm(1)]);
    a.set_book_dedup_window(1_000);
    let before = forced_rebaselines(&a, VENUE, Forced::GuardEvicted);
    for oid in 1..=(MAX_SEEN_ORDER_EVENTS as u64 + 64) {
        a.emit(
            l3_batch(
                VENUE,
                vec![order(BookAction::Update, oid, 100.0, 1.0)],
                oid * 10_000,
            ),
            arm(1),
            TEST_CATEGORY,
        );
    }
    let _ = drain_books(&mut a);
    let key: MarketKey = mkey(VENUE, BOOK_INSTRUMENT);
    assert!(!a.gate().rebaseline_due(&key));
    assert_eq!(forced_rebaselines(&a, VENUE, Forced::GuardEvicted), before);
}

#[test]
fn a_rebaseline_keeps_the_resurrection_guard() {
    const VENUE: &str = "BookRebaselineGuard";
    let mut a = racing(VENUE, &[arm(1), arm(2)]);
    a.set_book_dedup_window(1_000);
    let add = vec![order(BookAction::Update, 7, 100.0, 6.0)];
    a.emit(l3_batch(VENUE, add.clone(), 1_000), arm(1), TEST_CATEGORY);
    a.emit(
        l3_batch(VENUE, vec![order(BookAction::Delete, 7, 100.0, 0.0)], 1_100),
        arm(1),
        TEST_CATEGORY,
    );
    a.emit(
        l3_batch(
            VENUE,
            vec![clear_both(), order(BookAction::Update, 9, 99.0, 1.0)],
            1_200,
        ),
        arm(1),
        TEST_CATEGORY,
    );
    let _ = drain_books(&mut a);

    a.emit(l3_batch(VENUE, add, 9_000_000), arm(2), TEST_CATEGORY);
    assert!(
        drain_books(&mut a).is_empty(),
        "a re-baseline must not reopen the resurrection path"
    );
}

#[test]
fn a_rebaseline_seeds_the_guard_with_its_own_orders() {
    const VENUE: &str = "BookRebaselineSeed";
    let mut a = racing(VENUE, &[arm(1), arm(2)]);
    let before = disagreements(&a, VENUE);
    a.emit(
        l3_batch(
            VENUE,
            vec![clear_both(), order(BookAction::Update, 9, 99.0, 5.0)],
            1_000,
        ),
        arm(1),
        TEST_CATEGORY,
    );
    let _ = drain_books(&mut a);

    a.emit(
        l3_batch(VENUE, vec![order(BookAction::Update, 9, 99.0, 8.0)], 1_100),
        arm(2),
        TEST_CATEGORY,
    );
    assert!(drain_books(&mut a).is_empty());
    assert_eq!(disagreements(&a, VENUE), before + 1);
}

#[test]
fn a_departed_publisher_does_not_suppress_a_peers_rebaseline() {
    const VENUE: &str = "BookDepartedPeer";
    let mut a = racing(VENUE, &[arm(1)]);
    a.emit(
        l3_batch(VENUE, vec![order(BookAction::Update, 1, 100.0, 1.0)], 1_000),
        arm(1),
        TEST_CATEGORY,
    );
    let _ = drain_books(&mut a);

    a.forget_publisher_books(VENUE, arm(1));
    a.emit(
        l3_batch(
            VENUE,
            vec![clear_both(), order(BookAction::Update, 7, 100.0, 6.0)],
            1_100,
        ),
        arm(2),
        TEST_CATEGORY,
    );
    assert_eq!(
        drain_books(&mut a).len(),
        1,
        "the departed arm's serving claim went with its receiver"
    );
}

#[test]
fn an_interleaved_race_is_not_a_disagreement() {
    const VENUE: &str = "BookRaceNotDrift";
    let mut a = racing(VENUE, &[arm(1), arm(2)]);
    let before = disagreements(&a, VENUE);
    a.emit(
        l3_batch(VENUE, vec![order(BookAction::Update, 7, 100.0, 6.0)], 1_000),
        arm(1),
        TEST_CATEGORY,
    );
    a.emit(
        l3_batch(VENUE, vec![order(BookAction::Update, 7, 100.0, 3.0)], 1_001),
        arm(2),
        TEST_CATEGORY,
    );
    assert_eq!(drain_books(&mut a).len(), 2);
    assert_eq!(disagreements(&a, VENUE), before);
}

#[test]
fn a_single_publisher_streams_unimpeded() {
    let mut a = racing(L3_VENUE, &[arm(1)]);
    for oid in 1..=5u64 {
        a.emit(
            l3_batch(
                L3_VENUE,
                vec![order(BookAction::Update, oid, 100.0, 1.0)],
                1_000 + oid,
            ),
            arm(1),
            TEST_CATEGORY,
        );
    }
    assert_eq!(drain_books(&mut a).len(), 5);
}

#[test]
fn a_late_copy_cannot_resurrect_a_deleted_order() {
    const VENUE: &str = "BookResurrection";
    let mut a = racing(VENUE, &[arm(1), arm(2)]);
    a.set_book_dedup_window(1_000);
    let add = vec![order(BookAction::Update, 7, 100.0, 6.0)];
    a.emit(l3_batch(VENUE, add.clone(), 1_000), arm(1), TEST_CATEGORY);
    a.emit(
        l3_batch(VENUE, vec![order(BookAction::Delete, 7, 100.0, 0.0)], 1_100),
        arm(1),
        TEST_CATEGORY,
    );
    let _ = drain_books(&mut a);

    a.emit(l3_batch(VENUE, add, 9_000_000), arm(2), TEST_CATEGORY);
    assert!(
        drain_books(&mut a).is_empty(),
        "a dead order must not be re-added"
    );
    assert_eq!(a.count(VENUE, What::BookResurrectionsDropped(1)), 1);
}

#[test]
fn a_repeated_removal_is_not_treated_as_a_resurrection() {
    const VENUE: &str = "BookRepeatDelete";
    let mut a = racing(VENUE, &[arm(1), arm(2)]);
    a.set_book_dedup_window(1_000);
    let gone = vec![order(BookAction::Delete, 7, 100.0, 0.0)];
    a.emit(
        l3_batch(VENUE, vec![order(BookAction::Update, 7, 100.0, 6.0)], 1_000),
        arm(1),
        TEST_CATEGORY,
    );
    a.emit(l3_batch(VENUE, gone.clone(), 1_100), arm(1), TEST_CATEGORY);
    let _ = drain_books(&mut a);
    a.emit(l3_batch(VENUE, gone, 9_000_000), arm(2), TEST_CATEGORY);
    assert_eq!(drain_books(&mut a).len(), 1);
}

#[test]
fn a_copy_past_the_window_re_emits_rather_than_corrupting() {
    let mut a = racing(L3_VENUE, &[arm(1), arm(2)]);
    a.set_book_dedup_window(1_000);
    let ev = vec![order(BookAction::Update, 7, 100.0, 6.0)];
    a.emit(l3_batch(L3_VENUE, ev.clone(), 1_000), arm(1), TEST_CATEGORY);
    a.emit(l3_batch(L3_VENUE, ev.clone(), 1_500), arm(2), TEST_CATEGORY);
    assert_eq!(drain_books(&mut a).len(), 1);
    a.emit(l3_batch(L3_VENUE, ev, 9_000), arm(2), TEST_CATEGORY);
    assert_eq!(drain_books(&mut a).len(), 1);
}

#[test]
fn a_rebaseline_is_suppressed_while_a_peer_is_serving() {
    let mut a = racing(L3_VENUE, &[arm(1)]);
    let key: MarketKey = mkey(L3_VENUE, BOOK_INSTRUMENT);
    a.set_book_synced(&key, arm(2), false);
    a.emit(
        l3_batch(
            L3_VENUE,
            vec![order(BookAction::Update, 1, 100.0, 1.0)],
            1_000,
        ),
        arm(1),
        TEST_CATEGORY,
    );
    let _ = drain_books(&mut a);

    a.emit(
        l3_batch(
            L3_VENUE,
            vec![clear_both(), order(BookAction::Update, 7, 100.0, 6.0)],
            1_100,
        ),
        arm(2),
        TEST_CATEGORY,
    );
    assert!(
        drain_books(&mut a).is_empty(),
        "arm 1 is serving this market"
    );
}

#[test]
fn a_claim_from_a_publisher_that_never_serves_does_not_suppress() {
    let mut a = racing(L3_VENUE, &[arm(1)]);
    let key: MarketKey = mkey(L3_VENUE, BOOK_INSTRUMENT);
    a.set_book_synced(&key, arm(2), true);
    let _ = drain_books(&mut a);

    a.emit(
        l3_batch(
            L3_VENUE,
            vec![clear_both(), order(BookAction::Update, 7, 100.0, 6.0)],
            1_000,
        ),
        arm(1),
        TEST_CATEGORY,
    );
    assert_eq!(drain_books(&mut a).len(), 1);
}

#[test]
fn an_evicted_market_still_routes_as_order_level() {
    const VENUE: &str = "BookEvictedRouting";
    let mut a = racing(VENUE, &[arm(1), arm(2)]);
    let key: MarketKey = mkey(VENUE, BOOK_INSTRUMENT);
    a.reset_book_for_market(&key);
    let _ = drain_books(&mut a);

    let ev = vec![order(BookAction::Update, 7, 100.0, 6.0)];
    a.emit(l3_batch(VENUE, ev.clone(), 1_000), arm(1), TEST_CATEGORY);
    a.emit(l3_batch(VENUE, ev, 1_100), arm(2), TEST_CATEGORY);
    assert_eq!(
        drain_books(&mut a).len(),
        1,
        "the peer's copy must still collapse, not be gated by arm election"
    );
}

#[test]
fn simultaneous_recoveries_produce_exactly_one_rebaseline() {
    let mut a = racing(L3_VENUE, &[]);
    let key: MarketKey = mkey(L3_VENUE, BOOK_INSTRUMENT);
    a.set_book_synced(&key, arm(1), false);
    a.set_book_synced(&key, arm(2), false);
    let _ = drain_books(&mut a);

    let rebaseline = vec![clear_both(), order(BookAction::Update, 7, 100.0, 6.0)];
    a.set_book_synced(&key, arm(1), true);
    a.emit(
        l3_batch(L3_VENUE, rebaseline.clone(), 1_000),
        arm(1),
        TEST_CATEGORY,
    );
    a.set_book_synced(&key, arm(2), true);
    a.emit(l3_batch(L3_VENUE, rebaseline, 1_001), arm(2), TEST_CATEGORY);
    assert_eq!(drain_books(&mut a).len(), 1);
}

#[test]
fn the_racing_window_is_bounded_by_event_count() {
    let mut a = racing(L3_VENUE, &[arm(1)]);
    for oid in 0..(MAX_SEEN_ORDER_EVENTS as u64 + 512) {
        a.emit(
            l3_batch(
                L3_VENUE,
                vec![order(BookAction::Update, oid + 1, 100.0, 1.0)],
                1_000,
            ),
            arm(1),
            TEST_CATEGORY,
        );
    }
    let _ = drain_books(&mut a);
    let key: MarketKey = mkey(L3_VENUE, BOOK_INSTRUMENT);
    let events = a.gate().events(&key).unwrap();
    assert!(events.seen_len() <= MAX_SEEN_ORDER_EVENTS);
    assert!(events.resting_len() <= MAX_SEEN_ORDER_EVENTS);
}

#[test]
fn eviction_drops_the_racing_state_too() {
    let mut a = racing(L3_VENUE, &[arm(1)]);
    for id in 0..(MAX_BOOK_MARKETS as u32 + 8) {
        let key: MarketKey = mkey(L3_VENUE, id);
        a.set_book_synced(&key, arm(1), true);
    }
    assert_eq!(a.gate().markets_len(), MAX_BOOK_MARKETS);
    assert!(a.gate().racing_len().0 <= MAX_BOOK_MARKETS);
    assert!(a.gate().racing_len().1 <= MAX_BOOK_MARKETS);
}
