//! The tape and the book gate.

use edge_ingest::arbiter::{Arbiter, TRADE_DEDUP_WINDOW};
use edge_ingest::authority::AuthorityConfig;
use edge_ingest::book_gate::{MAX_BOOK_MARKETS, MAX_WITHHELD_BATCHES};
use edge_ingest::effects::{Clock, Effects, Note, Transfer, What};
use edge_ingest::model::{
    Address, ArbitrationMode, BookAction, BookChange, BookSide, FeedMessage, MarketKey,
    NormalizedBook, NormalizedTrade, Publisher, ScopeKey, Side,
};
use edge_ingest::table::Table;
use edge_ingest::tape::NO_ID_TAPE_HANDOVER_NS;

/// The category that a test which is not about categories emits under.
const TEST_CATEGORY: &str = "testcategory";

/// The wall clock of every test.
const WALL_NS: u64 = 1_780_000_000_000_000_000;

/// A price or a size in fixed point.
fn fixed(x: f64) -> i128 {
    (x * 1e8).round() as i128 * 10_000_000_000
}

/// A price or a size out of fixed point.
fn value(x: i128) -> f64 {
    (x / 10_000_000_000) as f64 / 1e8
}

fn arm(n: u8) -> Publisher {
    Publisher::Edge(Address::V4(u32::from_be_bytes([10, 0, 0, n])))
}

/// An arbiter, with what it has sent and counted.
struct Wire {
    a: Arbiter,
    sent: Vec<FeedMessage>,
    notes: Vec<Note>,
    margin_transfers: usize,
    clock: Clock,
}

impl Wire {
    fn new(trade_window: usize) -> Wire {
        Wire {
            a: Arbiter::new(trade_window),
            sent: Vec::new(),
            notes: Vec::new(),
            margin_transfers: 0,
            clock: Clock {
                wall_ns: WALL_NS,
                mono_ns: 1_000_000_000_000,
            },
        }
    }

    fn take(&mut self, fx: Effects) {
        self.sent.extend(fx.sent);
        self.notes.extend(fx.notes);
    }

    fn emit(&mut self, msg: FeedMessage, p: Publisher, category: &str) {
        let fx = self.a.emit(msg, p, category, self.clock);
        self.take(fx);
    }

    fn set_book_synced(&mut self, key: &MarketKey, p: Publisher, synced: bool) {
        let fx = self.a.set_book_synced(key, p, synced);
        self.take(fx);
    }

    fn arm_ordinal(&mut self, scope: &ScopeKey, p: Publisher) -> &'static str {
        let (label, fx) = self.a.arm_ordinal(scope, p);
        self.take(fx);
        label
    }

    fn close_authority_windows(&mut self) {
        let report = self.a.close_authority_windows(WALL_NS);
        self.margin_transfers += report.moved.len();
    }

    /// What was sent since the last call.
    fn drain(&mut self) -> Vec<FeedMessage> {
        self.sent.drain(..).collect()
    }

    /// How often something was counted for a venue.
    fn count(&self, venue: &str, what: What) -> usize {
        self.notes
            .iter()
            .filter(|n| n.venue == venue && n.what == what)
            .count()
    }
}

impl std::ops::Deref for Wire {
    type Target = Arbiter;

    fn deref(&self) -> &Arbiter {
        &self.a
    }
}

impl std::ops::DerefMut for Wire {
    fn deref_mut(&mut self) -> &mut Arbiter {
        &mut self.a
    }
}

fn drain_trades(a: &mut Wire) -> usize {
    a.drain()
        .iter()
        .filter(|m| matches!(m, FeedMessage::Trade(_)))
        .count()
}

fn trade(trade_id: u64) -> NormalizedTrade {
    NormalizedTrade {
        venue: "KALSHI".into(),
        source: "KALSHI".into(),
        source_id: 0,
        symbol: "KXBTCPERP".into(),
        channel: 0,
        instrument_id: 0,
        category: "default".into(),
        price: fixed(0.62),
        size: fixed(100.0),
        aggressor_side: Side::Buy,
        trade_id,
        cumulative_volume: 0,
        source_ts_ns: 1_000,
        recv_ts_ns: 2_000,
        kernel_rx_ts_ns: 0,
        ws_send_ts_ns: 0,
    }
}

const BOOK_CHANNEL: u32 = 2;
const BOOK_INSTRUMENT: u32 = 41;

fn market(venue: &str, category: &str, channel: u32, instrument_id: u32) -> MarketKey {
    MarketKey {
        scope: ScopeKey {
            venue: venue.into(),
            category: category.into(),
        },
        channel,
        instrument_id,
    }
}

fn bscope(venue: &str) -> ScopeKey {
    ScopeKey {
        venue: venue.into(),
        category: TEST_CATEGORY.into(),
    }
}

fn bid(price: f64, size: f64) -> BookChange {
    BookChange {
        action: BookAction::Update,
        side: BookSide::Bid,
        price: fixed(price),
        size: fixed(size),
        order_id: 0,
    }
}

fn clear_both() -> BookChange {
    BookChange {
        action: BookAction::Clear,
        side: BookSide::Both,
        price: 0,
        size: 0,
        order_id: 0,
    }
}

fn drain_books(a: &mut Wire) -> Vec<NormalizedBook> {
    a.drain()
        .into_iter()
        .filter_map(|m| match m {
            FeedMessage::Book(b) => Some(b),
            _ => None,
        })
        .collect()
}

fn sticky_cfg() -> AuthorityConfig {
    AuthorityConfig {
        leader_timeout_ns: u64::MAX,
        sample_interval_ns: 1_000,
        transfer_margin_ns: 1_000,
        transfer_win_rate_ppm: 800_000,
        min_window_samples: 5,
    }
}

fn gated(venue: &str, cfg: AuthorityConfig) -> Wire {
    let mut a = Wire::new(TRADE_DEDUP_WINDOW);
    a.set_authority(cfg, 1_000_000_000);
    synced(&mut a, venue, BOOK_INSTRUMENT, arm(1), 1_000);
    synced(&mut a, venue, BOOK_INSTRUMENT, arm(2), 1_001);
    let _ = drain_books(&mut a);
    a
}

fn synced(a: &mut Wire, venue: &str, instrument_id: u32, publisher: Publisher, recv_ns: u64) {
    a.emit(
        book(venue, instrument_id, vec![clear_both()], true, recv_ns),
        publisher,
        TEST_CATEGORY,
    );
}

fn tape_print(a: &mut Wire, venue: &str, p: Publisher, id: u64, recv_ts_ns: u64) {
    let mut t = trade(id);
    t.venue = venue.into();
    t.recv_ts_ns = recv_ts_ns;
    a.emit(FeedMessage::Trade(t), p, TEST_CATEGORY);
}

fn mkey(venue: &str, instrument_id: u32) -> MarketKey {
    market(venue, TEST_CATEGORY, BOOK_CHANNEL, instrument_id)
}

fn book(
    venue: &str,
    instrument_id: u32,
    changes: Vec<BookChange>,
    last: bool,
    recv_ns: u64,
) -> FeedMessage {
    FeedMessage::Book(NormalizedBook {
        venue: venue.into(),
        source: venue.into(),
        source_id: 0,
        symbol: "KXBTCPERP".into(),
        channel: BOOK_CHANNEL,
        instrument_id,
        category: TEST_CATEGORY.into(),
        changes,
        snapshot: false,
        last,
        source_ts_ns: 1_000,
        recv_ts_ns: recv_ns,
        kernel_rx_ts_ns: 0,
        ws_send_ts_ns: 0,
    })
}

fn race_trades(a: &mut Wire, venue: &str, fast: Publisher, slow: Publisher, n: u64) {
    for i in 0..n {
        let mut t = trade(i + 1);
        t.venue = venue.into();
        t.price = fixed(0.60 + i as f64 / 1_000.0);
        t.recv_ts_ns = 10_000 + i * 1_000_000;
        let mut peer = t.clone();
        peer.recv_ts_ns = t.recv_ts_ns + 50_000;
        a.emit(FeedMessage::Trade(t), fast, TEST_CATEGORY);
        a.emit(FeedMessage::Trade(peer), slow, TEST_CATEGORY);
    }
}

#[test]
fn book_publishes_one_arm_only() {
    let mut a = gated("KALSHI", AuthorityConfig::default());
    for i in 0..5 {
        let px = 0.40 + i as f64 / 100.0;
        a.emit(
            book("KALSHI", BOOK_INSTRUMENT, vec![bid(px, 10.0)], true, 1_100),
            arm(1),
            TEST_CATEGORY,
        );
        a.emit(
            book("KALSHI", BOOK_INSTRUMENT, vec![bid(px, 99.0)], true, 1_101),
            arm(2),
            TEST_CATEGORY,
        );
    }
    let out = drain_books(&mut a);
    assert_eq!(out.len(), 5, "one arm's batches, not both interleaved");
    assert!(
        out.iter().all(|b| b.changes[0].size == fixed(10.0)),
        "every batch must come from the elected arm"
    );
}

#[test]
fn book_publishes_one_arm_in_coordinated_mode_too() {
    let mut a = gated("HYPERLIQUID", AuthorityConfig::default());
    a.set_mode("HYPERLIQUID", ArbitrationMode::Coordinated);
    for _ in 0..3 {
        for (p, size) in [(arm(1), 10.0), (arm(2), 99.0)] {
            a.emit(
                book(
                    "HYPERLIQUID",
                    BOOK_INSTRUMENT,
                    vec![bid(0.40, size)],
                    true,
                    1_100,
                ),
                p,
                TEST_CATEGORY,
            );
        }
    }
    let out = drain_books(&mut a);
    assert_eq!(out.len(), 3);
    assert!(out.iter().all(|b| b.changes[0].size == fixed(10.0)));
}

#[test]
fn book_authority_spans_the_universe_across_markets() {
    let venue = "BookVenueWide";
    let mut a = gated(venue, AuthorityConfig::default());
    for id in [42, 43] {
        a.emit(
            book(venue, id, vec![bid(0.40, 99.0)], true, 1_100),
            arm(2),
            TEST_CATEGORY,
        );
        assert!(
            drain_books(&mut a).is_empty(),
            "market {id}: a challenger must not take a market by getting there first"
        );
        a.emit(
            book(venue, id, vec![bid(0.40, 10.0)], true, 1_101),
            arm(1),
            TEST_CATEGORY,
        );
        let out = drain_books(&mut a);
        assert_eq!(out.len(), 2, "market {id}");
        assert_eq!(out[0].changes, vec![clear_both()]);
        assert_eq!(out[1].changes, vec![bid(0.40, 10.0)]);
    }
}

#[test]
fn book_replay_accumulates_the_authoritative_arm() {
    let venue = "BookReplayLeader";
    let mut a = Wire::new(TRADE_DEDUP_WINDOW);
    a.set_book_replay(Table::new());
    synced(&mut a, venue, BOOK_INSTRUMENT, arm(1), 1_000);
    a.emit(
        book(venue, BOOK_INSTRUMENT, vec![bid(0.40, 10.0)], true, 1_100),
        arm(1),
        TEST_CATEGORY,
    );
    a.emit(
        book(venue, BOOK_INSTRUMENT, vec![bid(0.40, 99.0)], true, 1_101),
        arm(2),
        TEST_CATEGORY,
    );
    let acc = a
        .book_replay()
        .unwrap()
        .get(&mkey(venue, BOOK_INSTRUMENT))
        .expect("the admitted market is in the replay map");
    let full = acc.to_book(&mkey(venue, BOOK_INSTRUMENT), WALL_NS);
    assert_eq!(
        full.changes[1..].to_vec(),
        vec![bid(0.40, 10.0)],
        "the loser's size must not reach the replay state"
    );
}

#[test]
fn book_never_routes_through_a_content_floor() {
    let venue = "BookNoFloor";
    let mut a = gated(venue, AuthorityConfig::default());
    for size in [100.0, 0.0, 100.0] {
        a.emit(
            book(venue, BOOK_INSTRUMENT, vec![bid(0.40, size)], true, 1_100),
            arm(1),
            TEST_CATEGORY,
        );
    }
    assert_eq!(
        drain_books(&mut a)
            .iter()
            .map(|b| value(b.changes[0].size))
            .collect::<Vec<_>>(),
        vec![100.0, 0.0, 100.0]
    );
}

#[test]
fn a_transfer_republishes_the_new_arms_whole_book() {
    let venue = "BookMarginTransfer";
    let mut a = gated(venue, sticky_cfg());

    a.emit(
        book(venue, BOOK_INSTRUMENT, vec![bid(0.40, 10.0)], true, 1_100),
        arm(1),
        TEST_CATEGORY,
    );
    a.emit(
        book(venue, BOOK_INSTRUMENT, vec![bid(0.40, 55.0)], true, 1_101),
        arm(2),
        TEST_CATEGORY,
    );
    assert_eq!(drain_books(&mut a).len(), 1);

    race_trades(&mut a, venue, arm(2), arm(1), 6);
    a.close_authority_windows();

    a.emit(
        book(venue, BOOK_INSTRUMENT, vec![bid(0.41, 11.0)], true, 2_000),
        arm(1),
        TEST_CATEGORY,
    );
    assert!(
        drain_books(&mut a).is_empty(),
        "the displaced arm is muted"
    );

    a.emit(
        book(venue, BOOK_INSTRUMENT, vec![bid(0.41, 66.0)], true, 2_100),
        arm(2),
        TEST_CATEGORY,
    );
    let out = drain_books(&mut a);
    assert_eq!(out.len(), 1, "one re-baseline, not a batch plus a clear");
    let re = &out[0];
    assert!(
        re.snapshot && re.last,
        "a re-baseline is one complete event"
    );
    assert_eq!(
        re.changes,
        vec![clear_both(), bid(0.41, 66.0), bid(0.40, 55.0)],
        "clear plus arm(2)'s whole book, best bid first"
    );
    assert_eq!(a.count(venue, What::ArmTransfer(Transfer::Initial)), 1);
    assert_eq!(a.margin_transfers, 1);
}

#[test]
fn a_health_override_also_rebaselines() {
    let venue = "BookHealthOverride";
    let key: MarketKey = mkey(venue, BOOK_INSTRUMENT);
    let mut a = gated(venue, AuthorityConfig::default());
    a.emit(
        book(venue, BOOK_INSTRUMENT, vec![bid(0.40, 10.0)], true, 1_100),
        arm(1),
        TEST_CATEGORY,
    );
    a.emit(
        book(venue, BOOK_INSTRUMENT, vec![bid(0.40, 55.0)], true, 1_101),
        arm(2),
        TEST_CATEGORY,
    );
    let _ = drain_books(&mut a);

    a.set_book_health(&key, arm(1), false);
    a.emit(
        book(venue, BOOK_INSTRUMENT, vec![bid(0.42, 66.0)], true, 1_200),
        arm(2),
        TEST_CATEGORY,
    );
    let out = drain_books(&mut a);
    assert_eq!(out.len(), 1);
    assert_eq!(
        out[0].changes,
        vec![clear_both(), bid(0.42, 66.0), bid(0.40, 55.0)]
    );
    assert_eq!(
        a.authority().venue_leader(&bscope(venue)),
        Some(arm(1)),
        "the venue is untouched"
    );
    assert_eq!(a.count(venue, What::ArmTransfer(Transfer::Health)), 1);
}

#[test]
fn a_rebaseline_waits_for_the_event_boundary() {
    let venue = "BookRebaselineBoundary";
    let key: MarketKey = mkey(venue, BOOK_INSTRUMENT);
    let mut a = gated(venue, AuthorityConfig::default());
    a.emit(
        book(venue, BOOK_INSTRUMENT, vec![bid(0.40, 10.0)], true, 1_100),
        arm(1),
        TEST_CATEGORY,
    );
    let _ = drain_books(&mut a);
    a.set_book_health(&key, arm(1), false);

    a.emit(
        book(venue, BOOK_INSTRUMENT, vec![bid(0.41, 20.0)], false, 1_200),
        arm(2),
        TEST_CATEGORY,
    );
    assert!(
        drain_books(&mut a).is_empty(),
        "nothing goes out mid-event"
    );
    a.emit(
        book(venue, BOOK_INSTRUMENT, vec![bid(0.42, 30.0)], true, 1_201),
        arm(2),
        TEST_CATEGORY,
    );
    let out = drain_books(&mut a);
    assert_eq!(out.len(), 1);
    assert_eq!(
        out[0].changes[1..].to_vec(),
        vec![bid(0.42, 30.0), bid(0.41, 20.0)],
        "the withheld batch is not lost, it lands in the re-baseline"
    );
}

#[test]
fn an_unterminated_event_does_not_withhold_forever() {
    let venue = "BookUnterminated";
    let key: MarketKey = mkey(venue, BOOK_INSTRUMENT);
    let mut a = gated(venue, AuthorityConfig::default());
    a.emit(
        book(venue, BOOK_INSTRUMENT, vec![bid(0.40, 10.0)], true, 1_100),
        arm(1),
        TEST_CATEGORY,
    );
    let _ = drain_books(&mut a);
    a.set_book_health(&key, arm(1), false);

    for i in 0..=MAX_WITHHELD_BATCHES {
        a.emit(
            book(
                venue,
                BOOK_INSTRUMENT,
                vec![bid(0.41, f64::from(i))],
                false,
                1_200,
            ),
            arm(2),
            TEST_CATEGORY,
        );
    }
    let out = drain_books(&mut a);
    assert!(!out.is_empty(), "the market must not be withheld forever");
    assert_eq!(
        out[0].changes[0].action,
        BookAction::Clear,
        "it re-baselines rather than resuming on the old arm's state"
    );
}

#[test]
fn a_mid_stream_arm_rebaselines_with_a_bare_clear() {
    let venue = "BookMidStreamArm";
    let key: MarketKey = mkey(venue, BOOK_INSTRUMENT);
    let mut a = Wire::new(TRADE_DEDUP_WINDOW);
    synced(&mut a, venue, BOOK_INSTRUMENT, arm(1), 1_000);
    a.emit(
        book(venue, BOOK_INSTRUMENT, vec![bid(0.40, 55.0)], true, 1_100),
        arm(2),
        TEST_CATEGORY,
    );
    let _ = drain_books(&mut a);

    a.set_book_health(&key, arm(1), false);
    a.emit(
        book(venue, BOOK_INSTRUMENT, vec![bid(0.41, 66.0)], true, 1_200),
        arm(2),
        TEST_CATEGORY,
    );
    let out = drain_books(&mut a);
    assert_eq!(
        out[0].changes,
        vec![clear_both()],
        "a bare clear, never arm(2)'s partial levels dressed as a snapshot"
    );
    assert_eq!(
        out[1].changes,
        vec![bid(0.41, 66.0)],
        "the batch then rebuilds onto the emptied book"
    );
}

#[test]
fn the_public_backstop_is_not_an_election_arm() {
    let venue = "BookPublicNotAnArm";
    let mut a = gated(venue, sticky_cfg());
    race_trades(&mut a, venue, Publisher::PublicWs, arm(1), 20);
    a.close_authority_windows();
    assert!(!a.authority().tracks_arm(&bscope(venue), Publisher::PublicWs));
    assert_eq!(a.authority().venue_leader(&bscope(venue)), Some(arm(1)));
}

#[test]
fn an_untracked_trade_publisher_never_becomes_an_arm() {
    let venue = "BookForgedTradeSource";
    let mut a = gated(venue, sticky_cfg());
    for n in 20..40u8 {
        let mut t = trade(u64::from(n));
        t.venue = venue.into();
        a.emit(FeedMessage::Trade(t), arm(n), TEST_CATEGORY);
    }
    a.close_authority_windows();
    for n in 20..40u8 {
        assert!(
            !a.authority().tracks_arm(&bscope(venue), arm(n)),
            "arm {n} was admitted"
        );
        assert_eq!(
            a.authority().arm_label(&bscope(venue), arm(n)),
            "other"
        );
    }
    assert_ne!(
        a.arm_ordinal(&bscope(venue), arm(3)),
        "other"
    );
}

#[test]
fn an_ineligible_arm_creates_no_book_state() {
    let venue = "BookIneligibleArm";
    let mut a = gated(venue, AuthorityConfig::default());
    for n in 3..=8 {
        a.arm_ordinal(&bscope(venue), arm(n));
    }
    let before = a.gate().markets_len();
    a.emit(
        book(venue, 777, vec![bid(0.40, 10.0)], true, 1_100),
        arm(200),
        TEST_CATEGORY,
    );
    assert_eq!(a.gate().markets_len(), before, "no market was tracked for it");
}

fn sticky_tape(venue: &str) -> Wire {
    let mut a = Wire::new(TRADE_DEDUP_WINDOW);
    a.set_mode(venue, ArbitrationMode::Sticky);
    a
}

#[test]
fn sticky_zero_id_prints_from_two_arms_collapse() {
    let venue = "TapeArmZeroId";
    let mut a = sticky_tape(venue);
    tape_print(&mut a, venue, arm(1), 0, 1_000);
    tape_print(&mut a, venue, arm(2), 0, 1_001);
    assert_eq!(drain_trades(&mut a), 1);
}

#[test]
fn sticky_distinct_ids_from_two_arms_collapse() {
    let venue = "TapeArmDistinctIds";
    let mut a = sticky_tape(venue);
    tape_print(&mut a, venue, arm(1), 501, 1_000);
    tape_print(&mut a, venue, arm(2), 902, 1_001);
    assert_eq!(drain_trades(&mut a), 1);
}

#[test]
fn a_silent_tape_arm_hands_over() {
    let venue = "TapeArmSilence";
    let mut a = sticky_tape(venue);
    tape_print(&mut a, venue, arm(1), 1, 1_000);
    tape_print(&mut a, venue, arm(2), 2, 1_000 + NO_ID_TAPE_HANDOVER_NS);
    assert_eq!(drain_trades(&mut a), 1);
    assert_eq!(a.count(venue, What::TapeArmTransfer), 0);

    tape_print(&mut a, venue, arm(2), 3, 1_001 + NO_ID_TAPE_HANDOVER_NS);
    tape_print(&mut a, venue, arm(2), 4, 1_002 + NO_ID_TAPE_HANDOVER_NS);
    assert_eq!(
        drain_trades(&mut a),
        2,
        "the challenger inherits and keeps it"
    );
    assert_eq!(a.count(venue, What::TapeArmTransfer), 1);
}

#[test]
fn the_tape_follows_the_book_election() {
    let venue = "TapeArmFollowsElection";
    let mut a = gated(venue, sticky_cfg());
    a.set_mode(venue, ArbitrationMode::Sticky);
    a.emit(
        book(venue, BOOK_INSTRUMENT, vec![bid(0.40, 10.0)], true, 1_100),
        arm(1),
        TEST_CATEGORY,
    );
    assert_eq!(a.authority().venue_leader(&bscope(venue)), Some(arm(1)));
    let _ = drain_books(&mut a);
    let _ = drain_trades(&mut a);

    tape_print(&mut a, venue, arm(2), 11, 2_000);
    tape_print(&mut a, venue, arm(1), 12, 2_001);
    tape_print(&mut a, venue, arm(2), 13, 2_002);
    assert_eq!(drain_trades(&mut a), 2);
}

#[test]
fn a_tracked_arm_displaces_an_untracked_incumbent() {
    let venue = "TapeArmDisplacesSquatter";
    let mut a = gated(venue, sticky_cfg());
    a.set_mode(venue, ArbitrationMode::Sticky);
    let squatter = arm(200);
    assert!(!a.authority().tracks_arm(&bscope(venue), squatter));
    assert!(a.authority().tracks_arm(&bscope(venue), arm(1)));

    tape_print(&mut a, venue, squatter, 1, 2_000);
    let _ = drain_trades(&mut a);
    for i in 0..3 {
        tape_print(&mut a, venue, arm(1), 10 + i, 2_001 + i);
        tape_print(&mut a, venue, squatter, 20 + i, 2_100 + i);
    }
    assert_eq!(drain_trades(&mut a), 3, "the real arm keeps the tape");
}

#[test]
fn a_straggler_from_the_elected_arm_does_not_reclaim_the_tape() {
    let venue = "TapeArmStraggler";
    let mut a = gated(venue, sticky_cfg());
    a.set_mode(venue, ArbitrationMode::Sticky);
    a.emit(
        book(venue, BOOK_INSTRUMENT, vec![bid(0.40, 10.0)], true, 1_100),
        arm(1),
        TEST_CATEGORY,
    );
    assert_eq!(a.authority().venue_leader(&bscope(venue)), Some(arm(1)));
    let _ = drain_books(&mut a);
    let _ = drain_trades(&mut a);

    tape_print(&mut a, venue, arm(1), 1, 2_000);
    let t0 = 2_001 + NO_ID_TAPE_HANDOVER_NS;
    tape_print(&mut a, venue, arm(2), 2, t0);
    let _ = drain_trades(&mut a);

    tape_print(&mut a, venue, arm(1), 3, t0 + 1);
    for i in 0..3 {
        tape_print(&mut a, venue, arm(2), 10 + i, t0 + 2 + i);
    }
    assert_eq!(drain_trades(&mut a), 3);
}

#[test]
fn a_gate_approved_handover_is_not_a_zero_id_conflict() {
    let venue = "TapeArmNoFalseConflict";
    let mut a = gated(venue, sticky_cfg());
    a.set_mode(venue, ArbitrationMode::Sticky);
    a.emit(
        book(venue, BOOK_INSTRUMENT, vec![bid(0.40, 10.0)], true, 1_100),
        arm(1),
        TEST_CATEGORY,
    );
    tape_print(&mut a, venue, arm(2), 0, 2_000);
    tape_print(&mut a, venue, arm(1), 0, 2_001);
    for i in 0..5 {
        tape_print(&mut a, venue, arm(1), 0, 2_002 + i);
    }
    assert_eq!(a.count(venue, What::TradeNoIdConflict), 0);
}

fn arbiter() -> Wire {
    sticky_tape("KALSHI")
}

fn tape_print_in(
    a: &mut Wire,
    venue: &str,
    category: &str,
    p: Publisher,
    id: u64,
    recv_ts_ns: u64,
) -> bool {
    let _ = a.drain();
    let mut t = trade(id);
    t.venue = venue.into();
    t.recv_ts_ns = recv_ts_ns;
    a.emit(FeedMessage::Trade(t), p, category);
    drain_trades(a) > 0
}

#[test]
fn an_arm_on_another_category_does_not_take_the_tape() {
    let mut a = arbiter();
    tape_print_in(&mut a, "KALSHI", "perps", arm(1), 1, 1_000);
    let admitted = tape_print_in(&mut a, "KALSHI", "sports", arm(2), 2, 1_001);
    assert!(
        admitted,
        "a sports print was dropped by the perps tape leader"
    );
    assert!(tape_print_in(&mut a, "KALSHI", "perps", arm(1), 3, 1_002));
}

#[test]
fn a_peer_arm_in_the_same_category_is_still_dropped() {
    let mut a = arbiter();
    assert!(tape_print_in(&mut a, "KALSHI", "perps", arm(1), 1, 1_000));
    assert!(!tape_print_in(&mut a, "KALSHI", "perps", arm(2), 2, 1_001));
}

#[test]
fn a_coordinated_venue_is_unaffected_by_the_arm_gate() {
    let venue = "TapeArmCoordinated";
    let mut a = Wire::new(TRADE_DEDUP_WINDOW);
    tape_print(&mut a, venue, arm(1), 501, 1_000);
    tape_print(&mut a, venue, arm(2), 902, 1_001);
    assert_eq!(drain_trades(&mut a), 2);
}

#[test]
fn book_dropped_is_attributed_to_the_losing_publisher() {
    let venue = "BookDroppedAttribution";
    let mut a = gated(venue, AuthorityConfig::default());
    let before = a.count(venue, What::BookDropped(arm(2)));
    for _ in 0..3 {
        a.emit(
            book(venue, BOOK_INSTRUMENT, vec![bid(0.40, 99.0)], true, 1_100),
            arm(2),
            TEST_CATEGORY,
        );
    }
    assert_eq!(a.count(venue, What::BookDropped(arm(2))), before + 3);
}

#[test]
fn book_markets_are_bounded() {
    let venue = "BookMarketCap";
    let mut a = Wire::new(TRADE_DEDUP_WINDOW);
    a.set_book_replay(Table::new());
    for id in 0..(MAX_BOOK_MARKETS as u32 + 64) {
        a.emit(
            book(venue, id, vec![bid(0.40, 10.0)], true, 1_000),
            arm(1),
            TEST_CATEGORY,
        );
    }
    assert_eq!(a.gate().markets_len(), MAX_BOOK_MARKETS);
    assert_eq!(a.gate().markets_len(), MAX_BOOK_MARKETS);
    assert_eq!(
        a.book_replay().unwrap().len(),
        MAX_BOOK_MARKETS,
        "the replay map inherits the same cap"
    );
    assert_eq!(
        a.authority().markets_held_all(),
        vec![(venue.to_string(), arm(1), MAX_BOOK_MARKETS)],
        "the authority's per-market map is evicted in step"
    );
}

#[test]
fn evicting_one_universes_market_spares_the_others_replay_entry() {
    let venue = "BookEvictionAcrossUniverses";
    let mut a = Wire::new(TRADE_DEDUP_WINDOW);
    a.set_book_replay(Table::new());

    let doomed: MarketKey = market(venue, "perps", BOOK_CHANNEL, BOOK_INSTRUMENT);
    let kept: MarketKey = market(venue, "sports", BOOK_CHANNEL, BOOK_INSTRUMENT);
    for category in ["perps", "sports"] {
        a.emit(
            book(venue, BOOK_INSTRUMENT, vec![clear_both()], true, 1_000),
            arm(1),
            category,
        );
        a.emit(
            book(venue, BOOK_INSTRUMENT, vec![bid(0.40, 10.0)], true, 1_001),
            arm(1),
            category,
        );
    }
    assert!(
        a.book_replay()
            .unwrap()
            .get(&kept)
            .is_some_and(|acc| acc.baselined()),
        "both universes start with a complete replay entry"
    );

    for id in 0..(MAX_BOOK_MARKETS as u32 - 1) {
        a.emit(
            book(venue, 1_000 + id, vec![bid(0.40, 10.0)], true, 1_100),
            arm(1),
            "perps",
        );
    }
    let guard = a.book_replay().unwrap();
    assert!(
        !guard.contains_key(&doomed),
        "the oldest market was evicted, replay entry included"
    );
    assert!(
        guard.get(&kept).is_some_and(|acc| acc.baselined()),
        "the peer universe's live, complete replay entry must survive that eviction"
    );
}

#[test]
fn an_evicted_market_is_unreachable_by_full_key() {
    let venue = "BookEvictionIndex";
    let mut a = Wire::new(TRADE_DEDUP_WINDOW);
    a.set_book_replay(Table::new());
    for id in 0..(MAX_BOOK_MARKETS as u32 + 1) {
        a.emit(
            book(venue, id, vec![bid(0.40, 10.0)], true, 1_000),
            arm(1),
            TEST_CATEGORY,
        );
    }
    let guard = a.book_replay().unwrap();
    assert_eq!(guard.len(), MAX_BOOK_MARKETS, "one market was evicted");
    assert!(
        guard.get(&mkey(venue, 0)).is_none(),
        "the evicted market must not still be reachable"
    );
    assert!(
        guard.get(&mkey(venue, MAX_BOOK_MARKETS as u32)).is_some(),
        "...while a live one still is"
    );
}

#[test]
fn an_evicted_market_rebaselines_rather_than_resuming() {
    let venue = "BookEvictionRebaseline";
    let key: MarketKey = mkey(venue, BOOK_INSTRUMENT);
    let mut a = gated(venue, AuthorityConfig::default());
    assert_eq!(a.authority().last_admitted(&key), Some(arm(1)));

    a.reset_book_for_market(&key);
    assert_eq!(a.authority().last_admitted(&key), None);

    let _ = a.drain();
    a.emit(
        book(venue, BOOK_INSTRUMENT, vec![bid(0.40, 10.0)], true, 1_100),
        arm(1),
        TEST_CATEGORY,
    );
    assert_eq!(
        drain_books(&mut a)[0].changes[0].action,
        BookAction::Clear,
        "a market with no served-arm record must be re-baselined"
    );
}

#[test]
fn forget_channel_books_drops_the_full_pairing_and_spares_untouched_peers() {
    let venue = "BookForgetChannel";
    let mut a = Wire::new(TRADE_DEDUP_WINDOW);
    a.set_book_replay(Table::new());

    const OTHER_CHANNEL: u32 = BOOK_CHANNEL + 1;
    let book_on_channel = |channel: u32, instrument_id: u32, changes: Vec<BookChange>| {
        FeedMessage::Book(NormalizedBook {
            venue: venue.into(),
            source: venue.into(),
            source_id: 0,
            symbol: "KXBTCPERP".into(),
            channel,
            instrument_id,
            category: TEST_CATEGORY.into(),
            changes,
            snapshot: false,
            last: true,
            source_ts_ns: 1_000,
            recv_ts_ns: 1_000,
            kernel_rx_ts_ns: 0,
            ws_send_ts_ns: 0,
        })
    };

    for id in [BOOK_INSTRUMENT, BOOK_INSTRUMENT + 1] {
        a.emit(
            book(venue, id, vec![clear_both()], true, 1_000),
            arm(1),
            "sports",
        );
        a.emit(
            book(venue, id, vec![bid(0.40, 10.0)], true, 1_001),
            arm(1),
            "sports",
        );
    }
    a.emit(
        book(venue, BOOK_INSTRUMENT, vec![clear_both()], true, 1_000),
        arm(1),
        "perps",
    );
    a.emit(
        book(venue, BOOK_INSTRUMENT, vec![bid(0.50, 5.0)], true, 1_001),
        arm(1),
        "perps",
    );
    a.emit(
        book_on_channel(OTHER_CHANNEL, BOOK_INSTRUMENT, vec![clear_both()]),
        arm(1),
        "sports",
    );
    a.emit(
        book_on_channel(OTHER_CHANNEL, BOOK_INSTRUMENT, vec![bid(0.60, 7.0)]),
        arm(1),
        "sports",
    );

    let doomed_a: MarketKey = market(venue, "sports", BOOK_CHANNEL, BOOK_INSTRUMENT);
    let doomed_b: MarketKey = market(venue, "sports", BOOK_CHANNEL, BOOK_INSTRUMENT + 1);
    let peer_category: MarketKey = market(venue, "perps", BOOK_CHANNEL, BOOK_INSTRUMENT);
    let peer_channel: MarketKey = market(venue, "sports", OTHER_CHANNEL, BOOK_INSTRUMENT);

    assert_eq!(
        a.authority().last_admitted(&doomed_a),
        Some(arm(1)),
        "fixture sanity"
    );
    assert_eq!(
        a.authority().last_admitted(&doomed_b),
        Some(arm(1)),
        "fixture sanity"
    );
    assert_eq!(
        a.authority().last_admitted(&peer_category),
        Some(arm(1)),
        "fixture sanity"
    );
    assert_eq!(
        a.authority().last_admitted(&peer_channel),
        Some(arm(1)),
        "fixture sanity"
    );
    assert_eq!(
        a.book_replay()
            .unwrap().len(),
        4,
        "fixture sanity: four distinct markets in the replay map"
    );

    let dropped = a.forget_channel_books(venue, "sports", BOOK_CHANNEL);
    assert_eq!(
        dropped, 2,
        "exactly the two sports instruments on that channel"
    );

    assert!(!a.gate().tracks(&doomed_a));
    assert!(!a.gate().tracks(&doomed_b));
    assert_eq!(
        a.authority().last_admitted(&doomed_a),
        None,
        "last_admitted must drop too"
    );
    assert_eq!(
        a.authority().last_admitted(&doomed_b),
        None,
        "last_admitted must drop too"
    );
    {
        let guard = a.book_replay().unwrap();
        assert!(!guard.contains_key(&doomed_a));
        assert!(!guard.contains_key(&doomed_b));
    }

    for (name, peer) in [
        ("peer_category", &peer_category),
        ("peer_channel", &peer_channel),
    ] {
        assert!(
            a.gate().tracks(peer),
            "{name} must survive in book_markets"
        );
        assert_eq!(
            a.authority().last_admitted(peer),
            Some(arm(1)),
            "{name}'s authority record must survive"
        );
        assert!(
            a.book_replay()
            .unwrap()
                .get(peer)
                .is_some_and(|acc| acc.baselined()),
            "{name}'s replay entry must survive, complete"
        );
    }

    assert_eq!(
        a.book_replay()
            .unwrap().len(),
        2,
        "the replay map must hold exactly the two surviving markets"
    );
}

fn book_ch(
    venue: &str,
    channel: u32,
    instrument_id: u32,
    changes: Vec<BookChange>,
) -> FeedMessage {
    FeedMessage::Book(NormalizedBook {
        venue: venue.into(),
        source: venue.into(),
        source_id: 0,
        symbol: "KXBTCPERP".into(),
        channel,
        instrument_id,
        category: TEST_CATEGORY.into(),
        changes,
        snapshot: false,
        last: true,
        source_ts_ns: 1_000,
        recv_ts_ns: 1_000,
        kernel_rx_ts_ns: 0,
        ws_send_ts_ns: 0,
    })
}

#[derive(Debug, PartialEq)]
struct BookLegs {
    order: Vec<MarketKey>,
    admitted: Vec<(MarketKey, Option<Publisher>)>,
    replay: Vec<(MarketKey, Option<bool>)>,
    replay_len: usize,
}

fn book_legs(a: &Wire, keys: &[MarketKey]) -> BookLegs {
    let replay = a.book_replay().unwrap();
    BookLegs {
        order: (0..a.gate().markets_len())
            .map(|i| a.gate().market_at(i).clone())
            .collect(),
        admitted: keys
            .iter()
            .map(|k| (k.clone(), a.authority().last_admitted(k)))
            .collect(),
        replay: keys
            .iter()
            .map(|k| (k.clone(), replay.get(k).map(|acc| acc.baselined())))
            .collect(),
        replay_len: replay.len(),
    }
}

fn seeded_books(venue: &str) -> (Wire, Vec<MarketKey>) {
    const OTHER_CHANNEL: u32 = BOOK_CHANNEL + 1;
    let mut a = Wire::new(TRADE_DEDUP_WINDOW);
    a.set_book_replay(Table::new());

    for (category, channel, id) in [
        ("sports", BOOK_CHANNEL, BOOK_INSTRUMENT),
        ("sports", BOOK_CHANNEL, BOOK_INSTRUMENT + 1),
        ("perps", BOOK_CHANNEL, BOOK_INSTRUMENT),
        ("sports", OTHER_CHANNEL, BOOK_INSTRUMENT),
    ] {
        a.emit(
            book_ch(venue, channel, id, vec![clear_both()]),
            arm(1),
            category,
        );
        a.emit(
            book_ch(venue, channel, id, vec![bid(0.40, 10.0)]),
            arm(1),
            category,
        );
    }

    let keys: Vec<MarketKey> = vec![
        market(venue, "sports", BOOK_CHANNEL, BOOK_INSTRUMENT),
        market(venue, "sports", BOOK_CHANNEL, BOOK_INSTRUMENT + 1),
        market(venue, "perps", BOOK_CHANNEL, BOOK_INSTRUMENT),
        market(venue, "sports", OTHER_CHANNEL, BOOK_INSTRUMENT),
    ];
    (a, keys)
}

#[test]
fn the_single_key_and_the_batch_reset_leave_identical_state() {
    let venue = "BookResetPathAgreement";
    let (mut single, keys) = seeded_books(venue);
    let (mut batch, _) = seeded_books(venue);
    let doomed = keys[0].clone();

    assert_eq!(
        book_legs(&single, &keys),
        book_legs(&batch, &keys),
        "the two seeds must start identical"
    );
    assert!(single.gate().tracks(&doomed));
    assert_eq!(single.authority().last_admitted(&doomed), Some(arm(1)));
    assert!(single.book_replay().unwrap().contains_key(&doomed));

    single.reset_book_for_market(&doomed);
    batch.reset_books_for_markets(&vec![doomed.clone()]);

    let after_single = book_legs(&single, &keys);
    let after_batch = book_legs(&batch, &keys);
    assert_eq!(
        after_single, after_batch,
        "the single-key reset and the batch reset must leave identical state on all three legs"
    );

    assert_eq!(
        after_single.order.len(),
        3,
        "exactly one market dropped, three survive"
    );
    assert!(!after_single.order.contains(&doomed));
    assert_eq!(
        after_single.admitted,
        keys.iter()
            .map(|k| (k.clone(), (k != &doomed).then_some(arm(1))))
            .collect::<Vec<_>>(),
        "only the doomed market's last_admitted may drop"
    );
    assert_eq!(
        after_single.replay,
        keys.iter()
            .map(|k| (k.clone(), (k != &doomed).then_some(true)))
            .collect::<Vec<_>>(),
        "only the doomed market's replay entry may drop, and the peers stay baselined"
    );
    assert_eq!(
        after_single.replay_len, 3,
        "the replay map must drop exactly the doomed market's key"
    );
}

#[test]
fn book_health_reaches_the_authority_before_the_first_batch() {
    let venue = "BookHealthEarly";
    let mut a = gated(venue, AuthorityConfig::default());
    let fresh: MarketKey = mkey(venue, 999);
    a.set_book_health(&fresh, arm(1), false);
    a.emit(
        book(venue, 999, vec![bid(0.40, 10.0)], true, 1_100),
        arm(1),
        TEST_CATEGORY,
    );
    assert!(
        drain_books(&mut a).is_empty(),
        "an arm known gapped here must not serve this market"
    );
}

#[test]
fn matched_trades_feed_the_election() {
    let venue = "BookMatchedTrades";
    let mut a = gated(venue, sticky_cfg());
    race_trades(&mut a, venue, arm(2), arm(1), 6);
    a.close_authority_windows();
    assert_eq!(a.authority().venue_leader(&bscope(venue)), Some(arm(2)));
}

#[test]
fn the_zero_id_tape_still_feeds_the_matcher() {
    let venue = "BookZeroIdMatcher";
    let mut a = gated(venue, sticky_cfg());
    for i in 0..6u64 {
        let mut t = trade(0);
        t.venue = venue.into();
        t.price = fixed(0.60 + i as f64 / 1_000.0);
        t.recv_ts_ns = 10_000 + i * 1_000_000;
        let mut peer = t.clone();
        peer.recv_ts_ns = t.recv_ts_ns + 50_000;
        a.emit(FeedMessage::Trade(t), arm(2), TEST_CATEGORY);
        a.emit(FeedMessage::Trade(peer), arm(1), TEST_CATEGORY);
    }
    a.close_authority_windows();
    assert_eq!(
        a.authority().venue_leader(&bscope(venue)),
        Some(arm(2)),
        "the zero-id tape must still be matched"
    );
}

#[test]
fn closing_the_windows_reports_what_moved_and_who_serves() {
    let venue = "BookWindowReport";
    let mut a = gated(venue, sticky_cfg());
    race_trades(&mut a, venue, arm(2), arm(1), 6);
    let report = a.a.close_authority_windows(WALL_NS);
    assert_eq!(report.moved, vec![(bscope(venue), arm(2))]);
    let mut held: Vec<(Publisher, usize, &str)> = report
        .held
        .iter()
        .zip(&report.held_labels)
        .map(|((v, p, n), label)| {
            assert_eq!(v, venue);
            (*p, *n, *label)
        })
        .collect();
    held.sort_by_key(|h| h.2);
    assert_eq!(held.len(), 2);
    assert_eq!((held[0].0, held[0].2), (arm(1), "arm0"));
    assert_eq!((held[1].0, held[1].2), (arm(2), "arm1"));
    assert!(report.unmatched.is_empty(), "every print found its peer");
    let again = a.a.close_authority_windows(WALL_NS + 1_000_000);
    assert!(again.moved.is_empty(), "the evidence is spent");
}

#[test]
fn a_new_arm_is_reported_once_by_its_ordinal() {
    let venue = "BookArmRegistered";
    let mut a = gated(venue, AuthorityConfig::default());
    let seen = |a: &Wire, ordinal: usize, n: u8| {
        a.count(
            venue,
            What::ArmRegistered {
                ordinal,
                publisher: arm(n),
            },
        )
    };
    for _ in 0..3 {
        synced(&mut a, venue, BOOK_INSTRUMENT, arm(1), 2_000);
    }
    assert_eq!((seen(&a, 0, 1), seen(&a, 1, 2)), (1, 1));
    let key = mkey(venue, BOOK_INSTRUMENT);
    a.set_book_synced(&key, arm(3), true);
    a.set_book_synced(&key, arm(3), false);
    assert_eq!(seen(&a, 2, 3), 1);
    for _ in 0..2 {
        let fx = a.a.set_book_health(&key, arm(4), true);
        a.take(fx);
    }
    assert_eq!(seen(&a, 3, 4), 1);
    for n in 5..=12 {
        synced(&mut a, venue, BOOK_INSTRUMENT, arm(n), 2_000);
    }
    let all = a
        .notes
        .iter()
        .filter(|n| n.venue == venue && matches!(n.what, What::ArmRegistered { .. }))
        .count();
    assert_eq!(all, 8, "none past the cap");
}
