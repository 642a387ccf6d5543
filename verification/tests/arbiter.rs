//! The arbiter: quotes, trades, depth and definitions.

use edge_ingest::arbiter::{Arbiter, INSTRUMENT_REANNOUNCE_NS, TRADE_DEDUP_WINDOW};
use edge_ingest::effects::{Clock, Effects, Note, What};
use edge_ingest::identity::{DepthId, QuoteId};
use edge_ingest::model::{
    pub_idx, Address, FeedMessage, Listing, MarketKey, NormalizedDepth, NormalizedInstrument,
    NormalizedQuote, NormalizedTrade, Publisher, Side,
};
use edge_ingest::table::Table;
use edge_ingest::tape::NO_ID_TAPE_HANDOVER_NS;

/// The category that a test which is not about categories emits under.
const TEST_CATEGORY: &str = "testcategory";

/// The wall clock of every test.
const WALL_NS: u64 = 1_780_000_000_000_000_000;

/// A price or a size in fixed point.
fn fixed(x: f64) -> i128 {
    (x * 1e18).round() as i128
}

/// A price or a size out of fixed point.
fn value(x: i128) -> f64 {
    ((x + 5_000_000_000) / 10_000_000_000) as f64 / 1e8
}

fn arm(n: u8) -> Publisher {
    Publisher::Edge(Address::V4(u32::from_be_bytes([10, 0, 0, n])))
}

/// An arbiter, with what it has sent and counted.
struct Wire {
    a: Arbiter,
    sent: Vec<FeedMessage>,
    notes: Vec<Note>,
    margin_transfers: usize,
    clock: Clock,
}

impl Wire {
    fn new(trade_window: usize) -> Wire {
        Wire {
            a: Arbiter::new(trade_window),
            sent: Vec::new(),
            notes: Vec::new(),
            margin_transfers: 0,
            clock: Clock {
                wall_ns: WALL_NS,
                mono_ns: 1_000_000_000_000,
            },
        }
    }

    fn take(&mut self, fx: Effects) {
        self.sent.extend(fx.sent);
        self.notes.extend(fx.notes);
    }

    fn emit(&mut self, msg: FeedMessage, p: Publisher, category: &str) {
        let fx = self.a.emit(msg, p, category, self.clock);
        self.take(fx);
    }

    fn set_book_synced(&mut self, key: &MarketKey, p: Publisher, synced: bool) {
        let fx = self.a.set_book_synced(key, p, synced);
        self.take(fx);
    }

    fn close_authority_windows(&mut self) {
        let report = self.a.close_authority_windows(WALL_NS);
        self.margin_transfers += report.moved.len();
    }

    /// What was sent since the last call.
    fn drain(&mut self) -> Vec<FeedMessage> {
        self.sent.drain(..).collect()
    }

    /// How often something was counted for a venue.
    fn count(&self, venue: &str, what: What) -> usize {
        self.notes
            .iter()
            .filter(|n| n.venue == venue && n.what == what)
            .count()
    }
}

impl std::ops::Deref for Wire {
    type Target = Arbiter;

    fn deref(&self) -> &Arbiter {
        &self.a
    }
}

impl std::ops::DerefMut for Wire {
    fn deref_mut(&mut self) -> &mut Arbiter {
        &mut self.a
    }
}

fn drain_trades(a: &mut Wire) -> usize {
    a.drain()
        .iter()
        .filter(|m| matches!(m, FeedMessage::Trade(_)))
        .count()
}

fn trade(trade_id: u64) -> NormalizedTrade {
    NormalizedTrade {
        venue: "KALSHI".into(),
        source: "KALSHI".into(),
        source_id: 0,
        symbol: "KXBTCPERP".into(),
        channel: 0,
        instrument_id: 0,
        category: "default".into(),
        price: fixed(0.62),
        size: fixed(100.0),
        aggressor_side: Side::Buy,
        trade_id,
        cumulative_volume: 0,
        source_ts_ns: 1_000,
        recv_ts_ns: 2_000,
        kernel_rx_ts_ns: 0,
        ws_send_ts_ns: 0,
    }
}

fn quote(source_ts_ns: u64, bid: f64, ask: f64) -> NormalizedQuote {
    NormalizedQuote {
        venue: "HYPERLIQUID".into(),
        source: "HYPERLIQUID".into(),
        source_id: 0,
        symbol: "BTC".into(),
        bid: fixed(bid),
        ask: fixed(ask),
        bid_size: fixed(1.0),
        ask_size: fixed(2.0),
        bid_n: 0,
        ask_n: 0,
        source_ts_ns,
        recv_ts_ns: 0,
        kernel_rx_ts_ns: 0,
        ws_send_ts_ns: 0,
    }
}

fn drain_quotes(a: &mut Wire) -> Vec<(u64, f64)> {
    a.drain()
        .iter()
        .filter_map(|m| match m {
            FeedMessage::Quote(q) => Some((q.source_ts_ns, value(q.bid))),
            _ => None,
        })
        .collect()
}

fn drain_trade_ids(a: &mut Wire) -> Vec<u64> {
    a.drain()
        .iter()
        .filter_map(|m| match m {
            FeedMessage::Trade(t) => Some(t.trade_id),
            _ => None,
        })
        .collect()
}

#[test]
fn arbiter_emit_drops_same_source_exact_repeat() {
    let edge = arm(1);
    let mut a = Wire::new(8);
    a.emit(
        FeedMessage::Quote(quote(1000, 100.0, 101.0)),
        edge,
        TEST_CATEGORY,
    );
    a.emit(
        FeedMessage::Quote(quote(1000, 100.0, 101.0)),
        edge,
        TEST_CATEGORY,
    );
    a.emit(
        FeedMessage::Quote(quote(1000, 100.5, 101.0)),
        edge,
        TEST_CATEGORY,
    );
    assert_eq!(drain_quotes(&mut a), vec![(1000, 100.0), (1000, 100.5)]);
}

#[test]
fn arbiter_public_loses_to_edge_then_fills_gap() {
    let edge = arm(1);
    let mut a = Wire::new(8);
    a.emit(
        FeedMessage::Quote(quote(1000, 100.0, 101.0)),
        edge,
        TEST_CATEGORY,
    );
    a.emit(
        FeedMessage::Quote(quote(1000, 100.0, 101.0)),
        Publisher::PublicWs,
        TEST_CATEGORY,
    );
    a.emit(
        FeedMessage::Quote(quote(1001, 100.2, 101.2)),
        Publisher::PublicWs,
        TEST_CATEGORY,
    );
    assert_eq!(drain_quotes(&mut a), vec![(1000, 100.0), (1001, 100.2)]);
}

#[test]
fn arbiter_trade_dedup_across_sources() {
    let edge = arm(1);
    let trade = |id: u64| {
        FeedMessage::Trade(NormalizedTrade {
            venue: "HYPERLIQUID".into(),
            source: "HYPERLIQUID".into(),
            source_id: 0,
            symbol: "BTC".into(),
            channel: 0,
            instrument_id: 0,
            category: "default".into(),
            price: fixed(100.0),
            size: fixed(1.0),
            aggressor_side: Side::Buy,
            trade_id: id,
            cumulative_volume: 0,
            source_ts_ns: 1,
            recv_ts_ns: 0,
            kernel_rx_ts_ns: 0,
            ws_send_ts_ns: 0,
        })
    };
    let mut a = Wire::new(8);
    a.emit(trade(7), edge, TEST_CATEGORY);
    a.emit(trade(7), Publisher::PublicWs, TEST_CATEGORY);
    a.emit(trade(8), Publisher::PublicWs, TEST_CATEGORY);
    assert_eq!(drain_trade_ids(&mut a), vec![7, 8]);
}

#[test]
fn zero_trade_id_bypasses_the_window() {
    let mut a = Wire::new(TRADE_DEDUP_WINDOW);
    let p = arm(1);
    for _ in 0..5 {
        a.emit(FeedMessage::Trade(trade(0)), p, TEST_CATEGORY);
    }
    let mut seen = 0;
    seen += a.drain().len();
    assert_eq!(seen, 5, "every zero-id print must be emitted");
}

#[test]
fn second_publisher_zero_id_tape_is_reported_as_a_conflict() {
    let venue = "NoIdTapeConflict";
    let t = |p| {
        let mut tr = trade(0);
        tr.venue = venue.into();
        (FeedMessage::Trade(tr), p)
    };
    let a1 = arm(1);
    let a2 = arm(2);

    let mut a = Wire::new(TRADE_DEDUP_WINDOW);
    let (m, p) = t(a1);
    a.emit(m, p, TEST_CATEGORY);
    let (m, p) = t(a1);
    a.emit(m, p, TEST_CATEGORY);
    assert_eq!(a.count(venue, What::TradeNoIdConflict), 0);

    let (m, p) = t(a2);
    a.emit(m, p, TEST_CATEGORY);
    assert_eq!(
        a.count(venue, What::TradeNoIdConflict),
        1,
        "second publisher's tape must be reported"
    );

    let mut seen = 0;
    seen += a.drain().len();
    assert_eq!(
        seen, 3,
        "a conflicting print is still forwarded, not dropped"
    );
}

#[test]
fn a_quiet_zero_id_tape_hands_over_without_a_conflict() {
    let venue = "NoIdTapeHandover";
    let t = |p, recv_ts_ns| {
        let mut tr = trade(0);
        tr.venue = venue.into();
        tr.recv_ts_ns = recv_ts_ns;
        (FeedMessage::Trade(tr), p)
    };
    let a1 = arm(1);
    let a2 = arm(2);

    let mut a = Wire::new(TRADE_DEDUP_WINDOW);
    let (m, p) = t(a1, 1_000);
    a.emit(m, p, TEST_CATEGORY);

    let (m, p) = t(a2, 1_000 + NO_ID_TAPE_HANDOVER_NS);
    a.emit(m, p, TEST_CATEGORY);
    assert_eq!(a.count(venue, What::TradeNoIdConflict), 1, "not yet past the window");

    let (m, p) = t(a2, 1_001 + NO_ID_TAPE_HANDOVER_NS);
    a.emit(m, p, TEST_CATEGORY);
    assert_eq!(a.count(venue, What::TradeNoIdConflict), 1, "a quiet tape hands over");

    let (m, p) = t(a2, 1_002 + NO_ID_TAPE_HANDOVER_NS);
    a.emit(m, p, TEST_CATEGORY);
    assert_eq!(
        a.count(venue, What::TradeNoIdConflict),
        1,
        "the new owner's prints are not a conflict"
    );

    let (m, p) = t(a1, 1_003 + NO_ID_TAPE_HANDOVER_NS);
    a.emit(m, p, TEST_CATEGORY);
    assert_eq!(a.count(venue, What::TradeNoIdConflict), 2, "two live emitters still conflict");
}

#[test]
fn nonzero_trade_id_still_dedupes() {
    let mut a = Wire::new(TRADE_DEDUP_WINDOW);
    let p = arm(1);
    for _ in 0..5 {
        a.emit(FeedMessage::Trade(trade(77)), p, TEST_CATEGORY);
    }
    let mut seen = 0;
    seen += a.drain().len();
    assert_eq!(seen, 1, "a repeated id is still a duplicate");
}

#[test]
fn duplicate_quote_packet_from_same_source_emitted_once() {
    let edge = arm(1);
    let mut a = Wire::new(8);
    a.emit(
        FeedMessage::Quote(quote(1000, 100.0, 101.0)),
        edge,
        TEST_CATEGORY,
    );
    a.emit(
        FeedMessage::Quote(quote(1000, 100.0, 101.0)),
        edge,
        TEST_CATEGORY,
    );
    assert_eq!(drain_quotes(&mut a), vec![(1000, 100.0)]);
}

#[test]
fn duplicate_quote_from_two_multicast_publishers_emitted_once() {
    let pub_a = arm(1);
    let pub_b = arm(2);
    let mut a = Wire::new(8);
    a.emit(
        FeedMessage::Quote(quote(1000, 100.0, 101.0)),
        pub_a,
        TEST_CATEGORY,
    );
    a.emit(
        FeedMessage::Quote(quote(1000, 100.0, 101.0)),
        pub_b,
        TEST_CATEGORY,
    );
    assert_eq!(drain_quotes(&mut a), vec![(1000, 100.0)]);
}

#[test]
fn duplicate_trade_packet_from_same_source_emitted_once() {
    let edge = arm(1);
    let trade = || {
        FeedMessage::Trade(NormalizedTrade {
            venue: "HYPERLIQUID".into(),
            source: "HYPERLIQUID".into(),
            source_id: 0,
            symbol: "BTC".into(),
            channel: 0,
            instrument_id: 0,
            category: "default".into(),
            price: fixed(100.0),
            size: fixed(1.0),
            aggressor_side: Side::Buy,
            trade_id: 42,
            cumulative_volume: 0,
            source_ts_ns: 1,
            recv_ts_ns: 0,
            kernel_rx_ts_ns: 0,
            ws_send_ts_ns: 0,
        })
    };
    let mut a = Wire::new(8);
    a.emit(trade(), edge, TEST_CATEGORY);
    a.emit(trade(), edge, TEST_CATEGORY);
    assert_eq!(drain_trade_ids(&mut a), vec![42]);
}

#[test]
fn arbiter_future_timestamp_does_not_wedge_the_floor() {
    let edge = arm(1);
    let mut a = Wire::new(8);
    let now = WALL_NS;
    let bogus_future = now + 3_600_000_000_000;
    a.emit(
        FeedMessage::Quote(quote(bogus_future, 1.0, 2.0)),
        Publisher::PublicWs,
        TEST_CATEGORY,
    );
    a.emit(
        FeedMessage::Quote(quote(now, 100.0, 101.0)),
        edge,
        TEST_CATEGORY,
    );
    assert_eq!(drain_quotes(&mut a), vec![(now, 100.0)]);
}

#[test]
fn arbiter_zero_source_ts_bypasses_floor() {
    let edge = arm(1);
    let mut a = Wire::new(8);
    a.emit(
        FeedMessage::Quote(quote(0, 100.0, 101.0)),
        edge,
        TEST_CATEGORY,
    );
    a.emit(
        FeedMessage::Quote(quote(0, 100.5, 101.0)),
        Publisher::PublicWs,
        TEST_CATEGORY,
    );
    a.emit(
        FeedMessage::Quote(quote(1000, 100.0, 101.0)),
        edge,
        TEST_CATEGORY,
    );
    assert_eq!(
        drain_quotes(&mut a),
        vec![(0, 100.0), (0, 100.5), (1000, 100.0)]
    );
}

#[test]
fn quote_id_canonicalizes_equivalent_float_encodings() {
    let edge_px = 6788_f64 * 10f64.powi(-1);
    let parsed_px = 678.8_f64;
    let a = QuoteId::of(&quote(1000, edge_px, 999.0));
    let b = QuoteId::of(&quote(1000, parsed_px, 999.0));
    assert_eq!(
        a, b,
        "same economic price must share one canonical identity"
    );
    assert_ne!(a, QuoteId::of(&quote(1000, 678.9, 999.0)));
}

/// The leads counted for a venue, by the classes of the winner and the loser.
fn leads(a: &Wire, venue: &str, winner_class: &str, loser_class: &str) -> Vec<u64> {
    a.notes
        .iter()
        .filter(|n| n.venue == venue)
        .filter_map(|n| match n.what {
            What::QuoteLead { winner, loser, lead_ns }
            | What::TradeLead { winner, loser, lead_ns }
            | What::DepthLead { winner, loser, lead_ns }
                if winner.label() == winner_class && loser.label() == loser_class =>
            {
                Some(lead_ns)
            }
            _ => None,
        })
        .collect()
}

fn listing(venue: &str, symbol: &str) -> Listing {
    Listing {
        venue: venue.into(),
        symbol: symbol.into(),
    }
}

#[test]
fn arbiter_emit_records_quote_contest_into_lead_histogram() {
    let venue = "ArbiterQuoteContestMetricTest";
    let edge = arm(1);
    let mk = |source_ts: u64, recv: u64, bid: f64| {
        let mut q = quote(source_ts, bid, 101.0);
        q.venue = venue.into();
        q.recv_ts_ns = recv;
        FeedMessage::Quote(q)
    };
    let mut a = Wire::new(8);
    a.emit(mk(1000, 100, 100.0), edge, TEST_CATEGORY);
    a.emit(mk(1000, 150, 100.5), Publisher::PublicWs, TEST_CATEGORY);

    assert_eq!(
        leads(&a, venue, "edge", "public"),
        vec![50],
        "the contest must reach the edge-vs-public histogram, with the arrival delta"
    );
    assert_eq!(
        a.count(venue, What::QuoteDropped),
        1,
        "the losing copy must also count as a drop"
    );
    assert_eq!(leads(&a, venue, "edge", "edge"), vec![]);
}

#[test]
fn arbiter_emit_separates_edge_mirror_race_from_public_margin() {
    let venue = "ArbiterMirrorRaceMetricTest";
    let mirror_a = arm(1);
    let mirror_b = arm(2);
    let mk = |recv: u64, bid: f64| {
        let mut q = quote(1000, bid, 101.0);
        q.venue = venue.into();
        q.recv_ts_ns = recv;
        FeedMessage::Quote(q)
    };
    let mut a = Wire::new(8);
    a.emit(mk(100, 100.0), mirror_a, TEST_CATEGORY);
    a.emit(mk(120, 100.0), mirror_b, TEST_CATEGORY);

    assert_eq!(leads(&a, venue, "edge", "edge"), vec![20]);
    assert_eq!(leads(&a, venue, "edge", "public"), vec![]);
}

#[test]
fn arbiter_emit_records_trade_contest_into_lead_histogram() {
    let venue = "ArbiterTradeContestMetricTest";
    let edge = arm(1);
    let print = |recv: u64| {
        let mut t = trade(7);
        t.venue = venue.into();
        t.source = venue.into();
        t.symbol = "BTC".into();
        t.price = fixed(100.0);
        t.size = fixed(1.0);
        t.source_ts_ns = 1;
        t.recv_ts_ns = recv;
        FeedMessage::Trade(t)
    };
    let mut a = Wire::new(8);
    a.emit(print(100), edge, TEST_CATEGORY);
    a.emit(print(175), Publisher::PublicWs, TEST_CATEGORY);

    assert_eq!(leads(&a, venue, "edge", "public"), vec![75]);
    assert_eq!(a.count(venue, What::TradeDropped), 1);
}

fn depth(source_ts_ns: u64, bids: Vec<[f64; 2]>, asks: Vec<[f64; 2]>) -> NormalizedDepth {
    let levels = |side: Vec<[f64; 2]>| side.iter().map(|l| (fixed(l[0]), fixed(l[1]))).collect();
    NormalizedDepth {
        venue: "HYPERLIQUID".into(),
        source: "HYPERLIQUID".into(),
        source_id: 0,
        symbol: "BTC".into(),
        bids: levels(bids),
        asks: levels(asks),
        source_ts_ns,
        recv_ts_ns: 0,
        kernel_rx_ts_ns: 0,
        ws_send_ts_ns: 0,
    }
}

fn sent_depths(a: &mut Wire) -> Vec<NormalizedDepth> {
    a.drain()
        .into_iter()
        .filter_map(|m| match m {
            FeedMessage::Depth(d) => Some(d),
            _ => None,
        })
        .collect()
}

fn drain_depths(a: &mut Wire) -> Vec<(u64, f64)> {
    sent_depths(a)
        .iter()
        .map(|d| (d.source_ts_ns, d.bids.first().map(|l| value(l.0)).unwrap_or(0.0)))
        .collect()
}

#[test]
fn arbiter_depth_empty_anchor_at_zero_collapses() {
    let pub_a = arm(1);
    let pub_b = arm(2);
    let mut a = Wire::new(8);
    a.emit(
        FeedMessage::Depth(depth(0, vec![], vec![])),
        pub_a,
        TEST_CATEGORY,
    );
    a.emit(
        FeedMessage::Depth(depth(0, vec![], vec![])),
        pub_b,
        TEST_CATEGORY,
    );
    a.emit(
        FeedMessage::Depth(depth(1000, vec![[100.0, 1.0]], vec![])),
        pub_b,
        TEST_CATEGORY,
    );
    assert_eq!(drain_depths(&mut a), vec![(0, 0.0), (1000, 100.0)]);
}

#[test]
fn arbiter_depth_latches_to_leader_within_tick() {
    let pub_a = arm(1);
    let pub_b = arm(2);
    let mut a = Wire::new(8);
    a.emit(
        FeedMessage::Depth(depth(1000, vec![[100.0, 1.0]], vec![])),
        pub_a,
        TEST_CATEGORY,
    );
    a.emit(
        FeedMessage::Depth(depth(1000, vec![[100.0, 1.0]], vec![])),
        pub_b,
        TEST_CATEGORY,
    );
    a.emit(
        FeedMessage::Depth(depth(1000, vec![[99.0, 1.0]], vec![])),
        pub_b,
        TEST_CATEGORY,
    );
    a.emit(
        FeedMessage::Depth(depth(1000, vec![[101.0, 1.0]], vec![])),
        pub_a,
        TEST_CATEGORY,
    );
    a.emit(
        FeedMessage::Depth(depth(1001, vec![[102.0, 1.0]], vec![])),
        pub_b,
        TEST_CATEGORY,
    );
    assert_eq!(
        drain_depths(&mut a),
        vec![(1000, 100.0), (1000, 101.0), (1001, 102.0)]
    );
}

#[test]
fn arbiter_depth_stale_tick_dropped() {
    let pub_a = arm(1);
    let pub_b = arm(2);
    let mut a = Wire::new(8);
    a.emit(
        FeedMessage::Depth(depth(2000, vec![[100.0, 1.0]], vec![])),
        pub_a,
        TEST_CATEGORY,
    );
    a.emit(
        FeedMessage::Depth(depth(1999, vec![[99.0, 1.0]], vec![])),
        pub_b,
        TEST_CATEGORY,
    );
    assert_eq!(drain_depths(&mut a), vec![(2000, 100.0)]);
}

#[test]
fn arbiter_depth_future_timestamp_does_not_wedge_the_floor() {
    let edge = arm(1);
    let mut a = Wire::new(8);
    let now = WALL_NS;
    a.emit(
        FeedMessage::Depth(depth(now + 3_600_000_000_000, vec![[1.0, 1.0]], vec![])),
        edge,
        TEST_CATEGORY,
    );
    a.emit(
        FeedMessage::Depth(depth(now, vec![[100.0, 1.0]], vec![])),
        edge,
        TEST_CATEGORY,
    );
    assert_eq!(drain_depths(&mut a), vec![(now, 100.0)]);
}

#[test]
fn arbiter_emit_records_depth_contest_into_lead_histogram() {
    let venue = "ArbiterDepthContestMetricTest";
    let pub_a = arm(1);
    let pub_b = arm(2);
    let mk = |recv: u64, bid: f64| {
        let mut d = depth(1000, vec![[bid, 1.0]], vec![]);
        d.venue = venue.into();
        d.recv_ts_ns = recv;
        FeedMessage::Depth(d)
    };
    let mut a = Wire::new(8);
    a.emit(mk(200, 100.0), pub_a, TEST_CATEGORY);
    a.emit(mk(290, 100.5), pub_b, TEST_CATEGORY);

    assert_eq!(leads(&a, venue, "edge", "edge"), vec![90]);
    assert_eq!(a.count(venue, What::DepthDropped(pub_b)), 1);
}

#[test]
fn arbiter_depth_replay_records_leader_not_dropped_nonleader() {
    let pub_a = arm(1);
    let pub_b = arm(2);
    let mut a = Wire::new(8);
    a.set_depth_replay(Table::new());
    a.emit(
        FeedMessage::Depth(depth(1000, vec![[100.0, 1.0]], vec![])),
        pub_a,
        TEST_CATEGORY,
    );
    a.emit(
        FeedMessage::Depth(depth(1000, vec![[99.0, 2.0]], vec![])),
        pub_b,
        TEST_CATEGORY,
    );
    let entry = a
        .depth_replay()
        .unwrap()
        .get(&listing("HYPERLIQUID", "BTC"))
        .expect("leader depth recorded in replay map");
    assert_eq!(
        entry.bids,
        vec![(fixed(100.0), fixed(1.0))],
        "replay map must hold the leader's book, not the dropped non-leader's"
    );
}

#[test]
fn arbiter_depth_floor_reset_purges_replay_entries() {
    let edge = arm(1);
    let mk = |venue: &str, symbol: &str| {
        let mut d = depth(1000, vec![[100.0, 1.0]], vec![]);
        d.venue = venue.into();
        d.symbol = symbol.into();
        FeedMessage::Depth(d)
    };
    let mut a = Wire::new(8);
    a.set_depth_replay(Table::new());
    a.emit(mk("VenueA", "BTC"), edge, TEST_CATEGORY);
    a.emit(mk("VenueA", "ETH"), edge, TEST_CATEGORY);
    a.emit(mk("VenueB", "BTC"), edge, TEST_CATEGORY);
    assert_eq!(a.depth_replay().unwrap().len(), 3);

    a.reset_depth_floor_for_symbol("VenueA", "BTC");
    {
        let map = a.depth_replay().unwrap();
        assert!(!map.contains_key(&listing("VenueA", "BTC")), "reset key purged");
        assert!(
            map.contains_key(&listing("VenueA", "ETH")),
            "sibling symbol kept"
        );
        assert!(map.contains_key(&listing("VenueB", "BTC")), "other venue kept");
    }

    a.reset_depth_floor_for_venue("VenueA");
    {
        let map = a.depth_replay().unwrap();
        assert!(
            !map.contains_key(&listing("VenueA", "ETH")),
            "venue's entries purged"
        );
        assert!(map.contains_key(&listing("VenueB", "BTC")), "other venue kept");
    }
}

#[test]
fn arbiter_depth_session_reset_readmits_lower_tick() {
    let venue = "ArbiterDepthSessionResetTest";
    let edge = arm(1);
    let mk = |ts: u64, bid: f64| {
        let mut d = depth(ts, vec![[bid, 1.0]], vec![]);
        d.venue = venue.into();
        FeedMessage::Depth(d)
    };
    let mut a = Wire::new(8);
    a.emit(mk(5000, 100.0), edge, TEST_CATEGORY);
    a.emit(mk(100, 99.0), edge, TEST_CATEGORY);
    let cleared = a.reset_depth_floor_for_venue(venue);
    a.emit(mk(100, 99.0), edge, TEST_CATEGORY);
    let ts: Vec<u64> = sent_depths(&mut a).iter().map(|d| d.source_ts_ns).collect();
    assert_eq!(ts, vec![5000, 100]);
    assert_eq!(
        cleared,
        1,
        "one latched entry was cleared"
    );
}

#[test]
fn arbiter_depth_session_reset_is_venue_scoped() {
    let edge = arm(1);
    let mk = |venue: &str, ts: u64| {
        let mut d = depth(ts, vec![[100.0, 1.0]], vec![]);
        d.venue = venue.into();
        FeedMessage::Depth(d)
    };
    let mut a = Wire::new(8);
    a.emit(mk("VenueA", 5000), edge, TEST_CATEGORY);
    a.emit(mk("VenueB", 5000), edge, TEST_CATEGORY);
    a.reset_depth_floor_for_venue("VenueA");
    a.emit(mk("VenueA", 100), edge, TEST_CATEGORY);
    a.emit(mk("VenueB", 100), edge, TEST_CATEGORY);
    let seen: Vec<(String, u64)> = sent_depths(&mut a)
        .iter()
        .map(|d| (d.venue.to_string(), d.source_ts_ns))
        .collect();
    assert_eq!(
        seen,
        vec![
            ("VenueA".to_string(), 5000),
            ("VenueB".to_string(), 5000),
            ("VenueA".to_string(), 100),
        ]
    );
}

#[test]
fn arbiter_depth_symbol_reset_clears_only_that_symbol() {
    let edge = arm(1);
    let mk = |symbol: &str, ts: u64| {
        let mut d = depth(ts, vec![[100.0, 1.0]], vec![]);
        d.symbol = symbol.into();
        FeedMessage::Depth(d)
    };
    let mut a = Wire::new(8);
    a.emit(mk("BTC", 5000), edge, TEST_CATEGORY);
    a.emit(mk("ETH", 5000), edge, TEST_CATEGORY);
    a.reset_depth_floor_for_symbol("HYPERLIQUID", "BTC");
    a.emit(mk("BTC", 100), edge, TEST_CATEGORY);
    a.emit(mk("ETH", 100), edge, TEST_CATEGORY);
    let seen: Vec<(String, u64)> = sent_depths(&mut a)
        .iter()
        .map(|d| (d.symbol.to_string(), d.source_ts_ns))
        .collect();
    assert_eq!(
        seen,
        vec![
            ("BTC".to_string(), 5000),
            ("ETH".to_string(), 5000),
            ("BTC".to_string(), 100),
        ]
    );
}

#[test]
fn depth_id_distinguishes_quantities_beyond_i64_saturation() {
    let a = DepthId::of(&depth(1000, vec![[100.0, 1.0e11]], vec![]));
    let b = DepthId::of(&depth(1000, vec![[100.0, 2.0e11]], vec![]));
    assert_ne!(a, b, "distinct huge quantities must not collapse");
    assert_eq!(a, DepthId::of(&depth(1000, vec![[100.0, 1.0e11]], vec![])));
}

#[test]
fn quote_id_distinguishes_sizes_beyond_i64_saturation() {
    let mut qa = quote(1000, 100.0, 101.0);
    qa.bid_size = fixed(1.0e11);
    let mut qb = qa.clone();
    qb.bid_size = fixed(2.0e11);
    assert_ne!(QuoteId::of(&qa), QuoteId::of(&qb));
}

fn quote_at(venue: &str, source_ts_ns: u64, bid: f64) -> NormalizedQuote {
    NormalizedQuote {
        venue: venue.into(),
        ..quote(source_ts_ns, bid, bid + 1.0)
    }
}

#[test]
fn quote_tick_wins_count_once_per_tick_by_class() {
    let venue = "TickWonQuotes";
    let edge_a = arm(1);
    let edge_b = arm(2);
    let mut a = Wire::new(8);
    a.emit(
        FeedMessage::Quote(quote_at(venue, 1000, 100.0)),
        edge_a,
        TEST_CATEGORY,
    );
    a.emit(
        FeedMessage::Quote(quote_at(venue, 1000, 100.5)),
        edge_a,
        TEST_CATEGORY,
    );
    a.emit(
        FeedMessage::Quote(quote_at(venue, 1000, 100.0)),
        edge_b,
        TEST_CATEGORY,
    );
    a.emit(
        FeedMessage::Quote(quote_at(venue, 1000, 100.0)),
        Publisher::PublicWs,
        TEST_CATEGORY,
    );
    a.emit(
        FeedMessage::Quote(quote_at(venue, 2000, 101.0)),
        Publisher::PublicWs,
        TEST_CATEGORY,
    );
    a.emit(
        FeedMessage::Quote(quote_at(venue, 3000, 102.0)),
        edge_a,
        TEST_CATEGORY,
    );
    a.emit(
        FeedMessage::Quote(quote_at(venue, 0, 99.0)),
        edge_a,
        TEST_CATEGORY,
    );
    let won = |p: Publisher| a.count(venue, What::QuoteTickWon(p));
    assert_eq!(won(edge_a) + won(edge_b), 2);
    assert_eq!(won(Publisher::PublicWs), 1);
}

#[test]
fn depth_tick_wins_count_once_per_tick_by_class() {
    let venue = "TickWonDepth";
    let depth_at = |source_ts_ns: u64, bids: Vec<[f64; 2]>| NormalizedDepth {
        venue: venue.into(),
        ..depth(source_ts_ns, bids, vec![])
    };
    let edge_a = arm(1);
    let edge_b = arm(2);
    let mut a = Wire::new(8);
    a.emit(
        FeedMessage::Depth(depth_at(0, vec![])),
        edge_a,
        TEST_CATEGORY,
    );
    a.emit(
        FeedMessage::Depth(depth_at(0, vec![])),
        edge_b,
        TEST_CATEGORY,
    );
    a.emit(
        FeedMessage::Depth(depth_at(1000, vec![[100.0, 1.0]])),
        edge_b,
        TEST_CATEGORY,
    );
    a.emit(
        FeedMessage::Depth(depth_at(2000, vec![[100.0, 2.0]])),
        Publisher::PublicWs,
        TEST_CATEGORY,
    );
    let won = |p: Publisher| a.count(venue, What::DepthTickWon(p));
    assert_eq!(won(edge_a) + won(edge_b), 2);
    assert_eq!(won(Publisher::PublicWs), 1);
}

#[test]
fn lead_histogram_offset_maps_to_expected_label_pair() {
    let expected = [
        ("edge", "edge"),
        ("edge", "public"),
        ("public", "edge"),
        ("public", "public"),
    ];
    let edge = arm(1);
    let public = Publisher::PublicWs;
    let label = |p: Publisher| match p {
        Publisher::Edge(_) => "edge",
        Publisher::PublicWs => "public",
    };
    for winner in [edge, public] {
        for loser in [edge, public] {
            let idx = pub_idx(winner) * 2 + pub_idx(loser);
            assert_eq!(
                expected[idx],
                (label(winner), label(loser)),
                "offset {idx} mislabels winner={:?} loser={:?}",
                label(winner),
                label(loser),
            );
        }
    }
}

fn instrument(
    instrument_id: u32,
    symbol: &str,
    price_exponent: i8,
    qty_exponent: i8,
) -> FeedMessage {
    FeedMessage::Instrument(NormalizedInstrument {
        venue: "HYPERLIQUID".into(),
        source: "HYPERLIQUID".into(),
        source_id: 0,
        symbol: symbol.into(),
        channel: 0,
        instrument_id,
        category: "default".into(),
        price_exponent,
        qty_exponent,
    })
}

fn drain_instruments(a: &mut Wire) -> Vec<(String, i8, i8)> {
    a.drain()
        .iter()
        .filter_map(|m| match m {
            FeedMessage::Instrument(i) => {
                Some((i.symbol.to_string(), i.price_exponent, i.qty_exponent))
            }
            _ => None,
        })
        .collect()
}

#[test]
fn arbiter_collapses_duplicate_instrument_definitions() {
    let edge = arm(1);
    let peer = arm(2);
    let mut a = Wire::new(8);
    a.emit(instrument(1, "BTC", -2, -4), edge, TEST_CATEGORY);
    a.emit(instrument(1, "BTC", -2, -4), edge, TEST_CATEGORY);
    a.emit(instrument(1, "BTC", -2, -4), peer, TEST_CATEGORY);
    a.emit(instrument(2, "ETH", -2, -4), edge, TEST_CATEGORY);
    a.emit(instrument(1, "BTC", -3, -4), peer, TEST_CATEGORY);
    a.emit(instrument(1, "BTC", -3, -4), edge, TEST_CATEGORY);
    assert_eq!(
        drain_instruments(&mut a),
        vec![
            ("BTC".to_string(), -2, -4),
            ("ETH".to_string(), -2, -4),
            ("BTC".to_string(), -3, -4),
        ]
    );
}

#[test]
fn arbiter_reannounces_unchanged_instrument_after_the_interval() {
    let edge = arm(1);
    let mut a = Wire::new(8);
    a.emit(instrument(1, "BTC", -2, -4), edge, TEST_CATEGORY);
    a.emit(instrument(1, "BTC", -2, -4), edge, TEST_CATEGORY);
    assert_eq!(drain_instruments(&mut a).len(), 1);

    a.clock.mono_ns += INSTRUMENT_REANNOUNCE_NS;
    a.clock.wall_ns += INSTRUMENT_REANNOUNCE_NS;
    a.emit(instrument(1, "BTC", -2, -4), edge, TEST_CATEGORY);
    assert_eq!(
        drain_instruments(&mut a),
        vec![("BTC".to_string(), -2, -4)],
        "unchanged content must be re-announced once the interval elapses"
    );
    a.emit(instrument(1, "BTC", -2, -4), edge, TEST_CATEGORY);
    assert!(drain_instruments(&mut a).is_empty());
}

#[test]
fn a_quote_never_leaves_twice_at_a_tick() {
    let mut a = Wire::new(TRADE_DEDUP_WINDOW);
    for round in 0..2 {
        for i in 0..5 {
            for p in [arm(1), arm(2)] {
                let q = quote(1_000, 100.0 + i as f64, 200.0);
                a.emit(FeedMessage::Quote(q), p, TEST_CATEGORY);
            }
        }
        assert_eq!(a.sent.len(), 5, "round {round}");
    }
    a.emit(FeedMessage::Quote(quote(999, 1.0, 2.0)), arm(1), TEST_CATEGORY);
    assert_eq!(a.sent.len(), 5, "nothing leaves out of order");
}

#[test]
fn values_nearer_than_half_a_canonical_unit_are_one() {
    let mut near = quote(1_000, 100.0, 101.0);
    let far = NormalizedQuote {
        bid: near.bid + 5_000_000_000,
        ..near.clone()
    };
    let base = QuoteId::of(&near);
    near.bid += 4_999_999_999;
    assert_eq!(QuoteId::of(&near), base);
    assert_ne!(QuoteId::of(&far), base);
}
