//! Racing arms by their matched trades.

use edge_ingest::arm_race::{ArmRace, Match, MAX_PENDING};
use edge_ingest::authority::{AuthorityConfig, StickyAuthority};
use edge_ingest::model::{Address, MarketKey, Publisher, ScopeKey};

fn arm(n: u8) -> Publisher {
    Publisher::Edge(Address::V4(u32::from_be_bytes([10, 0, 0, n])))
}

fn scope(venue: &str) -> ScopeKey {
    ScopeKey {
        venue: venue.into(),
        category: "default".into(),
    }
}


fn venue() -> ScopeKey {
    scope("Lashay")
}

fn race() -> (ArmRace<u32>, ScopeKey) {
    (ArmRace::<u32>::new(1_000_000_000), venue())
}

fn trade(r: &mut ArmRace<u32>, v: &ScopeKey, a: Publisher, recv_ns: u64) -> Option<Match> {
    r.on_trade(v, &41, 6_200, 150, 1, a, recv_ns)
}

#[test]
fn the_second_arm_to_deliver_completes_the_match() {
    let (mut r, v) = race();
    assert_eq!(
        trade(&mut r, &v, arm(1), 1_000),
        None,
        "nothing to pair yet"
    );
    assert_eq!(
        trade(&mut r, &v, arm(2), 11_000),
        Some(Match {
            scope: v.clone(),
            first: arm(1),
            second: arm(2),
            delta_ns: 10_000,
        })
    );
    assert_eq!(r.pending_len(), 0, "a matched pair leaves nothing behind");
}

#[test]
fn lead_for_is_negative_when_the_challenger_led() {
    let m = Match {
        scope: venue(),
        first: arm(2),
        second: arm(1),
        delta_ns: 10_000,
    };
    assert_eq!(m.lead_for(arm(1)), Some((arm(2), -10_000)));
    assert_eq!(m.lead_for(arm(2)), Some((arm(1), 10_000)));
    assert_eq!(m.lead_for(arm(3)), None);
}

#[test]
fn a_faster_challenger_actually_wins_the_election() {
    let (mut r, v) = race();
    let cfg = AuthorityConfig {
        leader_timeout_ns: u64::MAX,
        sample_interval_ns: 1_000,
        transfer_margin_ns: 1_000,
        transfer_win_rate_ppm: 800_000,
        min_window_samples: 5,
    };
    let mut auth = StickyAuthority::new(cfg);
    let key = MarketKey {
        scope: v.clone(),
        channel: 2,
        instrument_id: 41,
    };
    auth.offer(&key, arm(1), 1);

    for i in 0..10u64 {
        let t = 1_000_000 * i;
        assert_eq!(
            r.on_trade(&v, &41, 6_200 + i128::from(i), 150, 1, arm(2), t),
            None
        );
        let m = r
            .on_trade(&v, &41, 6_200 + i128::from(i), 150, 1, arm(1), t + 10_000)
            .expect("the pair matches");
        let leader = auth.venue_leader(&v).unwrap();
        let (challenger, lead) = m.lead_for(leader).expect("leader is in the pair");
        auth.observe_matched_lead(&v, challenger, lead);
    }
    assert_eq!(
        auth.close_window(20_000_000),
        vec![(v.clone(), arm(2))],
        "the faster arm must take authority"
    );
}

#[test]
fn identical_repeated_trades_pair_in_order() {
    let (mut r, v) = race();
    trade(&mut r, &v, arm(1), 1_000);
    trade(&mut r, &v, arm(1), 2_000);
    assert_eq!(
        r.pending_len(),
        2,
        "a same-arm repeat queues, never self-matches"
    );

    let first = trade(&mut r, &v, arm(2), 3_000).expect("pairs the oldest");
    assert_eq!(first.delta_ns, 2_000, "3_000 - 1_000");
    let second = trade(&mut r, &v, arm(2), 4_000).expect("pairs the next");
    assert_eq!(second.delta_ns, 2_000, "4_000 - 2_000");
    assert_eq!(r.pending_len(), 0);
}

#[test]
fn an_unmatched_trade_is_evicted_and_attributed() {
    let (mut r, v) = race();
    trade(&mut r, &v, arm(1), 1_000);
    assert_eq!(
        r.evict_stale(500_000_000),
        vec![],
        "still inside the window"
    );
    assert_eq!(r.pending_len(), 1);
    assert_eq!(r.evict_stale(1_000_000_001 + 1_000), vec![(arm(1), 1)]);
    assert_eq!(r.pending_len(), 0);
}

#[test]
fn a_copy_past_the_window_does_not_match() {
    let (mut r, v) = race();
    trade(&mut r, &v, arm(1), 1_000);
    assert_eq!(trade(&mut r, &v, arm(2), 2_000_000_000), None);
    assert_eq!(r.pending_len(), 1, "only the late copy is now waiting");
}

#[test]
fn distinct_trades_do_not_match() {
    let v = venue();
    for (id, px, qty, aggr) in [
        (42u32, 6_200i128, 150i128, 1u8),
        (41, 6_201, 150, 1),
        (41, 6_200, 151, 1),
        (41, 6_200, 150, 2),
    ] {
        let mut r = ArmRace::<u32>::new(1_000_000_000);
        r.on_trade(&v, &41, 6_200, 150, 1, arm(1), 1_000);
        assert_eq!(
            r.on_trade(&v, &id, px, qty, aggr, arm(2), 2_000),
            None,
            "id={id} px={px} qty={qty} aggr={aggr} must not pair"
        );
    }
}

#[test]
fn venues_do_not_cross_match() {
    let mut r = ArmRace::<u32>::new(1_000_000_000);
    let (a, b) = (scope("Lashay"), scope("Other"));
    r.on_trade(&a, &41, 6_200, 150, 1, arm(1), 1_000);
    assert_eq!(r.on_trade(&b, &41, 6_200, 150, 1, arm(2), 2_000), None);
}

#[test]
fn pending_arrivals_are_bounded() {
    let mut r = ArmRace::<u32>::new(u64::MAX);
    let v = venue();
    for i in 0..(MAX_PENDING as i128 + 500) {
        r.on_trade(&v, &41, i, 150, 1, arm(1), 1_000);
    }
    assert_eq!(r.pending_len(), MAX_PENDING);
    assert!(
        r.signatures_len() <= MAX_PENDING,
        "the signature map must be bounded too, got {}",
        r.signatures_len()
    );
}

#[test]
fn the_order_index_stays_consistent_with_the_queues() {
    let mut r = ArmRace::<u32>::new(1_000_000_000);
    let v = venue();
    for i in 0..50i128 {
        r.on_trade(&v, &41, i, 150, 1, arm(1), 1_000 + i as u64);
    }
    for i in 0..25i128 {
        assert!(r.on_trade(&v, &41, i, 150, 1, arm(2), 5_000).is_some());
    }
    assert_eq!(r.pending_len(), 25);
    assert_eq!(r.signatures_len(), 25, "order index and queues agree");
    r.evict_stale(u64::MAX / 2);
    assert_eq!(r.pending_len(), 0);
    assert_eq!(r.signatures_len(), 0, "no empty queues left behind");
}
