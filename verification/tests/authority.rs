//! The sticky authority.

use edge_ingest::authority::{
    AuthorityConfig, StickyAuthority, MAX_LABELLED_ARMS, MAX_TRACKED_MARKETS,
};
use edge_ingest::floor::Admit;
use edge_ingest::model::{Address, MarketKey, Publisher, ScopeKey};

fn arm(n: u8) -> Publisher {
    Publisher::Edge(Address::V4(u32::from_be_bytes([10, 0, 0, n])))
}

fn scope_of(venue: &str) -> ScopeKey {
    ScopeKey {
        venue: venue.into(),
        category: "default".into(),
    }
}

fn scope() -> ScopeKey {
    scope_of(VENUE)
}

fn market(instrument_id: u32) -> MarketKey {
    MarketKey {
        scope: scope(),
        channel: 2,
        instrument_id,
    }
}


const VENUE: &str = "Lashay";
const TIMEOUT: u64 = 2_000_000_000;

fn key() -> MarketKey {
    market(41)
}

fn other_market() -> MarketKey {
    market(42)
}

fn no_window_cfg() -> AuthorityConfig {
    AuthorityConfig {
        leader_timeout_ns: TIMEOUT,
        sample_interval_ns: u64::MAX,
        transfer_margin_ns: 1_000,
        transfer_win_rate_ppm: 800_000,
        min_window_samples: 5,
    }
}

fn cfg() -> AuthorityConfig {
    AuthorityConfig {
        sample_interval_ns: 1_000_000,
        ..no_window_cfg()
    }
}

#[test]
fn tracked_markets_are_bounded() {
    let mut a = StickyAuthority::new(no_window_cfg());
    let flood = MAX_TRACKED_MARKETS + 50;
    for id in 0..flood {
        a.set_health(&market(id as u32), arm(1), false);
    }
    assert!(
        a.markets_len() <= MAX_TRACKED_MARKETS,
        "market map must stay bounded, got {}",
        a.markets_len()
    );
    assert!(
        a.tracks_market(&market((flood - 1) as u32)),
        "newest retained"
    );
    assert!(
        !a.tracks_market(&market(0)),
        "oldest evicted"
    );
}

#[test]
fn an_ineligible_arm_reports_no_health() {
    let mut a = StickyAuthority::new(no_window_cfg());
    for n in 0..MAX_LABELLED_ARMS as u8 {
        assert_ne!(a.arm_ordinal(&scope(), arm(n)), "other");
    }
    let ineligible = arm(MAX_LABELLED_ARMS as u8);
    a.set_health(&key(), ineligible, false);
    assert!(
        a.markets_len() == 0,
        "an ineligible arm mints no market state"
    );
    assert!(
        a.healthy(&key(), ineligible),
        "and is reported healthy by absence, since it can never serve anyway"
    );
}

#[test]
fn first_arm_takes_authority() {
    let mut a = StickyAuthority::new(no_window_cfg());
    assert_eq!(
        a.offer(&key(), arm(1), 1_000),
        Admit::Emitted { opened_tick: true }
    );
    assert_eq!(a.venue_leader(&scope()), Some(arm(1)));
}

#[test]
fn leader_keeps_emitting_without_reopening() {
    let mut a = StickyAuthority::new(no_window_cfg());
    a.offer(&key(), arm(1), 1_000);
    assert_eq!(
        a.offer(&key(), arm(1), 2_000),
        Admit::Emitted { opened_tick: false }
    );
}

#[test]
fn the_non_authoritative_arm_is_dropped() {
    let mut a = StickyAuthority::new(no_window_cfg());
    a.offer(&key(), arm(1), 1_000);
    assert_eq!(a.offer(&key(), arm(2), 1_400), Admit::Dropped);
    assert_eq!(a.offer(&key(), arm(2), 1_500), Admit::Dropped);
}

#[test]
fn authority_is_venue_wide_not_per_market() {
    let mut a = StickyAuthority::new(no_window_cfg());
    a.offer(&key(), arm(1), 1_000);
    assert_eq!(a.offer(&other_market(), arm(2), 1_100), Admit::Dropped);
    assert!(a.offer(&other_market(), arm(1), 1_200).emitted());
}

#[test]
fn silent_leader_times_out() {
    let mut a = StickyAuthority::new(no_window_cfg());
    a.offer(&key(), arm(1), 1_000);
    assert!(
        !a.offer(&key(), arm(2), 1_000 + TIMEOUT).emitted(),
        "not yet past"
    );
    assert!(a.offer(&key(), arm(2), 1_001 + TIMEOUT).emitted());
    assert_eq!(a.venue_leader(&scope()), Some(arm(2)));
}

#[test]
fn an_idle_market_does_not_flap_while_the_leader_is_busy_elsewhere() {
    let mut a = StickyAuthority::new(no_window_cfg());
    let idle = other_market();
    a.offer(&key(), arm(1), 1_000);
    let mut transfers = 0;
    for i in 1..=10u64 {
        let t = 1_000 + i * 3_600_000_000_000;
        a.offer(&key(), arm(1), t - 1);
        if a.offer(&idle, arm(2), t).emitted() {
            transfers += 1;
        }
    }
    assert_eq!(transfers, 0, "a quiet market must not transfer authority");
    assert_eq!(a.venue_leader(&scope()), Some(arm(1)));
}

#[test]
fn a_leader_silent_venue_wide_still_yields() {
    let mut a = StickyAuthority::new(no_window_cfg());
    a.offer(&key(), arm(1), 1_000);
    assert!(a
        .offer(&other_market(), arm(2), 1_000 + TIMEOUT * 2)
        .emitted());
    assert_eq!(a.venue_leader(&scope()), Some(arm(2)));
}

#[test]
fn an_unhealthy_leader_yields_one_market_not_the_venue() {
    let mut a = StickyAuthority::new(no_window_cfg());
    a.offer(&key(), arm(1), 1_000);
    a.offer(&other_market(), arm(1), 1_000);
    a.set_health(&key(), arm(1), false);

    assert!(
        a.offer(&key(), arm(2), 1_100).emitted(),
        "the bad market moves"
    );
    assert_eq!(a.offer(&key(), arm(1), 1_200), Admit::Dropped);
    assert_eq!(a.venue_leader(&scope()), Some(arm(1)));
    assert!(a.offer(&other_market(), arm(1), 1_300).emitted());
    assert_eq!(a.offer(&other_market(), arm(2), 1_350), Admit::Dropped);
}

#[test]
fn the_override_reverts_when_the_leaders_book_recovers() {
    let mut a = StickyAuthority::new(no_window_cfg());
    a.offer(&key(), arm(1), 1_000);
    a.set_health(&key(), arm(1), false);
    assert!(a.offer(&key(), arm(2), 1_100).emitted());
    a.set_health(&key(), arm(1), true);
    assert!(
        a.offer(&key(), arm(1), 1_200).emitted(),
        "back to the leader"
    );
    assert_eq!(a.offer(&key(), arm(2), 1_250), Admit::Dropped);
}

#[test]
fn an_unhealthy_challenger_does_not_get_the_override() {
    let mut a = StickyAuthority::new(no_window_cfg());
    a.offer(&key(), arm(1), 1_000);
    a.set_health(&key(), arm(1), false);
    a.set_health(&key(), arm(2), false);
    assert_eq!(a.offer(&key(), arm(2), 1_100), Admit::Dropped);
}

#[test]
fn arm_ordinals_are_stable_and_bounded() {
    let mut a = StickyAuthority::new(no_window_cfg());
    assert_eq!(a.arm_ordinal(&scope(), arm(1)), "arm0");
    assert_eq!(a.arm_ordinal(&scope(), arm(2)), "arm1");
    assert_eq!(a.arm_ordinal(&scope(), arm(1)), "arm0", "stable");
    assert_eq!(a.arm_ordinal(&scope_of("Other"), arm(9)), "arm0", "per venue");
    for n in 3..=8 {
        a.arm_ordinal(&scope(), arm(n));
    }
    assert_eq!(a.arm_ordinal(&scope(), arm(200)), "other", "cap holds");
}

#[test]
fn an_arm_past_the_cap_is_never_authoritative() {
    let mut a = StickyAuthority::new(no_window_cfg());
    for n in 1..=8 {
        a.arm_ordinal(&scope(), arm(n));
    }
    assert_eq!(a.offer(&key(), arm(200), 1_000), Admit::Dropped);
    assert_eq!(a.venue_leader(&scope()), None, "no venue was created");
}

#[test]
fn markets_held_counts_the_arm_actually_serving() {
    let mut a = StickyAuthority::new(no_window_cfg());
    a.offer(&key(), arm(1), 1_000);
    a.offer(&other_market(), arm(1), 1_000);
    assert_eq!(held(&a, arm(1)), 2);
    assert_eq!(held(&a, arm(2)), 0);
    a.set_health(&key(), arm(1), false);
    a.offer(&key(), arm(2), 1_100);
    assert_eq!(held(&a, arm(1)), 1);
    assert_eq!(held(&a, arm(2)), 1);
}

fn held(a: &StickyAuthority, publisher: Publisher) -> usize {
    a.markets_held_all()
        .into_iter()
        .find(|(v, p, _)| v == VENUE && *p == publisher)
        .map_or(0, |(_, _, n)| n)
}

#[test]
fn a_forgotten_market_leaves_no_trace() {
    let mut a = StickyAuthority::new(no_window_cfg());
    a.offer(&key(), arm(1), 1_000);
    a.offer(&other_market(), arm(1), 1_000);
    a.forget_market(&key());
    assert_eq!(a.last_admitted(&key()), None);
    assert_eq!(a.last_admitted(&other_market()), Some(arm(1)));
}

#[test]
fn arm_label_never_registers_an_arm() {
    let mut a = StickyAuthority::new(no_window_cfg());
    assert_eq!(a.arm_label(&scope(), arm(9)), "other");
    assert_eq!(
        a.arm_ordinal(&scope(), arm(1)),
        "arm0",
        "the slot was not taken"
    );
    assert_eq!(a.arm_label(&scope(), arm(1)), "arm0");
}

#[test]
fn last_admitted_tracks_the_served_arm() {
    let mut a = StickyAuthority::new(no_window_cfg());
    assert_eq!(a.last_admitted(&key()), None);
    a.offer(&key(), arm(1), 1_000);
    assert_eq!(a.last_admitted(&key()), Some(arm(1)));
    a.set_health(&key(), arm(1), false);
    a.offer(&key(), arm(2), 1_100);
    assert_eq!(a.last_admitted(&key()), Some(arm(2)));
    a.offer(&key(), arm(1), 1_200);
    assert_eq!(a.last_admitted(&key()), Some(arm(2)));
}

#[test]
fn markets_held_all_reports_idle_arms_as_zero() {
    let mut a = StickyAuthority::new(no_window_cfg());
    a.offer(&key(), arm(1), 1_000);
    a.offer(&other_market(), arm(1), 1_000);
    a.offer(&key(), arm(2), 1_100);
    let mut all = a.markets_held_all();
    all.sort_by_key(|(_, p, _)| format!("{p:?}"));
    assert_eq!(
        all,
        vec![(VENUE.to_string(), arm(1), 2), (VENUE.to_string(), arm(2), 0)]
    );
}

#[test]
fn pooled_samples_across_markets_transfer_the_venue() {
    let mut a = StickyAuthority::new(cfg());
    a.offer(&key(), arm(1), 1_000);
    for i in 0..10 {
        let m: MarketKey = market(40 + i % 3);
        a.offer(&m, arm(1), 1_000);
        a.observe_matched_lead(&scope(), arm(2), -50_000);
    }
    assert_eq!(
        a.close_window(2_000_000),
        vec![(scope(), arm(2))],
        "a sustained pooled margin transfers"
    );
    assert_eq!(a.venue_leader(&scope()), Some(arm(2)));
}

#[test]
fn one_fast_sample_does_not_transfer() {
    let mut a = StickyAuthority::new(cfg());
    a.offer(&key(), arm(1), 1_000);
    a.observe_matched_lead(&scope(), arm(2), -5_000_000);
    assert!(a.close_window(2_000_000).is_empty());
    assert_eq!(a.venue_leader(&scope()), Some(arm(1)));
}

#[test]
fn a_minority_of_wins_does_not_transfer_however_large() {
    let mut a = StickyAuthority::new(cfg());
    a.offer(&key(), arm(1), 1_000);
    for i in 0..10 {
        a.observe_matched_lead(&scope(), arm(2), if i < 5 { -9_000_000 } else { 9_000_000 });
    }
    assert!(a.close_window(2_000_000).is_empty(), "50% < 0.8 win rate");
}

#[test]
fn winning_within_the_margin_does_not_transfer() {
    let mut a = StickyAuthority::new(cfg());
    a.offer(&key(), arm(1), 1_000);
    for _ in 0..10 {
        a.observe_matched_lead(&scope(), arm(2), -500);
    }
    assert!(a.close_window(2_000_000).is_empty());
}

#[test]
fn window_does_not_close_early() {
    let mut a = StickyAuthority::new(cfg());
    a.offer(&key(), arm(1), 1_000);
    for _ in 0..10 {
        a.observe_matched_lead(&scope(), arm(2), -50_000);
    }
    assert!(a.close_window(1_500).is_empty(), "interval has not elapsed");
    assert!(!a.close_window(2_000_000).is_empty());
}

#[test]
fn window_close_resets_the_sample_set() {
    let mut a = StickyAuthority::new(cfg());
    a.offer(&key(), arm(1), 1_000);
    for _ in 0..10 {
        a.observe_matched_lead(&scope(), arm(2), -50_000);
    }
    assert!(!a.close_window(2_000_000).is_empty());
    assert!(a.close_window(4_000_000).is_empty());
}

#[test]
fn a_silence_transfer_restarts_the_sampling_window() {
    let mut a = StickyAuthority::new(cfg());
    a.offer(&key(), arm(1), 1_000);
    for _ in 0..10 {
        a.observe_matched_lead(&scope(), arm(2), 9_000_000);
    }
    a.offer(&key(), arm(2), 1_001 + TIMEOUT);
    assert_eq!(a.venue_leader(&scope()), Some(arm(2)));
    assert!(
        a.close_window(TIMEOUT * 3).is_empty(),
        "pre-handover samples must not hand it straight back"
    );
}

#[test]
fn a_margin_transfer_does_not_fake_the_new_leaders_liveness() {
    let mut a = StickyAuthority::new(cfg());
    a.offer(&key(), arm(1), 1_000);
    for _ in 0..10 {
        a.observe_matched_lead(&scope(), arm(2), -50_000);
    }
    assert!(!a.close_window(TIMEOUT * 5).is_empty());
    assert_eq!(a.venue_leader(&scope()), Some(arm(2)));
    assert!(a.offer(&key(), arm(1), TIMEOUT * 5 + 1).emitted());
    assert_eq!(a.venue_leader(&scope()), Some(arm(1)));
}

#[test]
fn the_leader_does_not_sample_against_itself() {
    let mut a = StickyAuthority::new(cfg());
    a.offer(&key(), arm(1), 1_000);
    for _ in 0..10 {
        a.observe_matched_lead(&scope(), arm(1), -9_000_000);
    }
    assert!(a.close_window(2_000_000).is_empty());
    assert_eq!(a.venue_leader(&scope()), Some(arm(1)));
}

#[test]
fn leads_of_exactly_the_margin_transfer() {
    let mut a = StickyAuthority::new(cfg());
    a.offer(&key(), arm(1), 1_000);
    for _ in 0..10 {
        a.observe_matched_lead(&scope(), arm(2), -1_000);
    }
    assert_eq!(a.close_window(2_000_000), vec![(scope(), arm(2))]);
    assert_eq!(a.venue_leader(&scope()), Some(arm(2)));
}

#[test]
fn a_lead_below_the_margin_is_still_a_win() {
    let mut a = StickyAuthority::new(cfg());
    a.offer(&key(), arm(1), 1_000);
    for lead in [-5_000, -5_000, -5_000, -10, -10] {
        a.observe_matched_lead(&scope(), arm(2), lead);
    }
    assert_eq!(a.close_window(2_000_000), vec![(scope(), arm(2))]);
}

#[test]
fn a_market_that_returns_is_the_youngest() {
    let mut a = StickyAuthority::new(no_window_cfg());
    a.set_health(&market(0), arm(1), false);
    for id in 1..MAX_TRACKED_MARKETS {
        a.set_health(&market(id as u32), arm(1), false);
    }
    a.forget_market(&market(0));
    a.set_health(&market(0), arm(1), false);
    a.set_health(&market(MAX_TRACKED_MARKETS as u32), arm(1), false);
    assert_eq!(a.markets_len(), MAX_TRACKED_MARKETS);
    assert!(!a.healthy(&market(0), arm(1)), "its health outlives its old place");
    assert!(!a.tracks_market(&market(1)), "the oldest makes room");
}

#[test]
fn a_forgotten_market_keeps_its_place() {
    let mut a = StickyAuthority::new(no_window_cfg());
    for id in 0..MAX_TRACKED_MARKETS {
        a.set_health(&market(id as u32), arm(1), false);
    }
    a.forget_market(&market(5));
    a.set_health(&market(MAX_TRACKED_MARKETS as u32), arm(1), false);
    assert!(!a.tracks_market(&market(0)), "the oldest place is taken");
    assert!(a.tracks_market(&market(1)));
    assert_eq!(a.markets_len(), MAX_TRACKED_MARKETS - 1);
    a.forget_markets(&vec![market(1), market(7), market(7)]);
    a.set_health(&market(MAX_TRACKED_MARKETS as u32 + 1), arm(1), false);
    assert!(a.tracks_market(&market(2)), "an empty place costs nothing");
    assert_eq!(a.markets_len(), MAX_TRACKED_MARKETS - 2);
}
