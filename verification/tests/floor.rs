//! The latch-to-leader floor and the windowed dedup.

use edge_ingest::floor::{Admit, StalenessFloor};
use edge_ingest::window::WindowedDedup;

#[test]
fn quote_first_sample_admits() {
    let mut f: StalenessFloor<&str, u8, u8> = StalenessFloor::new(64);
    assert!(f.offer("BTC", 1000, 0, 1, 0).emitted());
}

#[test]
fn quote_new_tick_admits_and_relatches_leader() {
    let mut f: StalenessFloor<&str, u8, u8> = StalenessFloor::new(64);
    assert!(f.offer("BTC", 1000, 0, 1, 0).emitted());
    assert!(f.offer("BTC", 1001, 0, 2, 0).emitted());
    assert!(f.offer("BTC", 2000, 0, 1, 0).emitted());
}

#[test]
fn quote_latches_to_leader_within_tick() {
    let (a, b) = (1u8, 2u8);
    let mut f: StalenessFloor<&str, u8, u8> = StalenessFloor::new(64);
    assert!(f.offer("BTC", 1000, 5, a, 0).emitted());
    assert!(!f.offer("BTC", 1000, 5, a, 0).emitted());
    assert!(f.offer("BTC", 1000, 4, a, 0).emitted());
    assert!(f.offer("BTC", 1000, 3, a, 0).emitted());
    assert!(!f.offer("BTC", 1000, 39, b, 0).emitted());
    assert!(f.offer("BTC", 1001, 39, b, 0).emitted());
    assert!(!f.offer("BTC", 1001, 2, a, 0).emitted());
}

#[test]
fn quote_stale_tick_dropped_for_any_publisher() {
    let (a, b) = (1u8, 2u8);
    let mut f: StalenessFloor<&str, u8, u8> = StalenessFloor::new(64);
    assert!(f.offer("BTC", 2000, 1, a, 0).emitted());
    assert!(!f.offer("BTC", 1999, 9, a, 0).emitted());
    assert!(!f.offer("BTC", 1999, 9, b, 0).emitted());
}

#[test]
fn quote_keys_are_independent() {
    let mut f: StalenessFloor<&str, u8, u8> = StalenessFloor::new(64);
    assert!(f.offer("BTC", 2000, 0, 1, 0).emitted());
    assert!(f.offer("ETH", 1000, 0, 1, 0).emitted());
    assert!(!f.offer("BTC", 1500, 0, 1, 0).emitted());
}

#[test]
fn quote_tick_set_is_capacity_bounded() {
    let mut f: StalenessFloor<&str, u8, u8> = StalenessFloor::new(2);
    assert!(f.offer("BTC", 1000, 1, 9, 0).emitted());
    assert!(f.offer("BTC", 1000, 2, 9, 0).emitted());
    assert!(f.offer("BTC", 1000, 3, 9, 0).emitted());
    assert!(!f.offer("BTC", 1000, 3, 9, 0).emitted());
    assert!(f.offer("BTC", 1000, 1, 9, 0).emitted());
}

#[test]
fn quote_contest_reports_leader_and_lead_once() {
    let (a, b) = (1u8, 2u8);
    let mut f: StalenessFloor<&str, u8, u8> = StalenessFloor::new(64);
    assert!(f.offer("BTC", 1000, 5, a, 100).emitted());
    assert_eq!(
        f.offer("BTC", 1000, 9, b, 150),
        Admit::Contest {
            winner: a,
            lead_ns: 50
        }
    );
    assert_eq!(f.offer("BTC", 1000, 7, b, 170), Admit::Dropped);
}

#[test]
fn trade_new_admitted_repeat_dropped() {
    let mut d: WindowedDedup<&str, u64, u8> = WindowedDedup::new(8);
    assert!(d.offer("BTC", 1, 1, 0).emitted());
    assert_eq!(
        d.offer("BTC", 1, 2, 40),
        Admit::Contest {
            winner: 1,
            lead_ns: 40
        }
    );
    assert!(d.offer("BTC", 2, 1, 0).emitted());
}

#[test]
fn trade_keys_independent_and_window_evicts() {
    let mut d: WindowedDedup<&str, u64, u8> = WindowedDedup::new(2);
    assert!(d.offer("BTC", 1, 1, 0).emitted());
    assert!(d.offer("ETH", 1, 1, 0).emitted());
    assert!(d.offer("BTC", 2, 1, 0).emitted());
    assert!(d.offer("BTC", 3, 1, 0).emitted());
    assert!(d.offer("BTC", 1, 1, 0).emitted());
}

#[test]
fn floor_reports_tick_open_once_per_tick() {
    let (a, b) = (1u8, 2u8);
    let mut f: StalenessFloor<&str, u8, u8> = StalenessFloor::new(64);
    assert_eq!(
        f.offer("BTC", 1000, 5, a, 0),
        Admit::Emitted { opened_tick: true }
    );
    assert_eq!(
        f.offer("BTC", 1000, 4, a, 10),
        Admit::Emitted { opened_tick: false }
    );
    assert_eq!(
        f.offer("BTC", 1000, 9, b, 20),
        Admit::Contest {
            winner: a,
            lead_ns: 20
        }
    );
    assert_eq!(
        f.offer("BTC", 2000, 9, b, 30),
        Admit::Emitted { opened_tick: true }
    );
}

#[test]
fn window_first_seen_is_always_an_open() {
    let mut d: WindowedDedup<&str, u64, u8> = WindowedDedup::new(8);
    assert_eq!(
        d.offer("BTC", 1, 1, 0),
        Admit::Emitted { opened_tick: true }
    );
    assert_eq!(
        d.offer("BTC", 2, 1, 0),
        Admit::Emitted { opened_tick: true }
    );
}

#[test]
fn a_reset_reopens_the_keys_it_picks() {
    let mut f: StalenessFloor<&str, u8, u8> = StalenessFloor::new(64);
    assert!(f.offer("BTC", 5000, 0, 1, 0).emitted());
    assert!(f.offer("ETH", 5000, 0, 1, 0).emitted());
    assert_eq!(f.reset_where(|k: &&str| *k == "BTC"), 1);
    assert!(f.offer("BTC", 100, 0, 1, 0).emitted());
    assert!(!f.offer("ETH", 100, 0, 1, 0).emitted());
}

#[test]
fn a_lead_does_not_go_below_zero() {
    let mut d: WindowedDedup<&str, u64, u8> = WindowedDedup::new(8);
    assert!(d.offer("BTC", 1, 1, 100).emitted());
    assert_eq!(
        d.offer("BTC", 1, 2, 60),
        Admit::Contest {
            winner: 1,
            lead_ns: 0
        }
    );
    assert_eq!(d.offer("BTC", 1, 1, 200), Admit::Dropped, "the winner's own repeat");
}

#[test]
fn a_content_comes_again_only_after_the_cap_of_others() {
    let mut f: StalenessFloor<u64, u64, u64> = StalenessFloor::new(2);
    let at = |f: &mut StalenessFloor<u64, u64, u64>, c: u64| f.offer(1, 100, c, 1, 0).emitted();
    assert!(at(&mut f, 10));
    assert!(at(&mut f, 11));
    assert!(!at(&mut f, 10), "one other is not enough");
    assert!(at(&mut f, 12));
    assert!(at(&mut f, 10), "two others are");
}
