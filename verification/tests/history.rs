//! The rolling history of prints.

use edge_ingest::history::{
    Key, Print, Store, MAX_BUCKETS_ACROSS_PRODUCTS, MAX_PRODUCTS, TRADE_RING, WINDOW_SECS,
};

/// A price or a size in fixed point.
fn fixed(x: f64) -> i128 {
    (x * 1e8).round() as i128 * 10_000_000_000
}

fn key() -> Key {
    Key {
        source_id: 1,
        category: "default".into(),
        channel: 0,
        instrument_id: 41,
    }
}

fn trade(ts_s: u64, price: f64, size: f64) -> Print {
    Print {
        ts_ns: ts_s * 1_000_000_000,
        price: fixed(price),
        size: fixed(size),
    }
}

#[test]
fn one_second_of_prints_forms_one_bucket() {
    let mut s = Store::new();
    s.ingest(key(), trade(100, 10.0, 1.0));
    s.ingest(key(), trade(100, 12.0, 2.0));
    s.ingest(key(), trade(100, 8.0, 3.0));
    let c = s.candles(&key(), 1, 10, 101);
    assert_eq!(c.len(), 1);
    assert_eq!(c[0].start, 100);
    assert_eq!(c[0].open, fixed(10.0));
    assert_eq!(c[0].high, fixed(12.0));
    assert_eq!(c[0].low, fixed(8.0));
    assert_eq!(c[0].close, fixed(8.0), "close is the last print, not the lowest");
    assert_eq!(c[0].volume, fixed(6.0));
}

#[test]
fn buckets_roll_up_into_a_coarser_granularity() {
    let mut s = Store::new();
    s.ingest(key(), trade(60, 10.0, 1.0));
    s.ingest(key(), trade(61, 20.0, 1.0));
    s.ingest(key(), trade(119, 5.0, 1.0));
    let c = s.candles(&key(), 60, 10, 120);
    assert_eq!(c.len(), 1, "all three fall in the same 60s bucket");
    assert_eq!(c[0].start, 60);
    assert_eq!(c[0].open, fixed(10.0));
    assert_eq!(c[0].high, fixed(20.0));
    assert_eq!(c[0].low, fixed(5.0));
    assert_eq!(c[0].close, fixed(5.0));
    assert_eq!(c[0].volume, fixed(3.0));
}

#[test]
fn empty_intervals_are_omitted() {
    let mut s = Store::new();
    s.ingest(key(), trade(100, 10.0, 1.0));
    s.ingest(key(), trade(300, 11.0, 1.0));
    let c = s.candles(&key(), 1, 500, 301);
    assert_eq!(c.len(), 2, "199 silent seconds produce no candles");
}

#[test]
fn candles_are_returned_newest_first() {
    let mut s = Store::new();
    s.ingest(key(), trade(100, 10.0, 1.0));
    s.ingest(key(), trade(200, 11.0, 1.0));
    let c = s.candles(&key(), 1, 10, 201);
    assert_eq!(c[0].start, 200);
    assert_eq!(c[1].start, 100);
}

#[test]
fn a_late_print_updates_its_own_bucket_in_place() {
    let mut s = Store::new();
    s.ingest(key(), trade(100, 10.0, 1.0));
    s.ingest(key(), trade(200, 11.0, 1.0));
    s.ingest(key(), trade(100, 99.0, 1.0));
    let c = s.candles(&key(), 1, 10, 201);
    let b100 = c.iter().find(|c| c.start == 100).unwrap();
    assert_eq!(b100.high, fixed(99.0), "late print widens its own bucket");
    assert_eq!(b100.volume, fixed(2.0));
    let b200 = c.iter().find(|c| c.start == 200).unwrap();
    assert_eq!(b200.high, fixed(11.0), "and does not touch a later one");
}

#[test]
fn a_print_older_than_the_window_is_dropped_and_counted() {
    let mut s = Store::new();
    s.ingest(key(), trade(10_000, 10.0, 1.0));
    s.ingest(key(), trade(10_000 - WINDOW_SECS - 5, 99.0, 1.0));
    assert_eq!(s.late_drops(), 1);
    let c = s.candles(&key(), 1, 5000, 10_001);
    assert!(
        c.iter().all(|c| c.high != fixed(99.0)),
        "the stale print is nowhere"
    );
}

#[test]
fn the_window_evicts_buckets_older_than_its_span() {
    let mut s = Store::new();
    s.ingest(key(), trade(100, 10.0, 1.0));
    s.ingest(key(), trade(100 + WINDOW_SECS + 10, 11.0, 1.0));
    let c = s.candles(&key(), 1, 5000, 100 + WINDOW_SECS + 11);
    assert_eq!(c.len(), 1, "the first bucket aged out");
    assert_eq!(c[0].high, fixed(11.0));
}

#[test]
fn a_limit_that_binds_is_reported_as_truncated() {
    let mut s = Store::new();
    for t in 0..100 {
        s.ingest(key(), trade(1_000 + t, 10.0, 1.0));
    }
    let c = s.candles(&key(), 1, 10, 1_100);
    assert_eq!(c.len(), 10);
    assert!(s.retention(&key(), 1, 10, 1_100).truncated);
    assert!(!s.retention(&key(), 1, 500, 1_100).truncated);
}

#[test]
fn the_trade_ring_keeps_the_most_recent_prints_newest_first() {
    let mut s = Store::new();
    for t in 0..(TRADE_RING + 50) {
        s.ingest(key(), trade(1_000 + t as u64, t as f64, 1.0));
    }
    let r = s.recent_trades(&key(), TRADE_RING + 100);
    assert_eq!(r.len(), TRADE_RING, "bounded");
    assert!(r[0].price > r[1].price, "newest first");
}

#[test]
fn product_state_is_bounded_by_evicting_the_least_recently_traded() {
    let mut s = Store::new();
    for i in 0..(MAX_PRODUCTS + 10) {
        let k = Key {
            source_id: 1,
            category: "default".into(),
            channel: 0,
            instrument_id: i as u32,
        };
        s.ingest(k, trade(1_000 + i as u64, 10.0, 1.0));
    }
    assert_eq!(s.len(), MAX_PRODUCTS);
    assert_eq!(s.evicted(), 10);
    let oldest = Key {
        source_id: 1,
        category: "default".into(),
        channel: 0,
        instrument_id: 0,
    };
    assert!(
        s.candles(&oldest, 1, 10, 1_010).is_empty(),
        "the coldest went first"
    );
}

#[test]
fn zero_granularity_is_treated_as_one_second_rather_than_panicking() {
    let mut s = Store::new();
    s.ingest(key(), trade(100, 10.0, 1.0));
    let c = s.candles(&key(), 0, 10, 101);
    assert_eq!(c.len(), 1);
    assert_eq!(c[0].start, 100);
}

#[test]
fn rollup_is_bounded_by_now_secs_not_only_by_last_activity() {
    let mut s = Store::new();
    s.ingest(key(), trade(100, 10.0, 1.0));
    let now = 100 + WINDOW_SECS + 500;
    let c = s.candles(&key(), 1, 10, now);
    assert!(
        c.is_empty(),
        "a print more than an hour before now_secs must not still be served"
    );
}

#[test]
fn now_secs_excludes_the_not_yet_closed_current_second() {
    let mut s = Store::new();
    s.ingest(key(), trade(100, 10.0, 1.0));
    s.ingest(key(), trade(101, 11.0, 1.0));
    let c = s.candles(&key(), 1, 10, 101);
    assert_eq!(
        c.len(),
        1,
        "the bucket at now_secs itself has not closed yet"
    );
    assert_eq!(c[0].start, 100);
}

#[test]
fn retention_oldest_and_newest_report_the_pre_limit_span() {
    let mut s = Store::new();
    for t in 0..100 {
        s.ingest(key(), trade(1_000 + t, 10.0, 1.0));
    }
    let r10 = s.retention(&key(), 1, 10, 1_100);
    assert_eq!(
        r10.oldest, 1_000,
        "pre-limit span, not narrowed to the 10 actually returned"
    );
    assert_eq!(r10.newest, 1_099);

    let r500 = s.retention(&key(), 1, 500, 1_100);
    assert_eq!(
        r500.oldest, 1_000,
        "identical span, regardless of a limit that doesn't bind"
    );
    assert_eq!(r500.newest, 1_099);
    assert!(r10.held, "a product just fed prints must read as held");
}

#[test]
fn retention_for_an_unknown_key_reports_a_zero_width_window_at_now() {
    let s = Store::new();
    let r = s.retention(&key(), 1, 10, 12_345);
    assert_eq!(r.oldest, 12_345);
    assert_eq!(r.newest, 12_345);
    assert!(!r.truncated);
    assert!(
        !r.held,
        "a key the store has never seen must not read as held"
    );
}

#[test]
fn an_evicted_product_reports_unheld_while_a_quiet_tracked_one_reports_held() {
    let mut s = Store::new();

    s.ingest(key(), trade(1, 10.0, 1.0));

    let quiet = Key {
        source_id: 9,
        category: "default".into(),
        channel: 0,
        instrument_id: 999,
    };
    s.ingest(quiet.clone(), trade(0, 10.0, 1.0));

    for i in 0..(MAX_PRODUCTS - 1) {
        let k = Key {
            source_id: 2,
            category: "default".into(),
            channel: 0,
            instrument_id: i as u32,
        };
        s.ingest(k, trade(2 + i as u64, 10.0, 1.0));
    }
    assert!(
        !s.held(&key()),
        "fixture sanity: key() must have been evicted by the fill above"
    );
    assert!(
        s.held(&quiet),
        "fixture sanity: quiet must have survived the same fill"
    );

    let now = WINDOW_SECS * 10;
    let evicted_r = s.retention(&key(), 1, 10, now);
    let quiet_r = s.retention(&quiet, 1, 10, now);

    assert!(s.candles(&key(), 1, 10, now).is_empty(), "evicted: empty");
    assert!(
        s.candles(&quiet, 1, 10, now).is_empty(),
        "quiet: also empty"
    );
    assert_eq!(
        evicted_r.oldest, evicted_r.newest,
        "both report the same zero-width shape without `held`"
    );
    assert_eq!(evicted_r.oldest, quiet_r.oldest);
    assert_eq!(evicted_r.truncated, quiet_r.truncated);

    assert!(!evicted_r.held, "an evicted product must report held=false");
    assert!(
        quiet_r.held,
        "a product the store still tracks must report held=true even with nothing in window"
    );
}

#[test]
fn a_product_fed_only_stale_prints_after_its_first_real_one_stays_cold() {
    let mut s = Store::new();
    let active = Key {
        source_id: 1,
        category: "default".into(),
        channel: 0,
        instrument_id: 0,
    };
    s.ingest(active.clone(), trade(10_000, 10.0, 1.0));

    for i in 1..MAX_PRODUCTS {
        let k = Key {
            source_id: 1,
            category: "default".into(),
            channel: 0,
            instrument_id: i as u32,
        };
        s.ingest(k, trade(1_000 + i as u64, 10.0, 1.0));
    }
    assert_eq!(s.len(), MAX_PRODUCTS);

    for _ in 0..5 {
        s.ingest(active.clone(), trade(10_000 - WINDOW_SECS - 100, 1.0, 1.0));
    }
    assert_eq!(s.late_drops(), 5);

    let extra = Key {
        source_id: 1,
        category: "default".into(),
        channel: 0,
        instrument_id: MAX_PRODUCTS as u32,
    };
    s.ingest(extra, trade(1_000 + MAX_PRODUCTS as u64, 10.0, 1.0));

    assert!(
        s.candles(&active, 1, 10, 10_010).is_empty(),
        "the coldest product, left cold by the stale contact, was evicted"
    );
}

/// How many buckets a product has, as its one-second candles show it.
fn counted(s: &Store, k: &Key, now: u64) -> usize {
    s.candles(k, 1, 10_000, now).len()
}

#[test]
fn buckets_total_matches_the_recomputed_sum_across_mutations() {
    let mut s = Store::new();

    let a = Key {
        source_id: 1,
        category: "default".into(),
        channel: 0,
        instrument_id: 1,
    };
    let b = Key {
        source_id: 1,
        category: "default".into(),
        channel: 0,
        instrument_id: 2,
    };
    s.ingest(a.clone(), trade(100, 10.0, 1.0));
    s.ingest(a.clone(), trade(101, 10.0, 1.0));
    s.ingest(b.clone(), trade(100, 10.0, 1.0));
    let recomputed = counted(&s, &a, 102) + counted(&s, &b, 102);
    assert_eq!(recomputed, 3);
    assert_eq!(s.stats().buckets, recomputed, "after fresh inserts");

    s.ingest(a.clone(), trade(100, 11.0, 1.0));
    let recomputed = counted(&s, &a, 102) + counted(&s, &b, 102);
    assert_eq!(s.stats().buckets, recomputed, "after widening");

    s.ingest(a.clone(), trade(100 + WINDOW_SECS + 10, 12.0, 1.0));
    let recomputed = counted(&s, &a, 100 + WINDOW_SECS + 11) + counted(&s, &b, 102);
    assert_eq!(recomputed, 2);
    assert_eq!(
        s.stats().buckets,
        recomputed,
        "after a product's own window eviction"
    );

    let mut keys = vec![(a, 100 + WINDOW_SECS + 11), (b, 102)];
    for i in 0..MAX_PRODUCTS {
        let k = Key {
            source_id: 2,
            category: "default".into(),
            channel: 0,
            instrument_id: i as u32,
        };
        s.ingest(k.clone(), trade(1_000 + i as u64, 10.0, 1.0));
        keys.push((k, 1_001 + i as u64));
    }
    let recomputed: usize = keys.iter().map(|(k, now)| counted(&s, k, *now)).sum();
    assert_eq!(s.stats().buckets, recomputed, "after MAX_PRODUCTS eviction");
    assert_eq!(recomputed, MAX_PRODUCTS);
}

#[test]
fn total_bucket_budget_evicts_whole_products_least_recently_traded() {
    let mut s = Store::new();

    let per_product = WINDOW_SECS as usize;
    let n = MAX_BUCKETS_ACROSS_PRODUCTS / per_product + 1;
    let key_of = |i: usize| Key {
        source_id: 1,
        category: "default".into(),
        channel: 0,
        instrument_id: i as u32,
    };
    let mut left = MAX_BUCKETS_ACROSS_PRODUCTS;
    for i in 0..n {
        for sec in 0..per_product.min(left) {
            s.ingest(key_of(i), trade(sec as u64, 1.0, 1.0));
        }
        left -= per_product.min(left);
    }
    assert_eq!(
        s.stats().buckets,
        MAX_BUCKETS_ACROSS_PRODUCTS,
        "the store is exactly at its budget"
    );

    let coldest = key_of(0);
    let new_key = key_of(n);
    let evicted_before = s.evicted();
    assert_eq!(evicted_before, 0);
    s.ingest(new_key, trade(per_product as u64, 5.0, 1.0));

    assert!(
        s.stats().buckets <= MAX_BUCKETS_ACROSS_PRODUCTS,
        "back under budget, got {}",
        s.stats().buckets
    );
    assert!(
        s.evicted() > evicted_before,
        "the overflow evicted at least one whole product"
    );
    assert!(
        s.candles(&coldest, 1, 10, per_product as u64 + 1)
            .is_empty(),
        "the coldest product went first, not merely the newest bucket"
    );
    let recomputed: usize = (0..n)
        .map(|i| counted(&s, &key_of(i), per_product as u64))
        .sum::<usize>()
        + counted(&s, &key_of(n), per_product as u64 + 1);
    assert_eq!(
        s.stats().buckets,
        recomputed,
        "accounting matches after the overflow eviction"
    );
}

#[test]
fn forgetting_a_channel_drops_its_history() {
    let mut s = Store::new();
    let dropped_key = Key {
        source_id: 3,
        category: "default".into(),
        channel: 10,
        instrument_id: 1,
    };
    s.ingest(dropped_key.clone(), trade(1_000, 10.0, 1.0));
    assert!(
        !s.candles(&dropped_key, 60, 10, 1_100).is_empty(),
        "fixture sanity: the print must be queryable before the drop"
    );

    let dropped = s.forget_channel(3, "default", 10);
    assert_eq!(dropped, 1, "exactly the one product on that channel");
    assert!(
        s.candles(&dropped_key, 60, 10, 1_100).is_empty(),
        "history survived its channel being dropped"
    );
}

#[test]
fn forgetting_a_channel_leaves_its_peers_intact() {
    let mut s = Store::new();
    let dropped_key = Key {
        source_id: 3,
        category: "default".into(),
        channel: 10,
        instrument_id: 1,
    };
    let peer_diff_channel = Key {
        source_id: 3,
        category: "default".into(),
        channel: 11,
        instrument_id: 1,
    };
    let peer_diff_source = Key {
        source_id: 7,
        category: "default".into(),
        channel: 10,
        instrument_id: 1,
    };
    s.ingest(dropped_key, trade(1_000, 10.0, 1.0));
    s.ingest(peer_diff_channel.clone(), trade(1_000, 20.0, 1.0));
    s.ingest(peer_diff_channel.clone(), trade(1_060, 21.0, 1.0));
    s.ingest(peer_diff_source.clone(), trade(1_000, 30.0, 1.0));
    s.ingest(peer_diff_source.clone(), trade(1_060, 31.0, 1.0));
    s.ingest(peer_diff_source.clone(), trade(1_120, 32.0, 1.0));

    s.forget_channel(3, "default", 10);

    let peer_channel_candles = s.candles(&peer_diff_channel, 60, 10, 1_200);
    assert_eq!(
        peer_channel_candles.len(),
        2,
        "the untouched channel's full candle count must survive the peer's drop"
    );
    let peer_source_candles = s.candles(&peer_diff_source, 60, 10, 1_200);
    assert_eq!(
        peer_source_candles.len(),
        3,
        "a peer sharing the channel id under a different source_id must survive — a \
         source-id-blind filter would wrongly drop it"
    );
}

#[test]
fn forget_channel_keeps_buckets_total_in_step() {
    let mut s = Store::new();
    let dropped_key = Key {
        source_id: 3,
        category: "default".into(),
        channel: 10,
        instrument_id: 1,
    };
    let peer_diff_channel = Key {
        source_id: 3,
        category: "default".into(),
        channel: 11,
        instrument_id: 1,
    };
    let peer_diff_source = Key {
        source_id: 7,
        category: "default".into(),
        channel: 10,
        instrument_id: 1,
    };
    s.ingest(dropped_key.clone(), trade(1_000, 10.0, 1.0));
    s.ingest(dropped_key, trade(1_100, 11.0, 1.0));
    s.ingest(peer_diff_channel.clone(), trade(1_000, 20.0, 1.0));
    s.ingest(peer_diff_source.clone(), trade(1_000, 30.0, 1.0));
    let before = s.stats().buckets;

    let dropped = s.forget_channel(3, "default", 10);
    assert_eq!(dropped, 1);

    assert_eq!(
        s.stats().buckets,
        before - 2,
        "exactly the dropped product's two buckets must leave the budget"
    );
    let recomputed =
        counted(&s, &peer_diff_channel, 1_200) + counted(&s, &peer_diff_source, 1_200);
    assert_eq!(
        s.stats().buckets,
        recomputed,
        "accounting must match the true sum after forgetting a channel"
    );
}

#[test]
fn forgetting_an_untracked_channel_drops_nothing() {
    let mut s = Store::new();
    s.ingest(
        Key {
            source_id: 3,
            category: "default".into(),
            channel: 11,
            instrument_id: 1,
        },
        trade(1_000, 10.0, 1.0),
    );
    assert_eq!(s.forget_channel(3, "default", 10), 0);
    assert_eq!(s.len(), 1, "the untouched product is still there");
}

#[test]
fn forgetting_a_channel_spares_a_peer_category_sharing_the_same_channel_id() {
    let mut s = Store::new();
    let dropped = Key {
        source_id: 3,
        category: "perps".into(),
        channel: 10,
        instrument_id: 1,
    };
    let peer_diff_category = Key {
        source_id: 3,
        category: "sports".into(),
        channel: 10,
        instrument_id: 1,
    };
    s.ingest(dropped.clone(), trade(1_000, 10.0, 1.0));
    s.ingest(peer_diff_category.clone(), trade(1_000, 20.0, 1.0));
    s.ingest(peer_diff_category.clone(), trade(1_060, 21.0, 1.0));
    s.ingest(peer_diff_category.clone(), trade(1_120, 22.0, 1.0));

    let dropped_count = s.forget_channel(3, "perps", 10);
    assert_eq!(
        dropped_count, 1,
        "only the perps universe's product on channel 10"
    );

    assert!(
        s.candles(&dropped, 60, 10, 1_200).is_empty(),
        "the departing category's own history must be gone"
    );
    let peer_candles = s.candles(&peer_diff_category, 60, 10, 1_200);
    assert_eq!(
        peer_candles.len(),
        3,
        "the peer category sharing channel 10 must survive with its full candle count — \
         a category-blind filter would have wrongly dropped it too"
    );
}

#[test]
fn stats_reports_products_at_cap_with_evictions() {
    let mut s = Store::new();
    for i in 0..(MAX_PRODUCTS + 50) {
        let k = Key {
            source_id: 1,
            category: "default".into(),
            channel: 0,
            instrument_id: i as u32,
        };
        s.ingest(k, trade(1_000 + i as u64, 10.0, 1.0));
    }
    let stats = s.stats();
    assert_eq!(stats.products, MAX_PRODUCTS);
    assert!(stats.products_at_cap);
    assert!(stats.evicted > 0, "evictions were not counted: {stats:?}");
}

#[test]
fn stats_reports_real_occupancy_below_cap() {
    let mut s = Store::new();
    s.ingest(key(), trade(1_000, 10.0, 1.0));
    let stats = s.stats();
    assert_eq!(stats.products, 1);
    assert!(!stats.products_at_cap);
    assert_eq!(stats.evicted, 0);
    assert!(
        stats.buckets > 0 && stats.buckets < MAX_BUCKETS_ACROSS_PRODUCTS,
        "{stats:?}"
    );
    assert_eq!(stats.bucket_budget, MAX_BUCKETS_ACROSS_PRODUCTS);
    assert_eq!(stats.window_secs, WINDOW_SECS);
    assert_eq!(stats.late_drops, 0);
}

#[test]
fn stats_est_bytes_grows_with_real_usage() {
    let s = Store::new();
    assert_eq!(
        s.stats().est_bytes,
        0,
        "an empty store estimates zero bytes"
    );
    let mut s = Store::new();
    s.ingest(key(), trade(1_000, 10.0, 1.0));
    assert!(
        s.stats().est_bytes > 0,
        "one bucket plus one product's print ring must estimate positive bytes"
    );
}

#[test]
fn products_for_counts_only_the_named_scope() {
    let mut s = Store::new();
    let named = Key {
        source_id: 3,
        category: "perps".into(),
        channel: 10,
        instrument_id: 1,
    };
    let named_peer = Key {
        source_id: 3,
        category: "perps".into(),
        channel: 10,
        instrument_id: 2,
    };
    let peer_diff_channel = Key {
        source_id: 3,
        category: "perps".into(),
        channel: 11,
        instrument_id: 1,
    };
    let peer_diff_source = Key {
        source_id: 7,
        category: "perps".into(),
        channel: 10,
        instrument_id: 1,
    };
    let peer_diff_category = Key {
        source_id: 3,
        category: "sports".into(),
        channel: 10,
        instrument_id: 1,
    };
    s.ingest(named, trade(1_000, 10.0, 1.0));
    s.ingest(named_peer, trade(1_000, 10.0, 1.0));
    s.ingest(peer_diff_channel, trade(1_000, 10.0, 1.0));
    s.ingest(peer_diff_source, trade(1_000, 10.0, 1.0));
    s.ingest(peer_diff_category, trade(1_000, 10.0, 1.0));

    assert_eq!(
        s.products_for(3, "perps", 10),
        2,
        "exactly the two products in the named scope"
    );
    assert_eq!(
        s.products_for(3, "perps", 11),
        1,
        "the peer channel's own single product"
    );
    assert_eq!(
        s.products_for(7, "perps", 10),
        1,
        "the peer source_id's own single product"
    );
    assert_eq!(
        s.products_for(3, "sports", 10),
        1,
        "the peer category's own single product"
    );
    assert_eq!(
        s.products_for(3, "perps", 99),
        0,
        "an untracked channel counts zero, not an error"
    );
}

#[test]
fn stats_state_the_estimate() {
    let mut s = Store::default();
    assert!(s.is_empty());
    assert!(s.has_room());
    s.ingest(key(), trade(1_000, 10.0, 1.0));
    s.ingest(key(), trade(1_001, 10.0, 1.0));
    assert_eq!(s.stats().est_bytes, 2 * 93 + 24_000);
    assert_eq!(s.len(), 1);
}

#[test]
fn a_print_at_the_edge_of_the_window_is_taken() {
    let mut s = Store::new();
    s.ingest(key(), trade(10_000, 10.0, 1.0));
    s.ingest(key(), trade(10_000 - WINDOW_SECS, 9.0, 1.0));
    assert_eq!(s.late_drops(), 0);
    assert_eq!(s.stats().buckets, 2);
    s.ingest(key(), trade(10_000 - WINDOW_SECS - 1, 8.0, 1.0));
    assert_eq!(s.late_drops(), 1);
}

#[test]
fn volume_stays_at_the_limit_it_passes() {
    let mut s = Store::new();
    let big = Print {
        ts_ns: 100_000_000_000,
        price: 1,
        size: i128::MAX,
    };
    s.ingest(key(), big);
    s.ingest(key(), big);
    assert_eq!(s.candles(&key(), 1, 1, 101)[0].volume, i128::MAX);
}

#[test]
fn a_coarse_candle_opens_with_its_first_second_and_closes_with_its_last() {
    let mut s = Store::new();
    for (t, price) in [(62, 5.0), (60, 7.0), (119, 6.0), (120, 9.0)] {
        s.ingest(key(), trade(t, price, 1.0));
    }
    let c = s.candles(&key(), 60, 10, 200);
    assert_eq!(c.len(), 2);
    assert_eq!((c[0].start, c[0].open, c[0].close), (120, fixed(9.0), fixed(9.0)));
    assert_eq!((c[1].start, c[1].open, c[1].close), (60, fixed(7.0), fixed(6.0)));
    assert_eq!((c[1].high, c[1].low, c[1].volume), (fixed(7.0), fixed(5.0), fixed(3.0)));
    assert_eq!(s.candles(&key(), 60, 1, 200), c[..1].to_vec());
    assert_eq!(s.recent_trades(&key(), 2), vec![trade(120, 9.0, 1.0), trade(119, 6.0, 1.0)]);
}

#[test]
fn every_product_that_leaves_is_counted_once() {
    let mut s = Store::new();
    let total = MAX_PRODUCTS + 7;
    for n in 0..total {
        let mut k = key();
        k.instrument_id = n as u32;
        s.ingest(k, trade(100, 10.0, 1.0));
    }
    assert_eq!(s.len(), MAX_PRODUCTS);
    assert_eq!(s.evicted(), 7);
    for n in 0..7 {
        let mut k = key();
        k.instrument_id = n;
        assert!(!s.held(&k), "the least recently traded went");
    }
    let forgotten = s.forget_channel(key().source_id, &key().category, key().channel);
    assert_eq!(forgotten, MAX_PRODUCTS);
    assert_eq!(s.evicted(), 7, "a forgotten product is not an evicted one");
}
