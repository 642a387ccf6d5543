//! What holds of the history whatever prints arrive.

use crate::history::{
    at_most, bucket_count, coldest, group_start, in_channel, law_the_store_stays_within_its_bounds,
    lemma_coldest, lemma_cooled, lemma_count_without, lemma_group, lemma_printed_wf, lemma_touched,
    lemma_within_budget, rising, rolled, second_of, served, touches_ok, window_start, Bucket,
    Candle, KeyId, Print, ProductView, StoreView, MAX_BUCKETS_ACROSS_PRODUCTS, MAX_PRODUCTS,
    TRADE_RING, WINDOW_SECS,
};
use crate::ordered::{lemma_listing_exists, less_u64, listing, lists_in_order};
use vstd::prelude::*;

verus! {

/// A print older than its product's window is counted and changes nothing else: neither a bucket nor
/// the product's place among the products.
pub proof fn law_a_stale_print_is_only_counted(v: StoreView, id: KeyId, print: Print)
    requires
        v.products.contains_key(id),
        v.products[id].too_late(second_of(print)),
    ensures
        v.ingested(id, print) == (StoreView { late_drops: (v.late_drops + 1) as u64, ..v }),
{
}

/// A first print is never late.
pub proof fn law_a_first_print_is_taken(v: StoreView, id: KeyId, print: Print)
    requires
        v.wf(),
        v.clock < u64::MAX,
        !v.products.contains_key(id),
    ensures
        v.ingested(id, print).late_drops == v.late_drops,
        v.ingested(id, print).products.contains_key(id),
        v.ingested(id, print).products[id].ring == seq![print],
        v.ingested(id, print).products[id].buckets == Map::<u64, Bucket>::empty().insert(
            second_of(print),
            Bucket::opened(print),
        ),
{
    law_the_traded_product_is_kept(v, id, print);
    let p = v.touched(id).products[id];
    let q = p.printed(print);
    assert(Seq::<Print>::empty().push(print) =~= seq![print]);
    assert(q.buckets =~= Map::<u64, Bucket>::empty().insert(
        second_of(print),
        Bucket::opened(print),
    ));
}

proof fn lemma_rising_span(s: Seq<(u64, Bucket)>, i: int)
    requires
        rising(s),
        0 <= i < s.len(),
    ensures
        s[0].0 + i <= s[i].0,
    decreases i,
{
    if i > 0 {
        lemma_rising_span(s, i - 1);
        assert(s[i - 1].0 < s[i].0);
    }
}

proof fn lemma_listing_len(m: Map<u64, Bucket>)
    requires
        m.dom().finite(),
    ensures
        lists_in_order(m, listing(m, less_u64()), less_u64()),
        rising(listing(m, less_u64())),
        listing(m, less_u64()).len() == m.dom().len(),
{
    lemma_listing_exists(m, less_u64());
    let s = listing(m, less_u64());
    assert(rising(s)) by {
        assert forall|i: int, j: int| 0 <= i < j < s.len() implies (#[trigger] s[i]).0 < (
        #[trigger] s[j]).0 by {
            assert((less_u64())(s[i].0, s[j].0));
        }
    }
    let keys = Seq::new(s.len(), |i: int| s[i].0);
    assert(keys.no_duplicates()) by {
        assert forall|i: int, j: int| 0 <= i < keys.len() && 0 <= j < keys.len() && i != j implies keys[i]
            != keys[j] by {
            assert(s[i].0 == keys[i] && s[j].0 == keys[j]);
        }
    }
    keys.unique_seq_to_set();
    assert(m.dom() =~= keys.to_set()) by {
        assert forall|k: u64| m.dom().contains(k) == keys.to_set().contains(k) by {
            if m.contains_key(k) {
                let j = choose|j: int| 0 <= j < s.len() && (#[trigger] s[j]).0 == k;
                assert(keys[j] == k);
            }
            if keys.contains(k) {
                let j = choose|j: int| 0 <= j < keys.len() && keys[j] == k;
                assert(m.contains_key(s[j].0));
            }
        }
    }
}

/// A product has one bucket per second of its window at most, however often it trades.
pub proof fn law_a_product_is_bounded(p: ProductView)
    requires
        p.wf(),
    ensures
        p.buckets.dom().len() <= WINDOW_SECS + 1,
{
    lemma_listing_len(p.buckets);
    let s = listing(p.buckets, less_u64());
    if s.len() > 0 {
        lemma_rising_span(s, s.len() - 1);
        assert(p.buckets.contains_key(s[0].0));
        assert(p.buckets.contains_key(s[s.len() - 1].0));
    }
}

/// The product that was just traded is not evicted, and what the others leave is what they were.
proof fn lemma_budget_keeps_the_newest(v: StoreView, id: KeyId)
    requires
        v.products.dom().finite(),
        touches_ok(v.products, v.clock),
        v.evicted + v.products.dom().len() <= v.clock,
        forall|a: KeyId| #[trigger] v.products.contains_key(a) ==> v.products[a].wf(),
        v.products.contains_key(id),
        v.products[id].last_touch == v.clock,
    ensures
        v.within_budget().products.contains_key(id),
        v.within_budget().products[id] == v.products[id],
        v.within_budget().products.submap_of(v.products),
        forall|gone: KeyId, kept: KeyId| #[trigger]
            v.products.contains_key(gone) && !v.within_budget().products.contains_key(gone)
                && #[trigger] v.within_budget().products.contains_key(kept)
                ==> v.products[gone].last_touch < v.products[kept].last_touch,
    decreases v.products.dom().len(),
{
    if bucket_count(v.products) > MAX_BUCKETS_ACROSS_PRODUCTS {
        lemma_coldest(v.products, v.clock);
        let c = coldest(v.products);
        if c == id {
            assert forall|a: KeyId| v.products.contains_key(a) implies a == id by {
                if a != id {
                    assert(v.products[id].last_touch <= v.products[a].last_touch);
                }
            }
            lemma_count_without(v.products, id);
            let rest = v.products.remove(id);
            assert(rest.dom() =~= Set::empty());
            assert(bucket_count(rest) == 0);
            law_a_product_is_bounded(v.products[id]);
        } else {
            lemma_cooled(v);
            let w = v.cooled();
            assert forall|a: KeyId| #[trigger] w.products.contains_key(a) implies w.products[a].wf() by {
                assert(v.products.contains_key(a));
            }
            lemma_budget_keeps_the_newest(w, id);
            let end = w.within_budget();
            assert forall|gone: KeyId, kept: KeyId| #[trigger]
                v.products.contains_key(gone) && !end.products.contains_key(gone)
                    && #[trigger] end.products.contains_key(
                    kept,
                ) implies v.products[gone].last_touch < v.products[kept].last_touch by {
                assert(end.products.dom().contains(kept));
                assert(w.products.contains_key(kept));
                assert(v.products.contains_key(kept));
                if gone != c {
                    assert(w.products.contains_key(gone));
                }
            }
        }
    }
}

/// The store after the print is in its product, before the budget is looked at.
spec fn grown(v: StoreView, id: KeyId, print: Print) -> StoreView {
    let t = v.touched(id);
    StoreView { products: t.products.insert(id, t.products[id].printed(print)), ..t }
}

proof fn lemma_grown(v: StoreView, id: KeyId, print: Print)
    requires
        v.wf(),
        v.clock < u64::MAX,
        v.products.contains_key(id) ==> !v.products[id].too_late(second_of(print)),
    ensures
        ({
            let g = grown(v, id, print);
            &&& g.products.dom().finite()
            &&& touches_ok(g.products, g.clock)
            &&& g.evicted + g.products.dom().len() <= g.clock
            &&& forall|a: KeyId| #[trigger] g.products.contains_key(a) ==> g.products[a].wf()
            &&& g.products.contains_key(id)
            &&& g.products[id].last_touch == g.clock
            &&& forall|a: KeyId| #[trigger]
                g.products.contains_key(a) && a != id ==> v.products.contains_key(a)
                    && g.products[a] == v.products[a]
        }),
{
    lemma_touched(v, id);
    let t = v.touched(id);
    lemma_printed_wf(t.products[id], print);
    let g = grown(v, id, print);
    assert(g.products.dom() =~= t.products.dom());
    assert(touches_ok(g.products, g.clock)) by {
        assert forall|a: KeyId, b: KeyId| #[trigger]
            g.products.contains_key(a) && #[trigger] g.products.contains_key(b) && a
                != b implies g.products[a].last_touch != g.products[b].last_touch by {
            assert(t.products.contains_key(a) && t.products.contains_key(b));
        }
        assert forall|a: KeyId| #[trigger] g.products.contains_key(a) implies g.products[a].last_touch
            <= g.clock by {
            assert(t.products.contains_key(a));
        }
    }
    assert forall|a: KeyId| #[trigger] g.products.contains_key(a) && a != id implies v.products.contains_key(a)
        && g.products[a] == v.products[a] by {
        assert(t.products.contains_key(a));
    }
}

/// A print that is taken is in its product afterwards: the product is the last to be evicted.
pub proof fn law_the_traded_product_is_kept(v: StoreView, id: KeyId, print: Print)
    requires
        v.wf(),
        v.clock < u64::MAX,
        v.products.contains_key(id) ==> !v.products[id].too_late(second_of(print)),
    ensures
        v.ingested(id, print).products.contains_key(id),
        v.ingested(id, print).products[id] == v.touched(id).products[id].printed(print),
        v.ingested(id, print).products[id].ring.last() == print,
        v.ingested(id, print).late_drops == v.late_drops,
{
    lemma_grown(v, id, print);
    lemma_budget_keeps_the_newest(grown(v, id, print), id);
    lemma_within_budget(grown(v, id, print));
    let ring = v.touched(id).products[id].ring.push(print);
    assert(ring.last() == print);
}

/// A print changes no other product than its own, but for those that it evicts.
pub proof fn law_a_print_leaves_other_products_alone(
    v: StoreView,
    id: KeyId,
    print: Print,
    other: KeyId,
)
    requires
        v.wf(),
        v.clock < u64::MAX,
        other != id,
        v.ingested(id, print).products.contains_key(other),
    ensures
        v.products.contains_key(other),
        v.ingested(id, print).products[other] == v.products[other],
{
    if !(v.products.contains_key(id) && v.products[id].too_late(second_of(print))) {
        lemma_grown(v, id, print);
        let g = grown(v, id, print);
        lemma_budget_keeps_the_newest(g, id);
        let w = v.ingested(id, print);
        assert(w.products.dom().contains(other));
        assert(g.products.contains_key(other));
    }
}

/// Whatever a print evicts was traded longer ago than all that stays.
pub proof fn law_the_coldest_goes_first(
    v: StoreView,
    id: KeyId,
    print: Print,
    gone: KeyId,
    kept: KeyId,
)
    requires
        v.wf(),
        v.clock < u64::MAX,
        v.products.contains_key(gone),
        !v.ingested(id, print).products.contains_key(gone),
        v.ingested(id, print).products.contains_key(kept),
        kept != id,
    ensures
        v.products.contains_key(kept),
        v.products[gone].last_touch < v.products[kept].last_touch,
{
    law_a_print_leaves_other_products_alone(v, id, print, kept);
    if !(v.products.contains_key(id) && v.products[id].too_late(second_of(print))) {
        lemma_grown(v, id, print);
        let g = grown(v, id, print);
        lemma_budget_keeps_the_newest(g, id);
        let w = v.ingested(id, print);
        assert(w.products.dom().contains(kept));
        assert(g.products.contains_key(kept));
        if g.products.contains_key(gone) {
            assert(gone != id);
            assert(v.products[gone] == g.products[gone]);
        } else {
            lemma_coldest(v.products, v.clock);
            let c = coldest(v.products);
            assert(gone == c) by {
                let t = v.touched(id);
                if gone != c || v.products.contains_key(id) || v.products.dom().len()
                    < MAX_PRODUCTS {
                    assert(t.products.contains_key(gone));
                }
            }
            assert(v.products[c].last_touch <= v.products[kept].last_touch);
            assert(kept != c);
        }
    }
}

/// A print changes the bucket of its own second alone; the others are as they were, or past the
/// window.
pub proof fn law_a_print_changes_one_bucket(p: ProductView, print: Print, k: u64)
    requires
        p.printed(print).buckets.contains_key(k),
    ensures
        k != second_of(print) ==> p.buckets.contains_key(k) && p.printed(print).buckets[k]
            == p.buckets[k],
        k == second_of(print) && p.buckets.contains_key(k) ==> p.printed(print).buckets[k]
            == p.buckets[k].widened(print),
        k == second_of(print) && !p.buckets.contains_key(k) ==> p.printed(print).buckets[k]
            == Bucket::opened(print),
{
}

/// A bucket that a print drops is older than the window that ends at the product's newest second.
pub proof fn law_only_aged_buckets_are_dropped(p: ProductView, print: Print, k: u64)
    requires
        p.buckets.contains_key(k),
        !p.printed(print).buckets.contains_key(k),
    ensures
        k < window_start(p.newest_with(second_of(print))),
{
}

/// The ring has the latest prints: it never loses one while there is room, and then the oldest.
pub proof fn law_the_ring_has_the_latest_prints(p: ProductView, print: Print)
    requires
        p.ring.len() <= crate::history::TRADE_RING,
    ensures
        p.printed(print).ring == (if p.ring.len() < crate::history::TRADE_RING {
            p.ring.push(print)
        } else {
            p.ring.drop_first().push(print)
        }),
{
    if p.ring.len() == crate::history::TRADE_RING {
        assert(p.ring.push(print).drop_first() =~= p.ring.drop_first().push(print));
    }
}

/// The entries that a query is served from are in order of their seconds, and inside the window that
/// ends now.
pub proof fn lemma_entries(v: StoreView, id: KeyId, now_secs: u64)
    requires
        v.wf(),
    ensures
        rising(v.entries(id, now_secs)),
        forall|i: int|
            0 <= i < v.entries(id, now_secs).len() ==> window_start(now_secs) <= (
            #[trigger] v.entries(id, now_secs)[i]).0 < now_secs,
        v.products.contains_key(id) ==> forall|i: int|
            0 <= i < v.entries(id, now_secs).len() ==> v.products[id].buckets.contains_key(
                (#[trigger] v.entries(id, now_secs)[i]).0,
            ) && v.products[id].buckets[v.entries(id, now_secs)[i].0] == v.entries(
                id,
                now_secs,
            )[i].1,
        v.products.contains_key(id) ==> forall|k: u64| #[trigger]
            v.products[id].buckets.contains_key(k) && window_start(now_secs) <= k < now_secs
                ==> exists|i: int|
                0 <= i < v.entries(id, now_secs).len() && (#[trigger] v.entries(
                    id,
                    now_secs,
                )[i]).0 == k,
{
    if v.products.contains_key(id) {
        let all = v.products[id].buckets;
        let m = served(all, now_secs);
        assert(m.dom().subset_of(all.dom()));
        vstd::set_lib::lemma_len_subset(m.dom(), all.dom());
        lemma_listing_len(m);
        let s = v.entries(id, now_secs);
        assert forall|i: int| 0 <= i < s.len() implies window_start(now_secs) <= (
        #[trigger] s[i]).0 < now_secs && all.contains_key(s[i].0) && all[s[i].0] == s[i].1 by {
            assert(m.contains_key(s[i].0) && m[s[i].0] == s[i].1);
        }
        assert forall|k: u64| #[trigger]
            all.contains_key(k) && window_start(now_secs) <= k < now_secs implies exists|i: int|
            0 <= i < s.len() && (#[trigger] s[i]).0 == k by {
            assert(m.contains_key(k));
        }
    }
}

proof fn lemma_group_grows(a: u64, b: u64, grain: u64)
    requires
        grain > 0,
        a <= b,
    ensures
        group_start(a, grain) <= group_start(b, grain),
{
    lemma_group(a, grain);
    lemma_group(b, grain);
    let x = a as int;
    let y = b as int;
    let g = grain as int;
    assert(x / g * g <= y / g * g) by (nonlinear_arith)
        requires
            0 <= x <= y,
            g > 0,
    ;
}

/// A candle of a roll-up stands for the buckets of its interval: `at` is the position of the candle
/// that the entry at `i` went into.
spec fn went_into(s: Seq<(u64, Bucket)>, grain: u64, i: int, at: int) -> bool {
    let c = rolled(s, grain)[at];
    &&& 0 <= at < rolled(s, grain).len()
    &&& c.start == group_start(s[i].0, grain)
    &&& c.low <= s[i].1.low
    &&& s[i].1.high <= c.high
    &&& (i == 0 || group_start(s[i - 1].0, grain) != c.start) ==> c.open == s[i].1.open
    &&& (i == s.len() - 1 || group_start(s[i + 1].0, grain) != c.start) ==> c.close == s[i].1.close
}

/// Candles have rising starts, each that of some entry.
pub proof fn lemma_rolled(s: Seq<(u64, Bucket)>, grain: u64)
    requires
        rising(s),
        grain > 0,
    ensures
        forall|i: int, j: int|
            0 <= i < j < rolled(s, grain).len() ==> (#[trigger] rolled(s, grain)[i]).start < (
            #[trigger] rolled(s, grain)[j]).start,
        rolled(s, grain).len() <= s.len(),
        s.len() > 0 ==> rolled(s, grain).len() > 0 && rolled(s, grain).last().start == group_start(
            s.last().0,
            grain,
        ),
        forall|at: int|
            0 <= at < rolled(s, grain).len() ==> exists|i: int|
                0 <= i < s.len() && #[trigger] group_start(s[i].0, grain) == (
                #[trigger] rolled(s, grain)[at]).start,
    decreases s.len(),
{
    if s.len() > 0 {
        let t = s.drop_last();
        lemma_rolled(t, grain);
        let done = rolled(t, grain);
        let now = rolled(s, grain);
        let start = group_start(s.last().0, grain);
        if t.len() > 0 {
            assert(t.last() == s[s.len() - 2]);
            lemma_group_grows(t.last().0, s.last().0, grain);
        }
        let joins = done.len() > 0 && done.last().start == start;
        assert forall|i: int, j: int| 0 <= i < j < now.len() implies (#[trigger] now[i]).start < (
        #[trigger] now[j]).start by {
            assert(now[i].start == done[i].start);
            if joins || j < done.len() {
                assert(now[j].start == done[j].start);
            } else {
                assert(done[i].start <= done.last().start);
            }
        }
        assert forall|at: int| 0 <= at < now.len() implies exists|i: int|
            0 <= i < s.len() && #[trigger] group_start(s[i].0, grain) == (
            #[trigger] now[at]).start by {
            if at < done.len() {
                assert(now[at].start == done[at].start);
                let i = choose|i: int|
                    0 <= i < t.len() && #[trigger] group_start(t[i].0, grain) == done[at].start;
                assert(s[i] == t[i]);
                assert(group_start(s[i].0, grain) == now[at].start);
            } else {
                assert(group_start(s[s.len() - 1].0, grain) == now[at].start);
            }
        }
    }
}

proof fn lemma_entry_in_candle(s: Seq<(u64, Bucket)>, grain: u64, i: int) -> (at: int)
    requires
        rising(s),
        grain > 0,
        0 <= i < s.len(),
    ensures
        went_into(s, grain, i, at),
        i == s.len() - 1 ==> at == rolled(s, grain).len() - 1,
    decreases s.len(),
{
    let t = s.drop_last();
    let done = rolled(t, grain);
    let now = rolled(s, grain);
    lemma_rolled(t, grain);
    lemma_rolled(s, grain);
    let start = group_start(s.last().0, grain);
    let joins = done.len() > 0 && done.last().start == start;
    if i == s.len() - 1 {
        if i > 0 {
            assert(t.last() == s[i - 1]);
            if joins {
                assert(group_start(s[i - 1].0, grain) == start);
            }
        }
        now.len() - 1
    } else {
        let at = lemma_entry_in_candle(t, grain, i);
        assert(t[i] == s[i]);
        if i > 0 {
            assert(t[i - 1] == s[i - 1]);
        }
        if joins && at == done.len() - 1 {
            assert(done[at].start == start);
            assert(now[at] == done[at].joined(s.last().1));
            if i < t.len() - 1 {
                assert(t[i + 1] == s[i + 1]);
                lemma_group_grows(s[i].0, s[i + 1].0, grain);
                lemma_group_grows(s[i + 1].0, s.last().0, grain);
                assert(group_start(s[i + 1].0, grain) == start);
            } else {
                assert(s[i + 1] == s.last());
            }
        } else {
            assert(now[at] == done[at]);
            if i < t.len() - 1 {
                assert(t[i + 1] == s[i + 1]);
            }
        }
        at
    }
}

/// Candles come newest first, one per interval.
pub proof fn law_candles_are_newest_first(
    v: StoreView,
    id: KeyId,
    granularity_secs: u64,
    now_secs: u64,
    i: int,
    j: int,
)
    requires
        v.wf(),
        0 <= i < j < v.rollup(id, granularity_secs, now_secs).len(),
    ensures
        v.rollup(id, granularity_secs, now_secs)[i].start > v.rollup(
            id,
            granularity_secs,
            now_secs,
        )[j].start,
{
    lemma_entries(v, id, now_secs);
    let s = v.entries(id, now_secs);
    let g = crate::history::grain(granularity_secs);
    lemma_rolled(s, g);
    let all = rolled(s, g);
    assert(all.reverse()[i] == all[all.len() - 1 - i]);
    assert(all.reverse()[j] == all[all.len() - 1 - j]);
}

/// There is no candle without a bucket: every candle starts the interval of some closed second that
/// traded inside the window that ends now.
pub proof fn law_empty_intervals_have_no_candle(
    v: StoreView,
    id: KeyId,
    granularity_secs: u64,
    now_secs: u64,
    at: int,
) -> (k: u64)
    requires
        v.wf(),
        0 <= at < v.rollup(id, granularity_secs, now_secs).len(),
    ensures
        v.products.contains_key(id),
        v.products[id].buckets.contains_key(k),
        window_start(now_secs) <= k < now_secs,
        v.rollup(id, granularity_secs, now_secs)[at].start == group_start(
            k,
            crate::history::grain(granularity_secs),
        ),
{
    lemma_entries(v, id, now_secs);
    let s = v.entries(id, now_secs);
    let g = crate::history::grain(granularity_secs);
    lemma_rolled(s, g);
    let all = rolled(s, g);
    let back = all.len() - 1 - at;
    assert(all.reverse()[at] == all[back]);
    let i = choose|i: int| 0 <= i < s.len() && #[trigger] group_start(s[i].0, g) == all[back].start;
    s[i].0
}

/// Every closed second of the window that traded is in a candle: the one that starts its interval,
/// whose range covers the second's, which opens with the interval's first second and closes with its
/// last.
pub proof fn law_every_second_is_in_its_candle(
    v: StoreView,
    id: KeyId,
    granularity_secs: u64,
    now_secs: u64,
    k: u64,
) -> (at: int)
    requires
        v.wf(),
        v.products.contains_key(id),
        v.products[id].buckets.contains_key(k),
        window_start(now_secs) <= k < now_secs,
    ensures
        0 <= at < v.rollup(id, granularity_secs, now_secs).len(),
        ({
            let g = crate::history::grain(granularity_secs);
            let c = v.rollup(id, granularity_secs, now_secs)[at];
            let b = v.products[id].buckets;
            &&& c.start == group_start(k, g)
            &&& c.low <= b[k].low
            &&& b[k].high <= c.high
            &&& (forall|o: u64| #[trigger]
                b.contains_key(o) && window_start(now_secs) <= o < k ==> group_start(o, g)
                    != c.start) ==> c.open == b[k].open
            &&& (forall|o: u64| #[trigger]
                b.contains_key(o) && k < o < now_secs ==> group_start(o, g) != c.start) ==> c.close
                == b[k].close
        }),
{
    lemma_entries(v, id, now_secs);
    let s = v.entries(id, now_secs);
    let g = crate::history::grain(granularity_secs);
    let i = choose|i: int| 0 <= i < s.len() && (#[trigger] s[i]).0 == k;
    let back = lemma_entry_in_candle(s, g, i);
    let all = rolled(s, g);
    assert(all.reverse()[all.len() - 1 - back] == all[back]);
    let b = v.products[id].buckets;
    assert(b[k] == s[i].1);
    if i > 0 {
        assert(s[i - 1].0 < s[i].0);
        assert(b.contains_key(s[i - 1].0));
    }
    if i < s.len() - 1 {
        assert(s[i].0 < s[i + 1].0);
        assert(b.contains_key(s[i + 1].0));
    }
    all.len() - 1 - back
}

/// A second's candle is its bucket.
pub proof fn law_one_second_candles_are_the_buckets(s: Seq<(u64, Bucket)>, i: int)
    requires
        rising(s),
        0 <= i < s.len(),
    ensures
        rolled(s, 1).len() == s.len(),
        rolled(s, 1)[i] == Candle::of(s[i].0, s[i].1),
    decreases s.len(),
{
    let t = s.drop_last();
    lemma_group(s.last().0, 1);
    let done = rolled(t, 1);
    assert(group_start(s.last().0, 1) == s.last().0);
    if t.len() > 0 {
        law_one_second_candles_are_the_buckets(t, t.len() - 1);
        assert(t.last() == s[s.len() - 2]);
        assert(t.last().0 < s.last().0);
        assert(done.last() == done[t.len() - 1]);
        assert(done.last().start != group_start(s.last().0, 1));
        if i < s.len() - 1 {
            law_one_second_candles_are_the_buckets(t, i);
            assert(t[i] == s[i]);
        }
    }
}

/// A limit cuts the oldest candles, and whether it did is what the retention says.
pub proof fn law_a_limit_cuts_the_tail(all: Seq<Candle>, limit: usize)
    ensures
        at_most(all, limit).len() <= limit,
        at_most(all, limit) == all.take(at_most(all, limit).len() as int),
        at_most(all, limit).len() < all.len() <==> all.len() > limit,
{
    assert(all.take(all.len() as int) =~= all);
}

/// A forgotten channel leaves nothing behind, every other product is as it was, and forgetting it
/// again changes nothing.
pub proof fn law_a_forgotten_channel_is_gone(
    v: StoreView,
    source_id: u16,
    category: Seq<char>,
    channel: u8,
    id: KeyId,
)
    ensures
        ({
            let w = v.channel_gone(source_id, category, channel);
            &&& in_channel(source_id, category, channel).contains(id) ==> !w.products.contains_key(
                id,
            )
            &&& !in_channel(source_id, category, channel).contains(id) ==> {
                &&& w.products.contains_key(id) == v.products.contains_key(id)
                &&& v.products.contains_key(id) ==> w.products[id] == v.products[id]
            }
            &&& w.channel_gone(source_id, category, channel) == w
        }),
{
    let w = v.channel_gone(source_id, category, channel);
    assert(w.channel_gone(source_id, category, channel).products =~= w.products);
}

/// The products of `v` that `w` no longer has.
pub open spec fn left(v: StoreView, w: StoreView) -> Set<KeyId> {
    v.products.dom().difference(w.products.dom())
}

proof fn lemma_budget_counts(v: StoreView)
    requires
        v.products.dom().finite(),
        touches_ok(v.products, v.clock),
        v.evicted + v.products.dom().len() <= v.clock,
        forall|a: KeyId| #[trigger] v.products.contains_key(a) ==> v.products[a].wf(),
    ensures
        v.within_budget().evicted == v.evicted + left(v, v.within_budget()).len(),
    decreases v.products.dom().len(),
{
    let w = v.within_budget();
    if bucket_count(v.products) > MAX_BUCKETS_ACROSS_PRODUCTS {
        if v.products.dom().len() == 0 {
            assert(bucket_count(v.products) == 0);
        }
        lemma_coldest(v.products, v.clock);
        lemma_cooled(v);
        let c = coldest(v.products);
        let x = v.cooled();
        assert forall|a: KeyId| #[trigger] x.products.contains_key(a) implies x.products[a].wf() by {
            assert(v.products.contains_key(a));
        }
        lemma_budget_counts(x);
        lemma_within_budget(x);
        assert(!w.products.dom().contains(c)) by {
            if w.products.dom().contains(c) {
                assert(x.products.dom().contains(c));
            }
        }
        assert(left(v, w) =~= left(x, w).insert(c));
    } else {
        assert(left(v, w) =~= Set::empty());
    }
}

/// Every product that a print makes leave is counted once as evicted, and nothing else is.
pub proof fn law_evictions_are_counted(v: StoreView, id: KeyId, print: Print)
    requires
        v.wf(),
        v.clock < u64::MAX,
    ensures
        v.ingested(id, print).evicted == v.evicted + left(v, v.ingested(id, print)).len(),
{
    let w = v.ingested(id, print);
    if v.products.contains_key(id) && v.products[id].too_late(second_of(print)) {
        assert(left(v, w) =~= Set::empty());
    } else {
        let g = grown(v, id, print);
        lemma_grown(v, id, print);
        lemma_budget_counts(g);
        lemma_budget_keeps_the_newest(g, id);
        lemma_within_budget(g);
        assert forall|a: KeyId| w.products.dom().contains(a) implies g.products.dom().contains(a) by {}
        if !v.products.contains_key(id) && v.products.dom().len() >= MAX_PRODUCTS {
            lemma_coldest(v.products, v.clock);
            lemma_cooled(v);
            let c = coldest(v.products);
            assert(g.evicted == v.evicted + 1);
            assert(!g.products.dom().contains(c));
            assert(left(v, w) =~= left(g, w).insert(c));
        } else {
            assert(g.products.dom() =~= v.products.dom().insert(id));
            assert(left(v, w) =~= left(g, w));
        }
    }
}

/// One call that changes the store.
pub enum Call {
    Ingest { id: KeyId, print: Print },
    ForgetChannel { source_id: u16, category: Seq<char>, channel: u8 },
}

impl StoreView {
    /// The store after one call.
    pub open spec fn called(self, c: Call) -> Self {
        match c {
            Call::Ingest { id, print } => self.ingested(id, print),
            Call::ForgetChannel { source_id, category, channel } => {
                self.channel_gone(source_id, category, channel)
            },
        }
    }

    /// A new store after a run of calls.
    pub open spec fn after(calls: Seq<Call>) -> Self
        decreases calls.len(),
    {
        if calls.len() == 0 {
            StoreView::fresh()
        } else {
            StoreView::after(calls.drop_last()).called(calls.last())
        }
    }
}

/// How many products the prints of a run made leave.
pub open spec fn evictions(calls: Seq<Call>) -> nat
    decreases calls.len(),
{
    if calls.len() == 0 {
        0
    } else {
        evictions(calls.drop_last()) + match calls.last() {
            Call::Ingest { .. } => left(
                StoreView::after(calls.drop_last()),
                StoreView::after(calls),
            ).len(),
            Call::ForgetChannel { .. } => 0,
        }
    }
}

proof fn lemma_channel_gone_wf(v: StoreView, gone: Set<KeyId>)
    requires
        v.wf(),
    ensures
        (StoreView { products: v.products.remove_keys(gone), ..v }).wf(),
{
    let w = StoreView { products: v.products.remove_keys(gone), ..v };
    let q = w.products;
    assert(q.dom() =~= v.products.dom().difference(gone));
    vstd::set_lib::lemma_len_subset(q.dom(), v.products.dom());
    lemma_count_submap(q, v.products);
    assert forall|a: KeyId, b: KeyId| #[trigger]
        q.contains_key(a) && #[trigger] q.contains_key(b) && a != b implies q[a].last_touch
        != q[b].last_touch by {
        assert(v.products.contains_key(a) && v.products.contains_key(b));
    }
    assert forall|a: KeyId| #[trigger] q.contains_key(a) implies q[a].last_touch <= v.clock
        && q[a].wf() by {
        assert(v.products.contains_key(a));
    }
}

proof fn lemma_count_submap(a: Map<KeyId, ProductView>, b: Map<KeyId, ProductView>)
    requires
        a.submap_of(b),
        b.dom().finite(),
    ensures
        bucket_count(a) <= bucket_count(b),
    decreases b.dom().len(),
{
    vstd::set_lib::lemma_len_subset(a.dom(), b.dom());
    if b.dom().len() > 0 {
        let id = b.dom().choose();
        assert(b.contains_key(id));
        let rest = b.remove(id);
        assert(rest.dom() =~= b.dom().remove(id));
        if a.contains_key(id) {
            assert(a.dom().contains(id));
            lemma_count_without(a, id);
            assert(a.remove(id).submap_of(rest)) by {
                assert forall|k: KeyId| #[trigger] a.remove(id).dom().contains(k) implies rest.dom().contains(k)
                    && a.remove(id)[k] == rest[k] by {
                    assert(a.dom().contains(k));
                }
            }
            lemma_count_submap(a.remove(id), rest);
        } else {
            assert(a.submap_of(rest)) by {
                assert forall|k: KeyId| #[trigger] a.dom().contains(k) implies rest.dom().contains(k)
                    && a[k] == rest[k] by {
                    assert(b.dom().contains(k));
                    assert(k != id);
                }
            }
            lemma_count_submap(a, rest);
        }
    }
}

/// Whatever prints and forgotten channels a store has seen, it is within its bounds: so many products,
/// so many buckets over all of them, so many prints and seconds per product; and every product that
/// left to make room was counted once.
pub proof fn law_a_run_stays_within_its_bounds(calls: Seq<Call>)
    requires
        calls.len() < u64::MAX,
    ensures
        ({
            let v = StoreView::after(calls);
            &&& v.wf()
            &&& v.products.dom().len() <= MAX_PRODUCTS
            &&& bucket_count(v.products) <= MAX_BUCKETS_ACROSS_PRODUCTS
            &&& forall|id: KeyId| #[trigger]
                v.products.contains_key(id) ==> v.products[id].ring.len() <= TRADE_RING
                    && v.products[id].buckets.dom().len() <= WINDOW_SECS + 1
            &&& v.evicted == evictions(calls)
            &&& v.clock + v.late_drops <= calls.len()
        }),
    decreases calls.len(),
{
    let v = StoreView::after(calls);
    if calls.len() > 0 {
        law_a_run_stays_within_its_bounds(calls.drop_last());
        let was = StoreView::after(calls.drop_last());
        match calls.last() {
            Call::Ingest { id, print } => {
                law_the_store_stays_within_its_bounds(was, id, print);
                law_evictions_are_counted(was, id, print);
                if !(was.products.contains_key(id) && was.products[id].too_late(
                    second_of(print),
                )) {
                    lemma_grown(was, id, print);
                    lemma_within_budget(grown(was, id, print));
                }
            },
            Call::ForgetChannel { source_id, category, channel } => {
                lemma_channel_gone_wf(was, in_channel(source_id, category, channel));
            },
        }
    } else {
        assert(bucket_count(v.products) == 0);
    }
    assert forall|id: KeyId| #[trigger] v.products.contains_key(id) implies v.products[id].ring.len()
        <= TRADE_RING && v.products[id].buckets.dom().len() <= WINDOW_SECS + 1 by {
        law_a_product_is_bounded(v.products[id]);
    }
}

/// Whatever a store has seen, its next print that is not late leaves its product held, with the print
/// the latest of its ring; the others stay as they are or leave whole, and each that leaves was traded
/// longer ago than each that stays, and is counted once.
pub proof fn law_the_next_print_of_a_run(
    calls: Seq<Call>,
    id: KeyId,
    print: Print,
    gone: KeyId,
    kept: KeyId,
)
    requires
        calls.len() < u64::MAX,
    ensures
        ({
            let v = StoreView::after(calls);
            let w = v.ingested(id, print);
            let late = v.products.contains_key(id) && v.products[id].too_late(second_of(print));
            &&& w == StoreView::after(calls.push(Call::Ingest { id, print }))
            &&& !late ==> w.products.contains_key(id) && w.products[id].ring.last() == print
            &&& late ==> w.products == v.products && w.evicted == v.evicted
            &&& w.evicted == v.evicted + left(v, w).len()
            &&& w.products.contains_key(kept) && kept != id ==> v.products.contains_key(kept)
                && w.products[kept] == v.products[kept]
            &&& left(v, w).contains(gone) && w.products.contains_key(kept) && kept != id
                ==> v.products[gone].last_touch < v.products[kept].last_touch
        }),
{
    law_a_run_stays_within_its_bounds(calls);
    let v = StoreView::after(calls);
    let w = v.ingested(id, print);
    assert(calls.push(Call::Ingest { id, print }).drop_last() =~= calls);
    law_evictions_are_counted(v, id, print);
    if !(v.products.contains_key(id) && v.products[id].too_late(second_of(print))) {
        law_the_traded_product_is_kept(v, id, print);
    }
    if w.products.contains_key(kept) && kept != id {
        law_a_print_leaves_other_products_alone(v, id, print, kept);
        if left(v, w).contains(gone) {
            law_the_coldest_goes_first(v, id, print, gone, kept);
        }
    }
}

} // verus!
