//! What buckets and candles say of the prints that went into them.

use crate::history::{
    bucket_count, coldest, group_start, is_coldest, lemma_coldest, lemma_cooled, lemma_count_with,
    lemma_count_without, lemma_group, lemma_touched, rising, rolled, touches_ok, Bucket, Candle, KeyId,
    Print, ProductView, StoreView,
};
use crate::history_laws::{
    law_a_print_leaves_other_products_alone, law_a_run_stays_within_its_bounds,
    law_the_traded_product_is_kept, left, lemma_entries, lemma_rolled, Call,
};
use vstd::prelude::*;

verus! {

/// The total of the sizes.
pub open spec fn total(prints: Seq<Print>) -> int
    decreases prints.len(),
{
    if prints.len() == 0 {
        0
    } else {
        total(prints.drop_last()) + prints.last().size
    }
}

/// The running total of the sizes never leaves the numbers that can be written.
pub open spec fn total_fits(prints: Seq<Print>) -> bool
    decreases prints.len(),
{
    prints.len() > 0 ==> total_fits(prints.drop_last()) && i128::MIN <= total(prints) <= i128::MAX
}

/// The bucket is that of the prints, in the order in which they came: it opens with the first and
/// closes with the last, its high is the largest of their prices and its low the smallest, and its
/// volume is the total of their sizes.
pub open spec fn sums_up(b: Bucket, prints: Seq<Print>) -> bool {
    &&& prints.len() > 0
    &&& b.open == prints[0].price
    &&& b.close == prints[prints.len() - 1].price
    &&& forall|i: int| 0 <= i < prints.len() ==> (#[trigger] prints[i]).price <= b.high
    &&& exists|i: int| 0 <= i < prints.len() && (#[trigger] prints[i]).price == b.high
    &&& forall|i: int| 0 <= i < prints.len() ==> b.low <= (#[trigger] prints[i]).price
    &&& exists|i: int| 0 <= i < prints.len() && (#[trigger] prints[i]).price == b.low
    &&& total_fits(prints) ==> b.volume == total(prints)
}

proof fn lemma_total_push(prints: Seq<Print>, print: Print)
    ensures
        total(prints.push(print)) == total(prints) + print.size,
        total_fits(prints.push(print)) <==> total_fits(prints) && i128::MIN <= total(prints)
            + print.size <= i128::MAX,
{
    assert(prints.push(print).drop_last() =~= prints);
}

/// A print opens a bucket that sums up that print, and added to a bucket that sums up other prints
/// makes it sum up those and this one.
pub proof fn law_a_bucket_sums_up_its_prints(b: Bucket, prints: Seq<Print>, print: Print)
    ensures
        sums_up(Bucket::opened(print), seq![print]),
        sums_up(b, prints) ==> sums_up(b.widened(print), prints.push(print)),
{
    let one = seq![print];
    lemma_total_push(Seq::empty(), print);
    assert(Seq::<Print>::empty().push(print) =~= one);
    assert(one[0] == print);
    assert(sums_up(Bucket::opened(print), one));
    if sums_up(b, prints) {
        let all = prints.push(print);
        let n = prints.len() as int;
        let w = b.widened(print);
        lemma_total_push(prints, print);
        let hi = choose|i: int| 0 <= i < prints.len() && (#[trigger] prints[i]).price == b.high;
        let lo = choose|i: int| 0 <= i < prints.len() && (#[trigger] prints[i]).price == b.low;
        assert(all[hi] == prints[hi] && all[lo] == prints[lo] && all[n] == print);
        assert forall|i: int| 0 <= i < all.len() implies (#[trigger] all[i]).price <= w.high && w.low
            <= all[i].price by {
            if i < n {
                assert(all[i] == prints[i]);
            }
        }
        if b.high < print.price {
            assert(all[n].price == w.high);
        } else {
            assert(all[hi].price == w.high);
        }
        if print.price < b.low {
            assert(all[n].price == w.low);
        } else {
            assert(all[lo].price == w.low);
        }
    }
}

/// The prints of one second.
pub open spec fn of_second(prints: Seq<Print>, sec: u64) -> Seq<Print> {
    prints.filter(|p: Print| p.ts_ns / 1_000_000_000 == sec)
}

/// The product is that of the prints it has taken, in the order in which they came: its newest
/// second is the latest of theirs; it has the bucket of each second of theirs that is no more than
/// an hour before the newest, which sums up the prints of that second, and no other; and its ring
/// is the last thousand of them.
pub open spec fn accounts_for(p: ProductView, prints: Seq<Print>) -> bool {
    &&& p.newest is Some
    &&& forall|i: int|
        0 <= i < prints.len() ==> (#[trigger] prints[i]).ts_ns / 1_000_000_000 <= p.newest->0
    &&& exists|i: int|
        0 <= i < prints.len() && (#[trigger] prints[i]).ts_ns / 1_000_000_000 == p.newest->0
    &&& forall|sec: u64| #[trigger]
        p.buckets.contains_key(sec) <==> of_second(prints, sec).len() > 0 && sec + 3600
            >= p.newest->0
    &&& forall|sec: u64| #[trigger]
        p.buckets.contains_key(sec) ==> sums_up(p.buckets[sec], of_second(prints, sec))
    &&& p.ring == (if prints.len() <= 1000 {
        prints
    } else {
        prints.subrange(prints.len() - 1000, prints.len() as int)
    })
}

proof fn lemma_of_second_push(prints: Seq<Print>, print: Print, sec: u64)
    ensures
        of_second(prints.push(print), sec) == (if print.ts_ns / 1_000_000_000 == sec {
            of_second(prints, sec).push(print)
        } else {
            of_second(prints, sec)
        }),
{
    reveal(Seq::filter);
    assert(prints.push(print).drop_last() =~= prints);
}

/// A product that never traded has its first print alone afterwards; and a product that accounts
/// for the prints it has taken accounts for one more when it is given one that is no more than an
/// hour older than its newest second.
pub proof fn law_a_product_accounts_for_its_prints(p: ProductView, prints: Seq<Print>, print: Print)
    ensures
        p.newest is None && p.buckets == Map::<u64, Bucket>::empty() && p.ring.len() == 0
            ==> accounts_for(p.printed(print), seq![print]),
        accounts_for(p, prints) && print.ts_ns / 1_000_000_000 + 3600 >= p.newest->0 ==> accounts_for(
            p.printed(print),
            prints.push(print),
        ),
{
    let q = p.printed(print);
    let s = print.ts_ns / 1_000_000_000;
    let had = if p.newest is None {
        Seq::empty()
    } else {
        prints
    };
    let all = had.push(print);
    assert(p.newest is None ==> all =~= seq![print]);
    let first = p.newest is None && p.buckets == Map::<u64, Bucket>::empty() && p.ring.len() == 0;
    if first || (accounts_for(p, prints) && s + 3600 >= p.newest->0) {
        let n = q.newest->0;
        let last = had.len() as int;
        assert(all[last] == print);
        reveal(Seq::filter);
        assert forall|i: int| 0 <= i < all.len() implies (#[trigger] all[i]).ts_ns / 1_000_000_000
            <= n by {
            if i < last {
                assert(all[i] == had[i]);
            }
        }
        if n == s {
            assert(all[last].ts_ns / 1_000_000_000 == n);
        } else {
            let i = choose|i: int|
                0 <= i < prints.len() && (#[trigger] prints[i]).ts_ns / 1_000_000_000 == p.newest->0;
            assert(all[i] == prints[i]);
        }
        assert forall|sec: u64| #[trigger]
            q.buckets.contains_key(sec) <==> of_second(all, sec).len() > 0 && sec + 3600 >= n by {
            lemma_of_second_push(had, print, sec);
            if !first {
                assert(p.buckets.contains_key(sec) <==> of_second(prints, sec).len() > 0 && sec + 3600
                    >= p.newest->0);
            }
        }
        assert forall|sec: u64| #[trigger] q.buckets.contains_key(sec) implies sums_up(
            q.buckets[sec],
            of_second(all, sec),
        ) by {
            lemma_of_second_push(had, print, sec);
            if sec == s {
                if first || !p.buckets.contains_key(sec) {
                    law_a_bucket_sums_up_its_prints(q.buckets[sec], Seq::empty(), print);
                    assert(of_second(had, sec) =~= Seq::empty());
                    assert(of_second(all, sec) =~= seq![print]);
                } else {
                    law_a_bucket_sums_up_its_prints(p.buckets[sec], of_second(had, sec), print);
                }
            } else {
                assert(p.buckets.contains_key(sec));
            }
        }
        assert(q.ring =~= (if all.len() <= 1000 {
            all
        } else {
            all.subrange(all.len() - 1000, all.len() as int)
        }));
    }
}

/// The prints of a product that a run of calls has left it with: those that were taken since it was
/// last new, in order. One more than an hour older than the product's newest second is not taken.
pub open spec fn taken(calls: Seq<Call>, id: KeyId) -> Seq<Print>
    decreases calls.len(),
{
    if calls.len() == 0 || !StoreView::after(calls).products.contains_key(id) {
        Seq::empty()
    } else {
        let was = StoreView::after(calls.drop_last());
        let before = taken(calls.drop_last(), id);
        match calls.last() {
            Call::Ingest { id: of, print } => if of != id || (was.products.contains_key(id)
                && print.ts_ns / 1_000_000_000 + 3600 < was.products[id].newest->0) {
                before
            } else {
                before.push(print)
            },
            Call::ForgetChannel { .. } => before,
        }
    }
}

/// Whatever calls are made on a store, each product that it has accounts for the prints that it has
/// taken since it was last new.
pub proof fn law_products_account_for_their_prints_in_every_run(calls: Seq<Call>, id: KeyId)
    requires
        calls.len() < u64::MAX,
    ensures
        StoreView::after(calls).products.contains_key(id) ==> accounts_for(
            StoreView::after(calls).products[id],
            taken(calls, id),
        ),
    decreases calls.len(),
{
    if calls.len() > 0 && StoreView::after(calls).products.contains_key(id) {
        let before = calls.drop_last();
        law_products_account_for_their_prints_in_every_run(before, id);
        law_a_run_stays_within_its_bounds(before);
        let was = StoreView::after(before);
        let now = StoreView::after(calls);
        match calls.last() {
            Call::Ingest { id: of, print } => {
                let sec = print.ts_ns / 1_000_000_000;
                if of != id {
                    law_a_print_leaves_other_products_alone(was, of, print, id);
                } else if was.products.contains_key(id) && sec + 3600 < was.products[id].newest->0 {
                    assert(was.products[id].wf());
                    assert(now.products == was.products);
                } else {
                    if was.products.contains_key(id) {
                        assert(was.products[id].wf());
                    }
                    law_the_traded_product_is_kept(was, id, print);
                    lemma_touched(was, id);
                    let p = was.touched(id).products[id];
                    law_a_product_accounts_for_its_prints(p, taken(before, id), print);
                    if was.products.contains_key(id) {
                        assert(accounts_for(p, taken(before, id)));
                    } else {
                        lemma_taken_of_none(before, id);
                        assert(taken(calls, id) =~= seq![print]);
                    }
                }
            },
            Call::ForgetChannel { .. } => {
                assert(was.products.contains_key(id));
            },
        }
    }
}

proof fn lemma_taken_of_none(calls: Seq<Call>, id: KeyId)
    requires
        !StoreView::after(calls).products.contains_key(id),
    ensures
        taken(calls, id) == Seq::<Print>::empty(),
{
}

/// A print makes no product leave while there are fewer than 8,192 of them or its own is among
/// them, and fewer than 1,048,576 buckets.
pub proof fn law_nothing_leaves_while_there_is_room(v: StoreView, id: KeyId, print: Print)
    requires
        v.wf(),
        v.clock < u64::MAX,
        v.products.contains_key(id) || v.products.dom().len() < 8192,
        bucket_count(v.products) < 1_048_576,
    ensures
        left(v, v.ingested(id, print)) == Set::<KeyId>::empty(),
        v.ingested(id, print).evicted == v.evicted,
{
    let w = v.ingested(id, print);
    if !(v.products.contains_key(id) && v.products[id].too_late(
        crate::history::second_of(print),
    )) {
        lemma_touched(v, id);
        let t = v.touched(id);
        let p = t.products[id];
        let q = p.printed(print);
        let g = t.products.insert(id, q);
        assert(t.products.remove(id) =~= v.products.remove(id)) by {
            assert forall|a: KeyId| a != id implies (#[trigger] t.products.contains_key(a)
                <==> v.products.contains_key(a)) by {}
        }
        lemma_count_with(t.products, id, q);
        if v.products.contains_key(id) {
            lemma_count_without(v.products, id);
            assert(v.products[id].wf());
        } else {
            assert(v.products.remove(id) =~= v.products);
        }
        let sec = crate::history::second_of(print);
        assert(q.buckets.dom().subset_of(p.buckets.dom().insert(sec)));
        vstd::set_lib::lemma_len_subset(q.buckets.dom(), p.buckets.dom().insert(sec));
        assert(bucket_count(g) <= 1_048_576);
        assert(w.products == g);
    }
    assert(left(v, w) =~= Set::<KeyId>::empty());
}

/// No more products leave for the buckets' sake than must: with the last of them to have traded,
/// there would be more than 1,048,576 buckets still.
pub proof fn law_no_more_leave_than_must(v: StoreView, last: KeyId)
    requires
        v.products.dom().finite(),
        touches_ok(v.products, v.clock),
        v.evicted + v.products.dom().len() <= v.clock,
        v.products.contains_key(last),
        !v.within_budget().products.contains_key(last),
        forall|o: KeyId| #[trigger]
            v.products.contains_key(o) && !v.within_budget().products.contains_key(o)
                ==> v.products[o].last_touch <= v.products[last].last_touch,
    ensures
        bucket_count(v.within_budget().products) + v.products[last].buckets.dom().len() > 1_048_576,
    decreases v.products.dom().len(),
{
    let over = bucket_count(v.products) > 1_048_576;
    lemma_coldest(v.products, v.clock);
    let c = coldest(v.products);
    if over {
        let w = v.cooled();
        let end = w.within_budget();
        assert(v.within_budget() == end);
        lemma_cooled(v);
        lemma_count_without(v.products, c);
        assert(w.products.dom() =~= v.products.dom().remove(c));
        assert(touches_ok(w.products, w.clock)) by {
            assert forall|a: KeyId, b: KeyId| #[trigger]
                w.products.contains_key(a) && #[trigger] w.products.contains_key(b) && a
                    != b implies w.products[a].last_touch != w.products[b].last_touch by {
                assert(v.products.contains_key(a) && v.products.contains_key(b));
            }
            assert forall|a: KeyId| #[trigger] w.products.contains_key(a) implies w.products[a].last_touch
                <= w.clock by {
                assert(v.products.contains_key(a));
            }
        }
        if bucket_count(w.products) > 1_048_576 {
            if w.products.dom().len() == 0 {
                assert(bucket_count(w.products) == 0);
            }
            lemma_coldest(w.products, w.clock);
            let d = coldest(w.products);
            lemma_gone(w.cooled(), d);
            assert(w.products.contains_key(d));
            assert(v.products.contains_key(d) && v.products.contains_key(c));
            assert(!end.products.contains_key(d));
            assert(v.products[c].last_touch <= v.products[d].last_touch);
            assert(v.products[c].last_touch != v.products[d].last_touch);
            assert(last != c);
            assert forall|o: KeyId| #[trigger]
                w.products.contains_key(o) && !end.products.contains_key(o) implies w.products[o].last_touch
                <= w.products[last].last_touch by {
                assert(v.products.contains_key(o));
            }
            law_no_more_leave_than_must(w, last);
        } else {
            assert(end == w);
            assert(last == c) by {
                if last != c {
                    assert(w.products.contains_key(last));
                }
            }
        }
    }
}

/// What is not there does not come back.
proof fn lemma_gone(v: StoreView, id: KeyId)
    requires
        !v.products.contains_key(id),
        v.products.dom().finite(),
    ensures
        !v.within_budget().products.contains_key(id),
    decreases v.products.dom().len(),
{
    if bucket_count(v.products) > crate::history::MAX_BUCKETS_ACROSS_PRODUCTS
        && v.products.contains_key(coldest(v.products)) {
        assert(v.cooled().products.dom() =~= v.products.dom().remove(coldest(v.products)));
        lemma_gone(v.cooled(), id);
    }
}

/// A new product of a full store takes the place of one other, while there are fewer than 1,048,576
/// buckets.
pub proof fn law_a_new_product_takes_one_place(v: StoreView, id: KeyId, print: Print)
    requires
        v.wf(),
        v.clock < u64::MAX,
        !v.products.contains_key(id),
        v.products.dom().len() == 8192,
        bucket_count(v.products) < 1_048_576,
    ensures
        v.ingested(id, print).products.dom().len() == 8192,
        v.ingested(id, print).evicted == v.evicted + 1,
        !v.ingested(id, print).products.contains_key(coldest(v.products)),
        is_coldest(v.products, coldest(v.products)),
{
    lemma_coldest(v.products, v.clock);
    lemma_cooled(v);
    let c = coldest(v.products);
    let room = v.cooled();
    lemma_count_without(v.products, c);
    let t = v.touched(id);
    let p = t.products[id];
    let q = p.printed(print);
    let g = t.products.insert(id, q);
    assert(room.products.dom() =~= v.products.dom().remove(c));
    assert(t.products.dom() =~= room.products.dom().insert(id));
    assert(t.products.remove(id) =~= room.products);
    lemma_count_with(t.products, id, q);
    let sec = crate::history::second_of(print);
    assert(p.buckets == Map::<u64, Bucket>::empty());
    assert(q.buckets.dom().subset_of(p.buckets.dom().insert(sec)));
    vstd::set_lib::lemma_len_subset(q.buckets.dom(), p.buckets.dom().insert(sec));
    assert(bucket_count(g) <= 1_048_576);
    assert(g.dom() =~= t.products.dom());
    assert(v.ingested(id, print).products == g);
}

/// The buckets are counted over all products: none where there is none, and a product put in brings its
/// own.
pub proof fn law_buckets_are_counted_over_all_products(
    products: Map<KeyId, ProductView>,
    id: KeyId,
    p: ProductView,
)
    requires
        products.dom().finite(),
        !products.contains_key(id),
    ensures
        bucket_count(Map::<KeyId, ProductView>::empty()) == 0,
        bucket_count(products.insert(id, p)) == bucket_count(products) + p.buckets.dom().len(),
{
    lemma_count_with(products, id, p);
    assert(products.remove(id) =~= products);
}

/// Whatever calls are made on a store, it has no more than 8,192 products, no more than 1,048,576
/// buckets over all of them, no more than 1,000 prints and no more than 3,601 seconds of one; and
/// the product of the last print that was taken is the last to have traded.
pub proof fn law_a_store_is_bounded_in_every_run(calls: Seq<Call>, id: KeyId, print: Print)
    requires
        calls.len() < u64::MAX,
    ensures
        ({
            let v = StoreView::after(calls);
            &&& v.products.dom().finite() && v.products.dom().len() <= 8192
            &&& bucket_count(v.products) <= 1_048_576
            &&& v.products.contains_key(id) ==> 0 < v.products[id].ring.len() <= 1000
                && v.products[id].buckets.dom().len() <= 3601
        }),
        ({
            let v = StoreView::after(calls);
            let w = v.ingested(id, print);
            v.products.contains_key(id) && print.ts_ns / 1_000_000_000 + 3600
                < v.products[id].newest->0 || forall|other: KeyId|
                other != id && #[trigger] w.products.contains_key(other)
                    ==> w.products[other].last_touch < w.products[id].last_touch
        }),
{
    law_a_run_stays_within_its_bounds(calls);
    let v = StoreView::after(calls);
    let w = v.ingested(id, print);
    if v.products.contains_key(id) {
        assert(v.products[id].wf());
    }
    if !(v.products.contains_key(id) && print.ts_ns / 1_000_000_000 + 3600 < v.products[id].newest->0) {
        law_the_traded_product_is_kept(v, id, print);
        lemma_touched(v, id);
        assert forall|other: KeyId|
            other != id && #[trigger] w.products.contains_key(other) implies w.products[other].last_touch
            < w.products[id].last_touch by {
            law_a_print_leaves_other_products_alone(v, id, print, other);
        }
    }
}

/// The total of the volumes.
pub open spec fn volume_of(s: Seq<(u64, Bucket)>) -> int
    decreases s.len(),
{
    if s.len() == 0 {
        0
    } else {
        volume_of(s.drop_last()) + s.last().1.volume
    }
}

/// The running total of the volumes never leaves the numbers that can be written.
pub open spec fn volume_fits(s: Seq<(u64, Bucket)>) -> bool
    decreases s.len(),
{
    s.len() > 0 ==> volume_fits(s.drop_last()) && i128::MIN <= volume_of(s) <= i128::MAX
}

/// The candle is that of the buckets, in order of their seconds: it opens as the first and closes
/// as the last, its high is the largest of their highs and its low the smallest of their lows, and
/// its volume is the total of theirs.
pub open spec fn rolls_up(c: Candle, s: Seq<(u64, Bucket)>) -> bool {
    &&& s.len() > 0
    &&& c.open == s[0].1.open
    &&& c.close == s[s.len() - 1].1.close
    &&& forall|i: int| 0 <= i < s.len() ==> (#[trigger] s[i]).1.high <= c.high
    &&& exists|i: int| 0 <= i < s.len() && (#[trigger] s[i]).1.high == c.high
    &&& forall|i: int| 0 <= i < s.len() ==> c.low <= (#[trigger] s[i]).1.low
    &&& exists|i: int| 0 <= i < s.len() && (#[trigger] s[i]).1.low == c.low
    &&& volume_fits(s) ==> c.volume == volume_of(s)
}

/// The buckets of the interval of `grain` seconds that starts at `start`.
pub open spec fn of_interval(s: Seq<(u64, Bucket)>, start: u64, grain: u64) -> Seq<(u64, Bucket)> {
    s.filter(|e: (u64, Bucket)| start <= e.0 < start + grain)
}

proof fn lemma_rolls_up_push(c: Candle, s: Seq<(u64, Bucket)>, e: (u64, Bucket))
    requires
        rolls_up(c, s),
    ensures
        rolls_up(c.joined(e.1), s.push(e)),
{
    let all = s.push(e);
    let n = s.len() as int;
    let w = c.joined(e.1);
    assert(all.drop_last() =~= s);
    let hi = choose|i: int| 0 <= i < s.len() && (#[trigger] s[i]).1.high == c.high;
    let lo = choose|i: int| 0 <= i < s.len() && (#[trigger] s[i]).1.low == c.low;
    assert(all[hi] == s[hi] && all[lo] == s[lo] && all[n] == e);
    assert forall|i: int| 0 <= i < all.len() implies (#[trigger] all[i]).1.high <= w.high && w.low
        <= all[i].1.low by {
        if i < n {
            assert(all[i] == s[i]);
        }
    }
    if c.high < e.1.high {
        assert(all[n].1.high == w.high);
    } else {
        assert(all[hi].1.high == w.high);
    }
    if e.1.low < c.low {
        assert(all[n].1.low == w.low);
    } else {
        assert(all[lo].1.low == w.low);
    }
}

proof fn lemma_interval(a: u64, b: u64, grain: u64)
    requires
        grain > 0,
    ensures
        group_start(a, grain) <= b < group_start(a, grain) + grain <==> group_start(b, grain)
            == group_start(a, grain),
{
    lemma_group(a, grain);
    lemma_group(b, grain);
    let g = grain as int;
    let x = a as int / g;
    let y = b as int / g;
    if x != y {
        assert(x * g + g <= y * g || y * g + g <= x * g) by (nonlinear_arith)
            requires
                x < y || y < x,
                g > 0,
        ;
    }
}

proof fn lemma_nothing_there(s: Seq<(u64, Bucket)>, start: u64, grain: u64)
    requires
        forall|i: int| 0 <= i < s.len() ==> !(start <= (#[trigger] s[i]).0 < start + grain),
    ensures
        of_interval(s, start, grain) == Seq::<(u64, Bucket)>::empty(),
    decreases s.len(),
{
    reveal(Seq::filter);
    if s.len() > 0 {
        assert forall|i: int| 0 <= i < s.drop_last().len() implies !(start <= (
        #[trigger] s.drop_last()[i]).0 < start + grain) by {
            assert(s.drop_last()[i] == s[i]);
        }
        lemma_nothing_there(s.drop_last(), start, grain);
        assert(s[s.len() - 1] == s.last());
    }
}

proof fn lemma_candles(s: Seq<(u64, Bucket)>, grain: u64, at: int)
    requires
        rising(s),
        grain > 0,
        0 <= at < rolled(s, grain).len(),
    ensures
        rolls_up(
            rolled(s, grain)[at],
            of_interval(s, rolled(s, grain)[at].start, grain),
        ),
    decreases s.len(),
{
    reveal(Seq::filter);
    let t = s.drop_last();
    let e = s.last();
    let done = rolled(t, grain);
    let now = rolled(s, grain);
    let start = group_start(e.0, grain);
    let joins = done.len() > 0 && done.last().start == start;
    lemma_rolled(t, grain);
    lemma_rolled(s, grain);
    assert(s =~= t.push(e));
    lemma_interval(e.0, e.0, grain);
    if at < now.len() - 1 {
        lemma_candles(t, grain, at);
        assert(now[at] == done[at]);
        assert(now[at].start < now[now.len() - 1].start);
        assert(now[now.len() - 1].start == start);
        let i = choose|i: int|
            0 <= i < t.len() && #[trigger] group_start(t[i].0, grain) == done[at].start;
        lemma_interval(t[i].0, e.0, grain);
        assert(of_interval(s, now[at].start, grain) =~= of_interval(t, now[at].start, grain));
    } else if joins {
        lemma_candles(t, grain, at);
        lemma_rolls_up_push(done.last(), of_interval(t, start, grain), e);
        assert(of_interval(s, start, grain) =~= of_interval(t, start, grain).push(e));
    } else {
        assert forall|i: int| 0 <= i < t.len() implies !(start <= (#[trigger] t[i]).0 < start + grain) by {
            lemma_interval(e.0, t[i].0, grain);
            if group_start(t[i].0, grain) == start {
                assert(t[i].0 <= t.last().0) by {
                    if i < t.len() - 1 {
                        assert(s[i].0 < s[t.len() - 1].0);
                    }
                }
                assert(t.last() == s[t.len() - 1]);
                assert(t.last().0 < e.0);
                lemma_group(e.0, grain);
                lemma_interval(e.0, t.last().0, grain);
            }
        }
        lemma_nothing_there(t, start, grain);
        let group = of_interval(s, start, grain);
        assert(group =~= seq![e]);
        assert(group[0] == e);
        assert(group.drop_last() =~= Seq::empty());
        assert(volume_of(group.drop_last()) == 0);
    }
}

/// A candle stands for the closed seconds of its interval that are no more than an hour old: it
/// opens and closes as the first and the last of them, its high and its low are the largest and the
/// smallest among theirs, and its volume is their total. It starts at a multiple of the
/// granularity.
pub proof fn law_a_candle_rolls_up_its_seconds(
    v: StoreView,
    id: KeyId,
    granularity_secs: u64,
    now_secs: u64,
    at: int,
)
    requires
        v.wf(),
        0 <= at < v.rollup(id, granularity_secs, now_secs).len(),
    ensures
        ({
            let grain = if granularity_secs == 0 {
                1
            } else {
                granularity_secs
            };
            let c = v.rollup(id, granularity_secs, now_secs)[at];
            &&& c.start as int % grain as int == 0
            &&& rolls_up(c, of_interval(v.entries(id, now_secs), c.start, grain))
        }),
{
    let g = crate::history::grain(granularity_secs);
    let s = v.entries(id, now_secs);
    lemma_entries(v, id, now_secs);
    lemma_rolled(s, g);
    let all = rolled(s, g);
    let back = all.len() - 1 - at;
    assert(all.reverse()[at] == all[back]);
    lemma_candles(s, g, back);
    let i = choose|i: int| 0 <= i < s.len() && #[trigger] group_start(s[i].0, g) == all[back].start;
    lemma_group(s[i].0, g);
    let q = s[i].0 as int / g as int;
    assert((q * g as int) % (g as int) == 0) by {
        vstd::arithmetic::div_mod::lemma_mod_multiples_basic(q, g as int);
    }
}

/// A query is served from the seconds of the product that are closed and no more than an hour
/// before now, each once, in order of time.
pub proof fn law_a_query_is_served_from_the_last_hour(v: StoreView, id: KeyId, now_secs: u64)
    requires
        v.wf(),
    ensures
        !v.products.contains_key(id) ==> v.entries(id, now_secs).len() == 0,
        v.products.contains_key(id) ==> {
            let s = v.entries(id, now_secs);
            let b = v.products[id].buckets;
            &&& forall|i: int, j: int|
                0 <= i < j < s.len() ==> (#[trigger] s[i]).0 < (#[trigger] s[j]).0
            &&& forall|i: int|
                0 <= i < s.len() ==> b.contains_key((#[trigger] s[i]).0) && b[s[i].0] == s[i].1
                    && s[i].0 < now_secs <= s[i].0 + 3600
            &&& forall|k: u64| #[trigger]
                b.contains_key(k) && k < now_secs <= k + 3600 ==> exists|i: int|
                    0 <= i < s.len() && (#[trigger] s[i]).0 == k
        },
{
    lemma_entries(v, id, now_secs);
}

} // verus!
