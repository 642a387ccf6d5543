//! A bounded in-memory history of prints: one-second buckets of open, high, low, close and volume, and
//! a ring of recent prints, over a rolling hour.
//!
//! The clock is the caller's. `now_secs` has to be in the clock domain of the prints.

use crate::ordered::{
    lemma_is_listing, less_u64, listing, lists_in_order,
};
use crate::table::{group_views, mix, mix_spec, same_text, str_code, text_code, views, Table};
use crate::table::Key as TableKey;
use std::collections::VecDeque;
use vstd::prelude::*;

verus! {

broadcast use group_views;

/// The rolling window, in seconds.
pub const WINDOW_SECS: u64 = 3_600;

/// How many recent prints are kept per product.
pub const TRADE_RING: usize = 1_000;

/// How many products are kept. Past it the least recently traded one goes.
pub const MAX_PRODUCTS: usize = 8_192;

/// How many buckets are kept over all products. Past it whole products go, the least recently traded
/// first. This is the bound on memory: what a product costs follows how often it trades.
pub const MAX_BUCKETS_ACROSS_PRODUCTS: usize = 1_048_576;

/// What a bucket counts for in the estimate of the bytes held.
pub const BYTES_PER_BUCKET: usize = 93;

/// What a print in the ring counts for in the estimate of the bytes held.
pub const BYTES_PER_PRINT: usize = 24;

/// One market's identity. The category tells apart universes that share a source id and so may share
/// channels and instrument ids.
#[derive(Debug, Clone, PartialEq, Eq, Hash)]
pub struct Key {
    pub source_id: u16,
    pub category: String,
    pub channel: u8,
    pub instrument_id: u32,
}

/// What identifies a [`Key`].
#[verifier::ext_equal]
pub struct KeyId {
    pub source_id: u16,
    pub category: Seq<char>,
    pub channel: u8,
    pub instrument_id: u32,
}

impl TableKey for Key {
    type Id = KeyId;

    open spec fn id(&self) -> KeyId {
        KeyId {
            source_id: self.source_id,
            category: self.category@,
            channel: self.channel,
            instrument_id: self.instrument_id,
        }
    }

    open spec fn code_of(id: KeyId) -> u64 {
        mix_spec(
            mix_spec(mix_spec(text_code(id.category), id.source_id as u64), id.channel as u64),
            id.instrument_id as u64,
        )
    }

    fn same(&self, other: &Self) -> (r: bool) {
        self.instrument_id == other.instrument_id && self.source_id == other.source_id
            && self.channel == other.channel && same_text(
            self.category.as_str(),
            other.category.as_str(),
        )
    }

    fn code(&self) -> (r: u64) {
        mix(
            mix(
                mix(str_code(self.category.as_str()), self.source_id as u64),
                self.channel as u64,
            ),
            self.instrument_id as u64,
        )
    }

    fn dup(&self) -> (r: Self) {
        Key {
            source_id: self.source_id,
            category: self.category.clone(),
            channel: self.channel,
            instrument_id: self.instrument_id,
        }
    }
}

/// One print as it arrives.
#[derive(Debug, Clone, Copy, PartialEq, Eq, Structural)]
pub struct Print {
    pub ts_ns: u64,
    pub price: i128,
    pub size: i128,
}

/// The store's account of itself.
#[derive(Debug, Clone, Copy, PartialEq, Eq, Structural)]
pub struct Stats {
    pub products: usize,
    /// Whether `products` is at [`MAX_PRODUCTS`]. At the cap with `evicted` rising, the channel filter
    /// is too wide.
    pub products_at_cap: bool,
    pub buckets: usize,
    pub bucket_budget: usize,
    /// Buckets at their measured cost, and every product's print ring.
    pub est_bytes: usize,
    pub window_secs: u64,
    /// Whole products evicted since the store started.
    pub evicted: u64,
    /// Prints refused for being older than their product's window.
    pub late_drops: u64,
}

/// One candle. `start` is in unix seconds, floored to the granularity.
#[derive(Debug, Clone, Copy, PartialEq, Eq, Structural)]
pub struct Candle {
    pub start: u64,
    pub open: i128,
    pub high: i128,
    pub low: i128,
    pub close: i128,
    pub volume: i128,
}

/// What a query can rely on.
#[derive(Debug, Clone, Copy, PartialEq, Eq, Structural)]
pub struct Retention {
    pub window_seconds: u64,
    /// The start of the oldest candle there is, before the limit cuts.
    pub oldest: u64,
    /// The start of the newest candle there is, before the limit cuts.
    pub newest: u64,
    /// Whether the limit cut the result.
    pub truncated: bool,
    /// Whether the store has the product at all: an evicted product and a quiet one both have no
    /// candles.
    pub held: bool,
}

/// One second's trade activity. `close` is the last print to arrive.
#[derive(Debug, Clone, Copy, PartialEq, Eq, Structural)]
pub struct Bucket {
    pub open: i128,
    pub high: i128,
    pub low: i128,
    pub close: i128,
    pub volume: i128,
}

/// The sum, or the limit that it passes.
pub open spec fn capped_sum(a: i128, b: i128) -> i128 {
    if a + b > i128::MAX {
        i128::MAX
    } else if a + b < i128::MIN {
        i128::MIN
    } else {
        (a + b) as i128
    }
}

fn add_capped(a: i128, b: i128) -> (r: i128)
    ensures
        r == capped_sum(a, b),
{
    if b > 0 && a > i128::MAX - b {
        i128::MAX
    } else if b < 0 && a < i128::MIN - b {
        i128::MIN
    } else {
        a + b
    }
}

pub open spec fn higher(a: i128, b: i128) -> i128 {
    if a < b {
        b
    } else {
        a
    }
}

pub open spec fn lower(a: i128, b: i128) -> i128 {
    if b < a {
        b
    } else {
        a
    }
}

impl Bucket {
    /// The bucket that a print opens.
    pub open spec fn opened(print: Print) -> Bucket {
        Bucket {
            open: print.price,
            high: print.price,
            low: print.price,
            close: print.price,
            volume: print.size,
        }
    }

    /// The bucket after a further print.
    pub open spec fn widened(self, print: Print) -> Bucket {
        Bucket {
            open: self.open,
            high: higher(self.high, print.price),
            low: lower(self.low, print.price),
            close: print.price,
            volume: capped_sum(self.volume, print.size),
        }
    }

    fn opened_by(print: &Print) -> (r: Bucket)
        ensures
            r == Bucket::opened(*print),
    {
        Bucket {
            open: print.price,
            high: print.price,
            low: print.price,
            close: print.price,
            volume: print.size,
        }
    }

    fn widen(self, print: &Print) -> (r: Bucket)
        ensures
            r == self.widened(*print),
    {
        Bucket {
            open: self.open,
            high: if self.high < print.price {
                print.price
            } else {
                self.high
            },
            low: if print.price < self.low {
                print.price
            } else {
                self.low
            },
            close: print.price,
            volume: add_capped(self.volume, print.size),
        }
    }
}

/// What the store has of one product.
#[verifier::ext_equal]
pub struct ProductView {
    /// By second.
    pub buckets: Map<u64, Bucket>,
    /// The latest second seen.
    pub newest: Option<u64>,
    /// Oldest first.
    pub ring: Seq<Print>,
    /// When it was last traded, by the store's count of trades.
    pub last_touch: u64,
}

/// The second of a print.
pub open spec fn second_of(print: Print) -> u64 {
    (print.ts_ns / 1_000_000_000) as u64
}

/// The oldest second of the window that ends at `newest`.
pub open spec fn window_start(newest: u64) -> u64 {
    if newest >= WINDOW_SECS {
        (newest - WINDOW_SECS) as u64
    } else {
        0
    }
}

/// The buckets from `floor` on.
pub open spec fn from_floor(buckets: Map<u64, Bucket>, floor: u64) -> Map<u64, Bucket> {
    buckets.restrict(Set::new(|k: u64| k >= floor))
}

/// A print put in its second.
pub open spec fn put(buckets: Map<u64, Bucket>, sec: u64, print: Print) -> Map<u64, Bucket> {
    buckets.insert(
        sec,
        if buckets.contains_key(sec) {
            buckets[sec].widened(print)
        } else {
            Bucket::opened(print)
        },
    )
}

impl ProductView {
    pub open spec fn fresh() -> ProductView {
        ProductView { buckets: Map::empty(), newest: None, ring: Seq::empty(), last_touch: 0 }
    }

    /// A print of this second is older than the window.
    pub open spec fn too_late(self, sec: u64) -> bool {
        self.newest is Some && sec + WINDOW_SECS < self.newest->0
    }

    /// The latest second, once `sec` is seen.
    pub open spec fn newest_with(self, sec: u64) -> u64 {
        match self.newest {
            Some(n) => if n < sec {
                sec
            } else {
                n
            },
            None => sec,
        }
    }

    /// The product after a print.
    pub open spec fn printed(self, print: Print) -> ProductView {
        let sec = second_of(print);
        let newest = self.newest_with(sec);
        let ring = self.ring.push(print);
        ProductView {
            buckets: from_floor(put(self.buckets, sec, print), window_start(newest)),
            newest: Some(newest),
            ring: if ring.len() > TRADE_RING {
                ring.drop_first()
            } else {
                ring
            },
            last_touch: self.last_touch,
        }
    }

    /// A product that has traded: its newest second has a bucket, every bucket is in its window, and
    /// its ring is not over full.
    pub open spec fn wf(self) -> bool {
        &&& self.newest is Some
        &&& self.buckets.dom().finite()
        &&& self.buckets.contains_key(self.newest->0)
        &&& forall|k: u64| #[trigger]
            self.buckets.contains_key(k) ==> window_start(self.newest->0) <= k <= self.newest->0
        &&& 0 < self.ring.len() <= TRADE_RING
    }
}

/// What the store has.
#[verifier::ext_equal]
pub struct StoreView {
    pub products: Map<KeyId, ProductView>,
    /// How many prints were taken.
    pub clock: u64,
    pub late_drops: u64,
    pub evicted: u64,
}

/// How many buckets the products have.
pub open spec fn bucket_count(products: Map<KeyId, ProductView>) -> nat
    decreases products.dom().len(),
{
    if products.dom().finite() && products.dom().len() > 0 {
        let id = products.dom().choose();
        products[id].buckets.dom().len() + bucket_count(products.remove(id))
    } else {
        0
    }
}

/// No other product was traded longer ago.
pub open spec fn is_coldest(products: Map<KeyId, ProductView>, id: KeyId) -> bool {
    &&& products.contains_key(id)
    &&& forall|other: KeyId| #[trigger]
        products.contains_key(other) ==> products[id].last_touch <= products[other].last_touch
}

/// The product traded longest ago.
pub open spec fn coldest(products: Map<KeyId, ProductView>) -> KeyId {
    choose|id: KeyId| is_coldest(products, id)
}

impl StoreView {
    pub open spec fn fresh() -> StoreView {
        StoreView { products: Map::empty(), clock: 0, late_drops: 0, evicted: 0 }
    }

    /// The bounds, and that no two products were last traded at once.
    pub open spec fn wf(self) -> bool {
        &&& self.products.dom().finite()
        &&& self.products.dom().len() <= MAX_PRODUCTS
        &&& bucket_count(self.products) <= MAX_BUCKETS_ACROSS_PRODUCTS
        &&& self.evicted + self.products.dom().len() <= self.clock
        &&& touches_ok(self.products, self.clock)
        &&& forall|id: KeyId| #[trigger]
            self.products.contains_key(id) ==> self.products[id].wf()
    }

    /// Without the product traded longest ago.
    pub open spec fn cooled(self) -> StoreView {
        StoreView {
            products: self.products.remove(coldest(self.products)),
            evicted: (self.evicted + 1) as u64,
            ..self
        }
    }

    /// With `id` the product traded last; a new one past the cap takes the place of the coldest.
    pub open spec fn touched(self, id: KeyId) -> StoreView {
        let room = if !self.products.contains_key(id) && self.products.dom().len() >= MAX_PRODUCTS {
            self.cooled()
        } else {
            self
        };
        let clock = (self.clock + 1) as u64;
        let was = if room.products.contains_key(id) {
            room.products[id]
        } else {
            ProductView::fresh()
        };
        StoreView {
            products: room.products.insert(id, ProductView { last_touch: clock, ..was }),
            clock,
            ..room
        }
    }

    /// With the coldest products gone until the buckets are within their budget.
    pub open spec fn within_budget(self) -> StoreView
        decreases self.products.dom().len(),
    {
        if bucket_count(self.products) > MAX_BUCKETS_ACROSS_PRODUCTS && self.products.dom().finite()
            && self.products.contains_key(coldest(self.products)) {
            self.cooled().within_budget()
        } else {
            self
        }
    }

    /// The store after a print: one older than its product's window is only counted.
    pub open spec fn ingested(self, id: KeyId, print: Print) -> StoreView {
        if self.products.contains_key(id) && self.products[id].too_late(second_of(print)) {
            StoreView { late_drops: (self.late_drops + 1) as u64, ..self }
        } else {
            let t = self.touched(id);
            (StoreView {
                products: t.products.insert(id, t.products[id].printed(print)),
                ..t
            }).within_budget()
        }
    }

    /// The products of one channel of one universe are gone.
    pub open spec fn channel_gone(self, source_id: u16, category: Seq<char>, channel: u8) -> StoreView {
        StoreView {
            products: self.products.remove_keys(in_channel(source_id, category, channel)),
            ..self
        }
    }
}

/// The ids of one channel of one universe.
pub open spec fn in_channel(source_id: u16, category: Seq<char>, channel: u8) -> Set<KeyId> {
    Set::new(
        |id: KeyId|
            id.source_id == source_id && id.category == category && id.channel == channel,
    )
}

/// Every product was traded by now, no two at once.
pub open spec fn touches_ok(products: Map<KeyId, ProductView>, clock: u64) -> bool {
    &&& forall|id: KeyId| #[trigger] products.contains_key(id) ==> products[id].last_touch <= clock
    &&& forall|a: KeyId, b: KeyId| #[trigger]
        products.contains_key(a) && #[trigger] products.contains_key(b) && a != b
            ==> products[a].last_touch != products[b].last_touch
}

pub(crate) proof fn lemma_count_without(products: Map<KeyId, ProductView>, id: KeyId)
    requires
        products.dom().finite(),
        products.contains_key(id),
    ensures
        bucket_count(products) == products[id].buckets.dom().len() + bucket_count(
            products.remove(id),
        ),
    decreases products.dom().len(),
{
    assert(products.dom().contains(id));
    assert(products.dom().len() > 0);
    let c = products.dom().choose();
    assert(products.dom().contains(c));
    if c != id {
        let a = products.remove(c);
        let b = products.remove(id);
        assert(a.dom() =~= products.dom().remove(c));
        assert(b.dom() =~= products.dom().remove(id));
        lemma_count_without(a, id);
        lemma_count_without(b, c);
        assert(a.remove(id) =~= b.remove(c));
    }
}

pub(crate) proof fn lemma_count_with(products: Map<KeyId, ProductView>, id: KeyId, p: ProductView)
    requires
        products.dom().finite(),
    ensures
        bucket_count(products.insert(id, p)) == p.buckets.dom().len() + bucket_count(
            products.remove(id),
        ),
{
    let w = products.insert(id, p);
    lemma_count_without(w, id);
    assert(w.remove(id) =~= products.remove(id));
}

proof fn lemma_count_removed(products: Map<KeyId, ProductView>, id: KeyId)
    requires
        products.dom().finite(),
    ensures
        bucket_count(products.remove(id)) <= bucket_count(products),
{
    if products.contains_key(id) {
        lemma_count_without(products, id);
    } else {
        assert(products.remove(id) =~= products);
    }
}

/// There is a coldest product where there is any, and it is the only one.
pub(crate) proof fn lemma_coldest(products: Map<KeyId, ProductView>, clock: u64)
    requires
        products.dom().finite(),
        products.dom().len() > 0,
        touches_ok(products, clock),
    ensures
        is_coldest(products, coldest(products)),
        forall|id: KeyId| is_coldest(products, id) ==> id == coldest(products),
    decreases products.dom().len(),
{
    let c = products.dom().choose();
    assert(products.contains_key(c));
    let rest = products.remove(c);
    assert(rest.dom() =~= products.dom().remove(c));
    if rest.dom().len() == 0 {
        assert forall|other: KeyId| #[trigger] products.contains_key(other) implies other == c by {
            if other != c {
                assert(rest.dom().contains(other));
            }
        }
        assert(is_coldest(products, c));
    } else {
        lemma_coldest(rest, clock);
        let d = coldest(rest);
        if products[c].last_touch < products[d].last_touch {
            assert forall|other: KeyId| #[trigger] products.contains_key(other) implies products[c].last_touch
                <= products[other].last_touch by {
                if other != c {
                    assert(rest.contains_key(other));
                }
            }
            assert(is_coldest(products, c));
        } else {
            assert forall|other: KeyId| #[trigger] products.contains_key(other) implies products[d].last_touch
                <= products[other].last_touch by {
                if other != c {
                    assert(rest.contains_key(other));
                }
            }
            assert(is_coldest(products, d));
        }
    }
    assert forall|id: KeyId| is_coldest(products, id) implies id == coldest(products) by {
        let k = coldest(products);
        assert(products.contains_key(k) && products.contains_key(id));
    }
}

/// The map that a list of buckets stands for.
pub open spec fn pairs_map(s: Seq<(u64, Bucket)>) -> Map<u64, Bucket> {
    Map::new(
        |k: u64| exists|i: int| 0 <= i < s.len() && (#[trigger] s[i]).0 == k,
        |k: u64| s[choose|i: int| 0 <= i < s.len() && (#[trigger] s[i]).0 == k].1,
    )
}

/// Seconds increase.
pub open spec fn rising(s: Seq<(u64, Bucket)>) -> bool {
    forall|i: int, j: int| 0 <= i < j < s.len() ==> (#[trigger] s[i]).0 < (#[trigger] s[j]).0
}

proof fn lemma_pairs(s: Seq<(u64, Bucket)>)
    requires
        rising(s),
    ensures
        lists_in_order(pairs_map(s), s, less_u64()),
        pairs_map(s).dom().finite(),
        pairs_map(s).dom().len() == s.len(),
{
    let m = pairs_map(s);
    assert forall|i: int| 0 <= i < s.len() implies m.contains_key((#[trigger] s[i]).0) && m[s[i].0]
        == s[i].1 by {
        let j = choose|j: int| 0 <= j < s.len() && (#[trigger] s[j]).0 == s[i].0;
        assert(s[j].0 == s[i].0);
    }
    let keys = Seq::new(s.len(), |i: int| s[i].0);
    assert(keys.no_duplicates()) by {
        assert forall|i: int, j: int| 0 <= i < keys.len() && 0 <= j < keys.len() && i != j implies keys[i]
            != keys[j] by {
            assert(s[i].0 == keys[i] && s[j].0 == keys[j]);
        }
    }
    keys.unique_seq_to_set();
    vstd::seq_lib::seq_to_set_is_finite(keys);
    assert(m.dom() =~= keys.to_set()) by {
        assert forall|k: u64| m.dom().contains(k) == keys.to_set().contains(k) by {
            if m.dom().contains(k) {
                let j = choose|j: int| 0 <= j < s.len() && (#[trigger] s[j]).0 == k;
                assert(keys[j] == k);
            }
            if keys.contains(k) {
                let j = choose|j: int| 0 <= j < keys.len() && keys[j] == k;
                assert(s[j].0 == k);
            }
        }
    }
}

/// A list that lists a map stands for it.
proof fn lemma_pairs_of(m: Map<u64, Bucket>, s: Seq<(u64, Bucket)>)
    requires
        lists_in_order(m, s, less_u64()),
    ensures
        rising(s),
        pairs_map(s) == m,
{
    assert forall|i: int, j: int| 0 <= i < j < s.len() implies (#[trigger] s[i]).0 < (
    #[trigger] s[j]).0 by {
        assert((less_u64())(s[i].0, s[j].0));
    }
    lemma_pairs(s);
    assert(pairs_map(s) =~= m) by {
        assert forall|k: u64| pairs_map(s).contains_key(k) == m.contains_key(k) by {
            if pairs_map(s).contains_key(k) {
                let i = choose|i: int| 0 <= i < s.len() && (#[trigger] s[i]).0 == k;
                assert(m.contains_key(s[i].0));
            }
        }
        assert forall|k: u64| pairs_map(s).contains_key(k) implies pairs_map(s)[k] == m[k] by {
            let i = choose|i: int| 0 <= i < s.len() && (#[trigger] s[i]).0 == k;
            assert(m[s[i].0] == s[i].1);
            assert(pairs_map(s)[s[i].0] == s[i].1);
        }
    }
}

/// Put a print in its second; whether that opened a bucket.
fn put_print(s: &mut Vec<(u64, Bucket)>, sec: u64, print: &Print) -> (r: bool)
    requires
        rising(old(s)@),
    ensures
        rising(final(s)@),
        pairs_map(final(s)@) == put(pairs_map(old(s)@), sec, *print),
        r == !pairs_map(old(s)@).contains_key(sec),
        final(s)@.len() == old(s)@.len() + (if r {
            1int
        } else {
            0
        }),
{
    let ghost was = s@;
    let ghost m = pairs_map(was);
    proof {
        lemma_pairs(was);
    }
    let mut i: usize = s.len();
    while i > 0 && s[i - 1].0 > sec
        invariant
            s@ == was,
            i <= was.len(),
            forall|j: int| i <= j < was.len() ==> (#[trigger] was[j]).0 > sec,
        decreases i,
    {
        i -= 1;
    }
    if i > 0 && s[i - 1].0 == sec {
        let b = s[i - 1].1;
        s.set(i - 1, (sec, b.widen(print)));
        proof {
            assert(m.contains_key(was[i - 1].0));
            assert(m[was[i - 1].0] == was[i - 1].1);
            let now = s@;
            let want = put(m, sec, *print);
            assert forall|p: int, q: int| 0 <= p < q < now.len() implies (less_u64())(
                (#[trigger] now[p]).0,
                (#[trigger] now[q]).0,
            ) by {
                assert(now[p].0 == was[p].0 && now[q].0 == was[q].0);
            }
            assert forall|p: int| 0 <= p < now.len() implies want.contains_key(
                (#[trigger] now[p]).0,
            ) && want[now[p].0] == now[p].1 by {
                assert(now[p].0 == was[p].0);
                assert(m.contains_key(was[p].0) && m[was[p].0] == was[p].1);
            }
            assert forall|k: u64| #[trigger] want.contains_key(k) implies exists|p: int|
                0 <= p < now.len() && (#[trigger] now[p]).0 == k by {
                if k == sec {
                    assert(now[i - 1].0 == k);
                } else {
                    assert(m.contains_key(k));
                    let p = choose|p: int| 0 <= p < was.len() && (#[trigger] was[p]).0 == k;
                    assert(now[p].0 == k);
                }
            }
            lemma_pairs_of(want, now);
        }
        return false;
    }
    s.insert(i, (sec, Bucket::opened_by(print)));
    proof {
        let now = s@;
        let want = put(m, sec, *print);
        assert(!m.contains_key(sec)) by {
            if m.contains_key(sec) {
                let p = choose|p: int| 0 <= p < was.len() && (#[trigger] was[p]).0 == sec;
                if p < i - 1 {
                    assert(was[p].0 < was[i - 1].0);
                }
            }
        }
        assert forall|p: int, q: int| 0 <= p < q < now.len() implies (less_u64())(
            (#[trigger] now[p]).0,
            (#[trigger] now[q]).0,
        ) by {
            if p < i && q < i {
                assert(now[p] == was[p] && now[q] == was[q]);
            } else if p < i && q == i {
                assert(now[p] == was[p]);
                if p < i - 1 {
                    assert(was[p].0 < was[i - 1].0);
                }
            } else if p < i {
                assert(now[p] == was[p] && now[q] == was[q - 1]);
            } else if p == i {
                assert(now[q] == was[q - 1]);
            } else {
                assert(now[p] == was[p - 1] && now[q] == was[q - 1]);
            }
        }
        assert forall|p: int| 0 <= p < now.len() implies want.contains_key((#[trigger] now[p]).0)
            && want[now[p].0] == now[p].1 by {
            if p < i {
                assert(now[p] == was[p]);
                assert(m.contains_key(was[p].0) && m[was[p].0] == was[p].1);
            } else if p > i {
                assert(now[p] == was[p - 1]);
                assert(m.contains_key(was[p - 1].0) && m[was[p - 1].0] == was[p - 1].1);
            }
        }
        assert forall|k: u64| #[trigger] want.contains_key(k) implies exists|p: int|
            0 <= p < now.len() && (#[trigger] now[p]).0 == k by {
            if k == sec {
                assert(now[i as int].0 == k);
            } else {
                assert(m.contains_key(k));
                let p = choose|p: int| 0 <= p < was.len() && (#[trigger] was[p]).0 == k;
                if p < i {
                    assert(now[p].0 == k);
                } else {
                    assert(now[p + 1].0 == k);
                }
            }
        }
        lemma_pairs_of(want, now);
    }
    true
}

/// Drop the buckets before `floor`.
fn drop_before(s: &mut Vec<(u64, Bucket)>, floor: u64)
    requires
        rising(old(s)@),
    ensures
        rising(final(s)@),
        pairs_map(final(s)@) == from_floor(pairs_map(old(s)@), floor),
{
    let ghost was = s@;
    let ghost m = pairs_map(was);
    proof {
        lemma_pairs(was);
    }
    let mut e: usize = 0;
    while e < s.len() && s[e].0 < floor
        invariant
            s@ == was,
            e <= was.len(),
            forall|j: int| 0 <= j < e ==> (#[trigger] was[j]).0 < floor,
        decreases was.len() - e,
    {
        e += 1;
    }
    if e > 0 {
        let kept = s.split_off(e);
        *s = kept;
    }
    proof {
        let now = s@;
        assert(now =~= was.skip(e as int));
        let want = from_floor(m, floor);
        assert forall|p: int, q: int| 0 <= p < q < now.len() implies (less_u64())(
            (#[trigger] now[p]).0,
            (#[trigger] now[q]).0,
        ) by {
            assert(now[p] == was[p + e] && now[q] == was[q + e]);
        }
        assert forall|p: int| 0 <= p < now.len() implies want.contains_key((#[trigger] now[p]).0)
            && want[now[p].0] == now[p].1 by {
            assert(now[p] == was[p + e]);
            assert(m.contains_key(was[p + e].0) && m[was[p + e].0] == was[p + e].1);
            if p > 0 {
                assert(was[e as int].0 < was[p + e].0);
            }
        }
        assert forall|k: u64| #[trigger] want.contains_key(k) implies exists|p: int|
            0 <= p < now.len() && (#[trigger] now[p]).0 == k by {
            assert(m.contains_key(k));
            let p = choose|p: int| 0 <= p < was.len() && (#[trigger] was[p]).0 == k;
            assert(now[p - e].0 == k);
        }
        lemma_pairs_of(want, now);
    }
}

/// What the store has of one product: its buckets in order of their seconds, and its recent prints.
pub struct Product {
    buckets: Vec<(u64, Bucket)>,
    newest_seen: Option<u64>,
    ring: VecDeque<Print>,
    last_touch: u64,
}

impl View for Product {
    type V = ProductView;

    closed spec fn view(&self) -> ProductView {
        ProductView {
            buckets: pairs_map(self.buckets@),
            newest: self.newest_seen,
            ring: self.ring@,
            last_touch: self.last_touch,
        }
    }
}

impl Product {
    closed spec fn ok(&self) -> bool {
        rising(self.buckets@)
    }

    fn new() -> (r: Product)
        ensures
            r.ok(),
            r@ == ProductView::fresh(),
    {
        let r = Product {
            buckets: Vec::new(),
            newest_seen: None,
            ring: VecDeque::new(),
            last_touch: 0,
        };
        assert(r@ =~= ProductView::fresh());
        r
    }

    /// How many buckets there are.
    fn buckets_len(&self) -> (r: usize)
        requires
            self.ok(),
        ensures
            r == self@.buckets.dom().len(),
            self@.buckets.dom().finite(),
    {
        proof {
            lemma_pairs(self.buckets@);
        }
        self.buckets.len()
    }

    /// Take a print in.
    fn take(&mut self, print: Print)
        requires
            old(self).ok(),
            old(self)@.ring.len() <= TRADE_RING,
        ensures
            final(self).ok(),
            final(self)@ == old(self)@.printed(print),
    {
        let sec: u64 = print.ts_ns / 1_000_000_000;
        let newest: u64 = match self.newest_seen {
            Some(n) => if n < sec {
                sec
            } else {
                n
            },
            None => sec,
        };
        self.newest_seen = Some(newest);
        put_print(&mut self.buckets, sec, &print);
        drop_before(
            &mut self.buckets,
            if newest >= WINDOW_SECS {
                newest - WINDOW_SECS
            } else {
                0
            },
        );
        self.ring.push_back(print);
        if self.ring.len() > TRADE_RING {
            self.ring.pop_front();
        }
        proof {
            assert(self@ =~= old(self)@.printed(print));
        }
    }
}

/// A rolling hour of prints over all products.
pub struct Store {
    products: Table<Key, Product>,
    touch_clock: u64,
    late_drops: u64,
    evicted: u64,
    buckets_total: usize,
}

impl View for Store {
    type V = StoreView;

    closed spec fn view(&self) -> StoreView {
        StoreView {
            products: views(self.products@),
            clock: self.touch_clock,
            late_drops: self.late_drops,
            evicted: self.evicted,
        }
    }
}

impl Default for Store {
    fn default() -> (r: Self)
        ensures
            r.wf(),
            r@ == StoreView::fresh(),
    {
        Self::new()
    }
}

impl Store {
    /// The bounds hold, and the running total of buckets is what the products have.
    pub closed spec fn wf(&self) -> bool {
        &&& self.loose()
        &&& self@.wf()
    }

    /// The accounts are right; the bounds may be passed.
    closed spec fn loose(&self) -> bool {
        &&& self.products.wf()
        &&& forall|id: KeyId| #[trigger]
            self.products@.contains_key(id) ==> self.products@[id].ok()
        &&& self.buckets_total == bucket_count(self@.products)
        &&& self@.products.dom().finite()
        &&& self@.products.dom() == self.products@.dom()
        &&& touches_ok(self@.products, self@.clock)
        &&& self.evicted + self@.products.dom().len() <= self.touch_clock
    }

    /// The bounds hold of a well-formed store.
    pub proof fn lemma_wf(&self)
        requires
            self.wf(),
        ensures
            self@.wf(),
    {
    }

    pub fn new() -> (r: Self)
        ensures
            r.wf(),
            r@ == StoreView::fresh(),
    {
        let r = Store {
            products: Table::new(),
            touch_clock: 0,
            late_drops: 0,
            evicted: 0,
            buckets_total: 0,
        };
        assert(r@ =~= StoreView::fresh());
        r
    }

    /// The position of the product traded longest ago.
    fn coldest_at(&self) -> (r: usize)
        requires
            self.loose(),
            self@.products.dom().len() > 0,
        ensures
            r < self.products.items().len(),
            self.products.items()[r as int].0.id() == coldest(self@.products),
            self@.products.contains_key(coldest(self@.products)),
    {
        let n = self.products.len();
        let ghost items = self.products.items();
        proof {
            self.products.lemma_len();
            assert(self@.products.dom() =~= self.products@.dom());
        }
        let mut best: usize = 0;
        let mut i: usize = 1;
        while i < n
            invariant
                self.loose(),
                items == self.products.items(),
                n == items.len(),
                best < n,
                1 <= i <= n,
                forall|j: int|
                    0 <= j < i ==> items[best as int].1.last_touch <= (
                    #[trigger] items[j]).1.last_touch,
            decreases n - i,
        {
            if self.products.value_at(i).last_touch < self.products.value_at(best).last_touch {
                best = i;
            }
            i += 1;
        }
        proof {
            let id = items[best as int].0.id();
            self.products.lemma_item(best as int);
            assert(self@.products.contains_key(id));
            assert forall|other: KeyId| #[trigger] self@.products.contains_key(other) implies self@.products[id].last_touch
                <= self@.products[other].last_touch by {
                let j = self.products.lemma_stored(other);
                assert(items[best as int].1.last_touch <= items[j].1.last_touch);
            }
            assert(is_coldest(self@.products, id));
            lemma_coldest(self@.products, self@.clock);
        }
        best
    }

    /// Drop the product at a position; the last product takes its place.
    fn drop_at(&mut self, i: usize)
        requires
            old(self).loose(),
            i < old(self).products.items().len(),
        ensures
            final(self).loose(),
            ({
                let id = old(self).products.items()[i as int].0.id();
                &&& old(self)@.products.contains_key(id)
                &&& final(self)@ == (StoreView {
                    products: old(self)@.products.remove(id),
                    ..old(self)@
                })
                &&& final(self)@.products.dom().len() == old(self)@.products.dom().len() - 1
            }),
            final(self).products.items() == old(self).products.items().update(
                i as int,
                old(self).products.items().last(),
            ).drop_last(),
    {
        let ghost was = self@;
        let ghost id = self.products.items()[i as int].0.id();
        proof {
            self.products.lemma_item(i as int);
            lemma_count_without(was.products, id);
            assert(self.products@[id]@ == was.products[id]);
        }
        let removed = self.products.remove_at(i);
        let n = removed.buckets_len();
        self.buckets_total -= n;
        proof {
            assert(self@.products =~= was.products.remove(id));
            assert(self@.products.dom() =~= was.products.dom().remove(id));
            assert(self@ =~= (StoreView { products: was.products.remove(id), ..was }));
        }
    }

    /// Drop the product traded longest ago.
    fn cool(&mut self)
        requires
            old(self).loose(),
            old(self)@.products.dom().len() > 0,
        ensures
            final(self).loose(),
            final(self)@ == old(self)@.cooled(),
            final(self)@.products.dom().len() == old(self)@.products.dom().len() - 1,
            old(self)@.products.contains_key(coldest(old(self)@.products)),
    {
        let ghost was = self@;
        let i = self.coldest_at();
        self.drop_at(i);
        self.evicted += 1;
        proof {
            assert(self@ =~= was.cooled());
        }
    }

    /// How many products there are.
    pub fn len(&self) -> (r: usize)
        requires
            self.wf(),
        ensures
            r == self@.products.dom().len(),
    {
        proof {
            self.products.lemma_len();
        }
        self.products.len()
    }

    pub fn is_empty(&self) -> (r: bool)
        requires
            self.wf(),
        ensures
            r == (self@.products.dom().len() == 0),
    {
        self.len() == 0
    }

    /// Whether the store has `key` at all.
    pub fn held(&self, key: &Key) -> (r: bool)
        requires
            self.wf(),
        ensures
            r == self@.products.contains_key(key.id()),
    {
        self.products.contains_key(key)
    }

    /// Prints refused for being older than their product's window.
    pub fn late_drops(&self) -> (r: u64)
        ensures
            r == self@.late_drops,
    {
        self.late_drops
    }

    /// Products evicted for either bound.
    pub fn evicted(&self) -> (r: u64)
        ensures
            r == self@.evicted,
    {
        self.evicted
    }

    /// Whether the counts of prints have room for one more.
    pub fn has_room(&self) -> (r: bool)
        ensures
            r == (self@.clock < u64::MAX && self@.late_drops < u64::MAX),
    {
        self.touch_clock < u64::MAX && self.late_drops < u64::MAX
    }

    /// The store's account of itself.
    pub fn stats(&self) -> (r: Stats)
        requires
            self.wf(),
        ensures
            r == (Stats {
                products: self@.products.dom().len() as usize,
                products_at_cap: self@.products.dom().len() >= MAX_PRODUCTS,
                buckets: bucket_count(self@.products) as usize,
                bucket_budget: MAX_BUCKETS_ACROSS_PRODUCTS,
                est_bytes: (bucket_count(self@.products) * BYTES_PER_BUCKET
                    + self@.products.dom().len() * TRADE_RING * BYTES_PER_PRINT) as usize,
                window_secs: WINDOW_SECS,
                evicted: self@.evicted,
                late_drops: self@.late_drops,
            }),
    {
        let products = self.len();
        Stats {
            products,
            products_at_cap: products >= MAX_PRODUCTS,
            buckets: self.buckets_total,
            bucket_budget: MAX_BUCKETS_ACROSS_PRODUCTS,
            est_bytes: self.buckets_total * BYTES_PER_BUCKET + products * TRADE_RING
                * BYTES_PER_PRINT,
            window_secs: WINDOW_SECS,
            evicted: self.evicted,
            late_drops: self.late_drops,
        }
    }

    /// Mark `key` the product traded last, making place for it if it is new.
    fn touch(&mut self, key: &Key)
        requires
            old(self).wf(),
            old(self)@.clock < u64::MAX,
        ensures
            final(self).loose(),
            final(self)@ == old(self)@.touched(key.id()),
            bucket_count(final(self)@.products) <= MAX_BUCKETS_ACROSS_PRODUCTS,
            final(self)@.products.dom().len() <= MAX_PRODUCTS,
    {
        let ghost was = self@;
        if !self.products.contains_key(key) && self.len() >= MAX_PRODUCTS {
            self.cool();
            proof {
                lemma_count_removed(was.products, coldest(was.products));
            }
        }
        let ghost room = self@;
        self.touch_clock += 1;
        let taken = self.products.remove(key);
        let mut product = match taken {
            Some(p) => p,
            None => Product::new(),
        };
        product.last_touch = self.touch_clock;
        let ghost p = product@;
        self.products.insert(key.dup(), product);
        proof {
            let id = key.id();
            let prev = if room.products.contains_key(id) {
                room.products[id]
            } else {
                ProductView::fresh()
            };
            assert(p =~= (ProductView { last_touch: self.touch_clock, ..prev }));
            assert(self@.products =~= room.products.insert(id, p));
            assert(self@.products.dom() =~= room.products.dom().insert(id));
            assert(self@ =~= was.touched(id));
            lemma_count_with(room.products, id, p);
            if room.products.contains_key(id) {
                lemma_count_without(room.products, id);
            } else {
                assert(room.products.remove(id) =~= room.products);
            }
        }
    }

    /// Drop the coldest products until the buckets are within their budget.
    fn enforce_bucket_budget(&mut self)
        requires
            old(self).loose(),
        ensures
            final(self).loose(),
            final(self)@ == old(self)@.within_budget(),
    {
        let ghost want = self@.within_budget();
        while self.buckets_total > MAX_BUCKETS_ACROSS_PRODUCTS
            invariant
                self.loose(),
                self@.within_budget() == want,
            decreases self@.products.dom().len(),
        {
            proof {
                if self@.products.dom().len() == 0 {
                    assert(bucket_count(self@.products) == 0);
                }
                lemma_coldest(self@.products, self@.clock);
            }
            self.cool();
        }
    }

    /// Take in one print of `key`.
    pub fn ingest(&mut self, key: Key, print: Print)
        requires
            old(self).wf(),
            old(self)@.clock < u64::MAX,
            old(self)@.late_drops < u64::MAX,
        ensures
            final(self).wf(),
            final(self)@ == old(self)@.ingested(key.id(), print),
    {
        let ghost was = self@;
        let ghost id = key.id();
        let sec: u64 = print.ts_ns / 1_000_000_000;
        let late = match self.products.get(&key) {
            Some(p) => match p.newest_seen {
                Some(n) => sec + WINDOW_SECS < n,
                None => false,
            },
            None => false,
        };
        if late {
            self.late_drops += 1;
            assert(self@ =~= was.ingested(id, print));
            return;
        }
        self.touch(&key);
        let ghost t = self@;
        let taken = self.products.remove(&key);
        let mut product = match taken {
            Some(p) => p,
            None => Product::new(),
        };
        let ghost p = product@;
        proof {
            assert(p == t.products[id]);
            if was.products.contains_key(id) {
                assert(was.products[id].wf());
            }
        }
        let before = product.buckets_len();
        product.take(print);
        let after = product.buckets_len();
        let ghost q = product@;
        proof {
            lemma_count_without(t.products, id);
            lemma_count_with(t.products, id, q);
            lemma_printed_grows_by_one(p, print);
        }
        self.buckets_total = self.buckets_total - before + after;
        self.products.insert(key, product);
        let ghost grown = self@;
        proof {
            assert(grown.products =~= t.products.insert(id, q));
            assert(grown.products.dom() =~= t.products.dom());
        }
        self.enforce_bucket_budget();
        proof {
            assert(self@ == was.ingested(id, print));
            law_the_store_stays_within_its_bounds(was, id, print);
        }
    }

    /// How many products there are of one channel of one universe.
    pub fn products_for(&self, source_id: u16, category: &str, channel: u8) -> (r: usize)
        requires
            self.wf(),
        ensures
            r == self@.products.dom().intersect(
                in_channel(source_id, category@, channel),
            ).len(),
    {
        let ghost scope = in_channel(source_id, category@, channel);
        let ghost items = self.products.items();
        let mut r: usize = 0;
        let mut i: usize = 0;
        let ghost mut seen = Set::<KeyId>::empty();
        while i < self.products.len()
            invariant
                self.wf(),
                items == self.products.items(),
                scope == in_channel(source_id, category@, channel),
                i <= items.len(),
                r <= i,
                seen.finite(),
                r == seen.len(),
                forall|id: KeyId| #[trigger]
                    seen.contains(id) <==> scope.contains(id) && exists|j: int|
                        0 <= j < i && (#[trigger] items[j]).0.id() == id,
            decreases items.len() - i,
        {
            let k = self.products.key_at(i);
            let ghost before = seen;
            let ghost id = items[i as int].0.id();
            let hit = k.source_id == source_id && k.channel == channel && same_text(
                k.category.as_str(),
                category,
            );
            proof {
                assert(hit == scope.contains(id));
                assert(!seen.contains(id)) by {
                    if seen.contains(id) {
                        let j = choose|j: int| 0 <= j < i && (#[trigger] items[j]).0.id() == id;
                        self.products.lemma_distinct(i as int, j);
                    }
                }
                if hit {
                    seen = seen.insert(id);
                }
                assert forall|x: KeyId| #[trigger] seen.contains(x) <==> scope.contains(x)
                    && exists|j: int| 0 <= j < i + 1 && (#[trigger] items[j]).0.id() == x by {
                    if seen.contains(x) {
                        if x == id {
                            assert(items[i as int].0.id() == x);
                        } else {
                            assert(before.contains(x));
                            let j = choose|j: int| 0 <= j < i && (#[trigger] items[j]).0.id() == x;
                            assert(items[j].0.id() == x);
                        }
                    }
                    if scope.contains(x) && exists|j: int|
                        0 <= j < i + 1 && (#[trigger] items[j]).0.id() == x {
                        let j = choose|j: int|
                            0 <= j < i + 1 && (#[trigger] items[j]).0.id() == x;
                        if j < i {
                            assert(before.contains(x));
                        }
                    }
                }
            }
            if hit {
                r += 1;
            }
            i += 1;
        }
        proof {
            assert(seen =~= self@.products.dom().intersect(scope)) by {
                assert forall|x: KeyId| seen.contains(x) == self@.products.dom().intersect(
                    scope,
                ).contains(x) by {
                    if seen.contains(x) {
                        let j = choose|j: int| 0 <= j < i && (#[trigger] items[j]).0.id() == x;
                        self.products.lemma_item(j);
                    }
                    if self@.products.contains_key(x) && scope.contains(x) {
                        let j = self.products.lemma_stored(x);
                        assert(items[j].0.id() == x);
                    }
                }
            }
        }
        r
    }
}

/// The buckets that a query at `now_secs` is served from: closed, and not older than the window that
/// ends now.
pub open spec fn served(buckets: Map<u64, Bucket>, now_secs: u64) -> Map<u64, Bucket> {
    buckets.restrict(Set::new(|k: u64| window_start(now_secs) <= k < now_secs))
}

/// The granularity that a caller asked for; zero means one second.
pub open spec fn grain(granularity_secs: u64) -> u64 {
    if granularity_secs == 0 {
        1
    } else {
        granularity_secs
    }
}

/// The start of the interval that a second is in.
pub open spec fn group_start(sec: u64, grain: u64) -> u64 {
    (sec as int / grain as int * grain as int) as u64
}

impl Candle {
    /// The candle of one bucket.
    pub open spec fn of(start: u64, b: Bucket) -> Candle {
        Candle { start, open: b.open, high: b.high, low: b.low, close: b.close, volume: b.volume }
    }

    /// The candle with a later bucket added.
    pub open spec fn joined(self, b: Bucket) -> Candle {
        Candle {
            start: self.start,
            open: self.open,
            high: higher(self.high, b.high),
            low: lower(self.low, b.low),
            close: b.close,
            volume: capped_sum(self.volume, b.volume),
        }
    }
}

/// Buckets in order, rolled up into intervals, oldest first. An interval without a bucket has no
/// candle.
pub open spec fn rolled(s: Seq<(u64, Bucket)>, grain: u64) -> Seq<Candle>
    decreases s.len(),
{
    if s.len() == 0 {
        Seq::empty()
    } else {
        let done = rolled(s.drop_last(), grain);
        let start = group_start(s.last().0, grain);
        if done.len() > 0 && done.last().start == start {
            done.drop_last().push(done.last().joined(s.last().1))
        } else {
            done.push(Candle::of(start, s.last().1))
        }
    }
}

impl StoreView {
    /// The buckets that a query is served from, in order.
    pub open spec fn entries(self, id: KeyId, now_secs: u64) -> Seq<(u64, Bucket)> {
        if self.products.contains_key(id) {
            listing(served(self.products[id].buckets, now_secs), less_u64())
        } else {
            Seq::empty()
        }
    }

    /// Every candle of a query, newest first.
    pub open spec fn rollup(self, id: KeyId, granularity_secs: u64, now_secs: u64) -> Seq<Candle> {
        rolled(self.entries(id, now_secs), grain(granularity_secs)).reverse()
    }
}

/// The first `n` elements, or all if there are fewer.
pub open spec fn at_most<T>(s: Seq<T>, n: usize) -> Seq<T> {
    if s.len() <= n {
        s
    } else {
        s.take(n as int)
    }
}

fn start_of_group(sec: u64, grain: u64) -> (r: u64)
    requires
        grain > 0,
    ensures
        r == group_start(sec, grain),
        r <= sec,
{
    proof {
        lemma_group(sec, grain);
    }
    (sec / grain) * grain
}

pub(crate) proof fn lemma_group(sec: u64, grain: u64)
    requires
        grain > 0,
    ensures
        group_start(sec, grain) == sec as int / grain as int * grain as int,
        0 <= sec as int / grain as int * grain as int <= sec,
        sec < group_start(sec, grain) + grain,
{
    let a = sec as int;
    let g = grain as int;
    assert(0 <= a / g * g <= a && a < a / g * g + g) by (nonlinear_arith)
        requires
            a >= 0,
            g > 0,
    ;
}

impl Store {
    /// Roll the buckets that are served up into candles, newest first.
    fn rollup(&self, key: &Key, granularity_secs: u64, now_secs: u64) -> (r: Vec<Candle>)
        requires
            self.wf(),
        ensures
            r@ == self@.rollup(key.id(), granularity_secs, now_secs),
    {
        let grain: u64 = if granularity_secs == 0 {
            1
        } else {
            granularity_secs
        };
        let product = match self.products.get(key) {
            Some(p) => p,
            None => {
                assert(Seq::<Candle>::empty().reverse() =~= Seq::<Candle>::empty());
                return Vec::new();
            },
        };
        let ghost all = product.buckets@;
        let ghost m = pairs_map(all);
        let floor: u64 = if now_secs >= WINDOW_SECS {
            now_secs - WINDOW_SECS
        } else {
            0
        };
        let n = product.buckets.len();
        let mut lo: usize = 0;
        while lo < n && product.buckets[lo].0 < floor
            invariant
                all == product.buckets@,
                n == all.len(),
                lo <= n,
                forall|j: int| 0 <= j < lo ==> (#[trigger] all[j]).0 < floor,
            decreases n - lo,
        {
            lo += 1;
        }
        let mut groups: Vec<Candle> = Vec::new();
        let mut i = lo;
        proof {
            assert(all.subrange(lo as int, lo as int) =~= Seq::empty());
        }
        while i < n && product.buckets[i].0 < now_secs
            invariant
                all == product.buckets@,
                n == all.len(),
                lo <= i <= n,
                grain > 0,
                groups@ == rolled(all.subrange(lo as int, i as int), grain),
                forall|j: int| lo <= j < i ==> (#[trigger] all[j]).0 < now_secs,
            decreases n - i,
        {
            let (sec, bucket) = product.buckets[i];
            let start = start_of_group(sec, grain);
            let ghost before = groups@;
            proof {
                let grown = all.subrange(lo as int, i + 1);
                assert(grown.drop_last() =~= all.subrange(lo as int, i as int));
                assert(grown.last() == all[i as int]);
            }
            let len = groups.len();
            if len > 0 && groups[len - 1].start == start {
                let c = groups[len - 1];
                let joined = Candle {
                    start: c.start,
                    open: c.open,
                    high: if c.high < bucket.high {
                        bucket.high
                    } else {
                        c.high
                    },
                    low: if bucket.low < c.low {
                        bucket.low
                    } else {
                        c.low
                    },
                    close: bucket.close,
                    volume: add_capped(c.volume, bucket.volume),
                };
                groups.set(len - 1, joined);
                assert(groups@ =~= before.drop_last().push(before.last().joined(bucket)));
            } else {
                groups.push(
                    Candle {
                        start,
                        open: bucket.open,
                        high: bucket.high,
                        low: bucket.low,
                        close: bucket.close,
                        volume: bucket.volume,
                    },
                );
            }
            i += 1;
        }
        proof {
            lemma_served(all, now_secs, lo as int, i as int);
        }
        let mut out: Vec<Candle> = Vec::new();
        let mut k = groups.len();
        while k > 0
            invariant
                k <= groups@.len(),
                out@.len() == groups@.len() - k,
                forall|j: int| 0 <= j < out@.len() ==> out@[j] == groups@[groups@.len() - 1 - j],
            decreases k,
        {
            k -= 1;
            out.push(groups[k]);
        }
        proof {
            assert(out@ =~= groups@.reverse());
        }
        out
    }

    /// Candles of a granularity, newest first, `limit` at most.
    pub fn candles(&self, key: &Key, granularity_secs: u64, limit: usize, now_secs: u64) -> (r: Vec<
        Candle,
    >)
        requires
            self.wf(),
        ensures
            r@ == at_most(self@.rollup(key.id(), granularity_secs, now_secs), limit),
            r@.len() <= limit,
            forall|i: int, j: int|
                0 <= i < j < r@.len() ==> (#[trigger] r@[i]).start > (#[trigger] r@[j]).start,
    {
        let mut groups = self.rollup(key, granularity_secs, now_secs);
        proof {
            let all = groups@;
            assert forall|i: int, j: int| 0 <= i < j < all.len() implies (#[trigger] all[i]).start > (
            #[trigger] all[j]).start by {
                crate::history_laws::law_candles_are_newest_first(
                    self@,
                    key.id(),
                    granularity_secs,
                    now_secs,
                    i,
                    j,
                );
            }
        }
        if groups.len() > limit {
            groups.truncate(limit);
        }
        groups
    }

    /// What a `candles` call with the same arguments covers.
    pub fn retention(&self, key: &Key, granularity_secs: u64, limit: usize, now_secs: u64) -> (r:
        Retention)
        requires
            self.wf(),
        ensures
            ({
                let all = self@.rollup(key.id(), granularity_secs, now_secs);
                r == (Retention {
                    window_seconds: WINDOW_SECS,
                    oldest: if all.len() > 0 {
                        all.last().start
                    } else {
                        now_secs
                    },
                    newest: if all.len() > 0 {
                        all[0].start
                    } else {
                        now_secs
                    },
                    truncated: all.len() > limit,
                    held: self@.products.contains_key(key.id()),
                })
            }),
            ({
                let all = self@.rollup(key.id(), granularity_secs, now_secs);
                &&& forall|i: int|
                    0 <= i < all.len() ==> r.oldest <= (#[trigger] all[i]).start <= r.newest
                &&& all.len() > 0 ==> all[0].start == r.newest && all[all.len() - 1].start == r.oldest
                &&& all.len() == 0 ==> r.oldest == now_secs && r.newest == now_secs
                &&& r.truncated <==> at_most(all, limit).len() < all.len()
                &&& r.window_seconds == 3600
            }),
    {
        let groups = self.rollup(key, granularity_secs, now_secs);
        let n = groups.len();
        proof {
            let all = groups@;
            assert forall|i: int| 0 <= i < all.len() implies all[all.len() - 1].start <= (
            #[trigger] all[i]).start <= all[0].start by {
                if i > 0 {
                    crate::history_laws::law_candles_are_newest_first(
                        self@,
                        key.id(),
                        granularity_secs,
                        now_secs,
                        0,
                        i,
                    );
                }
                if i < all.len() - 1 {
                    crate::history_laws::law_candles_are_newest_first(
                        self@,
                        key.id(),
                        granularity_secs,
                        now_secs,
                        i,
                        all.len() - 1,
                    );
                }
            }
        }
        Retention {
            window_seconds: WINDOW_SECS,
            oldest: if n > 0 {
                groups[n - 1].start
            } else {
                now_secs
            },
            newest: if n > 0 {
                groups[0].start
            } else {
                now_secs
            },
            truncated: n > limit,
            held: self.held(key),
        }
    }

    /// The most recent prints, newest first, `limit` at most.
    pub fn recent_trades(&self, key: &Key, limit: usize) -> (r: Vec<Print>)
        requires
            self.wf(),
        ensures
            r@ == (if self@.products.contains_key(key.id()) {
                at_most(self@.products[key.id()].ring.reverse(), limit)
            } else {
                Seq::empty()
            }),
            r@.len() <= limit,
            self@.products.contains_key(key.id()) ==> {
                let ring = self@.products[key.id()].ring;
                &&& r@.len() == limit || r@.len() == ring.len()
                &&& r@.len() <= ring.len()
                &&& forall|i: int| 0 <= i < r@.len() ==> #[trigger] r@[i] == ring[ring.len() - 1 - i]
            },
    {
        let product = match self.products.get(key) {
            Some(p) => p,
            None => {
                return Vec::new();
            },
        };
        let ghost all = product.ring@.reverse();
        let n = product.ring.len();
        let mut out: Vec<Print> = Vec::new();
        let mut k: usize = 0;
        while k < n && k < limit
            invariant
                n == product.ring@.len(),
                all == product.ring@.reverse(),
                k <= n,
                k <= limit,
                out@ == all.take(k as int),
            decreases n - k,
        {
            out.push(product.ring[n - 1 - k]);
            k += 1;
            assert(out@ =~= all.take(k as int));
        }
        proof {
            if n <= limit {
                assert(all.take(k as int) =~= all);
            }
        }
        out
    }

    /// Drop every product of one channel of one universe, returning how many that were.
    pub fn forget_channel(&mut self, source_id: u16, category: &str, channel: u8) -> (r: usize)
        requires
            old(self).wf(),
        ensures
            final(self).wf(),
            final(self)@ == old(self)@.channel_gone(source_id, category@, channel),
            r == old(self)@.products.dom().intersect(
                in_channel(source_id, category@, channel),
            ).len(),
    {
        let ghost was = self@;
        let ghost scope = in_channel(source_id, category@, channel);
        let ghost mut gone = Set::<KeyId>::empty();
        let mut dropped: usize = 0;
        let mut i: usize = 0;
        proof {
            assert(was.products.remove_keys(gone) =~= was.products);
            self.products.lemma_len();
        }
        while i < self.products.len()
            invariant
                self.loose(),
                was.wf(),
                scope == in_channel(source_id, category@, channel),
                self@ == (StoreView { products: was.products.remove_keys(gone), ..was }),
                gone.finite(),
                gone.subset_of(scope),
                gone.subset_of(was.products.dom()),
                dropped == gone.len(),
                dropped + self@.products.dom().len() == was.products.dom().len(),
                i <= self.products.items().len(),
                self.products.items().len() == self@.products.dom().len(),
                bucket_count(self@.products) <= MAX_BUCKETS_ACROSS_PRODUCTS,
                forall|j: int|
                    0 <= j < i ==> !scope.contains((#[trigger] self.products.items()[j]).0.id()),
            decreases self.products.items().len() - i,
        {
            let ghost items = self.products.items();
            let ghost now = self@;
            let ghost id = items[i as int].0.id();
            let k = self.products.key_at(i);
            let hit = k.source_id == source_id && k.channel == channel && same_text(
                k.category.as_str(),
                category,
            );
            assert(hit == scope.contains(id));
            if hit {
                proof {
                    lemma_count_removed(now.products, id);
                }
                self.drop_at(i);
                proof {
                    assert(now.products.contains_key(id));
                    assert(!gone.contains(id));
                    gone = gone.insert(id);
                    assert(was.products.remove_keys(gone) =~= now.products.remove(id));
                    assert forall|j: int| 0 <= j < i implies !scope.contains(
                        (#[trigger] self.products.items()[j]).0.id(),
                    ) by {
                        assert(self.products.items()[j] == items[j]);
                    }
                }
                dropped += 1;
            } else {
                i += 1;
            }
        }
        proof {
            assert forall|id: KeyId| self@.products.contains_key(id) implies !scope.contains(id) by {
                let j = self.products.lemma_stored(id);
                assert(!scope.contains(self.products.items()[j].0.id()));
            }
            assert(gone =~= was.products.dom().intersect(scope)) by {
                assert forall|id: KeyId| was.products.dom().contains(id) && scope.contains(id) implies gone.contains(id) by {
                    if !gone.contains(id) {
                        assert(self@.products.contains_key(id));
                    }
                }
            }
            assert(was.products.remove_keys(gone) =~= was.products.remove_keys(scope));
            assert(self@ =~= was.channel_gone(source_id, category@, channel));
            assert forall|id: KeyId| #[trigger] self@.products.contains_key(id) implies self@.products[id].wf() by {
                assert(was.products.contains_key(id));
            }
        }
        dropped
    }
}

/// The buckets between two positions are those that are served.
proof fn lemma_served(all: Seq<(u64, Bucket)>, now_secs: u64, lo: int, hi: int)
    requires
        rising(all),
        0 <= lo <= hi <= all.len(),
        forall|j: int| 0 <= j < lo ==> (#[trigger] all[j]).0 < window_start(now_secs),
        lo < all.len() ==> all[lo].0 >= window_start(now_secs),
        forall|j: int| lo <= j < hi ==> (#[trigger] all[j]).0 < now_secs,
        hi < all.len() ==> all[hi].0 >= now_secs,
    ensures
        all.subrange(lo, hi) == listing(served(pairs_map(all), now_secs), less_u64()),
{
    lemma_pairs(all);
    let m = pairs_map(all);
    let want = served(m, now_secs);
    let s = all.subrange(lo, hi);
    assert forall|p: int, q: int| 0 <= p < q < s.len() implies (less_u64())(
        (#[trigger] s[p]).0,
        (#[trigger] s[q]).0,
    ) by {
        assert(s[p] == all[p + lo] && s[q] == all[q + lo]);
    }
    assert forall|p: int| 0 <= p < s.len() implies want.contains_key((#[trigger] s[p]).0)
        && want[s[p].0] == s[p].1 by {
        assert(s[p] == all[p + lo]);
        assert(m.contains_key(all[p + lo].0) && m[all[p + lo].0] == all[p + lo].1);
        if p > 0 {
            assert(all[lo].0 < all[p + lo].0);
        }
    }
    assert forall|k: u64| #[trigger] want.contains_key(k) implies exists|p: int|
        0 <= p < s.len() && (#[trigger] s[p]).0 == k by {
        assert(m.contains_key(k));
        let p = choose|p: int| 0 <= p < all.len() && (#[trigger] all[p]).0 == k;
        if p >= hi && hi < all.len() && p > hi {
            assert(all[hi].0 < all[p].0);
        }
        assert(s[p - lo].0 == k);
    }
    lemma_is_listing(want, s, less_u64());
}

/// A print opens one bucket at most.
proof fn lemma_printed_grows_by_one(p: ProductView, print: Print)
    requires
        p.buckets.dom().finite(),
    ensures
        p.printed(print).buckets.dom().finite(),
        p.printed(print).buckets.dom().len() <= p.buckets.dom().len() + 1,
{
    let sec = second_of(print);
    let all = p.buckets.dom().insert(sec);
    let kept = p.printed(print).buckets.dom();
    assert(kept.subset_of(all));
    vstd::set_lib::lemma_len_subset(kept, all);
}

/// A print leaves a product that has traded: its newest second has a bucket, every bucket is in its
/// window, and its ring is not over full.
pub(crate) proof fn lemma_printed_wf(p: ProductView, print: Print)
    requires
        p.wf() || p.newest is None && p.buckets == Map::<u64, Bucket>::empty() && p.ring.len() == 0,
        !p.too_late(second_of(print)),
    ensures
        p.printed(print).wf(),
{
    lemma_printed_grows_by_one(p, print);
    let sec = second_of(print);
    let q = p.printed(print);
    let n = q.newest->0;
    assert(put(p.buckets, sec, print).contains_key(n));
    assert(q.buckets.contains_key(n));
}

/// Evicting the coldest keeps the accounts.
pub(crate) proof fn lemma_cooled(v: StoreView)
    requires
        v.products.dom().finite(),
        v.products.contains_key(coldest(v.products)),
        touches_ok(v.products, v.clock),
        v.evicted + v.products.dom().len() <= v.clock,
    ensures
        v.cooled().products.dom().finite(),
        v.cooled().products.dom().len() == v.products.dom().len() - 1,
        touches_ok(v.cooled().products, v.clock),
        v.cooled().evicted == v.evicted + 1,
        v.cooled().evicted + v.cooled().products.dom().len() <= v.clock,
        v.cooled().clock == v.clock,
        v.cooled().late_drops == v.late_drops,
        v.cooled().products.submap_of(v.products),
        bucket_count(v.cooled().products) <= bucket_count(v.products),
{
    let c = coldest(v.products);
    assert(v.cooled().products.dom() =~= v.products.dom().remove(c));
    lemma_count_removed(v.products, c);
    let q = v.cooled().products;
    assert forall|a: KeyId, b: KeyId| #[trigger]
        q.contains_key(a) && #[trigger] q.contains_key(b) && a != b implies q[a].last_touch
        != q[b].last_touch by {
        assert(v.products.contains_key(a) && v.products.contains_key(b));
    }
    assert forall|id: KeyId| #[trigger] q.contains_key(id) implies q[id].last_touch <= v.clock by {
        assert(v.products.contains_key(id));
    }
}

pub(crate) proof fn lemma_within_budget(v: StoreView)
    requires
        v.products.dom().finite(),
        touches_ok(v.products, v.clock),
        v.evicted + v.products.dom().len() <= v.clock,
        forall|id: KeyId| #[trigger] v.products.contains_key(id) ==> v.products[id].wf(),
    ensures
        ({
            let w = v.within_budget();
            &&& w.products.dom().finite()
            &&& w.products.dom().len() <= v.products.dom().len()
            &&& bucket_count(w.products) <= MAX_BUCKETS_ACROSS_PRODUCTS
            &&& touches_ok(w.products, w.clock)
            &&& w.evicted + w.products.dom().len() <= w.clock
            &&& w.clock == v.clock
            &&& w.late_drops == v.late_drops
            &&& w.products.submap_of(v.products)
            &&& v.evicted <= w.evicted
        }),
    decreases v.products.dom().len(),
{
    if bucket_count(v.products) > MAX_BUCKETS_ACROSS_PRODUCTS {
        if v.products.dom().len() == 0 {
            assert(bucket_count(v.products) == 0);
        }
        lemma_coldest(v.products, v.clock);
        lemma_cooled(v);
        assert forall|id: KeyId| #[trigger] v.cooled().products.contains_key(id) implies v.cooled().products[id].wf() by {
            assert(v.products.contains_key(id));
        }
        lemma_within_budget(v.cooled());
    }
}

/// Whatever prints arrive, the store stays within its bounds: so many products, so many buckets over
/// all of them, so many prints per product, and no bucket outside its product's window.
pub proof fn law_the_store_stays_within_its_bounds(v: StoreView, id: KeyId, print: Print)
    requires
        v.wf(),
        v.clock < u64::MAX,
        v.late_drops < u64::MAX,
    ensures
        v.ingested(id, print).wf(),
{
    if !(v.products.contains_key(id) && v.products[id].too_late(second_of(print))) {
        let t = v.touched(id);
        lemma_touched(v, id);
        let p = t.products[id];
        lemma_printed_wf(p, print);
        let q = p.printed(print);
        let grown = StoreView { products: t.products.insert(id, q), ..t };
        assert(grown.products.dom() =~= t.products.dom());
        assert(touches_ok(grown.products, grown.clock)) by {
            assert forall|a: KeyId, b: KeyId| #[trigger]
                grown.products.contains_key(a) && #[trigger] grown.products.contains_key(b) && a
                    != b implies grown.products[a].last_touch != grown.products[b].last_touch by {
                assert(t.products.contains_key(a) && t.products.contains_key(b));
            }
            assert forall|a: KeyId| #[trigger] grown.products.contains_key(a) implies grown.products[a].last_touch
                <= grown.clock by {
                assert(t.products.contains_key(a));
            }
        }
        assert forall|a: KeyId| #[trigger] grown.products.contains_key(a) implies grown.products[a].wf() by {
            if a != id {
                assert(t.products.contains_key(a));
            }
        }
        lemma_within_budget(grown);
        let w = grown.within_budget();
        assert forall|a: KeyId| #[trigger] w.products.contains_key(a) implies w.products[a].wf() by {
            assert(w.products.dom().contains(a));
            assert(grown.products.contains_key(a));
        }
    }
}

/// What a touch leaves.
pub(crate) proof fn lemma_touched(v: StoreView, id: KeyId)
    requires
        v.wf(),
        v.clock < u64::MAX,
    ensures
        ({
            let t = v.touched(id);
            &&& t.products.dom().finite()
            &&& t.products.dom().len() <= MAX_PRODUCTS
            &&& touches_ok(t.products, t.clock)
            &&& t.evicted + t.products.dom().len() <= t.clock
            &&& t.clock == v.clock + 1
            &&& t.products.contains_key(id)
            &&& t.products[id].last_touch == t.clock
            &&& if v.products.contains_key(id) {
                t.products[id] == (ProductView { last_touch: t.clock, ..v.products[id] })
            } else {
                t.products[id] == (ProductView { last_touch: t.clock, ..ProductView::fresh() })
            }
            &&& forall|a: KeyId| #[trigger]
                t.products.contains_key(a) && a != id ==> v.products.contains_key(a)
                    && t.products[a] == v.products[a]
        }),
{
    let full = !v.products.contains_key(id) && v.products.dom().len() >= MAX_PRODUCTS;
    if full {
        lemma_coldest(v.products, v.clock);
        lemma_cooled(v);
    }
    let room = if full {
        v.cooled()
    } else {
        v
    };
    let t = v.touched(id);
    assert(t.products.dom() =~= room.products.dom().insert(id));
    assert forall|a: KeyId| #[trigger] t.products.contains_key(a) && a != id implies v.products.contains_key(a)
        && t.products[a] == v.products[a] by {
        assert(room.products.dom().contains(a));
    }
    if !full && v.products.contains_key(id) {
        assert(t.products.dom() =~= v.products.dom());
    }
    assert(touches_ok(t.products, t.clock)) by {
        assert forall|a: KeyId, b: KeyId| #[trigger]
            t.products.contains_key(a) && #[trigger] t.products.contains_key(b) && a
                != b implies t.products[a].last_touch != t.products[b].last_touch by {
            if a != id {
                assert(v.products.contains_key(a));
            }
            if b != id {
                assert(v.products.contains_key(b));
            }
        }
        assert forall|a: KeyId| #[trigger] t.products.contains_key(a) implies t.products[a].last_touch
            <= t.clock by {
            if a != id {
                assert(v.products.contains_key(a));
            }
        }
    }
}

} // verus!
