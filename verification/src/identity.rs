//! What makes two updates the same update.

use crate::codec_common::pow10;
use crate::model::{
    copy_levels, NormalizedDepth, NormalizedQuote, CANONICAL_BBO_EXP, VALUE_EXP,
};
use crate::table::{mix, mix_spec, str_code, text_code, Key, MIX_SEED};
use vstd::prelude::*;

verus! {

/// How many units of a value make one unit of its canonical form.
pub const CANONICAL_UNIT: i128 = 10_000_000_000;

/// A value in units of `10^-CANONICAL_BBO_EXP`: the nearest, halves away from zero.
pub open spec fn canonical(x: int) -> int {
    if x >= 0 {
        (x + CANONICAL_UNIT / 2) / (CANONICAL_UNIT as int)
    } else {
        -((-x + CANONICAL_UNIT / 2) / (CANONICAL_UNIT as int))
    }
}

/// A value in units of `10^-CANONICAL_BBO_EXP`.
fn canonical_value(x: i128) -> (r: i128)
    ensures
        r == canonical(x as int),
{
    let size: u128 = if x >= 0 {
        x as u128
    } else {
        (-(x + 1)) as u128 + 1
    };
    let near: u128 = (size + 5_000_000_000) / 10_000_000_000;
    if x >= 0 {
        near as i128
    } else {
        -(near as i128)
    }
}

/// Values that differ by less than half a canonical unit from one canonical value are the same value:
/// two encodings of one price share an identity. Canonical values themselves are told apart.
pub proof fn law_near_values_share_an_identity(x: int, n: int)
    ensures
        CANONICAL_UNIT == pow10((VALUE_EXP - CANONICAL_BBO_EXP) as nat),
        -(CANONICAL_UNIT / 2) < x - n * CANONICAL_UNIT < CANONICAL_UNIT / 2 ==> canonical(x) == n,
        canonical(n * CANONICAL_UNIT) == n,
{
    reveal_with_fuel(pow10, 11);
}

/// Levels in units of `10^-CANONICAL_BBO_EXP`.
pub open spec fn canonical_levels(levels: Seq<(i128, i128)>) -> Seq<(i128, i128)> {
    levels.map_values(
        |l: (i128, i128)| (canonical(l.0 as int) as i128, canonical(l.1 as int) as i128),
    )
}

fn canonical_copy(levels: &Vec<(i128, i128)>) -> (r: Vec<(i128, i128)>)
    ensures
        r@ == canonical_levels(levels@),
{
    let mut out: Vec<(i128, i128)> = Vec::new();
    let mut i: usize = 0;
    while i < levels.len()
        invariant
            i <= levels@.len(),
            out@ == canonical_levels(levels@.take(i as int)),
        decreases levels@.len() - i,
    {
        let (price, size) = levels[i];
        out.push((canonical_value(price), canonical_value(size)));
        i += 1;
        assert(out@ =~= canonical_levels(levels@.take(i as int)));
    }
    assert(levels@.take(i as int) =~= levels@);
    out
}

/// The canonical business identity of a quote at a tick: bid and ask price and size on the canonical
/// fixed-point scale, plus the source counts. The tick itself is not part of it.
#[derive(Debug, Clone, Copy, PartialEq, Eq, Hash, Structural)]
pub struct QuoteId {
    pub bid_px: i128,
    pub bid_sz: i128,
    pub ask_px: i128,
    pub ask_sz: i128,
    pub bid_n: u16,
    pub ask_n: u16,
}

impl QuoteId {
    pub open spec fn of_spec(q: NormalizedQuote) -> QuoteId {
        QuoteId {
            bid_px: canonical(q.bid as int) as i128,
            bid_sz: canonical(q.bid_size as int) as i128,
            ask_px: canonical(q.ask as int) as i128,
            ask_sz: canonical(q.ask_size as int) as i128,
            bid_n: q.bid_n,
            ask_n: q.ask_n,
        }
    }

    /// The content identity of a quote.
    pub fn of(q: &NormalizedQuote) -> (r: Self)
        ensures
            r == QuoteId::of_spec(*q),
    {
        QuoteId {
            bid_px: canonical_value(q.bid),
            bid_sz: canonical_value(q.bid_size),
            ask_px: canonical_value(q.ask),
            ask_sz: canonical_value(q.ask_size),
            bid_n: q.bid_n,
            ask_n: q.ask_n,
        }
    }
}

impl Key for QuoteId {
    type Id = QuoteId;

    open spec fn id(&self) -> QuoteId {
        *self
    }

    open spec fn code_of(id: QuoteId) -> u64 {
        mix_spec(
            mix_spec(
                mix_spec(mix_spec(MIX_SEED, id.bid_px as u64), id.bid_sz as u64),
                id.ask_px as u64,
            ),
            id.ask_sz as u64,
        )
    }

    fn same(&self, other: &Self) -> (r: bool) {
        *self == *other
    }

    fn code(&self) -> (r: u64) {
        mix(
            mix(
                mix(mix(MIX_SEED, self.bid_px as u64), self.bid_sz as u64),
                self.ask_px as u64,
            ),
            self.ask_sz as u64,
        )
    }

    fn dup(&self) -> (r: Self) {
        *self
    }
}

/// The canonical business identity of a depth snapshot at a tick: the full content of both sides on the
/// canonical fixed-point scale.
#[derive(Debug, Clone, PartialEq, Eq, Hash)]
pub struct DepthId {
    pub bids: Vec<(i128, i128)>,
    pub asks: Vec<(i128, i128)>,
}

impl DepthId {
    /// The content identity of a depth snapshot.
    pub fn of(d: &NormalizedDepth) -> (r: Self)
        ensures
            r.id() == (canonical_levels(d.bids@), canonical_levels(d.asks@)),
    {
        DepthId { bids: canonical_copy(&d.bids), asks: canonical_copy(&d.asks) }
    }
}

/// The code of a list of levels, folded into `seed`.
pub open spec fn levels_code(seed: u64, levels: Seq<(i128, i128)>) -> u64
    decreases levels.len(),
{
    if levels.len() == 0 {
        seed
    } else {
        mix_spec(
            mix_spec(levels_code(seed, levels.drop_last()), levels.last().0 as u64),
            levels.last().1 as u64,
        )
    }
}

fn code_levels(seed: u64, levels: &Vec<(i128, i128)>) -> (r: u64)
    ensures
        r == levels_code(seed, levels@),
{
    let mut h: u64 = seed;
    let mut i: usize = 0;
    while i < levels.len()
        invariant
            i <= levels@.len(),
            h == levels_code(seed, levels@.take(i as int)),
        decreases levels@.len() - i,
    {
        let (price, size) = levels[i];
        h = mix(mix(h, price as u64), size as u64);
        assert(levels@.take(i as int + 1).drop_last() =~= levels@.take(i as int));
        i += 1;
    }
    assert(levels@.take(i as int) =~= levels@);
    h
}

fn same_levels(a: &Vec<(i128, i128)>, b: &Vec<(i128, i128)>) -> (r: bool)
    ensures
        r == (a@ == b@),
{
    if a.len() != b.len() {
        return false;
    }
    let mut i: usize = 0;
    while i < a.len()
        invariant
            a@.len() == b@.len(),
            i <= a@.len(),
            forall|j: int| 0 <= j < i ==> a@[j] == b@[j],
        decreases a@.len() - i,
    {
        let (p, s) = a[i];
        let (q, t) = b[i];
        if p != q || s != t {
            return false;
        }
        i += 1;
    }
    assert(a@ =~= b@);
    true
}

impl Key for DepthId {
    type Id = (Seq<(i128, i128)>, Seq<(i128, i128)>);

    open spec fn id(&self) -> (Seq<(i128, i128)>, Seq<(i128, i128)>) {
        (self.bids@, self.asks@)
    }

    open spec fn code_of(id: (Seq<(i128, i128)>, Seq<(i128, i128)>)) -> u64 {
        levels_code(levels_code(MIX_SEED, id.0), id.1)
    }

    fn same(&self, other: &Self) -> (r: bool) {
        same_levels(&self.bids, &other.bids) && same_levels(&self.asks, &other.asks)
    }

    fn code(&self) -> (r: u64) {
        code_levels(code_levels(MIX_SEED, &self.bids), &self.asks)
    }

    fn dup(&self) -> (r: Self) {
        DepthId { bids: copy_levels(&self.bids), asks: copy_levels(&self.asks) }
    }
}

/// The wire identity of an instrument definition.
pub struct InstrumentKey {
    pub venue: String,
    pub channel: u32,
    pub instrument_id: u32,
}

impl Key for InstrumentKey {
    type Id = (Seq<char>, u32, u32);

    open spec fn id(&self) -> (Seq<char>, u32, u32) {
        (self.venue@, self.channel, self.instrument_id)
    }

    open spec fn code_of(id: (Seq<char>, u32, u32)) -> u64 {
        mix_spec(mix_spec(text_code(id.0), id.1 as u64), id.2 as u64)
    }

    fn same(&self, other: &Self) -> (r: bool) {
        self.channel == other.channel && self.instrument_id == other.instrument_id && self.venue
            == other.venue
    }

    fn code(&self) -> (r: u64) {
        mix(
            mix(str_code(self.venue.as_str()), self.channel as u64),
            self.instrument_id as u64,
        )
    }

    fn dup(&self) -> (r: Self) {
        InstrumentKey {
            venue: self.venue.clone(),
            channel: self.channel,
            instrument_id: self.instrument_id,
        }
    }
}

/// The content of an instrument definition that consumers depend on, and when it was last broadcast.
#[derive(Debug, Clone, Copy, PartialEq, Eq, Structural)]
pub struct Announced {
    pub price_exponent: i8,
    pub qty_exponent: i8,
    pub at_ns: u64,
}

} // verus!
