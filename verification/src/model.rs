//! The normalized messages that flow through the gateway, and the identities they are keyed by.
//!
//! Prices and quantities are fixed-point integers in units of `10^-VALUE_EXP`.

use crate::table::{mix, mix_spec, str_code, text_code, Key};
use vstd::prelude::*;

verus! {

/// Prices and quantities count units of `10^-18`.
pub const VALUE_EXP: u32 = 18;

/// Two prices or quantities are the same business value if they are the same in units of `10^-8`.
pub const CANONICAL_BBO_EXP: u32 = 8;

/// A network address as a plain number.
#[derive(Debug, Clone, Copy, PartialEq, Eq, Hash, Structural)]
pub enum Address {
    V4(u32),
    V6(u128),
}

/// Which ingest source produced an update. Edge multicast publishers are told apart by their datagram
/// source address; the public WebSocket feed is one logical source with no address.
#[derive(Debug, Clone, Copy, PartialEq, Eq, Hash, Structural)]
pub enum Publisher {
    Edge(Address),
    PublicWs,
}

impl Publisher {
    /// A stable, low-cardinality label for the source class: every edge publisher is `"edge"`.
    pub fn label(self) -> (r: &'static str)
        ensures
            r@ == (match self {
                Publisher::Edge(_) => "edge"@,
                Publisher::PublicWs => "public"@,
            }),
    {
        match self {
            Publisher::Edge(_) => "edge",
            Publisher::PublicWs => "public",
        }
    }
}

/// Index of a [`Publisher`] class into a two-wide `[edge, public]` array.
pub fn pub_idx(p: Publisher) -> (r: usize)
    ensures
        r == (match p {
            Publisher::Edge(_) => 0usize,
            Publisher::PublicWs => 1,
        }),
{
    match p {
        Publisher::Edge(_) => 0,
        Publisher::PublicWs => 1,
    }
}

impl Key for Publisher {
    type Id = Publisher;

    open spec fn id(&self) -> Publisher {
        *self
    }

    open spec fn code_of(id: Publisher) -> u64 {
        match id {
            Publisher::Edge(Address::V4(a)) => mix_spec(4, a as u64),
            Publisher::Edge(Address::V6(a)) => mix_spec(
                mix_spec(6, (a / 0x1_0000_0000_0000_0000) as u64),
                (a % 0x1_0000_0000_0000_0000) as u64,
            ),
            Publisher::PublicWs => 0,
        }
    }

    fn same(&self, other: &Self) -> (r: bool) {
        *self == *other
    }

    fn code(&self) -> (r: u64) {
        match *self {
            Publisher::Edge(Address::V4(a)) => mix(4, a as u64),
            Publisher::Edge(Address::V6(a)) => mix(
                mix(6, (a / 0x1_0000_0000_0000_0000) as u64),
                (a % 0x1_0000_0000_0000_0000) as u64,
            ),
            Publisher::PublicWs => 0,
        }
    }

    fn dup(&self) -> (r: Self) {
        *self
    }
}

/// One instrument of one venue, by name.
#[derive(Debug, Clone, PartialEq, Eq, Hash)]
pub struct Listing {
    pub venue: String,
    pub symbol: String,
}

impl Key for Listing {
    type Id = (Seq<char>, Seq<char>);

    open spec fn id(&self) -> (Seq<char>, Seq<char>) {
        (self.venue@, self.symbol@)
    }

    open spec fn code_of(id: (Seq<char>, Seq<char>)) -> u64 {
        mix_spec(text_code(id.0), text_code(id.1))
    }

    fn same(&self, other: &Self) -> (r: bool) {
        self.venue == other.venue && self.symbol == other.symbol
    }

    fn code(&self) -> (r: u64) {
        mix(str_code(self.venue.as_str()), str_code(self.symbol.as_str()))
    }

    fn dup(&self) -> (r: Self) {
        Listing { venue: self.venue.clone(), symbol: self.symbol.clone() }
    }
}

/// One instrument universe of a venue: the rows that mirror one another.
#[derive(Debug, Clone, PartialEq, Eq, Hash)]
pub struct ScopeKey {
    pub venue: String,
    pub category: String,
}

/// What identifies a [`ScopeKey`].
pub type ScopeId = (Seq<char>, Seq<char>);

impl Key for ScopeKey {
    type Id = ScopeId;

    open spec fn id(&self) -> ScopeId {
        (self.venue@, self.category@)
    }

    open spec fn code_of(id: ScopeId) -> u64 {
        mix_spec(text_code(id.0), text_code(id.1))
    }

    fn same(&self, other: &Self) -> (r: bool) {
        self.venue == other.venue && self.category == other.category
    }

    fn code(&self) -> (r: u64) {
        mix(str_code(self.venue.as_str()), str_code(self.category.as_str()))
    }

    fn dup(&self) -> (r: Self) {
        ScopeKey { venue: self.venue.clone(), category: self.category.clone() }
    }
}

/// One market: a universe plus the wire identity pair.
#[derive(Debug, Clone, PartialEq, Eq, Hash)]
pub struct MarketKey {
    pub scope: ScopeKey,
    pub channel: u32,
    pub instrument_id: u32,
}

/// What identifies a [`MarketKey`].
#[verifier::ext_equal]
pub struct MarketId {
    pub scope: ScopeId,
    pub channel: u32,
    pub instrument_id: u32,
}

impl Key for MarketKey {
    type Id = MarketId;

    open spec fn id(&self) -> MarketId {
        MarketId {
            scope: self.scope.id(),
            channel: self.channel,
            instrument_id: self.instrument_id,
        }
    }

    open spec fn code_of(id: MarketId) -> u64 {
        mix_spec(
            mix_spec(ScopeKey::code_of(id.scope), id.channel as u64),
            id.instrument_id as u64,
        )
    }

    fn same(&self, other: &Self) -> (r: bool) {
        self.channel == other.channel && self.instrument_id == other.instrument_id
            && self.scope.same(&other.scope)
    }

    fn code(&self) -> (r: u64) {
        mix(mix(self.scope.code(), self.channel as u64), self.instrument_id as u64)
    }

    fn dup(&self) -> (r: Self) {
        MarketKey {
            scope: self.scope.dup(),
            channel: self.channel,
            instrument_id: self.instrument_id,
        }
    }
}

/// The side that took liquidity.
#[derive(Debug, Clone, Copy, PartialEq, Eq, Hash, Structural)]
pub enum Side {
    Buy,
    Sell,
    Unknown,
}

impl Side {
    /// The side that a wire code stands for.
    pub fn from_code(code: u8) -> (r: Side)
        ensures
            r == (if code == 1 {
                Side::Buy
            } else if code == 2 {
                Side::Sell
            } else {
                Side::Unknown
            }),
            r == Side::Buy <==> code == 1,
            r == Side::Sell <==> code == 2,
    {
        match code {
            1 => Side::Buy,
            2 => Side::Sell,
            _ => Side::Unknown,
        }
    }
}

/// A top-of-book update.
#[derive(Debug, Clone, PartialEq, Eq)]
pub struct NormalizedQuote {
    pub venue: String,
    pub source: String,
    pub source_id: u16,
    pub symbol: String,
    pub bid: i128,
    pub ask: i128,
    pub bid_size: i128,
    pub ask_size: i128,
    pub bid_n: u16,
    pub ask_n: u16,
    pub source_ts_ns: u64,
    pub recv_ts_ns: u64,
    pub kernel_rx_ts_ns: u64,
    pub ws_send_ts_ns: u64,
}

/// A print.
#[derive(Debug, Clone, PartialEq, Eq)]
pub struct NormalizedTrade {
    pub venue: String,
    pub source: String,
    pub source_id: u16,
    pub symbol: String,
    pub channel: u32,
    pub instrument_id: u32,
    pub category: String,
    pub price: i128,
    pub size: i128,
    pub aggressor_side: Side,
    pub trade_id: u64,
    pub cumulative_volume: i128,
    pub source_ts_ns: u64,
    pub recv_ts_ns: u64,
    pub kernel_rx_ts_ns: u64,
    pub ws_send_ts_ns: u64,
}

/// An instrument definition.
#[derive(Debug, Clone, PartialEq, Eq)]
pub struct NormalizedInstrument {
    pub venue: String,
    pub source: String,
    pub source_id: u16,
    pub symbol: String,
    pub channel: u32,
    pub instrument_id: u32,
    pub category: String,
    pub price_exponent: i8,
    pub qty_exponent: i8,
}

/// A midpoint update.
#[derive(Debug, Clone, PartialEq, Eq)]
pub struct NormalizedMidpoint {
    pub venue: String,
    pub source: String,
    pub source_id: u16,
    pub symbol: String,
    pub mid: i128,
    pub source_ts_ns: u64,
    pub recv_ts_ns: u64,
}

/// A full-state top-of-N book: `(price, size)` per level, best first.
#[derive(Debug, Clone, PartialEq, Eq)]
pub struct NormalizedDepth {
    pub venue: String,
    pub source: String,
    pub source_id: u16,
    pub symbol: String,
    pub bids: Vec<(i128, i128)>,
    pub asks: Vec<(i128, i128)>,
    pub source_ts_ns: u64,
    pub recv_ts_ns: u64,
    pub kernel_rx_ts_ns: u64,
    pub ws_send_ts_ns: u64,
}

/// What a book change does.
#[derive(Debug, Clone, Copy, PartialEq, Eq, Hash, Structural)]
pub enum BookAction {
    Update,
    Delete,
    Clear,
}

/// Which side of the book a change is about.
#[derive(Debug, Clone, Copy, PartialEq, Eq, Hash, Structural)]
pub enum BookSide {
    Bid,
    Ask,
    Both,
}

/// One change to a book: of a resting order where `order_id` is not zero, else of a price level.
/// `size` is the absolute quantity left.
#[derive(Debug, Clone, Copy, PartialEq, Eq, Hash, Structural)]
pub struct BookChange {
    pub action: BookAction,
    pub side: BookSide,
    pub price: i128,
    pub size: i128,
    pub order_id: u64,
}

/// A batch of book changes. `snapshot` replaces what the consumer holds; `last` closes a logical
/// event.
#[derive(Debug, Clone, PartialEq, Eq)]
pub struct NormalizedBook {
    pub venue: String,
    pub source: String,
    pub source_id: u16,
    pub symbol: String,
    pub channel: u32,
    pub instrument_id: u32,
    pub category: String,
    pub changes: Vec<BookChange>,
    pub snapshot: bool,
    pub last: bool,
    pub source_ts_ns: u64,
    pub recv_ts_ns: u64,
    pub kernel_rx_ts_ns: u64,
    pub ws_send_ts_ns: u64,
}

/// A [`NormalizedBook`] as a mathematical value.
#[verifier::ext_equal]
pub struct BookView {
    pub venue: Seq<char>,
    pub source: Seq<char>,
    pub source_id: u16,
    pub symbol: Seq<char>,
    pub channel: u32,
    pub instrument_id: u32,
    pub category: Seq<char>,
    pub changes: Seq<BookChange>,
    pub snapshot: bool,
    pub last: bool,
    pub source_ts_ns: u64,
    pub recv_ts_ns: u64,
    pub kernel_rx_ts_ns: u64,
    pub ws_send_ts_ns: u64,
}

impl View for NormalizedBook {
    type V = BookView;

    open spec fn view(&self) -> BookView {
        BookView {
            venue: self.venue@,
            source: self.source@,
            source_id: self.source_id,
            symbol: self.symbol@,
            channel: self.channel,
            instrument_id: self.instrument_id,
            category: self.category@,
            changes: self.changes@,
            snapshot: self.snapshot,
            last: self.last,
            source_ts_ns: self.source_ts_ns,
            recv_ts_ns: self.recv_ts_ns,
            kernel_rx_ts_ns: self.kernel_rx_ts_ns,
            ws_send_ts_ns: self.ws_send_ts_ns,
        }
    }
}

/// A copy of a list of changes.
pub fn copy_changes(changes: &Vec<BookChange>) -> (r: Vec<BookChange>)
    ensures
        r@ == changes@,
{
    let mut out: Vec<BookChange> = Vec::new();
    let mut i: usize = 0;
    while i < changes.len()
        invariant
            i <= changes@.len(),
            out@ == changes@.take(i as int),
        decreases changes@.len() - i,
    {
        out.push(changes[i]);
        assert(out@ =~= changes@.take(i as int + 1));
        i += 1;
    }
    assert(out@ =~= changes@);
    out
}

impl NormalizedBook {
    /// The same batch with other changes.
    pub fn with_changes(&self, changes: Vec<BookChange>) -> (r: NormalizedBook)
        ensures
            r@ == (BookView { changes: changes@, ..self@ }),
    {
        NormalizedBook {
            venue: self.venue.clone(),
            source: self.source.clone(),
            source_id: self.source_id,
            symbol: self.symbol.clone(),
            channel: self.channel,
            instrument_id: self.instrument_id,
            category: self.category.clone(),
            changes,
            snapshot: self.snapshot,
            last: self.last,
            source_ts_ns: self.source_ts_ns,
            recv_ts_ns: self.recv_ts_ns,
            kernel_rx_ts_ns: self.kernel_rx_ts_ns,
            ws_send_ts_ns: self.ws_send_ts_ns,
        }
    }

    /// A copy of the batch.
    pub fn dup(&self) -> (r: NormalizedBook)
        ensures
            r@ == self@,
    {
        self.with_changes(copy_changes(&self.changes))
    }
}

/// A [`NormalizedDepth`] as a mathematical value.
#[verifier::ext_equal]
pub struct DepthView {
    pub venue: Seq<char>,
    pub source: Seq<char>,
    pub source_id: u16,
    pub symbol: Seq<char>,
    pub bids: Seq<(i128, i128)>,
    pub asks: Seq<(i128, i128)>,
    pub source_ts_ns: u64,
    pub recv_ts_ns: u64,
    pub kernel_rx_ts_ns: u64,
    pub ws_send_ts_ns: u64,
}

impl View for NormalizedDepth {
    type V = DepthView;

    open spec fn view(&self) -> DepthView {
        DepthView {
            venue: self.venue@,
            source: self.source@,
            source_id: self.source_id,
            symbol: self.symbol@,
            bids: self.bids@,
            asks: self.asks@,
            source_ts_ns: self.source_ts_ns,
            recv_ts_ns: self.recv_ts_ns,
            kernel_rx_ts_ns: self.kernel_rx_ts_ns,
            ws_send_ts_ns: self.ws_send_ts_ns,
        }
    }
}

/// A copy of a list of levels.
pub fn copy_levels(levels: &Vec<(i128, i128)>) -> (r: Vec<(i128, i128)>)
    ensures
        r@ == levels@,
{
    let mut out: Vec<(i128, i128)> = Vec::new();
    let mut i: usize = 0;
    while i < levels.len()
        invariant
            i <= levels@.len(),
            out@ == levels@.take(i as int),
        decreases levels@.len() - i,
    {
        out.push(levels[i]);
        assert(out@ =~= levels@.take(i as int + 1));
        i += 1;
    }
    assert(out@ =~= levels@);
    out
}

impl NormalizedDepth {
    /// A copy of the snapshot.
    pub fn dup(&self) -> (r: NormalizedDepth)
        ensures
            r@ == self@,
    {
        NormalizedDepth {
            venue: self.venue.clone(),
            source: self.source.clone(),
            source_id: self.source_id,
            symbol: self.symbol.clone(),
            bids: copy_levels(&self.bids),
            asks: copy_levels(&self.asks),
            source_ts_ns: self.source_ts_ns,
            recv_ts_ns: self.recv_ts_ns,
            kernel_rx_ts_ns: self.kernel_rx_ts_ns,
            ws_send_ts_ns: self.ws_send_ts_ns,
        }
    }
}

/// A feed's status.
#[derive(Debug, Clone, PartialEq, Eq)]
pub struct NormalizedStatus {
    pub venue: String,
    pub state: String,
}

/// Anything the gateway broadcasts.
#[derive(Debug, Clone, PartialEq, Eq)]
pub enum FeedMessage {
    Quote(NormalizedQuote),
    Trade(NormalizedTrade),
    Instrument(NormalizedInstrument),
    Midpoint(NormalizedMidpoint),
    Depth(NormalizedDepth),
    Book(NormalizedBook),
    Status(NormalizedStatus),
}

/// The venue's own declaration of how its redundant publishers are arbitrated.
#[derive(Debug, Clone, Copy, PartialEq, Eq, Hash, Structural)]
pub enum ArbitrationMode {
    /// The arms share a venue-assigned coordinate and race on it.
    Coordinated,
    /// The arms share none: one of them serves.
    Sticky,
}

} // verus!
