//! The Top-of-Book and Trades feed, generations 1 and 2.

use crate::codec_common::{
    decode_frame_with, fits, get16, get32, get64, get_i64, get_i8, header_of, holds,
    law_messages_tile_the_frame, le16, le32, le64, offsets, refusal, signed64, signed8, symbol,
    symbol_at, DecodeError, DefinitionView, InstrumentDef,
};
use vstd::prelude::*;

pub use crate::codec_common::{apply_exponent, FrameHeader, MSG_HEADER_SIZE};

verus! {

pub const MAGIC: u16 = 0x445A;

/// The generations that are on the wire at once while publishers move from the first to the second.
pub const SCHEMA_VERSIONS: [u8; 2] = [1, 2];

pub const MSG_HEARTBEAT: u8 = 0x01;

pub const MSG_INSTRUMENT_DEFINITION: u8 = 0x02;

pub const MSG_QUOTE: u8 = 0x03;

pub const MSG_TRADE: u8 = 0x04;

pub const MSG_CHANNEL_RESET: u8 = 0x05;

pub const MSG_END_OF_SESSION: u8 = 0x06;

pub const MSG_MANIFEST_SUMMARY: u8 = 0x07;

/// The size of a trade on the wire, with its message header.
pub const TRADE_SIZE: u8 = 52;

/// A top-of-book update, in raw integers.
#[derive(Debug, Clone, Copy, PartialEq, Eq, Structural)]
pub struct Quote {
    pub instrument_id: u32,
    pub source_id: u16,
    pub update_flags: u8,
    pub source_ts: u64,
    pub bid_price_raw: i64,
    pub bid_qty_raw: u64,
    pub ask_price_raw: i64,
    pub ask_qty_raw: u64,
    /// Orders or sources at the best bid and ask; zero where the venue does not say.
    pub bid_n: u16,
    pub ask_n: u16,
}

/// A print, in raw integers. `aggressor_side` is 1 for a buy, 2 for a sell, 0 where it is unknown.
#[derive(Debug, Clone, Copy, PartialEq, Eq, Structural)]
pub struct Trade {
    pub instrument_id: u32,
    pub source_id: u16,
    pub aggressor_side: u8,
    pub trade_flags: u8,
    pub source_ts: u64,
    pub trade_price_raw: i64,
    pub trade_qty_raw: u64,
    pub trade_id: u64,
    pub cumulative_volume_raw: u64,
}

/// An instrument definition.
#[derive(Debug, Clone, PartialEq, Eq)]
pub struct InstrumentDefinition {
    pub instrument_id: u32,
    pub symbol: String,
    pub price_exponent: i8,
    pub qty_exponent: i8,
    pub manifest_seq: u16,
}

impl View for InstrumentDefinition {
    type V = DefinitionView;

    open spec fn view(&self) -> DefinitionView {
        DefinitionView {
            instrument_id: self.instrument_id,
            source_id: None,
            symbol: self.symbol@,
            price_exponent: self.price_exponent,
            qty_exponent: self.qty_exponent,
            manifest_seq: self.manifest_seq,
        }
    }
}

impl InstrumentDef for InstrumentDefinition {
    open spec fn wire_id(&self) -> u32 {
        self.instrument_id
    }

    open spec fn wire_manifest_seq(&self) -> u16 {
        self.manifest_seq
    }

    fn id(&self) -> (r: u32) {
        self.instrument_id
    }

    fn manifest_seq(&self) -> (r: u16) {
        self.manifest_seq
    }
}

/// What the publisher says of its instrument list.
#[derive(Debug, Clone, Copy, PartialEq, Eq, Structural)]
pub struct ManifestSummary {
    pub channel_id: u8,
    pub valid: bool,
    pub manifest_seq: u16,
    pub instrument_count: u32,
    pub ts: u64,
}

/// One message of the feed.
#[derive(Debug, Clone, PartialEq, Eq)]
pub enum Message {
    Quote(Quote),
    Trade(Trade),
    InstrumentDefinition(InstrumentDefinition),
    ManifestSummary(ManifestSummary),
    Heartbeat,
    /// The publisher reset the channel: cached state is void. Carries the time.
    ChannelReset(u64),
    /// No more data this session. Carries the time.
    EndOfSession(u64),
    /// Any other message, by its type.
    Other(u8),
}

/// The venue that a source id stands for in the source registry.
pub open spec fn registered(source_id: u16) -> Option<Seq<char>> {
    if source_id == 1 {
        Some("Hyperliquid"@)
    } else if source_id == 2 {
        Some("Phoenix"@)
    } else {
        None
    }
}

/// The venue that a source id stands for; `None` for an id that is not assigned, where a caller falls
/// back to its own label.
pub fn source_name(source_id: u16) -> (r: Option<&'static str>)
    ensures
        match r {
            Some(name) => registered(source_id) == Some(name@),
            None => registered(source_id) is None,
        },
{
    match source_id {
        1 => Some("Hyperliquid"),
        2 => Some("Phoenix"),
        _ => None,
    }
}

/// The quote whose body is at `o`.
pub open spec fn quote_at(b: Seq<u8>, o: int) -> Quote {
    Quote {
        instrument_id: le32(b, o),
        source_id: le16(b, o + 4),
        update_flags: b[o + 6],
        source_ts: le64(b, o + 8),
        bid_price_raw: signed64(le64(b, o + 16)),
        bid_qty_raw: le64(b, o + 24),
        ask_price_raw: signed64(le64(b, o + 32)),
        ask_qty_raw: le64(b, o + 40),
        bid_n: le16(b, o + 48),
        ask_n: le16(b, o + 50),
    }
}

fn read_quote(b: &[u8], o: usize) -> (r: Quote)
    requires
        fits(b@, o as int, 52),
    ensures
        r == quote_at(b@, o as int),
{
    assert(b.len() == b@.len());
    Quote {
        instrument_id: get32(b, o),
        source_id: get16(b, o + 4),
        update_flags: b[o + 6],
        source_ts: get64(b, o + 8),
        bid_price_raw: get_i64(b, o + 16),
        bid_qty_raw: get64(b, o + 24),
        ask_price_raw: get_i64(b, o + 32),
        ask_qty_raw: get64(b, o + 40),
        bid_n: get16(b, o + 48),
        ask_n: get16(b, o + 50),
    }
}

/// The trade whose body is at `o`.
pub open spec fn trade_at(b: Seq<u8>, o: int) -> Trade {
    Trade {
        instrument_id: le32(b, o),
        source_id: le16(b, o + 4),
        aggressor_side: b[o + 6],
        trade_flags: b[o + 7],
        source_ts: le64(b, o + 8),
        trade_price_raw: signed64(le64(b, o + 16)),
        trade_qty_raw: le64(b, o + 24),
        trade_id: le64(b, o + 32),
        cumulative_volume_raw: le64(b, o + 40),
    }
}

fn read_trade(b: &[u8], o: usize) -> (r: Trade)
    requires
        fits(b@, o as int, 48),
    ensures
        r == trade_at(b@, o as int),
{
    assert(b.len() == b@.len());
    Trade {
        instrument_id: get32(b, o),
        source_id: get16(b, o + 4),
        aggressor_side: b[o + 6],
        trade_flags: b[o + 7],
        source_ts: get64(b, o + 8),
        trade_price_raw: get_i64(b, o + 16),
        trade_qty_raw: get64(b, o + 24),
        trade_id: get64(b, o + 32),
        cumulative_volume_raw: get64(b, o + 40),
    }
}

/// The summary whose body is at `o`.
pub open spec fn manifest_at(b: Seq<u8>, o: int) -> ManifestSummary {
    ManifestSummary {
        channel_id: b[o],
        valid: b[o + 1] != 0,
        manifest_seq: le16(b, o + 4),
        instrument_count: le32(b, o + 8),
        ts: le64(b, o + 12),
    }
}

fn read_manifest(b: &[u8], o: usize) -> (r: ManifestSummary)
    requires
        fits(b@, o as int, 20),
    ensures
        r == manifest_at(b@, o as int),
{
    assert(b.len() == b@.len());
    ManifestSummary {
        channel_id: b[o],
        valid: b[o + 1] != 0,
        manifest_seq: get16(b, o + 4),
        instrument_count: get32(b, o + 8),
        ts: get64(b, o + 12),
    }
}

/// Where a generation's definition has its fields.
pub struct DefLayout {
    pub symbol_len: int,
    pub price_exponent: int,
    pub qty_exponent: int,
    pub manifest_seq: int,
}

/// The layout of a generation: the second widened the symbol, and moved what follows it.
pub open spec fn layout_of(schema_version: u8) -> Option<DefLayout> {
    if schema_version == 1 {
        Some(DefLayout { symbol_len: 16, price_exponent: 37, qty_exponent: 38, manifest_seq: 74 })
    } else if schema_version == 2 {
        Some(DefLayout { symbol_len: 64, price_exponent: 85, qty_exponent: 86, manifest_seq: 122 })
    } else {
        None
    }
}

/// The definition whose body is at `o`.
pub open spec fn definition_at(b: Seq<u8>, o: int, schema_version: u8) -> Option<DefinitionView> {
    match layout_of(schema_version) {
        Some(l) => if fits(b, o, l.manifest_seq + 2) {
            Some(
                DefinitionView {
                    instrument_id: le32(b, o),
                    source_id: None,
                    symbol: symbol_at(b, o + 4, l.symbol_len),
                    price_exponent: signed8(b[o + l.price_exponent]),
                    qty_exponent: signed8(b[o + l.qty_exponent]),
                    manifest_seq: le16(b, o + l.manifest_seq),
                },
            )
        } else {
            None
        },
        None => None,
    }
}

fn read_definition(b: &[u8], o: usize, schema_version: u8) -> (r: Option<InstrumentDefinition>)
    ensures
        match r {
            Some(d) => Some(d@) == definition_at(b@, o as int, schema_version),
            None => definition_at(b@, o as int, schema_version) is None,
        },
{
    let widened: usize = if schema_version == 1 {
        0
    } else if schema_version == 2 {
        48
    } else {
        return None;
    };
    if !holds(b, o, 76 + widened) {
        return None;
    }
    Some(
        InstrumentDefinition {
            instrument_id: get32(b, o),
            symbol: symbol(b, o + 4, 16 + widened),
            price_exponent: get_i8(b, o + 37 + widened),
            qty_exponent: get_i8(b, o + 38 + widened),
            manifest_seq: get16(b, o + 74 + widened),
        },
    )
}

/// `message` is what the message at `m` says: its fields where they are there, else only its type.
pub open spec fn is_message(
    message: Message,
    msg_type: u8,
    b: Seq<u8>,
    m: int,
    schema_version: u8,
) -> bool {
    let o = m + MSG_HEADER_SIZE;
    if msg_type == MSG_QUOTE {
        message == (if fits(b, o, 52) {
            Message::Quote(quote_at(b, o))
        } else {
            Message::Other(msg_type)
        })
    } else if msg_type == MSG_TRADE {
        message == (if fits(b, o, 48) {
            Message::Trade(trade_at(b, o))
        } else {
            Message::Other(msg_type)
        })
    } else if msg_type == MSG_INSTRUMENT_DEFINITION {
        match definition_at(b, o, schema_version) {
            Some(d) => message matches Message::InstrumentDefinition(got) && got@ == d,
            None => message == Message::Other(msg_type),
        }
    } else if msg_type == MSG_MANIFEST_SUMMARY {
        message == (if fits(b, o, 20) {
            Message::ManifestSummary(manifest_at(b, o))
        } else {
            Message::Other(msg_type)
        })
    } else if msg_type == MSG_HEARTBEAT {
        message == Message::Heartbeat
    } else if msg_type == MSG_CHANNEL_RESET {
        message == (if fits(b, o, 8) {
            Message::ChannelReset(le64(b, o))
        } else {
            Message::Other(msg_type)
        })
    } else if msg_type == MSG_END_OF_SESSION {
        message == (if fits(b, o, 8) {
            Message::EndOfSession(le64(b, o))
        } else {
            Message::Other(msg_type)
        })
    } else {
        message == Message::Other(msg_type)
    }
}

/// Read the message at `m`.
fn decode_message(msg_type: u8, b: &[u8], m: usize, schema_version: u8) -> (r: Message)
    requires
        fits(b@, m as int, MSG_HEADER_SIZE as int),
    ensures
        is_message(r, msg_type, b@, m as int, schema_version),
{
    assert(b.len() == b@.len());
    let o: usize = m + MSG_HEADER_SIZE;
    if msg_type == MSG_QUOTE {
        if holds(b, o, 52) {
            return Message::Quote(read_quote(b, o));
        }
    } else if msg_type == MSG_TRADE {
        if holds(b, o, 48) {
            return Message::Trade(read_trade(b, o));
        }
    } else if msg_type == MSG_INSTRUMENT_DEFINITION {
        if let Some(d) = read_definition(b, o, schema_version) {
            return Message::InstrumentDefinition(d);
        }
    } else if msg_type == MSG_MANIFEST_SUMMARY {
        if holds(b, o, 20) {
            return Message::ManifestSummary(read_manifest(b, o));
        }
    } else if msg_type == MSG_HEARTBEAT {
        return Message::Heartbeat;
    } else if msg_type == MSG_CHANNEL_RESET {
        if holds(b, o, 8) {
            return Message::ChannelReset(get64(b, o));
        }
    } else if msg_type == MSG_END_OF_SESSION {
        if holds(b, o, 8) {
            return Message::EndOfSession(get64(b, o));
        }
    }
    Message::Other(msg_type)
}

/// The messages of a datagram, each read at its offset.
pub open spec fn are_messages(b: Seq<u8>, messages: Seq<Message>) -> bool {
    let at = offsets(b);
    &&& messages.len() == at.len()
    &&& forall|i: int|
        0 <= i < at.len() ==> is_message(#[trigger] messages[i], b[at[i]], b, at[i], b[2])
}

/// Decode one datagram of the feed into its header and its messages.
pub fn decode_frame(buf: &[u8]) -> (r: Result<(FrameHeader, Vec<Message>), DecodeError>)
    ensures
        match r {
            Ok((header, messages)) => {
                &&& refusal(buf@, MAGIC, SCHEMA_VERSIONS@) is None
                &&& header == header_of(buf@)
                &&& are_messages(buf@, messages@)
            },
            Err(e) => {
                &&& refusal(buf@, MAGIC, SCHEMA_VERSIONS@) is Some
                &&& e.explains(
                    refusal(buf@, MAGIC, SCHEMA_VERSIONS@)->0,
                    buf@,
                    MAGIC,
                    SCHEMA_VERSIONS@,
                )
            },
        },
{
    let ghost size = buf.len();
    let one = |msg_type: u8, _flags: u16, b: &[u8], o: usize, schema_version: u8| -> (m: Message)
        requires
            fits(b@, o as int, MSG_HEADER_SIZE as int),
        ensures
            is_message(m, msg_type, b@, o as int, schema_version),
        { decode_message(msg_type, b, o, schema_version) };
    let r = decode_frame_with(buf, MAGIC, SCHEMA_VERSIONS.as_slice(), one);
    proof {
        assert(size == buf@.len());
        if refusal(buf@, MAGIC, SCHEMA_VERSIONS@) is None {
            assert forall|i: int| 0 <= i < offsets(buf@).len() implies 0 <= #[trigger] offsets(
                buf@,
            )[i] <= usize::MAX by {
                law_messages_tile_the_frame(buf@, i);
            }
        }
    }
    r
}

/// One instrument written in both generations decodes to the same definition.
pub proof fn law_both_generations_decode_the_same_instrument(
    one: Seq<u8>,
    o1: int,
    two: Seq<u8>,
    o2: int,
)
    requires
        fits(one, o1, 76),
        fits(two, o2, 124),
        le32(one, o1) == le32(two, o2),
        crate::codec_common::until_nul(one.subrange(o1 + 4, o1 + 20))
            == crate::codec_common::until_nul(two.subrange(o2 + 4, o2 + 68)),
        one[o1 + 37] == two[o2 + 85],
        one[o1 + 38] == two[o2 + 86],
        le16(one, o1 + 74) == le16(two, o2 + 122),
    ensures
        definition_at(one, o1, 1) is Some,
        definition_at(one, o1, 1) == definition_at(two, o2, 2),
{
}

/// How long a body of this type has to be to be read.
pub open spec fn needed(msg_type: u8, schema_version: u8) -> int {
    if msg_type == MSG_QUOTE {
        52
    } else if msg_type == MSG_TRADE {
        48
    } else if msg_type == MSG_INSTRUMENT_DEFINITION {
        match layout_of(schema_version) {
            Some(l) => l.manifest_seq + 2,
            None => 0,
        }
    } else if msg_type == MSG_MANIFEST_SUMMARY {
        20
    } else if msg_type == MSG_CHANNEL_RESET || msg_type == MSG_END_OF_SESSION {
        8
    } else {
        0
    }
}

/// A message that the buffer does not hold whole decodes to its type alone.
pub proof fn law_a_runt_message_is_skipped(
    message: Message,
    msg_type: u8,
    b: Seq<u8>,
    m: int,
    schema_version: u8,
)
    requires
        fits(b, m, MSG_HEADER_SIZE as int),
        is_message(message, msg_type, b, m, schema_version),
        !fits(b, m + MSG_HEADER_SIZE, needed(msg_type, schema_version)),
    ensures
        message == Message::Other(msg_type),
{
}

} // verus!
