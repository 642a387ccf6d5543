//! The Market-by-Price feed: each level update states the whole resulting state of one price level,
//! with snapshot and delta recovery in band.
//!
//! A message's declared length has to be its type's size exactly. A snapshot start of the
//! Market-by-Order feed is a prefix of this feed's: read by a laxer rule, its depth bound would be
//! whatever bytes came next, and a zero there claims a complete book.
//!
//! Sides and aggressors are different value spaces. Enum bytes are passed on as they are.

use crate::codec_common::{
    decode_frame_with, definition_at, fits, get16, get32, get64, get_i64, header_of, holds,
    instrument_definition, law_messages_tile_the_frame, le16, le32, le64, offsets, refusal, signed64,
    DecodeError, FrameHeader, MSG_HEADER_SIZE,
};
use vstd::prelude::*;

pub use crate::codec_common::InstrumentDefinition;

pub mod sizes;

verus! {

pub const MAGIC: u16 = 0x4442;

/// The generations that are implemented.
pub const SUPPORTED_VERSIONS: [u8; 2] = [1, 3];

pub const MSG_HEARTBEAT: u8 = 0x01;

pub const MSG_INSTRUMENT_DEFINITION: u8 = 0x02;

pub const MSG_TRADE: u8 = 0x04;

pub const MSG_END_OF_SESSION: u8 = 0x06;

pub const MSG_MANIFEST_SUMMARY: u8 = 0x07;

pub const MSG_LIQUIDATION: u8 = 0x08;

pub const MSG_BATCH_BOUNDARY: u8 = 0x13;

pub const MSG_INSTRUMENT_RESET: u8 = 0x14;

pub const MSG_SNAPSHOT_BEGIN: u8 = 0x20;

pub const MSG_SNAPSHOT_END: u8 = 0x22;

pub const MSG_LEVEL_UPDATE: u8 = 0x40;

pub const MSG_BOOK_CLEAR: u8 = 0x41;

pub const MSG_SNAPSHOT_LEVEL: u8 = 0x42;

/// The aggressor of a trade.
pub const AGGRESSOR_UNKNOWN: u8 = 0;

pub const AGGRESSOR_BUY: u8 = 1;

pub const AGGRESSOR_SELL: u8 = 2;

/// The side of the book.
pub const SIDE_BID: u8 = 0;

pub const SIDE_ASK: u8 = 1;

/// The side of a bulk removal, which alone can be both.
pub const CLEAR_SIDE_BID: u8 = 0;

pub const CLEAR_SIDE_ASK: u8 = 1;

pub const CLEAR_SIDE_BOTH: u8 = 2;

/// The scope of a bulk removal: all of the side, or from a price outward.
pub const SCOPE_ENTIRE_SIDE: u8 = 0;

pub const SCOPE_FROM_PRICE: u8 = 1;

/// On a count or a rank: not given, or more than the field can say. Never a magnitude.
pub const U16_UNAVAILABLE: u16 = 0xFFFF;

/// A print. A `trade_id` of zero means that the venue gave none.
#[derive(Debug, Clone, Copy, PartialEq, Eq, Structural)]
pub struct Trade {
    pub instrument_id: u32,
    pub source_id: u16,
    pub aggressor_side: u8,
    pub trade_flags: u8,
    pub source_ts: u64,
    pub trade_price_raw: i64,
    pub trade_qty_raw: u64,
    pub trade_id: u64,
    pub cumulative_volume_raw: u64,
}

/// What the publisher says of its instrument list.
#[derive(Debug, Clone, Copy, PartialEq, Eq, Structural)]
pub struct ManifestSummary {
    pub channel_id: u8,
    pub valid: bool,
    pub manifest_seq: u16,
    pub instrument_count: u32,
    pub ts: u64,
}

/// The whole resulting state of one price level. `qty_raw` is absolute, and zero removes the level;
/// `action` is for information and does not decide what is applied.
#[derive(Debug, Clone, Copy, PartialEq, Eq, Structural)]
pub struct LevelUpdate {
    pub instrument_id: u32,
    pub source_id: u16,
    pub side: u8,
    pub action: u8,
    pub per_instrument_seq: u32,
    pub price_raw: i64,
    pub qty_raw: u64,
    pub ts: u64,
    pub order_count: Option<u16>,
    /// A rank, for information: never a key, and void after the next update of its side.
    pub level_index: Option<u16>,
    pub update_reason: u8,
    pub level_flags: u8,
}

/// A bulk removal. The levels are gone; the book stays in sync.
#[derive(Debug, Clone, Copy, PartialEq, Eq, Structural)]
pub struct BookClear {
    pub instrument_id: u32,
    pub source_id: u16,
    pub clear_side: u8,
    pub scope: u8,
    pub per_instrument_seq: u32,
    pub from_price_raw: i64,
    pub ts: u64,
    pub clear_reason: u8,
}

/// One level of a snapshot. Its instrument is that of the open group.
#[derive(Debug, Clone, Copy, PartialEq, Eq, Structural)]
pub struct SnapshotLevel {
    pub snapshot_id: u32,
    pub price_raw: i64,
    pub qty_raw: u64,
    pub order_count: Option<u16>,
    pub side: u8,
    pub level_flags: u8,
}

/// The start of a snapshot group.
#[derive(Debug, Clone, Copy, PartialEq, Eq, Structural)]
pub struct SnapshotBegin {
    pub instrument_id: u32,
    pub anchor_seq: u64,
    pub total_levels: u32,
    pub snapshot_id: u32,
    pub last_instrument_seq: u32,
    pub ts: u64,
    /// Zero claims the complete book. Otherwise levels per side, past which the state is unknown.
    pub depth_bound: u32,
}

/// The close of a snapshot group.
#[derive(Debug, Clone, Copy, PartialEq, Eq, Structural)]
pub struct SnapshotEnd {
    pub instrument_id: u32,
    pub anchor_seq: u64,
    pub snapshot_id: u32,
}

/// A delimiter of an atomic batch of the whole channel.
#[derive(Debug, Clone, Copy, PartialEq, Eq, Structural)]
pub struct BatchBoundary {
    pub batch_id: u32,
    pub batch_time: u64,
}

/// Drop the book of one instrument and take a new snapshot, whatever its sequence.
#[derive(Debug, Clone, Copy, PartialEq, Eq, Structural)]
pub struct InstrumentReset {
    pub instrument_id: u32,
    pub reason: u8,
    pub new_anchor_seq: u64,
    pub ts: u64,
}

/// One message of the feed.
#[derive(Debug, Clone, PartialEq, Eq)]
pub enum Message {
    Heartbeat(u64),
    InstrumentDefinition(InstrumentDefinition),
    Trade(Trade),
    EndOfSession(u64),
    ManifestSummary(ManifestSummary),
    LevelUpdate(LevelUpdate),
    BookClear(BookClear),
    SnapshotLevel(SnapshotLevel),
    SnapshotBegin(SnapshotBegin),
    SnapshotEnd(SnapshotEnd),
    BatchBoundary(BatchBoundary),
    InstrumentReset(InstrumentReset),
    /// A reserved, unknown or malformed message, by its type.
    Other(u8),
}

/// A count or a rank, where the field says one.
pub open spec fn present(v: u16) -> Option<u16> {
    if v == U16_UNAVAILABLE {
        None
    } else {
        Some(v)
    }
}

fn u16_opt(v: u16) -> (r: Option<u16>)
    ensures
        r == present(v),
{
    if v == U16_UNAVAILABLE {
        None
    } else {
        Some(v)
    }
}

/// The trade whose body is at `o`.
pub open spec fn trade_at(b: Seq<u8>, o: int) -> Trade {
    Trade {
        instrument_id: le32(b, o),
        source_id: le16(b, o + 4),
        aggressor_side: b[o + 6],
        trade_flags: b[o + 7],
        source_ts: le64(b, o + 8),
        trade_price_raw: signed64(le64(b, o + 16)),
        trade_qty_raw: le64(b, o + 24),
        trade_id: le64(b, o + 32),
        cumulative_volume_raw: le64(b, o + 40),
    }
}

fn read_trade(b: &[u8], o: usize) -> (r: Trade)
    requires
        fits(b@, o as int, 48),
    ensures
        r == trade_at(b@, o as int),
{
    assert(b.len() == b@.len());
    Trade {
        instrument_id: get32(b, o),
        source_id: get16(b, o + 4),
        aggressor_side: b[o + 6],
        trade_flags: b[o + 7],
        source_ts: get64(b, o + 8),
        trade_price_raw: get_i64(b, o + 16),
        trade_qty_raw: get64(b, o + 24),
        trade_id: get64(b, o + 32),
        cumulative_volume_raw: get64(b, o + 40),
    }
}

/// The summary whose body is at `o`.
pub open spec fn manifest_at(b: Seq<u8>, o: int) -> ManifestSummary {
    ManifestSummary {
        channel_id: b[o],
        valid: b[o + 1] != 0,
        manifest_seq: le16(b, o + 4),
        instrument_count: le32(b, o + 8),
        ts: le64(b, o + 12),
    }
}

fn read_manifest(b: &[u8], o: usize) -> (r: ManifestSummary)
    requires
        fits(b@, o as int, 20),
    ensures
        r == manifest_at(b@, o as int),
{
    assert(b.len() == b@.len());
    ManifestSummary {
        channel_id: b[o],
        valid: b[o + 1] != 0,
        manifest_seq: get16(b, o + 4),
        instrument_count: get32(b, o + 8),
        ts: get64(b, o + 12),
    }
}

/// The level update whose body is at `o`.
pub open spec fn level_update_at(b: Seq<u8>, o: int) -> LevelUpdate {
    LevelUpdate {
        instrument_id: le32(b, o),
        source_id: le16(b, o + 4),
        side: b[o + 6],
        action: b[o + 7],
        per_instrument_seq: le32(b, o + 8),
        price_raw: signed64(le64(b, o + 12)),
        qty_raw: le64(b, o + 20),
        ts: le64(b, o + 28),
        order_count: present(le16(b, o + 36)),
        level_index: present(le16(b, o + 38)),
        update_reason: b[o + 40],
        level_flags: b[o + 41],
    }
}

fn read_level_update(b: &[u8], o: usize) -> (r: LevelUpdate)
    requires
        fits(b@, o as int, 42),
    ensures
        r == level_update_at(b@, o as int),
{
    assert(b.len() == b@.len());
    LevelUpdate {
        instrument_id: get32(b, o),
        source_id: get16(b, o + 4),
        side: b[o + 6],
        action: b[o + 7],
        per_instrument_seq: get32(b, o + 8),
        price_raw: get_i64(b, o + 12),
        qty_raw: get64(b, o + 20),
        ts: get64(b, o + 28),
        order_count: u16_opt(get16(b, o + 36)),
        level_index: u16_opt(get16(b, o + 38)),
        update_reason: b[o + 40],
        level_flags: b[o + 41],
    }
}

/// The removal whose body is at `o`.
pub open spec fn book_clear_at(b: Seq<u8>, o: int) -> BookClear {
    BookClear {
        instrument_id: le32(b, o),
        source_id: le16(b, o + 4),
        clear_side: b[o + 6],
        scope: b[o + 7],
        per_instrument_seq: le32(b, o + 8),
        from_price_raw: signed64(le64(b, o + 12)),
        ts: le64(b, o + 20),
        clear_reason: b[o + 28],
    }
}

fn read_book_clear(b: &[u8], o: usize) -> (r: BookClear)
    requires
        fits(b@, o as int, 29),
    ensures
        r == book_clear_at(b@, o as int),
{
    assert(b.len() == b@.len());
    BookClear {
        instrument_id: get32(b, o),
        source_id: get16(b, o + 4),
        clear_side: b[o + 6],
        scope: b[o + 7],
        per_instrument_seq: get32(b, o + 8),
        from_price_raw: get_i64(b, o + 12),
        ts: get64(b, o + 20),
        clear_reason: b[o + 28],
    }
}

/// The snapshot level whose body is at `o`.
pub open spec fn snapshot_level_at(b: Seq<u8>, o: int) -> SnapshotLevel {
    SnapshotLevel {
        snapshot_id: le32(b, o),
        price_raw: signed64(le64(b, o + 4)),
        qty_raw: le64(b, o + 12),
        order_count: present(le16(b, o + 20)),
        side: b[o + 22],
        level_flags: b[o + 23],
    }
}

fn read_snapshot_level(b: &[u8], o: usize) -> (r: SnapshotLevel)
    requires
        fits(b@, o as int, 24),
    ensures
        r == snapshot_level_at(b@, o as int),
{
    assert(b.len() == b@.len());
    SnapshotLevel {
        snapshot_id: get32(b, o),
        price_raw: get_i64(b, o + 4),
        qty_raw: get64(b, o + 12),
        order_count: u16_opt(get16(b, o + 20)),
        side: b[o + 22],
        level_flags: b[o + 23],
    }
}

/// The group start whose body is at `o`.
pub open spec fn snapshot_begin_at(b: Seq<u8>, o: int) -> SnapshotBegin {
    SnapshotBegin {
        instrument_id: le32(b, o),
        anchor_seq: le64(b, o + 4),
        total_levels: le32(b, o + 12),
        snapshot_id: le32(b, o + 16),
        last_instrument_seq: le32(b, o + 20),
        ts: le64(b, o + 24),
        depth_bound: le32(b, o + 32),
    }
}

fn read_snapshot_begin(b: &[u8], o: usize) -> (r: SnapshotBegin)
    requires
        fits(b@, o as int, 36),
    ensures
        r == snapshot_begin_at(b@, o as int),
{
    assert(b.len() == b@.len());
    SnapshotBegin {
        instrument_id: get32(b, o),
        anchor_seq: get64(b, o + 4),
        total_levels: get32(b, o + 12),
        snapshot_id: get32(b, o + 16),
        last_instrument_seq: get32(b, o + 20),
        ts: get64(b, o + 24),
        depth_bound: get32(b, o + 32),
    }
}

/// The group end whose body is at `o`.
pub open spec fn snapshot_end_at(b: Seq<u8>, o: int) -> SnapshotEnd {
    SnapshotEnd {
        instrument_id: le32(b, o),
        anchor_seq: le64(b, o + 4),
        snapshot_id: le32(b, o + 12),
    }
}

fn read_snapshot_end(b: &[u8], o: usize) -> (r: SnapshotEnd)
    requires
        fits(b@, o as int, 16),
    ensures
        r == snapshot_end_at(b@, o as int),
{
    assert(b.len() == b@.len());
    SnapshotEnd {
        instrument_id: get32(b, o),
        anchor_seq: get64(b, o + 4),
        snapshot_id: get32(b, o + 12),
    }
}

/// The delimiter whose body is at `o`.
pub open spec fn batch_boundary_at(b: Seq<u8>, o: int) -> BatchBoundary {
    BatchBoundary {
        batch_id: le32(b, o),
        batch_time: le64(b, o + 4),
    }
}

fn read_batch_boundary(b: &[u8], o: usize) -> (r: BatchBoundary)
    requires
        fits(b@, o as int, 12),
    ensures
        r == batch_boundary_at(b@, o as int),
{
    assert(b.len() == b@.len());
    BatchBoundary {
        batch_id: get32(b, o),
        batch_time: get64(b, o + 4),
    }
}

/// The reset whose body is at `o`.
pub open spec fn instrument_reset_at(b: Seq<u8>, o: int) -> InstrumentReset {
    InstrumentReset {
        instrument_id: le32(b, o),
        reason: b[o + 4],
        new_anchor_seq: le64(b, o + 8),
        ts: le64(b, o + 16),
    }
}

fn read_instrument_reset(b: &[u8], o: usize) -> (r: InstrumentReset)
    requires
        fits(b@, o as int, 24),
    ensures
        r == instrument_reset_at(b@, o as int),
{
    assert(b.len() == b@.len());
    InstrumentReset {
        instrument_id: get32(b, o),
        reason: b[o + 4],
        new_anchor_seq: get64(b, o + 8),
        ts: get64(b, o + 16),
    }
}

/// A removal of both sides that is not of all of them: one price cannot bound both. Any scope other
/// than the whole side counts, assigned or not.
pub open spec fn malformed_clear(b: Seq<u8>, o: int) -> bool {
    b[o + 6] == CLEAR_SIDE_BOTH && b[o + 7] != SCOPE_ENTIRE_SIDE
}

/// `message` is what the message at `m` says: its fields where they are there, else only its type.
pub open spec fn is_message(
    message: Message,
    msg_type: u8,
    b: Seq<u8>,
    m: int,
    schema_version: u8,
) -> bool {
    let o = m + MSG_HEADER_SIZE;
    if msg_type == MSG_HEARTBEAT {
        message == (if b[m + 1] == sizes::HEARTBEAT && fits(b, o, 12) {
            Message::Heartbeat(le64(b, o + 4))
        } else {
            Message::Other(msg_type)
        })
    } else if msg_type == MSG_INSTRUMENT_DEFINITION {
        match definition_at(b, m, schema_version) {
            Some(d) => message matches Message::InstrumentDefinition(got) && got@ == d,
            None => message == Message::Other(msg_type),
        }
    } else if msg_type == MSG_TRADE {
        message == (if b[m + 1] == sizes::TRADE && fits(b, o, 48) {
            Message::Trade(trade_at(b, o))
        } else {
            Message::Other(msg_type)
        })
    } else if msg_type == MSG_END_OF_SESSION {
        message == (if b[m + 1] == sizes::END_OF_SESSION && fits(b, o, 8) {
            Message::EndOfSession(le64(b, o))
        } else {
            Message::Other(msg_type)
        })
    } else if msg_type == MSG_MANIFEST_SUMMARY {
        message == (if b[m + 1] == sizes::MANIFEST_SUMMARY && fits(b, o, 20) {
            Message::ManifestSummary(manifest_at(b, o))
        } else {
            Message::Other(msg_type)
        })
    } else if msg_type == MSG_LEVEL_UPDATE {
        message == (if b[m + 1] == sizes::LEVEL_UPDATE && fits(b, o, 42) {
            Message::LevelUpdate(level_update_at(b, o))
        } else {
            Message::Other(msg_type)
        })
    } else if msg_type == MSG_BOOK_CLEAR {
        message == (if b[m + 1] == sizes::BOOK_CLEAR && fits(b, o, 29) && !malformed_clear(b, o) {
            Message::BookClear(book_clear_at(b, o))
        } else {
            Message::Other(msg_type)
        })
    } else if msg_type == MSG_SNAPSHOT_LEVEL {
        message == (if b[m + 1] == sizes::SNAPSHOT_LEVEL && fits(b, o, 24) {
            Message::SnapshotLevel(snapshot_level_at(b, o))
        } else {
            Message::Other(msg_type)
        })
    } else if msg_type == MSG_SNAPSHOT_BEGIN {
        message == (if b[m + 1] == sizes::SNAPSHOT_BEGIN && fits(b, o, 36) {
            Message::SnapshotBegin(snapshot_begin_at(b, o))
        } else {
            Message::Other(msg_type)
        })
    } else if msg_type == MSG_SNAPSHOT_END {
        message == (if b[m + 1] == sizes::SNAPSHOT_END && fits(b, o, 16) {
            Message::SnapshotEnd(snapshot_end_at(b, o))
        } else {
            Message::Other(msg_type)
        })
    } else if msg_type == MSG_BATCH_BOUNDARY {
        message == (if b[m + 1] == sizes::BATCH_BOUNDARY && fits(b, o, 12) {
            Message::BatchBoundary(batch_boundary_at(b, o))
        } else {
            Message::Other(msg_type)
        })
    } else if msg_type == MSG_INSTRUMENT_RESET {
        message == (if b[m + 1] == sizes::INSTRUMENT_RESET && fits(b, o, 24) {
            Message::InstrumentReset(instrument_reset_at(b, o))
        } else {
            Message::Other(msg_type)
        })
    } else {
        message == Message::Other(msg_type)
    }
}

/// Read the message at `m`.
fn decode_message(msg_type: u8, b: &[u8], m: usize, schema_version: u8) -> (r: Message)
    requires
        fits(b@, m as int, MSG_HEADER_SIZE as int),
    ensures
        is_message(r, msg_type, b@, m as int, schema_version),
{
    assert(b.len() == b@.len());
    let o: usize = m + MSG_HEADER_SIZE;
    if msg_type == MSG_HEARTBEAT {
        if b[m + 1] as usize == sizes::HEARTBEAT && holds(b, o, 12) {
            return Message::Heartbeat(get64(b, o + 4));
        }
    } else if msg_type == MSG_INSTRUMENT_DEFINITION {
        if let Some(d) = instrument_definition(b, m, schema_version) {
            return Message::InstrumentDefinition(d);
        }
    } else if msg_type == MSG_TRADE {
        if b[m + 1] as usize == sizes::TRADE && holds(b, o, 48) {
            return Message::Trade(read_trade(b, o));
        }
    } else if msg_type == MSG_END_OF_SESSION {
        if b[m + 1] as usize == sizes::END_OF_SESSION && holds(b, o, 8) {
            return Message::EndOfSession(get64(b, o));
        }
    } else if msg_type == MSG_MANIFEST_SUMMARY {
        if b[m + 1] as usize == sizes::MANIFEST_SUMMARY && holds(b, o, 20) {
            return Message::ManifestSummary(read_manifest(b, o));
        }
    } else if msg_type == MSG_LEVEL_UPDATE {
        if b[m + 1] as usize == sizes::LEVEL_UPDATE && holds(b, o, 42) {
            return Message::LevelUpdate(read_level_update(b, o));
        }
    } else if msg_type == MSG_BOOK_CLEAR {
        if b[m + 1] as usize == sizes::BOOK_CLEAR && holds(b, o, 29) && !(b[o + 6] == CLEAR_SIDE_BOTH && b[o
            + 7] != SCOPE_ENTIRE_SIDE) {
            return Message::BookClear(read_book_clear(b, o));
        }
    } else if msg_type == MSG_SNAPSHOT_LEVEL {
        if b[m + 1] as usize == sizes::SNAPSHOT_LEVEL && holds(b, o, 24) {
            return Message::SnapshotLevel(read_snapshot_level(b, o));
        }
    } else if msg_type == MSG_SNAPSHOT_BEGIN {
        if b[m + 1] as usize == sizes::SNAPSHOT_BEGIN && holds(b, o, 36) {
            return Message::SnapshotBegin(read_snapshot_begin(b, o));
        }
    } else if msg_type == MSG_SNAPSHOT_END {
        if b[m + 1] as usize == sizes::SNAPSHOT_END && holds(b, o, 16) {
            return Message::SnapshotEnd(read_snapshot_end(b, o));
        }
    } else if msg_type == MSG_BATCH_BOUNDARY {
        if b[m + 1] as usize == sizes::BATCH_BOUNDARY && holds(b, o, 12) {
            return Message::BatchBoundary(read_batch_boundary(b, o));
        }
    } else if msg_type == MSG_INSTRUMENT_RESET {
        if b[m + 1] as usize == sizes::INSTRUMENT_RESET && holds(b, o, 24) {
            return Message::InstrumentReset(read_instrument_reset(b, o));
        }
    }
    Message::Other(msg_type)
}

/// The messages of a datagram, each read at its offset.
pub open spec fn are_messages(b: Seq<u8>, messages: Seq<Message>) -> bool {
    let at = offsets(b);
    &&& messages.len() == at.len()
    &&& forall|i: int|
        0 <= i < at.len() ==> is_message(#[trigger] messages[i], b[at[i]], b, at[i], b[2])
}

/// Decode one datagram of the feed into its header and its messages.
pub fn decode_datagram(buf: &[u8]) -> (r: Result<(FrameHeader, Vec<Message>), DecodeError>)
    ensures
        match r {
            Ok((header, messages)) => {
                &&& refusal(buf@, MAGIC, SUPPORTED_VERSIONS@) is None
                &&& header == header_of(buf@)
                &&& are_messages(buf@, messages@)
            },
            Err(e) => {
                &&& refusal(buf@, MAGIC, SUPPORTED_VERSIONS@) is Some
                &&& e.explains(
                    refusal(buf@, MAGIC, SUPPORTED_VERSIONS@)->0,
                    buf@,
                    MAGIC,
                    SUPPORTED_VERSIONS@,
                )
            },
        },
{
    let ghost size = buf.len();
    let one = |msg_type: u8, _flags: u16, b: &[u8], o: usize, schema_version: u8| -> (m: Message)
        requires
            fits(b@, o as int, MSG_HEADER_SIZE as int),
        ensures
            is_message(m, msg_type, b@, o as int, schema_version),
        { decode_message(msg_type, b, o, schema_version) };
    let r = decode_frame_with(buf, MAGIC, SUPPORTED_VERSIONS.as_slice(), one);
    proof {
        assert(size == buf@.len());
        if refusal(buf@, MAGIC, SUPPORTED_VERSIONS@) is None {
            assert forall|i: int| 0 <= i < offsets(buf@).len() implies 0 <= #[trigger] offsets(
                buf@,
            )[i] <= usize::MAX by {
                law_messages_tile_the_frame(buf@, i);
            }
        }
    }
    r
}

/// The exact size of a message of this type; `None` for a type that is not read by its size.
pub open spec fn exact_size(msg_type: u8) -> Option<usize> {
    if msg_type == MSG_HEARTBEAT {
        Some(sizes::HEARTBEAT)
    } else if msg_type == MSG_TRADE {
        Some(sizes::TRADE)
    } else if msg_type == MSG_END_OF_SESSION {
        Some(sizes::END_OF_SESSION)
    } else if msg_type == MSG_MANIFEST_SUMMARY {
        Some(sizes::MANIFEST_SUMMARY)
    } else if msg_type == MSG_LEVEL_UPDATE {
        Some(sizes::LEVEL_UPDATE)
    } else if msg_type == MSG_BOOK_CLEAR {
        Some(sizes::BOOK_CLEAR)
    } else if msg_type == MSG_SNAPSHOT_LEVEL {
        Some(sizes::SNAPSHOT_LEVEL)
    } else if msg_type == MSG_SNAPSHOT_BEGIN {
        Some(sizes::SNAPSHOT_BEGIN)
    } else if msg_type == MSG_SNAPSHOT_END {
        Some(sizes::SNAPSHOT_END)
    } else if msg_type == MSG_BATCH_BOUNDARY {
        Some(sizes::BATCH_BOUNDARY)
    } else if msg_type == MSG_INSTRUMENT_RESET {
        Some(sizes::INSTRUMENT_RESET)
    } else {
        None
    }
}

/// A message whose declared length is not its type's size never decodes, in either direction.
pub proof fn law_a_mis_sized_message_is_skipped(
    message: Message,
    msg_type: u8,
    b: Seq<u8>,
    m: int,
    schema_version: u8,
)
    requires
        is_message(message, msg_type, b, m, schema_version),
        exact_size(msg_type) is Some,
        b[m + 1] != exact_size(msg_type)->0,
    ensures
        message == Message::Other(msg_type),
{
}

/// A message of its type's size that the walk found whole always decodes, but for a malformed removal.
pub proof fn law_a_well_sized_message_decodes(
    message: Message,
    msg_type: u8,
    b: Seq<u8>,
    m: int,
    schema_version: u8,
)
    requires
        is_message(message, msg_type, b, m, schema_version),
        exact_size(msg_type) is Some,
        b[m + 1] == exact_size(msg_type)->0,
        fits(b, m, b[m + 1] as int),
    ensures
        message == Message::Other(msg_type) <==> msg_type == MSG_BOOK_CLEAR && malformed_clear(
            b,
            m + MSG_HEADER_SIZE,
        ),
{
}

/// A type that this feed does not define, a reserved one among them, is skipped by its length.
pub proof fn law_an_undefined_type_is_skipped(
    message: Message,
    msg_type: u8,
    b: Seq<u8>,
    m: int,
    schema_version: u8,
)
    requires
        is_message(message, msg_type, b, m, schema_version),
        exact_size(msg_type) is None,
        msg_type != MSG_INSTRUMENT_DEFINITION,
    ensures
        message == Message::Other(msg_type),
{
}

/// No removal that decodes clears both sides from one price.
pub proof fn law_no_removal_bounds_both_sides(
    message: Message,
    msg_type: u8,
    b: Seq<u8>,
    m: int,
    schema_version: u8,
)
    requires
        is_message(message, msg_type, b, m, schema_version),
        message is BookClear,
    ensures
        (message->BookClear_0).clear_side == CLEAR_SIDE_BOTH ==> (message->BookClear_0).scope
            == SCOPE_ENTIRE_SIDE,
{
}

} // verus!
