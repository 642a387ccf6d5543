//! The Market-by-Order feed: every resting order of an instrument, with snapshot and delta recovery in
//! band.

use crate::codec_common::{
    decode_frame_with, fits, get16, get32, get64, get_i64, get_i8, header_of, holds,
    law_messages_tile_the_frame, le16, le32, le64, offsets, refusal, signed64, signed8, symbol,
    symbol_at, DecodeError, DefinitionView, FrameHeader, InstrumentDef,
};
use vstd::prelude::*;

pub use crate::codec_common::MSG_HEADER_SIZE;

pub mod sizes;

verus! {

pub const MAGIC: u16 = 0x4444;

/// The generation that the feed is on.
pub const SUPPORTED_VERSIONS: [u8; 1] = [1];

// Reference data and prints, laid out as in the Top-of-Book feed.
pub const MSG_HEARTBEAT: u8 = 0x01;

pub const MSG_INSTRUMENT_DEFINITION: u8 = 0x02;

pub const MSG_TRADE: u8 = 0x04;

pub const MSG_END_OF_SESSION: u8 = 0x06;

pub const MSG_MANIFEST_SUMMARY: u8 = 0x07;

// Order deltas and control.
pub const MSG_ORDER_ADD: u8 = 0x10;

pub const MSG_ORDER_CANCEL: u8 = 0x11;

pub const MSG_ORDER_EXECUTE: u8 = 0x12;

pub const MSG_BATCH_BOUNDARY: u8 = 0x13;

pub const MSG_INSTRUMENT_RESET: u8 = 0x14;

// The snapshot group.
pub const MSG_SNAPSHOT_BEGIN: u8 = 0x20;

pub const MSG_SNAPSHOT_ORDER: u8 = 0x21;

pub const MSG_SNAPSHOT_END: u8 = 0x22;

/// The side of a resting order.
pub const SIDE_BID: u8 = 0;

pub const SIDE_ASK: u8 = 1;

/// An instrument definition.
#[derive(Debug, Clone, PartialEq, Eq)]
pub struct InstrumentDefinition {
    pub instrument_id: u32,
    pub symbol: String,
    pub price_exponent: i8,
    pub qty_exponent: i8,
    pub manifest_seq: u16,
}

impl View for InstrumentDefinition {
    type V = DefinitionView;

    open spec fn view(&self) -> DefinitionView {
        DefinitionView {
            instrument_id: self.instrument_id,
            source_id: None,
            symbol: self.symbol@,
            price_exponent: self.price_exponent,
            qty_exponent: self.qty_exponent,
            manifest_seq: self.manifest_seq,
        }
    }
}

impl InstrumentDef for InstrumentDefinition {
    open spec fn wire_id(&self) -> u32 {
        self.instrument_id
    }

    open spec fn wire_manifest_seq(&self) -> u16 {
        self.manifest_seq
    }

    fn id(&self) -> (r: u32) {
        self.instrument_id
    }

    fn manifest_seq(&self) -> (r: u16) {
        self.manifest_seq
    }
}

/// A new resting order.
#[derive(Debug, Clone, Copy, PartialEq, Eq, Structural)]
pub struct OrderAdd {
    pub instrument_id: u32,
    pub source_id: u16,
    pub side: u8,
    pub order_flags: u8,
    pub per_instrument_seq: u32,
    pub order_id: u64,
    pub enter_ts: u64,
    pub price_raw: i64,
    pub qty_raw: u64,
}

/// An order removed without execution.
#[derive(Debug, Clone, Copy, PartialEq, Eq, Structural)]
pub struct OrderCancel {
    pub instrument_id: u32,
    pub source_id: u16,
    pub reason: u8,
    pub per_instrument_seq: u32,
    pub order_id: u64,
    pub ts: u64,
}

/// A partial or full fill of a resting order.
#[derive(Debug, Clone, Copy, PartialEq, Eq, Structural)]
pub struct OrderExecute {
    pub instrument_id: u32,
    pub source_id: u16,
    pub aggressor_side: u8,
    pub exec_flags: u8,
    pub per_instrument_seq: u32,
    pub order_id: u64,
    pub trade_id: u64,
    pub ts: u64,
    pub exec_price_raw: i64,
    pub exec_qty_raw: u64,
}

/// Drop the book of one instrument and take a new snapshot.
#[derive(Debug, Clone, Copy, PartialEq, Eq, Structural)]
pub struct InstrumentReset {
    pub instrument_id: u32,
    pub reason: u8,
    pub new_anchor_seq: u64,
    pub ts: u64,
}

/// The start of a snapshot group.
#[derive(Debug, Clone, Copy, PartialEq, Eq, Structural)]
pub struct SnapshotBegin {
    pub instrument_id: u32,
    pub anchor_seq: u64,
    pub total_orders: u32,
    pub snapshot_id: u32,
    pub last_instrument_seq: u32,
    pub ts: u64,
}

/// One resting order of a snapshot.
#[derive(Debug, Clone, Copy, PartialEq, Eq, Structural)]
pub struct SnapshotOrder {
    pub snapshot_id: u32,
    pub order_id: u64,
    pub side: u8,
    pub order_flags: u8,
    pub enter_ts: u64,
    pub price_raw: i64,
    pub qty_raw: u64,
}

/// The close of a snapshot group.
#[derive(Debug, Clone, Copy, PartialEq, Eq, Structural)]
pub struct SnapshotEnd {
    pub instrument_id: u32,
    pub anchor_seq: u64,
    pub snapshot_id: u32,
}

/// A print.
#[derive(Debug, Clone, Copy, PartialEq, Eq, Structural)]
pub struct Trade {
    pub instrument_id: u32,
    pub source_id: u16,
    pub aggressor_side: u8,
    pub trade_flags: u8,
    pub source_ts: u64,
    pub trade_price_raw: i64,
    pub trade_qty_raw: u64,
    pub trade_id: u64,
    pub cumulative_volume_raw: u64,
}

/// What the publisher says of its instrument list.
#[derive(Debug, Clone, Copy, PartialEq, Eq, Structural)]
pub struct ManifestSummary {
    pub channel_id: u8,
    pub valid: bool,
    pub manifest_seq: u16,
    pub instrument_count: u32,
    pub ts: u64,
}

/// One message of the feed.
#[derive(Debug, Clone, PartialEq, Eq)]
pub enum Message {
    InstrumentDefinition(InstrumentDefinition),
    ManifestSummary(ManifestSummary),
    Trade(Trade),
    OrderAdd(OrderAdd),
    OrderCancel(OrderCancel),
    OrderExecute(OrderExecute),
    /// An optional delimiter of an atomic batch: its id and its time.
    BatchBoundary(u32, u64),
    InstrumentReset(InstrumentReset),
    SnapshotBegin(SnapshotBegin),
    SnapshotOrder(SnapshotOrder),
    SnapshotEnd(SnapshotEnd),
    Heartbeat,
    /// No more data this session. Carries the time.
    EndOfSession(u64),
    /// Any other message, by its type.
    Other(u8),
}

/// The added order whose body is at `o`.
pub open spec fn order_add_at(b: Seq<u8>, o: int) -> OrderAdd {
    OrderAdd {
        instrument_id: le32(b, o),
        source_id: le16(b, o + 4),
        side: b[o + 6],
        order_flags: b[o + 7],
        per_instrument_seq: le32(b, o + 8),
        order_id: le64(b, o + 12),
        enter_ts: le64(b, o + 20),
        price_raw: signed64(le64(b, o + 28)),
        qty_raw: le64(b, o + 36),
    }
}

fn read_order_add(b: &[u8], o: usize) -> (r: OrderAdd)
    requires
        fits(b@, o as int, 44),
    ensures
        r == order_add_at(b@, o as int),
{
    assert(b.len() == b@.len());
    OrderAdd {
        instrument_id: get32(b, o),
        source_id: get16(b, o + 4),
        side: b[o + 6],
        order_flags: b[o + 7],
        per_instrument_seq: get32(b, o + 8),
        order_id: get64(b, o + 12),
        enter_ts: get64(b, o + 20),
        price_raw: get_i64(b, o + 28),
        qty_raw: get64(b, o + 36),
    }
}

/// The cancel whose body is at `o`.
pub open spec fn order_cancel_at(b: Seq<u8>, o: int) -> OrderCancel {
    OrderCancel {
        instrument_id: le32(b, o),
        source_id: le16(b, o + 4),
        reason: b[o + 6],
        per_instrument_seq: le32(b, o + 8),
        order_id: le64(b, o + 12),
        ts: le64(b, o + 20),
    }
}

fn read_order_cancel(b: &[u8], o: usize) -> (r: OrderCancel)
    requires
        fits(b@, o as int, 28),
    ensures
        r == order_cancel_at(b@, o as int),
{
    assert(b.len() == b@.len());
    OrderCancel {
        instrument_id: get32(b, o),
        source_id: get16(b, o + 4),
        reason: b[o + 6],
        per_instrument_seq: get32(b, o + 8),
        order_id: get64(b, o + 12),
        ts: get64(b, o + 20),
    }
}

/// The fill whose body is at `o`.
pub open spec fn order_execute_at(b: Seq<u8>, o: int) -> OrderExecute {
    OrderExecute {
        instrument_id: le32(b, o),
        source_id: le16(b, o + 4),
        aggressor_side: b[o + 6],
        exec_flags: b[o + 7],
        per_instrument_seq: le32(b, o + 8),
        order_id: le64(b, o + 12),
        trade_id: le64(b, o + 20),
        ts: le64(b, o + 28),
        exec_price_raw: signed64(le64(b, o + 36)),
        exec_qty_raw: le64(b, o + 44),
    }
}

fn read_order_execute(b: &[u8], o: usize) -> (r: OrderExecute)
    requires
        fits(b@, o as int, 52),
    ensures
        r == order_execute_at(b@, o as int),
{
    assert(b.len() == b@.len());
    OrderExecute {
        instrument_id: get32(b, o),
        source_id: get16(b, o + 4),
        aggressor_side: b[o + 6],
        exec_flags: b[o + 7],
        per_instrument_seq: get32(b, o + 8),
        order_id: get64(b, o + 12),
        trade_id: get64(b, o + 20),
        ts: get64(b, o + 28),
        exec_price_raw: get_i64(b, o + 36),
        exec_qty_raw: get64(b, o + 44),
    }
}

/// The reset whose body is at `o`.
pub open spec fn instrument_reset_at(b: Seq<u8>, o: int) -> InstrumentReset {
    InstrumentReset {
        instrument_id: le32(b, o),
        reason: b[o + 4],
        new_anchor_seq: le64(b, o + 8),
        ts: le64(b, o + 16),
    }
}

fn read_instrument_reset(b: &[u8], o: usize) -> (r: InstrumentReset)
    requires
        fits(b@, o as int, 24),
    ensures
        r == instrument_reset_at(b@, o as int),
{
    assert(b.len() == b@.len());
    InstrumentReset {
        instrument_id: get32(b, o),
        reason: b[o + 4],
        new_anchor_seq: get64(b, o + 8),
        ts: get64(b, o + 16),
    }
}

/// The group start whose body is at `o`.
pub open spec fn snapshot_begin_at(b: Seq<u8>, o: int) -> SnapshotBegin {
    SnapshotBegin {
        instrument_id: le32(b, o),
        anchor_seq: le64(b, o + 4),
        total_orders: le32(b, o + 12),
        snapshot_id: le32(b, o + 16),
        last_instrument_seq: le32(b, o + 20),
        ts: le64(b, o + 24),
    }
}

fn read_snapshot_begin(b: &[u8], o: usize) -> (r: SnapshotBegin)
    requires
        fits(b@, o as int, 32),
    ensures
        r == snapshot_begin_at(b@, o as int),
{
    assert(b.len() == b@.len());
    SnapshotBegin {
        instrument_id: get32(b, o),
        anchor_seq: get64(b, o + 4),
        total_orders: get32(b, o + 12),
        snapshot_id: get32(b, o + 16),
        last_instrument_seq: get32(b, o + 20),
        ts: get64(b, o + 24),
    }
}

/// The snapshot order whose body is at `o`.
pub open spec fn snapshot_order_at(b: Seq<u8>, o: int) -> SnapshotOrder {
    SnapshotOrder {
        snapshot_id: le32(b, o),
        order_id: le64(b, o + 4),
        side: b[o + 12],
        order_flags: b[o + 13],
        enter_ts: le64(b, o + 16),
        price_raw: signed64(le64(b, o + 24)),
        qty_raw: le64(b, o + 32),
    }
}

fn read_snapshot_order(b: &[u8], o: usize) -> (r: SnapshotOrder)
    requires
        fits(b@, o as int, 40),
    ensures
        r == snapshot_order_at(b@, o as int),
{
    assert(b.len() == b@.len());
    SnapshotOrder {
        snapshot_id: get32(b, o),
        order_id: get64(b, o + 4),
        side: b[o + 12],
        order_flags: b[o + 13],
        enter_ts: get64(b, o + 16),
        price_raw: get_i64(b, o + 24),
        qty_raw: get64(b, o + 32),
    }
}

/// The group end whose body is at `o`.
pub open spec fn snapshot_end_at(b: Seq<u8>, o: int) -> SnapshotEnd {
    SnapshotEnd {
        instrument_id: le32(b, o),
        anchor_seq: le64(b, o + 4),
        snapshot_id: le32(b, o + 12),
    }
}

fn read_snapshot_end(b: &[u8], o: usize) -> (r: SnapshotEnd)
    requires
        fits(b@, o as int, 16),
    ensures
        r == snapshot_end_at(b@, o as int),
{
    assert(b.len() == b@.len());
    SnapshotEnd {
        instrument_id: get32(b, o),
        anchor_seq: get64(b, o + 4),
        snapshot_id: get32(b, o + 12),
    }
}

/// The trade whose body is at `o`.
pub open spec fn trade_at(b: Seq<u8>, o: int) -> Trade {
    Trade {
        instrument_id: le32(b, o),
        source_id: le16(b, o + 4),
        aggressor_side: b[o + 6],
        trade_flags: b[o + 7],
        source_ts: le64(b, o + 8),
        trade_price_raw: signed64(le64(b, o + 16)),
        trade_qty_raw: le64(b, o + 24),
        trade_id: le64(b, o + 32),
        cumulative_volume_raw: le64(b, o + 40),
    }
}

fn read_trade(b: &[u8], o: usize) -> (r: Trade)
    requires
        fits(b@, o as int, 48),
    ensures
        r == trade_at(b@, o as int),
{
    assert(b.len() == b@.len());
    Trade {
        instrument_id: get32(b, o),
        source_id: get16(b, o + 4),
        aggressor_side: b[o + 6],
        trade_flags: b[o + 7],
        source_ts: get64(b, o + 8),
        trade_price_raw: get_i64(b, o + 16),
        trade_qty_raw: get64(b, o + 24),
        trade_id: get64(b, o + 32),
        cumulative_volume_raw: get64(b, o + 40),
    }
}

/// The summary whose body is at `o`.
pub open spec fn manifest_at(b: Seq<u8>, o: int) -> ManifestSummary {
    ManifestSummary {
        channel_id: b[o],
        valid: b[o + 1] != 0,
        manifest_seq: le16(b, o + 4),
        instrument_count: le32(b, o + 8),
        ts: le64(b, o + 12),
    }
}

fn read_manifest(b: &[u8], o: usize) -> (r: ManifestSummary)
    requires
        fits(b@, o as int, 20),
    ensures
        r == manifest_at(b@, o as int),
{
    assert(b.len() == b@.len());
    ManifestSummary {
        channel_id: b[o],
        valid: b[o + 1] != 0,
        manifest_seq: get16(b, o + 4),
        instrument_count: get32(b, o + 8),
        ts: get64(b, o + 12),
    }
}

/// The definition whose body is at `o`.
pub open spec fn definition_at(b: Seq<u8>, o: int) -> Option<DefinitionView> {
    if fits(b, o, 76) {
        Some(
            DefinitionView {
                instrument_id: le32(b, o),
                source_id: None,
                symbol: symbol_at(b, o + 4, 16),
                price_exponent: signed8(b[o + 37]),
                qty_exponent: signed8(b[o + 38]),
                manifest_seq: le16(b, o + 74),
            },
        )
    } else {
        None
    }
}

fn read_definition(b: &[u8], o: usize) -> (r: Option<InstrumentDefinition>)
    ensures
        match r {
            Some(d) => Some(d@) == definition_at(b@, o as int),
            None => definition_at(b@, o as int) is None,
        },
{
    if !holds(b, o, 76) {
        return None;
    }
    Some(
        InstrumentDefinition {
            instrument_id: get32(b, o),
            symbol: symbol(b, o + 4, 16),
            price_exponent: get_i8(b, o + 37),
            qty_exponent: get_i8(b, o + 38),
            manifest_seq: get16(b, o + 74),
        },
    )
}

/// `message` is what the message at `m` says: its fields where they are there, else only its type.
pub open spec fn is_message(message: Message, msg_type: u8, b: Seq<u8>, m: int) -> bool {
    let o = m + MSG_HEADER_SIZE;
    if msg_type == MSG_ORDER_ADD {
        message == (if fits(b, o, 44) {
            Message::OrderAdd(order_add_at(b, o))
        } else {
            Message::Other(msg_type)
        })
    } else if msg_type == MSG_ORDER_CANCEL {
        message == (if fits(b, o, 28) {
            Message::OrderCancel(order_cancel_at(b, o))
        } else {
            Message::Other(msg_type)
        })
    } else if msg_type == MSG_ORDER_EXECUTE {
        message == (if fits(b, o, 52) {
            Message::OrderExecute(order_execute_at(b, o))
        } else {
            Message::Other(msg_type)
        })
    } else if msg_type == MSG_BATCH_BOUNDARY {
        message == (if fits(b, o, 12) {
            Message::BatchBoundary(le32(b, o), le64(b, o + 4))
        } else {
            Message::Other(msg_type)
        })
    } else if msg_type == MSG_INSTRUMENT_RESET {
        message == (if fits(b, o, 24) {
            Message::InstrumentReset(instrument_reset_at(b, o))
        } else {
            Message::Other(msg_type)
        })
    } else if msg_type == MSG_SNAPSHOT_BEGIN {
        message == (if fits(b, o, 32) {
            Message::SnapshotBegin(snapshot_begin_at(b, o))
        } else {
            Message::Other(msg_type)
        })
    } else if msg_type == MSG_SNAPSHOT_ORDER {
        message == (if fits(b, o, 40) {
            Message::SnapshotOrder(snapshot_order_at(b, o))
        } else {
            Message::Other(msg_type)
        })
    } else if msg_type == MSG_SNAPSHOT_END {
        message == (if fits(b, o, 16) {
            Message::SnapshotEnd(snapshot_end_at(b, o))
        } else {
            Message::Other(msg_type)
        })
    } else if msg_type == MSG_TRADE {
        message == (if fits(b, o, 48) {
            Message::Trade(trade_at(b, o))
        } else {
            Message::Other(msg_type)
        })
    } else if msg_type == MSG_INSTRUMENT_DEFINITION {
        match definition_at(b, o) {
            Some(d) => message matches Message::InstrumentDefinition(got) && got@ == d,
            None => message == Message::Other(msg_type),
        }
    } else if msg_type == MSG_MANIFEST_SUMMARY {
        message == (if fits(b, o, 20) {
            Message::ManifestSummary(manifest_at(b, o))
        } else {
            Message::Other(msg_type)
        })
    } else if msg_type == MSG_HEARTBEAT {
        message == Message::Heartbeat
    } else if msg_type == MSG_END_OF_SESSION {
        message == (if fits(b, o, 8) {
            Message::EndOfSession(le64(b, o))
        } else {
            Message::Other(msg_type)
        })
    } else {
        message == Message::Other(msg_type)
    }
}

/// Read the message at `m`.
fn decode_message(msg_type: u8, b: &[u8], m: usize) -> (r: Message)
    requires
        fits(b@, m as int, MSG_HEADER_SIZE as int),
    ensures
        is_message(r, msg_type, b@, m as int),
{
    assert(b.len() == b@.len());
    let o: usize = m + MSG_HEADER_SIZE;
    if msg_type == MSG_ORDER_ADD {
        if holds(b, o, 44) {
            return Message::OrderAdd(read_order_add(b, o));
        }
    } else if msg_type == MSG_ORDER_CANCEL {
        if holds(b, o, 28) {
            return Message::OrderCancel(read_order_cancel(b, o));
        }
    } else if msg_type == MSG_ORDER_EXECUTE {
        if holds(b, o, 52) {
            return Message::OrderExecute(read_order_execute(b, o));
        }
    } else if msg_type == MSG_BATCH_BOUNDARY {
        if holds(b, o, 12) {
            return Message::BatchBoundary(get32(b, o), get64(b, o + 4));
        }
    } else if msg_type == MSG_INSTRUMENT_RESET {
        if holds(b, o, 24) {
            return Message::InstrumentReset(read_instrument_reset(b, o));
        }
    } else if msg_type == MSG_SNAPSHOT_BEGIN {
        if holds(b, o, 32) {
            return Message::SnapshotBegin(read_snapshot_begin(b, o));
        }
    } else if msg_type == MSG_SNAPSHOT_ORDER {
        if holds(b, o, 40) {
            return Message::SnapshotOrder(read_snapshot_order(b, o));
        }
    } else if msg_type == MSG_SNAPSHOT_END {
        if holds(b, o, 16) {
            return Message::SnapshotEnd(read_snapshot_end(b, o));
        }
    } else if msg_type == MSG_TRADE {
        if holds(b, o, 48) {
            return Message::Trade(read_trade(b, o));
        }
    } else if msg_type == MSG_INSTRUMENT_DEFINITION {
        if let Some(d) = read_definition(b, o) {
            return Message::InstrumentDefinition(d);
        }
    } else if msg_type == MSG_MANIFEST_SUMMARY {
        if holds(b, o, 20) {
            return Message::ManifestSummary(read_manifest(b, o));
        }
    } else if msg_type == MSG_HEARTBEAT {
        return Message::Heartbeat;
    } else if msg_type == MSG_END_OF_SESSION {
        if holds(b, o, 8) {
            return Message::EndOfSession(get64(b, o));
        }
    }
    Message::Other(msg_type)
}

/// The messages of a datagram, each read at its offset.
pub open spec fn are_messages(b: Seq<u8>, messages: Seq<Message>) -> bool {
    let at = offsets(b);
    &&& messages.len() == at.len()
    &&& forall|i: int|
        0 <= i < at.len() ==> is_message(#[trigger] messages[i], b[at[i]], b, at[i])
}

/// Decode one datagram of the feed into its header and its messages.
pub fn decode_frame(buf: &[u8]) -> (r: Result<(FrameHeader, Vec<Message>), DecodeError>)
    ensures
        match r {
            Ok((header, messages)) => {
                &&& refusal(buf@, MAGIC, SUPPORTED_VERSIONS@) is None
                &&& header == header_of(buf@)
                &&& are_messages(buf@, messages@)
            },
            Err(e) => {
                &&& refusal(buf@, MAGIC, SUPPORTED_VERSIONS@) is Some
                &&& e.explains(
                    refusal(buf@, MAGIC, SUPPORTED_VERSIONS@)->0,
                    buf@,
                    MAGIC,
                    SUPPORTED_VERSIONS@,
                )
            },
        },
{
    let ghost size = buf.len();
    let one = |msg_type: u8, _flags: u16, b: &[u8], o: usize, _schema_version: u8| -> (m: Message)
        requires
            fits(b@, o as int, MSG_HEADER_SIZE as int),
        ensures
            is_message(m, msg_type, b@, o as int),
        { decode_message(msg_type, b, o) };
    let r = decode_frame_with(buf, MAGIC, SUPPORTED_VERSIONS.as_slice(), one);
    proof {
        assert(size == buf@.len());
        if refusal(buf@, MAGIC, SUPPORTED_VERSIONS@) is None {
            assert forall|i: int| 0 <= i < offsets(buf@).len() implies 0 <= #[trigger] offsets(
                buf@,
            )[i] <= usize::MAX by {
                law_messages_tile_the_frame(buf@, i);
            }
        }
    }
    r
}

/// A trade, a summary, a definition of the first generation, a heartbeat and a session's end are laid
/// out as in the Top-of-Book feed: the same bytes read as the same fields in both.
pub proof fn law_shared_messages_read_as_in_top_of_book(b: Seq<u8>, o: int)
    ensures
        ({
            let t = trade_at(b, o);
            crate::codec::trade_at(b, o) == (crate::codec::Trade {
                instrument_id: t.instrument_id,
                source_id: t.source_id,
                aggressor_side: t.aggressor_side,
                trade_flags: t.trade_flags,
                source_ts: t.source_ts,
                trade_price_raw: t.trade_price_raw,
                trade_qty_raw: t.trade_qty_raw,
                trade_id: t.trade_id,
                cumulative_volume_raw: t.cumulative_volume_raw,
            })
        }),
        ({
            let s = manifest_at(b, o);
            crate::codec::manifest_at(b, o) == (crate::codec::ManifestSummary {
                channel_id: s.channel_id,
                valid: s.valid,
                manifest_seq: s.manifest_seq,
                instrument_count: s.instrument_count,
                ts: s.ts,
            })
        }),
        definition_at(b, o) == crate::codec::definition_at(b, o, 1),
        MSG_TRADE == crate::codec::MSG_TRADE,
        MSG_MANIFEST_SUMMARY == crate::codec::MSG_MANIFEST_SUMMARY,
        MSG_INSTRUMENT_DEFINITION == crate::codec::MSG_INSTRUMENT_DEFINITION,
        MSG_HEARTBEAT == crate::codec::MSG_HEARTBEAT,
        MSG_END_OF_SESSION == crate::codec::MSG_END_OF_SESSION,
{
}

/// How long a body of this type has to be to be read.
pub open spec fn needed(msg_type: u8) -> int {
    if msg_type == MSG_ORDER_ADD {
        44
    } else if msg_type == MSG_ORDER_CANCEL {
        28
    } else if msg_type == MSG_ORDER_EXECUTE {
        52
    } else if msg_type == MSG_BATCH_BOUNDARY {
        12
    } else if msg_type == MSG_INSTRUMENT_RESET {
        24
    } else if msg_type == MSG_SNAPSHOT_BEGIN {
        32
    } else if msg_type == MSG_SNAPSHOT_ORDER {
        40
    } else if msg_type == MSG_SNAPSHOT_END {
        16
    } else if msg_type == MSG_TRADE {
        48
    } else if msg_type == MSG_INSTRUMENT_DEFINITION {
        76
    } else if msg_type == MSG_MANIFEST_SUMMARY {
        20
    } else if msg_type == MSG_END_OF_SESSION {
        8
    } else {
        0
    }
}

/// A message that the buffer does not hold whole decodes to its type alone.
pub proof fn law_a_runt_message_is_skipped(message: Message, msg_type: u8, b: Seq<u8>, m: int)
    requires
        fits(b, m, MSG_HEADER_SIZE as int),
        is_message(message, msg_type, b, m),
        !fits(b, m + MSG_HEADER_SIZE, needed(msg_type)),
    ensures
        message == Message::Other(msg_type),
{
}

} // verus!
