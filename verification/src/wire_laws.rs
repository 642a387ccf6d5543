//! What a publisher writes is what is read: every message and every frame of the three feeds, field by
//! field.

use crate::codec;
use crate::codec_common;
use crate::codec_common::{
    header_of, offsets, refusal, until_nul, walk, DecodeReason, FrameHeader,
};
use crate::codec_mbo;
use crate::codec_mbp;
use crate::wire::{
    countable, eight, four, law_numbers_read_as_written, lemma_lens, lemma_part_stands, one, padded,
    place, signed_eight, signed_one, stands_at, two, written, yes_no,
};
use vstd::prelude::*;

verus! {

/// A message header: the type, the declared length and the flags.
pub open spec fn head(msg_type: u8, len: u8, flags: u16) -> Seq<Seq<u8>> {
    seq![one(msg_type), one(len), two(flags)]
}

proof fn lemma_head(b: Seq<u8>, m: int, msg_type: u8, len: u8, flags: u16)
    requires
        stands_at(b, m, written(head(msg_type, len, flags))),
    ensures
        b[m] == msg_type,
        b[m + 1] == len,
        m >= 0,
        m + 4 <= b.len(),
{
    lemma_lens();
    reveal_with_fuel(place, 4);
    let parts = head(msg_type, len, flags);
    lemma_part_stands(b, m, parts, 0);
    lemma_part_stands(b, m, parts, 1);
    assert(parts[0] == one(msg_type) && parts[1] == one(len) && parts[2] == two(flags));
    law_numbers_read_as_written(b, m);
    law_numbers_read_as_written(b, m + 1);
}

proof fn lemma_text(b: Seq<u8>, o: int, name: Seq<u8>, width: nat)
    requires
        stands_at(b, o, padded(name, width)),
        name.len() <= width,
        forall|i: int| 0 <= i < name.len() ==> name[i] != 0,
    ensures
        until_nul(b.subrange(o, o + width)) == name,
{
    let field = b.subrange(o, o + width);
    codec_common::law_a_symbol_ends_at_its_first_nul(field);
    let got = until_nul(field);
    assert(field == padded(name, width));
    if got.len() < name.len() {
        assert(field[got.len() as int] == 0);
        assert(name[got.len() as int] != 0);
    }
    if got.len() > name.len() {
        assert(got[name.len() as int] != 0);
        assert(field[name.len() as int] == 0);
    }
    assert(got =~= name);
}

/// The body of a Top-of-Book quote.
pub open spec fn tob_quote_parts(q: codec::Quote, spare: Seq<u8>) -> Seq<Seq<u8>> {
    seq![
        four(q.instrument_id),
        two(q.source_id),
        one(q.update_flags),
        spare,
        eight(q.source_ts),
        signed_eight(q.bid_price_raw),
        eight(q.bid_qty_raw),
        signed_eight(q.ask_price_raw),
        eight(q.ask_qty_raw),
        two(q.bid_n),
        two(q.ask_n),
    ]
}

/// A Top-of-Book quote reads as it was written, in every field.
pub proof fn law_a_quote_reads_as_written(
    message: codec::Message,
    b: Seq<u8>,
    m: int,
    schema_version: u8,
    q: codec::Quote,
    len: u8,
    flags: u16,
    spare: Seq<u8>,
)
    requires
        stands_at(b, m, written(head(0x03, len, flags))),
        stands_at(b, m + 4, written(tob_quote_parts(q, spare))),
        spare.len() == 1,
        codec::is_message(message, b[m], b, m, schema_version),
    ensures
        message == codec::Message::Quote(q),
{
    lemma_head(b, m, 0x03, len, flags);
    lemma_lens();
    reveal_with_fuel(place, 12);
    let parts = tob_quote_parts(q, spare);
    let o = m + 4;
    lemma_part_stands(b, o, parts, 0);
    assert(parts[0] == four(q.instrument_id));
    lemma_part_stands(b, o, parts, 1);
    assert(parts[1] == two(q.source_id));
    lemma_part_stands(b, o, parts, 2);
    assert(parts[2] == one(q.update_flags));
    lemma_part_stands(b, o, parts, 3);
    assert(parts[3] == spare);
    lemma_part_stands(b, o, parts, 4);
    assert(parts[4] == eight(q.source_ts));
    lemma_part_stands(b, o, parts, 5);
    assert(parts[5] == signed_eight(q.bid_price_raw));
    lemma_part_stands(b, o, parts, 6);
    assert(parts[6] == eight(q.bid_qty_raw));
    lemma_part_stands(b, o, parts, 7);
    assert(parts[7] == signed_eight(q.ask_price_raw));
    lemma_part_stands(b, o, parts, 8);
    assert(parts[8] == eight(q.ask_qty_raw));
    lemma_part_stands(b, o, parts, 9);
    assert(parts[9] == two(q.bid_n));
    lemma_part_stands(b, o, parts, 10);
    assert(parts[10] == two(q.ask_n));
    law_numbers_read_as_written(b, o);
    assert(stands_at(b, o + 0, four(q.instrument_id)));
    law_numbers_read_as_written(b, o + 4);
    assert(stands_at(b, o + 4, two(q.source_id)));
    law_numbers_read_as_written(b, o + 6);
    assert(stands_at(b, o + 6, one(q.update_flags)));
    law_numbers_read_as_written(b, o + 8);
    assert(stands_at(b, o + 8, eight(q.source_ts)));
    law_numbers_read_as_written(b, o + 16);
    assert(stands_at(b, o + 16, signed_eight(q.bid_price_raw)));
    law_numbers_read_as_written(b, o + 24);
    assert(stands_at(b, o + 24, eight(q.bid_qty_raw)));
    law_numbers_read_as_written(b, o + 32);
    assert(stands_at(b, o + 32, signed_eight(q.ask_price_raw)));
    law_numbers_read_as_written(b, o + 40);
    assert(stands_at(b, o + 40, eight(q.ask_qty_raw)));
    law_numbers_read_as_written(b, o + 48);
    assert(stands_at(b, o + 48, two(q.bid_n)));
    law_numbers_read_as_written(b, o + 50);
    assert(stands_at(b, o + 50, two(q.ask_n)));
}

/// The body of a Top-of-Book trade.
pub open spec fn tob_trade_parts(t: codec::Trade) -> Seq<Seq<u8>> {
    seq![
        four(t.instrument_id),
        two(t.source_id),
        one(t.aggressor_side),
        one(t.trade_flags),
        eight(t.source_ts),
        signed_eight(t.trade_price_raw),
        eight(t.trade_qty_raw),
        eight(t.trade_id),
        eight(t.cumulative_volume_raw),
    ]
}

/// A Top-of-Book trade reads as it was written, in every field.
pub proof fn law_a_trade_reads_as_written(
    message: codec::Message,
    b: Seq<u8>,
    m: int,
    schema_version: u8,
    t: codec::Trade,
    len: u8,
    flags: u16,
)
    requires
        stands_at(b, m, written(head(0x04, len, flags))),
        stands_at(b, m + 4, written(tob_trade_parts(t))),
        codec::is_message(message, b[m], b, m, schema_version),
    ensures
        message == codec::Message::Trade(t),
{
    lemma_head(b, m, 0x04, len, flags);
    lemma_lens();
    reveal_with_fuel(place, 10);
    let parts = tob_trade_parts(t);
    let o = m + 4;
    lemma_part_stands(b, o, parts, 0);
    assert(parts[0] == four(t.instrument_id));
    lemma_part_stands(b, o, parts, 1);
    assert(parts[1] == two(t.source_id));
    lemma_part_stands(b, o, parts, 2);
    assert(parts[2] == one(t.aggressor_side));
    lemma_part_stands(b, o, parts, 3);
    assert(parts[3] == one(t.trade_flags));
    lemma_part_stands(b, o, parts, 4);
    assert(parts[4] == eight(t.source_ts));
    lemma_part_stands(b, o, parts, 5);
    assert(parts[5] == signed_eight(t.trade_price_raw));
    lemma_part_stands(b, o, parts, 6);
    assert(parts[6] == eight(t.trade_qty_raw));
    lemma_part_stands(b, o, parts, 7);
    assert(parts[7] == eight(t.trade_id));
    lemma_part_stands(b, o, parts, 8);
    assert(parts[8] == eight(t.cumulative_volume_raw));
    law_numbers_read_as_written(b, o);
    assert(stands_at(b, o + 0, four(t.instrument_id)));
    law_numbers_read_as_written(b, o + 4);
    assert(stands_at(b, o + 4, two(t.source_id)));
    law_numbers_read_as_written(b, o + 6);
    assert(stands_at(b, o + 6, one(t.aggressor_side)));
    law_numbers_read_as_written(b, o + 7);
    assert(stands_at(b, o + 7, one(t.trade_flags)));
    law_numbers_read_as_written(b, o + 8);
    assert(stands_at(b, o + 8, eight(t.source_ts)));
    law_numbers_read_as_written(b, o + 16);
    assert(stands_at(b, o + 16, signed_eight(t.trade_price_raw)));
    law_numbers_read_as_written(b, o + 24);
    assert(stands_at(b, o + 24, eight(t.trade_qty_raw)));
    law_numbers_read_as_written(b, o + 32);
    assert(stands_at(b, o + 32, eight(t.trade_id)));
    law_numbers_read_as_written(b, o + 40);
    assert(stands_at(b, o + 40, eight(t.cumulative_volume_raw)));
}

/// The body of a Top-of-Book manifest summary.
pub open spec fn tob_manifest_summary_parts(
    s: codec::ManifestSummary,
    spare0: Seq<u8>,
    spare1: Seq<u8>,
) -> Seq<Seq<u8>> {
    seq![
        one(s.channel_id),
        yes_no(s.valid),
        spare0,
        two(s.manifest_seq),
        spare1,
        four(s.instrument_count),
        eight(s.ts),
    ]
}

/// A Top-of-Book manifest summary reads as it was written, in every field.
pub proof fn law_a_manifest_summary_reads_as_written(
    message: codec::Message,
    b: Seq<u8>,
    m: int,
    schema_version: u8,
    s: codec::ManifestSummary,
    len: u8,
    flags: u16,
    spare0: Seq<u8>,
    spare1: Seq<u8>,
)
    requires
        stands_at(b, m, written(head(0x07, len, flags))),
        stands_at(b, m + 4, written(tob_manifest_summary_parts(s, spare0, spare1))),
        spare0.len() == 2,
        spare1.len() == 2,
        codec::is_message(message, b[m], b, m, schema_version),
    ensures
        message == codec::Message::ManifestSummary(s),
{
    lemma_head(b, m, 0x07, len, flags);
    lemma_lens();
    reveal_with_fuel(place, 8);
    let parts = tob_manifest_summary_parts(s, spare0, spare1);
    let o = m + 4;
    lemma_part_stands(b, o, parts, 0);
    assert(parts[0] == one(s.channel_id));
    lemma_part_stands(b, o, parts, 1);
    assert(parts[1] == yes_no(s.valid));
    lemma_part_stands(b, o, parts, 2);
    assert(parts[2] == spare0);
    lemma_part_stands(b, o, parts, 3);
    assert(parts[3] == two(s.manifest_seq));
    lemma_part_stands(b, o, parts, 4);
    assert(parts[4] == spare1);
    lemma_part_stands(b, o, parts, 5);
    assert(parts[5] == four(s.instrument_count));
    lemma_part_stands(b, o, parts, 6);
    assert(parts[6] == eight(s.ts));
    law_numbers_read_as_written(b, o);
    assert(stands_at(b, o + 0, one(s.channel_id)));
    law_numbers_read_as_written(b, o + 1);
    assert(stands_at(b, o + 1, yes_no(s.valid)));
    law_numbers_read_as_written(b, o + 4);
    assert(stands_at(b, o + 4, two(s.manifest_seq)));
    law_numbers_read_as_written(b, o + 8);
    assert(stands_at(b, o + 8, four(s.instrument_count)));
    law_numbers_read_as_written(b, o + 12);
    assert(stands_at(b, o + 12, eight(s.ts)));
}

/// The body of a Top-of-Book channel reset.
pub open spec fn tob_channel_reset_parts(ts: u64) -> Seq<Seq<u8>> {
    seq![
        eight(ts),
    ]
}

/// A Top-of-Book channel reset reads as it was written, in every field.
pub proof fn law_a_channel_reset_reads_as_written(
    message: codec::Message,
    b: Seq<u8>,
    m: int,
    schema_version: u8,
    ts: u64,
    len: u8,
    flags: u16,
)
    requires
        stands_at(b, m, written(head(0x05, len, flags))),
        stands_at(b, m + 4, written(tob_channel_reset_parts(ts))),
        codec::is_message(message, b[m], b, m, schema_version),
    ensures
        message == codec::Message::ChannelReset(ts),
{
    lemma_head(b, m, 0x05, len, flags);
    lemma_lens();
    reveal_with_fuel(place, 2);
    let parts = tob_channel_reset_parts(ts);
    let o = m + 4;
    lemma_part_stands(b, o, parts, 0);
    assert(parts[0] == eight(ts));
    law_numbers_read_as_written(b, o);
    assert(stands_at(b, o + 0, eight(ts)));
}

/// The body of a Top-of-Book end of session.
pub open spec fn tob_end_of_session_parts(ts: u64) -> Seq<Seq<u8>> {
    seq![
        eight(ts),
    ]
}

/// A Top-of-Book end of session reads as it was written, in every field.
pub proof fn law_an_end_of_session_reads_as_written(
    message: codec::Message,
    b: Seq<u8>,
    m: int,
    schema_version: u8,
    ts: u64,
    len: u8,
    flags: u16,
)
    requires
        stands_at(b, m, written(head(0x06, len, flags))),
        stands_at(b, m + 4, written(tob_end_of_session_parts(ts))),
        codec::is_message(message, b[m], b, m, schema_version),
    ensures
        message == codec::Message::EndOfSession(ts),
{
    lemma_head(b, m, 0x06, len, flags);
    lemma_lens();
    reveal_with_fuel(place, 2);
    let parts = tob_end_of_session_parts(ts);
    let o = m + 4;
    lemma_part_stands(b, o, parts, 0);
    assert(parts[0] == eight(ts));
    law_numbers_read_as_written(b, o);
    assert(stands_at(b, o + 0, eight(ts)));
}

/// The body of an added order.
pub open spec fn mbo_order_add_parts(a: codec_mbo::OrderAdd) -> Seq<Seq<u8>> {
    seq![
        four(a.instrument_id),
        two(a.source_id),
        one(a.side),
        one(a.order_flags),
        four(a.per_instrument_seq),
        eight(a.order_id),
        eight(a.enter_ts),
        signed_eight(a.price_raw),
        eight(a.qty_raw),
    ]
}

/// An added order reads as it was written, in every field.
pub proof fn law_an_order_add_reads_as_written(
    message: codec_mbo::Message,
    b: Seq<u8>,
    m: int,
    a: codec_mbo::OrderAdd,
    len: u8,
    flags: u16,
)
    requires
        stands_at(b, m, written(head(0x10, len, flags))),
        stands_at(b, m + 4, written(mbo_order_add_parts(a))),
        codec_mbo::is_message(message, b[m], b, m),
    ensures
        message == codec_mbo::Message::OrderAdd(a),
{
    lemma_head(b, m, 0x10, len, flags);
    lemma_lens();
    reveal_with_fuel(place, 10);
    let parts = mbo_order_add_parts(a);
    let o = m + 4;
    lemma_part_stands(b, o, parts, 0);
    assert(parts[0] == four(a.instrument_id));
    lemma_part_stands(b, o, parts, 1);
    assert(parts[1] == two(a.source_id));
    lemma_part_stands(b, o, parts, 2);
    assert(parts[2] == one(a.side));
    lemma_part_stands(b, o, parts, 3);
    assert(parts[3] == one(a.order_flags));
    lemma_part_stands(b, o, parts, 4);
    assert(parts[4] == four(a.per_instrument_seq));
    lemma_part_stands(b, o, parts, 5);
    assert(parts[5] == eight(a.order_id));
    lemma_part_stands(b, o, parts, 6);
    assert(parts[6] == eight(a.enter_ts));
    lemma_part_stands(b, o, parts, 7);
    assert(parts[7] == signed_eight(a.price_raw));
    lemma_part_stands(b, o, parts, 8);
    assert(parts[8] == eight(a.qty_raw));
    law_numbers_read_as_written(b, o);
    assert(stands_at(b, o + 0, four(a.instrument_id)));
    law_numbers_read_as_written(b, o + 4);
    assert(stands_at(b, o + 4, two(a.source_id)));
    law_numbers_read_as_written(b, o + 6);
    assert(stands_at(b, o + 6, one(a.side)));
    law_numbers_read_as_written(b, o + 7);
    assert(stands_at(b, o + 7, one(a.order_flags)));
    law_numbers_read_as_written(b, o + 8);
    assert(stands_at(b, o + 8, four(a.per_instrument_seq)));
    law_numbers_read_as_written(b, o + 12);
    assert(stands_at(b, o + 12, eight(a.order_id)));
    law_numbers_read_as_written(b, o + 20);
    assert(stands_at(b, o + 20, eight(a.enter_ts)));
    law_numbers_read_as_written(b, o + 28);
    assert(stands_at(b, o + 28, signed_eight(a.price_raw)));
    law_numbers_read_as_written(b, o + 36);
    assert(stands_at(b, o + 36, eight(a.qty_raw)));
}

/// The body of a cancelled order.
pub open spec fn mbo_order_cancel_parts(c: codec_mbo::OrderCancel, spare: Seq<u8>) -> Seq<Seq<u8>> {
    seq![
        four(c.instrument_id),
        two(c.source_id),
        one(c.reason),
        spare,
        four(c.per_instrument_seq),
        eight(c.order_id),
        eight(c.ts),
    ]
}

/// A cancelled order reads as it was written, in every field.
pub proof fn law_an_order_cancel_reads_as_written(
    message: codec_mbo::Message,
    b: Seq<u8>,
    m: int,
    c: codec_mbo::OrderCancel,
    len: u8,
    flags: u16,
    spare: Seq<u8>,
)
    requires
        stands_at(b, m, written(head(0x11, len, flags))),
        stands_at(b, m + 4, written(mbo_order_cancel_parts(c, spare))),
        spare.len() == 1,
        codec_mbo::is_message(message, b[m], b, m),
    ensures
        message == codec_mbo::Message::OrderCancel(c),
{
    lemma_head(b, m, 0x11, len, flags);
    lemma_lens();
    reveal_with_fuel(place, 8);
    let parts = mbo_order_cancel_parts(c, spare);
    let o = m + 4;
    lemma_part_stands(b, o, parts, 0);
    assert(parts[0] == four(c.instrument_id));
    lemma_part_stands(b, o, parts, 1);
    assert(parts[1] == two(c.source_id));
    lemma_part_stands(b, o, parts, 2);
    assert(parts[2] == one(c.reason));
    lemma_part_stands(b, o, parts, 3);
    assert(parts[3] == spare);
    lemma_part_stands(b, o, parts, 4);
    assert(parts[4] == four(c.per_instrument_seq));
    lemma_part_stands(b, o, parts, 5);
    assert(parts[5] == eight(c.order_id));
    lemma_part_stands(b, o, parts, 6);
    assert(parts[6] == eight(c.ts));
    law_numbers_read_as_written(b, o);
    assert(stands_at(b, o + 0, four(c.instrument_id)));
    law_numbers_read_as_written(b, o + 4);
    assert(stands_at(b, o + 4, two(c.source_id)));
    law_numbers_read_as_written(b, o + 6);
    assert(stands_at(b, o + 6, one(c.reason)));
    law_numbers_read_as_written(b, o + 8);
    assert(stands_at(b, o + 8, four(c.per_instrument_seq)));
    law_numbers_read_as_written(b, o + 12);
    assert(stands_at(b, o + 12, eight(c.order_id)));
    law_numbers_read_as_written(b, o + 20);
    assert(stands_at(b, o + 20, eight(c.ts)));
}

/// The body of a fill.
pub open spec fn mbo_order_execute_parts(e: codec_mbo::OrderExecute) -> Seq<Seq<u8>> {
    seq![
        four(e.instrument_id),
        two(e.source_id),
        one(e.aggressor_side),
        one(e.exec_flags),
        four(e.per_instrument_seq),
        eight(e.order_id),
        eight(e.trade_id),
        eight(e.ts),
        signed_eight(e.exec_price_raw),
        eight(e.exec_qty_raw),
    ]
}

/// A fill reads as it was written, in every field.
pub proof fn law_an_order_execute_reads_as_written(
    message: codec_mbo::Message,
    b: Seq<u8>,
    m: int,
    e: codec_mbo::OrderExecute,
    len: u8,
    flags: u16,
)
    requires
        stands_at(b, m, written(head(0x12, len, flags))),
        stands_at(b, m + 4, written(mbo_order_execute_parts(e))),
        codec_mbo::is_message(message, b[m], b, m),
    ensures
        message == codec_mbo::Message::OrderExecute(e),
{
    lemma_head(b, m, 0x12, len, flags);
    lemma_lens();
    reveal_with_fuel(place, 11);
    let parts = mbo_order_execute_parts(e);
    let o = m + 4;
    lemma_part_stands(b, o, parts, 0);
    assert(parts[0] == four(e.instrument_id));
    lemma_part_stands(b, o, parts, 1);
    assert(parts[1] == two(e.source_id));
    lemma_part_stands(b, o, parts, 2);
    assert(parts[2] == one(e.aggressor_side));
    lemma_part_stands(b, o, parts, 3);
    assert(parts[3] == one(e.exec_flags));
    lemma_part_stands(b, o, parts, 4);
    assert(parts[4] == four(e.per_instrument_seq));
    lemma_part_stands(b, o, parts, 5);
    assert(parts[5] == eight(e.order_id));
    lemma_part_stands(b, o, parts, 6);
    assert(parts[6] == eight(e.trade_id));
    lemma_part_stands(b, o, parts, 7);
    assert(parts[7] == eight(e.ts));
    lemma_part_stands(b, o, parts, 8);
    assert(parts[8] == signed_eight(e.exec_price_raw));
    lemma_part_stands(b, o, parts, 9);
    assert(parts[9] == eight(e.exec_qty_raw));
    law_numbers_read_as_written(b, o);
    assert(stands_at(b, o + 0, four(e.instrument_id)));
    law_numbers_read_as_written(b, o + 4);
    assert(stands_at(b, o + 4, two(e.source_id)));
    law_numbers_read_as_written(b, o + 6);
    assert(stands_at(b, o + 6, one(e.aggressor_side)));
    law_numbers_read_as_written(b, o + 7);
    assert(stands_at(b, o + 7, one(e.exec_flags)));
    law_numbers_read_as_written(b, o + 8);
    assert(stands_at(b, o + 8, four(e.per_instrument_seq)));
    law_numbers_read_as_written(b, o + 12);
    assert(stands_at(b, o + 12, eight(e.order_id)));
    law_numbers_read_as_written(b, o + 20);
    assert(stands_at(b, o + 20, eight(e.trade_id)));
    law_numbers_read_as_written(b, o + 28);
    assert(stands_at(b, o + 28, eight(e.ts)));
    law_numbers_read_as_written(b, o + 36);
    assert(stands_at(b, o + 36, signed_eight(e.exec_price_raw)));
    law_numbers_read_as_written(b, o + 44);
    assert(stands_at(b, o + 44, eight(e.exec_qty_raw)));
}

/// The body of a Market-by-Order instrument reset.
pub open spec fn mbo_instrument_reset_parts(
    r: codec_mbo::InstrumentReset,
    spare: Seq<u8>,
) -> Seq<Seq<u8>> {
    seq![
        four(r.instrument_id),
        one(r.reason),
        spare,
        eight(r.new_anchor_seq),
        eight(r.ts),
    ]
}

/// A Market-by-Order instrument reset reads as it was written, in every field.
pub proof fn law_an_instrument_reset_reads_as_written(
    message: codec_mbo::Message,
    b: Seq<u8>,
    m: int,
    r: codec_mbo::InstrumentReset,
    len: u8,
    flags: u16,
    spare: Seq<u8>,
)
    requires
        stands_at(b, m, written(head(0x14, len, flags))),
        stands_at(b, m + 4, written(mbo_instrument_reset_parts(r, spare))),
        spare.len() == 3,
        codec_mbo::is_message(message, b[m], b, m),
    ensures
        message == codec_mbo::Message::InstrumentReset(r),
{
    lemma_head(b, m, 0x14, len, flags);
    lemma_lens();
    reveal_with_fuel(place, 6);
    let parts = mbo_instrument_reset_parts(r, spare);
    let o = m + 4;
    lemma_part_stands(b, o, parts, 0);
    assert(parts[0] == four(r.instrument_id));
    lemma_part_stands(b, o, parts, 1);
    assert(parts[1] == one(r.reason));
    lemma_part_stands(b, o, parts, 2);
    assert(parts[2] == spare);
    lemma_part_stands(b, o, parts, 3);
    assert(parts[3] == eight(r.new_anchor_seq));
    lemma_part_stands(b, o, parts, 4);
    assert(parts[4] == eight(r.ts));
    law_numbers_read_as_written(b, o);
    assert(stands_at(b, o + 0, four(r.instrument_id)));
    law_numbers_read_as_written(b, o + 4);
    assert(stands_at(b, o + 4, one(r.reason)));
    law_numbers_read_as_written(b, o + 8);
    assert(stands_at(b, o + 8, eight(r.new_anchor_seq)));
    law_numbers_read_as_written(b, o + 16);
    assert(stands_at(b, o + 16, eight(r.ts)));
}

/// The body of a Market-by-Order snapshot start.
pub open spec fn mbo_snapshot_begin_parts(s: codec_mbo::SnapshotBegin) -> Seq<Seq<u8>> {
    seq![
        four(s.instrument_id),
        eight(s.anchor_seq),
        four(s.total_orders),
        four(s.snapshot_id),
        four(s.last_instrument_seq),
        eight(s.ts),
    ]
}

/// A Market-by-Order snapshot start reads as it was written, in every field.
pub proof fn law_a_snapshot_begin_reads_as_written(
    message: codec_mbo::Message,
    b: Seq<u8>,
    m: int,
    s: codec_mbo::SnapshotBegin,
    len: u8,
    flags: u16,
)
    requires
        stands_at(b, m, written(head(0x20, len, flags))),
        stands_at(b, m + 4, written(mbo_snapshot_begin_parts(s))),
        codec_mbo::is_message(message, b[m], b, m),
    ensures
        message == codec_mbo::Message::SnapshotBegin(s),
{
    lemma_head(b, m, 0x20, len, flags);
    lemma_lens();
    reveal_with_fuel(place, 7);
    let parts = mbo_snapshot_begin_parts(s);
    let o = m + 4;
    lemma_part_stands(b, o, parts, 0);
    assert(parts[0] == four(s.instrument_id));
    lemma_part_stands(b, o, parts, 1);
    assert(parts[1] == eight(s.anchor_seq));
    lemma_part_stands(b, o, parts, 2);
    assert(parts[2] == four(s.total_orders));
    lemma_part_stands(b, o, parts, 3);
    assert(parts[3] == four(s.snapshot_id));
    lemma_part_stands(b, o, parts, 4);
    assert(parts[4] == four(s.last_instrument_seq));
    lemma_part_stands(b, o, parts, 5);
    assert(parts[5] == eight(s.ts));
    law_numbers_read_as_written(b, o);
    assert(stands_at(b, o + 0, four(s.instrument_id)));
    law_numbers_read_as_written(b, o + 4);
    assert(stands_at(b, o + 4, eight(s.anchor_seq)));
    law_numbers_read_as_written(b, o + 12);
    assert(stands_at(b, o + 12, four(s.total_orders)));
    law_numbers_read_as_written(b, o + 16);
    assert(stands_at(b, o + 16, four(s.snapshot_id)));
    law_numbers_read_as_written(b, o + 20);
    assert(stands_at(b, o + 20, four(s.last_instrument_seq)));
    law_numbers_read_as_written(b, o + 24);
    assert(stands_at(b, o + 24, eight(s.ts)));
}

/// The body of a snapshot order.
pub open spec fn mbo_snapshot_order_parts(
    s: codec_mbo::SnapshotOrder,
    spare: Seq<u8>,
) -> Seq<Seq<u8>> {
    seq![
        four(s.snapshot_id),
        eight(s.order_id),
        one(s.side),
        one(s.order_flags),
        spare,
        eight(s.enter_ts),
        signed_eight(s.price_raw),
        eight(s.qty_raw),
    ]
}

/// A snapshot order reads as it was written, in every field.
pub proof fn law_a_snapshot_order_reads_as_written(
    message: codec_mbo::Message,
    b: Seq<u8>,
    m: int,
    s: codec_mbo::SnapshotOrder,
    len: u8,
    flags: u16,
    spare: Seq<u8>,
)
    requires
        stands_at(b, m, written(head(0x21, len, flags))),
        stands_at(b, m + 4, written(mbo_snapshot_order_parts(s, spare))),
        spare.len() == 2,
        codec_mbo::is_message(message, b[m], b, m),
    ensures
        message == codec_mbo::Message::SnapshotOrder(s),
{
    lemma_head(b, m, 0x21, len, flags);
    lemma_lens();
    reveal_with_fuel(place, 9);
    let parts = mbo_snapshot_order_parts(s, spare);
    let o = m + 4;
    lemma_part_stands(b, o, parts, 0);
    assert(parts[0] == four(s.snapshot_id));
    lemma_part_stands(b, o, parts, 1);
    assert(parts[1] == eight(s.order_id));
    lemma_part_stands(b, o, parts, 2);
    assert(parts[2] == one(s.side));
    lemma_part_stands(b, o, parts, 3);
    assert(parts[3] == one(s.order_flags));
    lemma_part_stands(b, o, parts, 4);
    assert(parts[4] == spare);
    lemma_part_stands(b, o, parts, 5);
    assert(parts[5] == eight(s.enter_ts));
    lemma_part_stands(b, o, parts, 6);
    assert(parts[6] == signed_eight(s.price_raw));
    lemma_part_stands(b, o, parts, 7);
    assert(parts[7] == eight(s.qty_raw));
    law_numbers_read_as_written(b, o);
    assert(stands_at(b, o + 0, four(s.snapshot_id)));
    law_numbers_read_as_written(b, o + 4);
    assert(stands_at(b, o + 4, eight(s.order_id)));
    law_numbers_read_as_written(b, o + 12);
    assert(stands_at(b, o + 12, one(s.side)));
    law_numbers_read_as_written(b, o + 13);
    assert(stands_at(b, o + 13, one(s.order_flags)));
    law_numbers_read_as_written(b, o + 16);
    assert(stands_at(b, o + 16, eight(s.enter_ts)));
    law_numbers_read_as_written(b, o + 24);
    assert(stands_at(b, o + 24, signed_eight(s.price_raw)));
    law_numbers_read_as_written(b, o + 32);
    assert(stands_at(b, o + 32, eight(s.qty_raw)));
}

/// The body of a Market-by-Order snapshot end.
pub open spec fn mbo_snapshot_end_parts(s: codec_mbo::SnapshotEnd) -> Seq<Seq<u8>> {
    seq![
        four(s.instrument_id),
        eight(s.anchor_seq),
        four(s.snapshot_id),
    ]
}

/// A Market-by-Order snapshot end reads as it was written, in every field.
pub proof fn law_a_snapshot_end_reads_as_written(
    message: codec_mbo::Message,
    b: Seq<u8>,
    m: int,
    s: codec_mbo::SnapshotEnd,
    len: u8,
    flags: u16,
)
    requires
        stands_at(b, m, written(head(0x22, len, flags))),
        stands_at(b, m + 4, written(mbo_snapshot_end_parts(s))),
        codec_mbo::is_message(message, b[m], b, m),
    ensures
        message == codec_mbo::Message::SnapshotEnd(s),
{
    lemma_head(b, m, 0x22, len, flags);
    lemma_lens();
    reveal_with_fuel(place, 4);
    let parts = mbo_snapshot_end_parts(s);
    let o = m + 4;
    lemma_part_stands(b, o, parts, 0);
    assert(parts[0] == four(s.instrument_id));
    lemma_part_stands(b, o, parts, 1);
    assert(parts[1] == eight(s.anchor_seq));
    lemma_part_stands(b, o, parts, 2);
    assert(parts[2] == four(s.snapshot_id));
    law_numbers_read_as_written(b, o);
    assert(stands_at(b, o + 0, four(s.instrument_id)));
    law_numbers_read_as_written(b, o + 4);
    assert(stands_at(b, o + 4, eight(s.anchor_seq)));
    law_numbers_read_as_written(b, o + 12);
    assert(stands_at(b, o + 12, four(s.snapshot_id)));
}

/// The body of a Market-by-Order trade.
pub open spec fn mbo_trade_parts(t: codec_mbo::Trade) -> Seq<Seq<u8>> {
    seq![
        four(t.instrument_id),
        two(t.source_id),
        one(t.aggressor_side),
        one(t.trade_flags),
        eight(t.source_ts),
        signed_eight(t.trade_price_raw),
        eight(t.trade_qty_raw),
        eight(t.trade_id),
        eight(t.cumulative_volume_raw),
    ]
}

/// A Market-by-Order trade reads as it was written, in every field.
pub proof fn law_an_order_level_trade_reads_as_written(
    message: codec_mbo::Message,
    b: Seq<u8>,
    m: int,
    t: codec_mbo::Trade,
    len: u8,
    flags: u16,
)
    requires
        stands_at(b, m, written(head(0x04, len, flags))),
        stands_at(b, m + 4, written(mbo_trade_parts(t))),
        codec_mbo::is_message(message, b[m], b, m),
    ensures
        message == codec_mbo::Message::Trade(t),
{
    lemma_head(b, m, 0x04, len, flags);
    lemma_lens();
    reveal_with_fuel(place, 10);
    let parts = mbo_trade_parts(t);
    let o = m + 4;
    lemma_part_stands(b, o, parts, 0);
    assert(parts[0] == four(t.instrument_id));
    lemma_part_stands(b, o, parts, 1);
    assert(parts[1] == two(t.source_id));
    lemma_part_stands(b, o, parts, 2);
    assert(parts[2] == one(t.aggressor_side));
    lemma_part_stands(b, o, parts, 3);
    assert(parts[3] == one(t.trade_flags));
    lemma_part_stands(b, o, parts, 4);
    assert(parts[4] == eight(t.source_ts));
    lemma_part_stands(b, o, parts, 5);
    assert(parts[5] == signed_eight(t.trade_price_raw));
    lemma_part_stands(b, o, parts, 6);
    assert(parts[6] == eight(t.trade_qty_raw));
    lemma_part_stands(b, o, parts, 7);
    assert(parts[7] == eight(t.trade_id));
    lemma_part_stands(b, o, parts, 8);
    assert(parts[8] == eight(t.cumulative_volume_raw));
    law_numbers_read_as_written(b, o);
    assert(stands_at(b, o + 0, four(t.instrument_id)));
    law_numbers_read_as_written(b, o + 4);
    assert(stands_at(b, o + 4, two(t.source_id)));
    law_numbers_read_as_written(b, o + 6);
    assert(stands_at(b, o + 6, one(t.aggressor_side)));
    law_numbers_read_as_written(b, o + 7);
    assert(stands_at(b, o + 7, one(t.trade_flags)));
    law_numbers_read_as_written(b, o + 8);
    assert(stands_at(b, o + 8, eight(t.source_ts)));
    law_numbers_read_as_written(b, o + 16);
    assert(stands_at(b, o + 16, signed_eight(t.trade_price_raw)));
    law_numbers_read_as_written(b, o + 24);
    assert(stands_at(b, o + 24, eight(t.trade_qty_raw)));
    law_numbers_read_as_written(b, o + 32);
    assert(stands_at(b, o + 32, eight(t.trade_id)));
    law_numbers_read_as_written(b, o + 40);
    assert(stands_at(b, o + 40, eight(t.cumulative_volume_raw)));
}

/// The body of a Market-by-Order manifest summary.
pub open spec fn mbo_manifest_summary_parts(
    s: codec_mbo::ManifestSummary,
    spare0: Seq<u8>,
    spare1: Seq<u8>,
) -> Seq<Seq<u8>> {
    seq![
        one(s.channel_id),
        yes_no(s.valid),
        spare0,
        two(s.manifest_seq),
        spare1,
        four(s.instrument_count),
        eight(s.ts),
    ]
}

/// A Market-by-Order manifest summary reads as it was written, in every field.
pub proof fn law_an_order_level_summary_reads_as_written(
    message: codec_mbo::Message,
    b: Seq<u8>,
    m: int,
    s: codec_mbo::ManifestSummary,
    len: u8,
    flags: u16,
    spare0: Seq<u8>,
    spare1: Seq<u8>,
)
    requires
        stands_at(b, m, written(head(0x07, len, flags))),
        stands_at(b, m + 4, written(mbo_manifest_summary_parts(s, spare0, spare1))),
        spare0.len() == 2,
        spare1.len() == 2,
        codec_mbo::is_message(message, b[m], b, m),
    ensures
        message == codec_mbo::Message::ManifestSummary(s),
{
    lemma_head(b, m, 0x07, len, flags);
    lemma_lens();
    reveal_with_fuel(place, 8);
    let parts = mbo_manifest_summary_parts(s, spare0, spare1);
    let o = m + 4;
    lemma_part_stands(b, o, parts, 0);
    assert(parts[0] == one(s.channel_id));
    lemma_part_stands(b, o, parts, 1);
    assert(parts[1] == yes_no(s.valid));
    lemma_part_stands(b, o, parts, 2);
    assert(parts[2] == spare0);
    lemma_part_stands(b, o, parts, 3);
    assert(parts[3] == two(s.manifest_seq));
    lemma_part_stands(b, o, parts, 4);
    assert(parts[4] == spare1);
    lemma_part_stands(b, o, parts, 5);
    assert(parts[5] == four(s.instrument_count));
    lemma_part_stands(b, o, parts, 6);
    assert(parts[6] == eight(s.ts));
    law_numbers_read_as_written(b, o);
    assert(stands_at(b, o + 0, one(s.channel_id)));
    law_numbers_read_as_written(b, o + 1);
    assert(stands_at(b, o + 1, yes_no(s.valid)));
    law_numbers_read_as_written(b, o + 4);
    assert(stands_at(b, o + 4, two(s.manifest_seq)));
    law_numbers_read_as_written(b, o + 8);
    assert(stands_at(b, o + 8, four(s.instrument_count)));
    law_numbers_read_as_written(b, o + 12);
    assert(stands_at(b, o + 12, eight(s.ts)));
}

/// The body of a Market-by-Order end of session.
pub open spec fn mbo_end_of_session_parts(ts: u64) -> Seq<Seq<u8>> {
    seq![
        eight(ts),
    ]
}

/// A Market-by-Order end of session reads as it was written, in every field.
pub proof fn law_an_order_level_session_end_reads_as_written(
    message: codec_mbo::Message,
    b: Seq<u8>,
    m: int,
    ts: u64,
    len: u8,
    flags: u16,
)
    requires
        stands_at(b, m, written(head(0x06, len, flags))),
        stands_at(b, m + 4, written(mbo_end_of_session_parts(ts))),
        codec_mbo::is_message(message, b[m], b, m),
    ensures
        message == codec_mbo::Message::EndOfSession(ts),
{
    lemma_head(b, m, 0x06, len, flags);
    lemma_lens();
    reveal_with_fuel(place, 2);
    let parts = mbo_end_of_session_parts(ts);
    let o = m + 4;
    lemma_part_stands(b, o, parts, 0);
    assert(parts[0] == eight(ts));
    law_numbers_read_as_written(b, o);
    assert(stands_at(b, o + 0, eight(ts)));
}

/// The body of a Market-by-Order batch boundary.
pub open spec fn mbo_batch_boundary_parts(t: (u32, u64)) -> Seq<Seq<u8>> {
    seq![
        four(t.0),
        eight(t.1),
    ]
}

/// A Market-by-Order batch boundary reads as it was written, in every field.
pub proof fn law_a_batch_boundary_reads_as_written(
    message: codec_mbo::Message,
    b: Seq<u8>,
    m: int,
    t: (u32, u64),
    len: u8,
    flags: u16,
)
    requires
        stands_at(b, m, written(head(0x13, len, flags))),
        stands_at(b, m + 4, written(mbo_batch_boundary_parts(t))),
        codec_mbo::is_message(message, b[m], b, m),
    ensures
        message == codec_mbo::Message::BatchBoundary(t.0, t.1),
{
    lemma_head(b, m, 0x13, len, flags);
    lemma_lens();
    reveal_with_fuel(place, 3);
    let parts = mbo_batch_boundary_parts(t);
    let o = m + 4;
    lemma_part_stands(b, o, parts, 0);
    assert(parts[0] == four(t.0));
    lemma_part_stands(b, o, parts, 1);
    assert(parts[1] == eight(t.1));
    law_numbers_read_as_written(b, o);
    assert(stands_at(b, o + 0, four(t.0)));
    law_numbers_read_as_written(b, o + 4);
    assert(stands_at(b, o + 4, eight(t.1)));
}

/// The body of a level update.
pub open spec fn mbp_level_update_parts(v: codec_mbp::LevelUpdate, spare: Seq<u8>) -> Seq<Seq<u8>> {
    seq![
        four(v.instrument_id),
        two(v.source_id),
        one(v.side),
        one(v.action),
        four(v.per_instrument_seq),
        signed_eight(v.price_raw),
        eight(v.qty_raw),
        eight(v.ts),
        countable(v.order_count),
        countable(v.level_index),
        one(v.update_reason),
        one(v.level_flags),
        spare,
    ]
}

/// A level update reads as it was written, in every field.
pub proof fn law_a_level_update_reads_as_written(
    message: codec_mbp::Message,
    b: Seq<u8>,
    m: int,
    schema_version: u8,
    v: codec_mbp::LevelUpdate,
    flags: u16,
    spare: Seq<u8>,
)
    requires
        stands_at(b, m, written(head(0x40, 48, flags))),
        stands_at(b, m + 4, written(mbp_level_update_parts(v, spare))),
        spare.len() == 2,
        v.order_count != Some(0xffffu16),
        v.level_index != Some(0xffffu16),
        codec_mbp::is_message(message, b[m], b, m, schema_version),
    ensures
        message == codec_mbp::Message::LevelUpdate(v),
{
    lemma_head(b, m, 0x40, 48, flags);
    lemma_lens();
    reveal_with_fuel(place, 14);
    let parts = mbp_level_update_parts(v, spare);
    let o = m + 4;
    lemma_part_stands(b, o, parts, 0);
    assert(parts[0] == four(v.instrument_id));
    lemma_part_stands(b, o, parts, 1);
    assert(parts[1] == two(v.source_id));
    lemma_part_stands(b, o, parts, 2);
    assert(parts[2] == one(v.side));
    lemma_part_stands(b, o, parts, 3);
    assert(parts[3] == one(v.action));
    lemma_part_stands(b, o, parts, 4);
    assert(parts[4] == four(v.per_instrument_seq));
    lemma_part_stands(b, o, parts, 5);
    assert(parts[5] == signed_eight(v.price_raw));
    lemma_part_stands(b, o, parts, 6);
    assert(parts[6] == eight(v.qty_raw));
    lemma_part_stands(b, o, parts, 7);
    assert(parts[7] == eight(v.ts));
    lemma_part_stands(b, o, parts, 8);
    assert(parts[8] == countable(v.order_count));
    lemma_part_stands(b, o, parts, 9);
    assert(parts[9] == countable(v.level_index));
    lemma_part_stands(b, o, parts, 10);
    assert(parts[10] == one(v.update_reason));
    lemma_part_stands(b, o, parts, 11);
    assert(parts[11] == one(v.level_flags));
    lemma_part_stands(b, o, parts, 12);
    assert(parts[12] == spare);
    law_numbers_read_as_written(b, o);
    assert(stands_at(b, o + 0, four(v.instrument_id)));
    law_numbers_read_as_written(b, o + 4);
    assert(stands_at(b, o + 4, two(v.source_id)));
    law_numbers_read_as_written(b, o + 6);
    assert(stands_at(b, o + 6, one(v.side)));
    law_numbers_read_as_written(b, o + 7);
    assert(stands_at(b, o + 7, one(v.action)));
    law_numbers_read_as_written(b, o + 8);
    assert(stands_at(b, o + 8, four(v.per_instrument_seq)));
    law_numbers_read_as_written(b, o + 12);
    assert(stands_at(b, o + 12, signed_eight(v.price_raw)));
    law_numbers_read_as_written(b, o + 20);
    assert(stands_at(b, o + 20, eight(v.qty_raw)));
    law_numbers_read_as_written(b, o + 28);
    assert(stands_at(b, o + 28, eight(v.ts)));
    law_numbers_read_as_written(b, o + 36);
    assert(stands_at(b, o + 36, countable(v.order_count)));
    law_numbers_read_as_written(b, o + 38);
    assert(stands_at(b, o + 38, countable(v.level_index)));
    law_numbers_read_as_written(b, o + 40);
    assert(stands_at(b, o + 40, one(v.update_reason)));
    law_numbers_read_as_written(b, o + 41);
    assert(stands_at(b, o + 41, one(v.level_flags)));
}

/// The body of a bulk removal.
pub open spec fn mbp_book_clear_parts(v: codec_mbp::BookClear, spare: Seq<u8>) -> Seq<Seq<u8>> {
    seq![
        four(v.instrument_id),
        two(v.source_id),
        one(v.clear_side),
        one(v.scope),
        four(v.per_instrument_seq),
        signed_eight(v.from_price_raw),
        eight(v.ts),
        one(v.clear_reason),
        spare,
    ]
}

/// A bulk removal reads as it was written, in every field.
pub proof fn law_a_book_clear_reads_as_written(
    message: codec_mbp::Message,
    b: Seq<u8>,
    m: int,
    schema_version: u8,
    v: codec_mbp::BookClear,
    flags: u16,
    spare: Seq<u8>,
)
    requires
        stands_at(b, m, written(head(0x41, 36, flags))),
        stands_at(b, m + 4, written(mbp_book_clear_parts(v, spare))),
        spare.len() == 3,
        v.clear_side == 2 ==> v.scope == 0,
        codec_mbp::is_message(message, b[m], b, m, schema_version),
    ensures
        message == codec_mbp::Message::BookClear(v),
{
    lemma_head(b, m, 0x41, 36, flags);
    lemma_lens();
    reveal_with_fuel(place, 10);
    let parts = mbp_book_clear_parts(v, spare);
    let o = m + 4;
    lemma_part_stands(b, o, parts, 0);
    assert(parts[0] == four(v.instrument_id));
    lemma_part_stands(b, o, parts, 1);
    assert(parts[1] == two(v.source_id));
    lemma_part_stands(b, o, parts, 2);
    assert(parts[2] == one(v.clear_side));
    lemma_part_stands(b, o, parts, 3);
    assert(parts[3] == one(v.scope));
    lemma_part_stands(b, o, parts, 4);
    assert(parts[4] == four(v.per_instrument_seq));
    lemma_part_stands(b, o, parts, 5);
    assert(parts[5] == signed_eight(v.from_price_raw));
    lemma_part_stands(b, o, parts, 6);
    assert(parts[6] == eight(v.ts));
    lemma_part_stands(b, o, parts, 7);
    assert(parts[7] == one(v.clear_reason));
    lemma_part_stands(b, o, parts, 8);
    assert(parts[8] == spare);
    law_numbers_read_as_written(b, o);
    assert(stands_at(b, o + 0, four(v.instrument_id)));
    law_numbers_read_as_written(b, o + 4);
    assert(stands_at(b, o + 4, two(v.source_id)));
    law_numbers_read_as_written(b, o + 6);
    assert(stands_at(b, o + 6, one(v.clear_side)));
    law_numbers_read_as_written(b, o + 7);
    assert(stands_at(b, o + 7, one(v.scope)));
    law_numbers_read_as_written(b, o + 8);
    assert(stands_at(b, o + 8, four(v.per_instrument_seq)));
    law_numbers_read_as_written(b, o + 12);
    assert(stands_at(b, o + 12, signed_eight(v.from_price_raw)));
    law_numbers_read_as_written(b, o + 20);
    assert(stands_at(b, o + 20, eight(v.ts)));
    law_numbers_read_as_written(b, o + 28);
    assert(stands_at(b, o + 28, one(v.clear_reason)));
}

/// The body of a snapshot level.
pub open spec fn mbp_snapshot_level_parts(
    v: codec_mbp::SnapshotLevel,
    spare: Seq<u8>,
) -> Seq<Seq<u8>> {
    seq![
        four(v.snapshot_id),
        signed_eight(v.price_raw),
        eight(v.qty_raw),
        countable(v.order_count),
        one(v.side),
        one(v.level_flags),
        spare,
    ]
}

/// A snapshot level reads as it was written, in every field.
pub proof fn law_a_snapshot_level_reads_as_written(
    message: codec_mbp::Message,
    b: Seq<u8>,
    m: int,
    schema_version: u8,
    v: codec_mbp::SnapshotLevel,
    flags: u16,
    spare: Seq<u8>,
)
    requires
        stands_at(b, m, written(head(0x42, 32, flags))),
        stands_at(b, m + 4, written(mbp_snapshot_level_parts(v, spare))),
        spare.len() == 4,
        v.order_count != Some(0xffffu16),
        codec_mbp::is_message(message, b[m], b, m, schema_version),
    ensures
        message == codec_mbp::Message::SnapshotLevel(v),
{
    lemma_head(b, m, 0x42, 32, flags);
    lemma_lens();
    reveal_with_fuel(place, 8);
    let parts = mbp_snapshot_level_parts(v, spare);
    let o = m + 4;
    lemma_part_stands(b, o, parts, 0);
    assert(parts[0] == four(v.snapshot_id));
    lemma_part_stands(b, o, parts, 1);
    assert(parts[1] == signed_eight(v.price_raw));
    lemma_part_stands(b, o, parts, 2);
    assert(parts[2] == eight(v.qty_raw));
    lemma_part_stands(b, o, parts, 3);
    assert(parts[3] == countable(v.order_count));
    lemma_part_stands(b, o, parts, 4);
    assert(parts[4] == one(v.side));
    lemma_part_stands(b, o, parts, 5);
    assert(parts[5] == one(v.level_flags));
    lemma_part_stands(b, o, parts, 6);
    assert(parts[6] == spare);
    law_numbers_read_as_written(b, o);
    assert(stands_at(b, o + 0, four(v.snapshot_id)));
    law_numbers_read_as_written(b, o + 4);
    assert(stands_at(b, o + 4, signed_eight(v.price_raw)));
    law_numbers_read_as_written(b, o + 12);
    assert(stands_at(b, o + 12, eight(v.qty_raw)));
    law_numbers_read_as_written(b, o + 20);
    assert(stands_at(b, o + 20, countable(v.order_count)));
    law_numbers_read_as_written(b, o + 22);
    assert(stands_at(b, o + 22, one(v.side)));
    law_numbers_read_as_written(b, o + 23);
    assert(stands_at(b, o + 23, one(v.level_flags)));
}

/// The body of a Market-by-Price snapshot start.
pub open spec fn mbp_snapshot_begin_parts(v: codec_mbp::SnapshotBegin) -> Seq<Seq<u8>> {
    seq![
        four(v.instrument_id),
        eight(v.anchor_seq),
        four(v.total_levels),
        four(v.snapshot_id),
        four(v.last_instrument_seq),
        eight(v.ts),
        four(v.depth_bound),
    ]
}

/// A Market-by-Price snapshot start reads as it was written, in every field.
pub proof fn law_a_price_level_snapshot_begin_reads_as_written(
    message: codec_mbp::Message,
    b: Seq<u8>,
    m: int,
    schema_version: u8,
    v: codec_mbp::SnapshotBegin,
    flags: u16,
)
    requires
        stands_at(b, m, written(head(0x20, 40, flags))),
        stands_at(b, m + 4, written(mbp_snapshot_begin_parts(v))),
        codec_mbp::is_message(message, b[m], b, m, schema_version),
    ensures
        message == codec_mbp::Message::SnapshotBegin(v),
{
    lemma_head(b, m, 0x20, 40, flags);
    lemma_lens();
    reveal_with_fuel(place, 8);
    let parts = mbp_snapshot_begin_parts(v);
    let o = m + 4;
    lemma_part_stands(b, o, parts, 0);
    assert(parts[0] == four(v.instrument_id));
    lemma_part_stands(b, o, parts, 1);
    assert(parts[1] == eight(v.anchor_seq));
    lemma_part_stands(b, o, parts, 2);
    assert(parts[2] == four(v.total_levels));
    lemma_part_stands(b, o, parts, 3);
    assert(parts[3] == four(v.snapshot_id));
    lemma_part_stands(b, o, parts, 4);
    assert(parts[4] == four(v.last_instrument_seq));
    lemma_part_stands(b, o, parts, 5);
    assert(parts[5] == eight(v.ts));
    lemma_part_stands(b, o, parts, 6);
    assert(parts[6] == four(v.depth_bound));
    law_numbers_read_as_written(b, o);
    assert(stands_at(b, o + 0, four(v.instrument_id)));
    law_numbers_read_as_written(b, o + 4);
    assert(stands_at(b, o + 4, eight(v.anchor_seq)));
    law_numbers_read_as_written(b, o + 12);
    assert(stands_at(b, o + 12, four(v.total_levels)));
    law_numbers_read_as_written(b, o + 16);
    assert(stands_at(b, o + 16, four(v.snapshot_id)));
    law_numbers_read_as_written(b, o + 20);
    assert(stands_at(b, o + 20, four(v.last_instrument_seq)));
    law_numbers_read_as_written(b, o + 24);
    assert(stands_at(b, o + 24, eight(v.ts)));
    law_numbers_read_as_written(b, o + 32);
    assert(stands_at(b, o + 32, four(v.depth_bound)));
}

/// The body of a Market-by-Price snapshot end.
pub open spec fn mbp_snapshot_end_parts(v: codec_mbp::SnapshotEnd) -> Seq<Seq<u8>> {
    seq![
        four(v.instrument_id),
        eight(v.anchor_seq),
        four(v.snapshot_id),
    ]
}

/// A Market-by-Price snapshot end reads as it was written, in every field.
pub proof fn law_a_price_level_snapshot_end_reads_as_written(
    message: codec_mbp::Message,
    b: Seq<u8>,
    m: int,
    schema_version: u8,
    v: codec_mbp::SnapshotEnd,
    flags: u16,
)
    requires
        stands_at(b, m, written(head(0x22, 20, flags))),
        stands_at(b, m + 4, written(mbp_snapshot_end_parts(v))),
        codec_mbp::is_message(message, b[m], b, m, schema_version),
    ensures
        message == codec_mbp::Message::SnapshotEnd(v),
{
    lemma_head(b, m, 0x22, 20, flags);
    lemma_lens();
    reveal_with_fuel(place, 4);
    let parts = mbp_snapshot_end_parts(v);
    let o = m + 4;
    lemma_part_stands(b, o, parts, 0);
    assert(parts[0] == four(v.instrument_id));
    lemma_part_stands(b, o, parts, 1);
    assert(parts[1] == eight(v.anchor_seq));
    lemma_part_stands(b, o, parts, 2);
    assert(parts[2] == four(v.snapshot_id));
    law_numbers_read_as_written(b, o);
    assert(stands_at(b, o + 0, four(v.instrument_id)));
    law_numbers_read_as_written(b, o + 4);
    assert(stands_at(b, o + 4, eight(v.anchor_seq)));
    law_numbers_read_as_written(b, o + 12);
    assert(stands_at(b, o + 12, four(v.snapshot_id)));
}

/// The body of a Market-by-Price batch boundary.
pub open spec fn mbp_batch_boundary_parts(v: codec_mbp::BatchBoundary) -> Seq<Seq<u8>> {
    seq![
        four(v.batch_id),
        eight(v.batch_time),
    ]
}

/// A Market-by-Price batch boundary reads as it was written, in every field.
pub proof fn law_a_price_level_batch_boundary_reads_as_written(
    message: codec_mbp::Message,
    b: Seq<u8>,
    m: int,
    schema_version: u8,
    v: codec_mbp::BatchBoundary,
    flags: u16,
)
    requires
        stands_at(b, m, written(head(0x13, 16, flags))),
        stands_at(b, m + 4, written(mbp_batch_boundary_parts(v))),
        codec_mbp::is_message(message, b[m], b, m, schema_version),
    ensures
        message == codec_mbp::Message::BatchBoundary(v),
{
    lemma_head(b, m, 0x13, 16, flags);
    lemma_lens();
    reveal_with_fuel(place, 3);
    let parts = mbp_batch_boundary_parts(v);
    let o = m + 4;
    lemma_part_stands(b, o, parts, 0);
    assert(parts[0] == four(v.batch_id));
    lemma_part_stands(b, o, parts, 1);
    assert(parts[1] == eight(v.batch_time));
    law_numbers_read_as_written(b, o);
    assert(stands_at(b, o + 0, four(v.batch_id)));
    law_numbers_read_as_written(b, o + 4);
    assert(stands_at(b, o + 4, eight(v.batch_time)));
}

/// The body of a Market-by-Price instrument reset.
pub open spec fn mbp_instrument_reset_parts(
    v: codec_mbp::InstrumentReset,
    spare: Seq<u8>,
) -> Seq<Seq<u8>> {
    seq![
        four(v.instrument_id),
        one(v.reason),
        spare,
        eight(v.new_anchor_seq),
        eight(v.ts),
    ]
}

/// A Market-by-Price instrument reset reads as it was written, in every field.
pub proof fn law_a_price_level_reset_reads_as_written(
    message: codec_mbp::Message,
    b: Seq<u8>,
    m: int,
    schema_version: u8,
    v: codec_mbp::InstrumentReset,
    flags: u16,
    spare: Seq<u8>,
)
    requires
        stands_at(b, m, written(head(0x14, 28, flags))),
        stands_at(b, m + 4, written(mbp_instrument_reset_parts(v, spare))),
        spare.len() == 3,
        codec_mbp::is_message(message, b[m], b, m, schema_version),
    ensures
        message == codec_mbp::Message::InstrumentReset(v),
{
    lemma_head(b, m, 0x14, 28, flags);
    lemma_lens();
    reveal_with_fuel(place, 6);
    let parts = mbp_instrument_reset_parts(v, spare);
    let o = m + 4;
    lemma_part_stands(b, o, parts, 0);
    assert(parts[0] == four(v.instrument_id));
    lemma_part_stands(b, o, parts, 1);
    assert(parts[1] == one(v.reason));
    lemma_part_stands(b, o, parts, 2);
    assert(parts[2] == spare);
    lemma_part_stands(b, o, parts, 3);
    assert(parts[3] == eight(v.new_anchor_seq));
    lemma_part_stands(b, o, parts, 4);
    assert(parts[4] == eight(v.ts));
    law_numbers_read_as_written(b, o);
    assert(stands_at(b, o + 0, four(v.instrument_id)));
    law_numbers_read_as_written(b, o + 4);
    assert(stands_at(b, o + 4, one(v.reason)));
    law_numbers_read_as_written(b, o + 8);
    assert(stands_at(b, o + 8, eight(v.new_anchor_seq)));
    law_numbers_read_as_written(b, o + 16);
    assert(stands_at(b, o + 16, eight(v.ts)));
}

/// The body of a Market-by-Price trade.
pub open spec fn mbp_trade_parts(v: codec_mbp::Trade) -> Seq<Seq<u8>> {
    seq![
        four(v.instrument_id),
        two(v.source_id),
        one(v.aggressor_side),
        one(v.trade_flags),
        eight(v.source_ts),
        signed_eight(v.trade_price_raw),
        eight(v.trade_qty_raw),
        eight(v.trade_id),
        eight(v.cumulative_volume_raw),
    ]
}

/// A Market-by-Price trade reads as it was written, in every field.
pub proof fn law_a_price_level_trade_reads_as_written(
    message: codec_mbp::Message,
    b: Seq<u8>,
    m: int,
    schema_version: u8,
    v: codec_mbp::Trade,
    flags: u16,
)
    requires
        stands_at(b, m, written(head(0x04, 52, flags))),
        stands_at(b, m + 4, written(mbp_trade_parts(v))),
        codec_mbp::is_message(message, b[m], b, m, schema_version),
    ensures
        message == codec_mbp::Message::Trade(v),
{
    lemma_head(b, m, 0x04, 52, flags);
    lemma_lens();
    reveal_with_fuel(place, 10);
    let parts = mbp_trade_parts(v);
    let o = m + 4;
    lemma_part_stands(b, o, parts, 0);
    assert(parts[0] == four(v.instrument_id));
    lemma_part_stands(b, o, parts, 1);
    assert(parts[1] == two(v.source_id));
    lemma_part_stands(b, o, parts, 2);
    assert(parts[2] == one(v.aggressor_side));
    lemma_part_stands(b, o, parts, 3);
    assert(parts[3] == one(v.trade_flags));
    lemma_part_stands(b, o, parts, 4);
    assert(parts[4] == eight(v.source_ts));
    lemma_part_stands(b, o, parts, 5);
    assert(parts[5] == signed_eight(v.trade_price_raw));
    lemma_part_stands(b, o, parts, 6);
    assert(parts[6] == eight(v.trade_qty_raw));
    lemma_part_stands(b, o, parts, 7);
    assert(parts[7] == eight(v.trade_id));
    lemma_part_stands(b, o, parts, 8);
    assert(parts[8] == eight(v.cumulative_volume_raw));
    law_numbers_read_as_written(b, o);
    assert(stands_at(b, o + 0, four(v.instrument_id)));
    law_numbers_read_as_written(b, o + 4);
    assert(stands_at(b, o + 4, two(v.source_id)));
    law_numbers_read_as_written(b, o + 6);
    assert(stands_at(b, o + 6, one(v.aggressor_side)));
    law_numbers_read_as_written(b, o + 7);
    assert(stands_at(b, o + 7, one(v.trade_flags)));
    law_numbers_read_as_written(b, o + 8);
    assert(stands_at(b, o + 8, eight(v.source_ts)));
    law_numbers_read_as_written(b, o + 16);
    assert(stands_at(b, o + 16, signed_eight(v.trade_price_raw)));
    law_numbers_read_as_written(b, o + 24);
    assert(stands_at(b, o + 24, eight(v.trade_qty_raw)));
    law_numbers_read_as_written(b, o + 32);
    assert(stands_at(b, o + 32, eight(v.trade_id)));
    law_numbers_read_as_written(b, o + 40);
    assert(stands_at(b, o + 40, eight(v.cumulative_volume_raw)));
}

/// The body of a Market-by-Price manifest summary.
pub open spec fn mbp_manifest_summary_parts(
    v: codec_mbp::ManifestSummary,
    spare0: Seq<u8>,
    spare1: Seq<u8>,
) -> Seq<Seq<u8>> {
    seq![
        one(v.channel_id),
        yes_no(v.valid),
        spare0,
        two(v.manifest_seq),
        spare1,
        four(v.instrument_count),
        eight(v.ts),
    ]
}

/// A Market-by-Price manifest summary reads as it was written, in every field.
pub proof fn law_a_price_level_summary_reads_as_written(
    message: codec_mbp::Message,
    b: Seq<u8>,
    m: int,
    schema_version: u8,
    v: codec_mbp::ManifestSummary,
    flags: u16,
    spare0: Seq<u8>,
    spare1: Seq<u8>,
)
    requires
        stands_at(b, m, written(head(0x07, 24, flags))),
        stands_at(b, m + 4, written(mbp_manifest_summary_parts(v, spare0, spare1))),
        spare0.len() == 2,
        spare1.len() == 2,
        codec_mbp::is_message(message, b[m], b, m, schema_version),
    ensures
        message == codec_mbp::Message::ManifestSummary(v),
{
    lemma_head(b, m, 0x07, 24, flags);
    lemma_lens();
    reveal_with_fuel(place, 8);
    let parts = mbp_manifest_summary_parts(v, spare0, spare1);
    let o = m + 4;
    lemma_part_stands(b, o, parts, 0);
    assert(parts[0] == one(v.channel_id));
    lemma_part_stands(b, o, parts, 1);
    assert(parts[1] == yes_no(v.valid));
    lemma_part_stands(b, o, parts, 2);
    assert(parts[2] == spare0);
    lemma_part_stands(b, o, parts, 3);
    assert(parts[3] == two(v.manifest_seq));
    lemma_part_stands(b, o, parts, 4);
    assert(parts[4] == spare1);
    lemma_part_stands(b, o, parts, 5);
    assert(parts[5] == four(v.instrument_count));
    lemma_part_stands(b, o, parts, 6);
    assert(parts[6] == eight(v.ts));
    law_numbers_read_as_written(b, o);
    assert(stands_at(b, o + 0, one(v.channel_id)));
    law_numbers_read_as_written(b, o + 1);
    assert(stands_at(b, o + 1, yes_no(v.valid)));
    law_numbers_read_as_written(b, o + 4);
    assert(stands_at(b, o + 4, two(v.manifest_seq)));
    law_numbers_read_as_written(b, o + 8);
    assert(stands_at(b, o + 8, four(v.instrument_count)));
    law_numbers_read_as_written(b, o + 12);
    assert(stands_at(b, o + 12, eight(v.ts)));
}

/// The body of a Market-by-Price end of session.
pub open spec fn mbp_end_of_session_parts(ts: u64) -> Seq<Seq<u8>> {
    seq![
        eight(ts),
    ]
}

/// A Market-by-Price end of session reads as it was written, in every field.
pub proof fn law_a_price_level_session_end_reads_as_written(
    message: codec_mbp::Message,
    b: Seq<u8>,
    m: int,
    schema_version: u8,
    ts: u64,
    flags: u16,
)
    requires
        stands_at(b, m, written(head(0x06, 12, flags))),
        stands_at(b, m + 4, written(mbp_end_of_session_parts(ts))),
        codec_mbp::is_message(message, b[m], b, m, schema_version),
    ensures
        message == codec_mbp::Message::EndOfSession(ts),
{
    lemma_head(b, m, 0x06, 12, flags);
    lemma_lens();
    reveal_with_fuel(place, 2);
    let parts = mbp_end_of_session_parts(ts);
    let o = m + 4;
    lemma_part_stands(b, o, parts, 0);
    assert(parts[0] == eight(ts));
    law_numbers_read_as_written(b, o);
    assert(stands_at(b, o + 0, eight(ts)));
}

/// The body of a Market-by-Price heartbeat.
pub open spec fn mbp_heartbeat_parts(ts: u64, spare: Seq<u8>) -> Seq<Seq<u8>> {
    seq![
        spare,
        eight(ts),
    ]
}

/// A Market-by-Price heartbeat reads as it was written, in every field.
pub proof fn law_a_heartbeat_reads_as_written(
    message: codec_mbp::Message,
    b: Seq<u8>,
    m: int,
    schema_version: u8,
    ts: u64,
    flags: u16,
    spare: Seq<u8>,
)
    requires
        stands_at(b, m, written(head(0x01, 16, flags))),
        stands_at(b, m + 4, written(mbp_heartbeat_parts(ts, spare))),
        spare.len() == 4,
        codec_mbp::is_message(message, b[m], b, m, schema_version),
    ensures
        message == codec_mbp::Message::Heartbeat(ts),
{
    lemma_head(b, m, 0x01, 16, flags);
    lemma_lens();
    reveal_with_fuel(place, 3);
    let parts = mbp_heartbeat_parts(ts, spare);
    let o = m + 4;
    lemma_part_stands(b, o, parts, 0);
    assert(parts[0] == spare);
    lemma_part_stands(b, o, parts, 1);
    assert(parts[1] == eight(ts));
    law_numbers_read_as_written(b, o + 4);
    assert(stands_at(b, o + 4, eight(ts)));
}

/// The body of a Top-of-Book definition of the first generation, its symbol given as the bytes `name`.
pub open spec fn tob_first_definition_parts(
    d: codec_common::DefinitionView,
    name: Seq<u8>,
    spare0: Seq<u8>,
    spare1: Seq<u8>,
) -> Seq<Seq<u8>> {
    seq![
        four(d.instrument_id),
        padded(name, 16),
        spare0,
        signed_one(d.price_exponent),
        signed_one(d.qty_exponent),
        spare1,
        two(d.manifest_seq),
    ]
}

/// A Top-of-Book definition of the first generation reads as it was written: every field, and its
/// symbol up to the padding.
pub proof fn law_a_first_definition_reads_as_written(
    message: codec::Message,
    b: Seq<u8>,
    m: int,
    d: codec_common::DefinitionView,
    name: Seq<u8>,
    len: u8,
    flags: u16,
    spare0: Seq<u8>,
    spare1: Seq<u8>,
)
    requires
        stands_at(b, m, written(head(0x02, len, flags))),
        stands_at(b, m + 4, written(tob_first_definition_parts(d, name, spare0, spare1))),
        spare0.len() == 17,
        spare1.len() == 35,
        name.len() <= 16,
        forall|i: int| 0 <= i < name.len() ==> name[i] != 0,
        d.source_id is None,
        vstd::utf8::valid_utf8(name),
        d.symbol == vstd::utf8::decode_utf8(name),
        codec::is_message(message, b[m], b, m, 1),
    ensures
        message is InstrumentDefinition,
        (message->InstrumentDefinition_0)@ == d,
{
    lemma_head(b, m, 0x02, len, flags);
    lemma_lens();
    reveal_with_fuel(place, 8);
    let parts = tob_first_definition_parts(d, name, spare0, spare1);
    let o = m + 4;
    lemma_part_stands(b, o, parts, 0);
    assert(parts[0] == four(d.instrument_id));
    lemma_part_stands(b, o, parts, 1);
    assert(parts[1] == padded(name, 16));
    lemma_part_stands(b, o, parts, 2);
    assert(parts[2] == spare0);
    lemma_part_stands(b, o, parts, 3);
    assert(parts[3] == signed_one(d.price_exponent));
    lemma_part_stands(b, o, parts, 4);
    assert(parts[4] == signed_one(d.qty_exponent));
    lemma_part_stands(b, o, parts, 5);
    assert(parts[5] == spare1);
    lemma_part_stands(b, o, parts, 6);
    assert(parts[6] == two(d.manifest_seq));
    law_numbers_read_as_written(b, o + 0);
    assert(stands_at(b, o + 0, four(d.instrument_id)));
    assert(stands_at(b, o + 4, padded(name, 16)));
    lemma_text(b, o + 4, name, 16);
    law_numbers_read_as_written(b, o + 37);
    assert(stands_at(b, o + 37, signed_one(d.price_exponent)));
    law_numbers_read_as_written(b, o + 38);
    assert(stands_at(b, o + 38, signed_one(d.qty_exponent)));
    law_numbers_read_as_written(b, o + 74);
    assert(stands_at(b, o + 74, two(d.manifest_seq)));
}

/// The body of a Top-of-Book definition of the second generation, its symbol given as the bytes `name`.
pub open spec fn tob_second_definition_parts(
    d: codec_common::DefinitionView,
    name: Seq<u8>,
    spare0: Seq<u8>,
    spare1: Seq<u8>,
) -> Seq<Seq<u8>> {
    seq![
        four(d.instrument_id),
        padded(name, 64),
        spare0,
        signed_one(d.price_exponent),
        signed_one(d.qty_exponent),
        spare1,
        two(d.manifest_seq),
    ]
}

/// A Top-of-Book definition of the second generation reads as it was written: every field, and its
/// symbol up to the padding.
pub proof fn law_a_second_definition_reads_as_written(
    message: codec::Message,
    b: Seq<u8>,
    m: int,
    d: codec_common::DefinitionView,
    name: Seq<u8>,
    len: u8,
    flags: u16,
    spare0: Seq<u8>,
    spare1: Seq<u8>,
)
    requires
        stands_at(b, m, written(head(0x02, len, flags))),
        stands_at(b, m + 4, written(tob_second_definition_parts(d, name, spare0, spare1))),
        spare0.len() == 17,
        spare1.len() == 35,
        name.len() <= 64,
        forall|i: int| 0 <= i < name.len() ==> name[i] != 0,
        d.source_id is None,
        vstd::utf8::valid_utf8(name),
        d.symbol == vstd::utf8::decode_utf8(name),
        codec::is_message(message, b[m], b, m, 2),
    ensures
        message is InstrumentDefinition,
        (message->InstrumentDefinition_0)@ == d,
{
    lemma_head(b, m, 0x02, len, flags);
    lemma_lens();
    reveal_with_fuel(place, 8);
    let parts = tob_second_definition_parts(d, name, spare0, spare1);
    let o = m + 4;
    lemma_part_stands(b, o, parts, 0);
    assert(parts[0] == four(d.instrument_id));
    lemma_part_stands(b, o, parts, 1);
    assert(parts[1] == padded(name, 64));
    lemma_part_stands(b, o, parts, 2);
    assert(parts[2] == spare0);
    lemma_part_stands(b, o, parts, 3);
    assert(parts[3] == signed_one(d.price_exponent));
    lemma_part_stands(b, o, parts, 4);
    assert(parts[4] == signed_one(d.qty_exponent));
    lemma_part_stands(b, o, parts, 5);
    assert(parts[5] == spare1);
    lemma_part_stands(b, o, parts, 6);
    assert(parts[6] == two(d.manifest_seq));
    law_numbers_read_as_written(b, o + 0);
    assert(stands_at(b, o + 0, four(d.instrument_id)));
    assert(stands_at(b, o + 4, padded(name, 64)));
    lemma_text(b, o + 4, name, 64);
    law_numbers_read_as_written(b, o + 85);
    assert(stands_at(b, o + 85, signed_one(d.price_exponent)));
    law_numbers_read_as_written(b, o + 86);
    assert(stands_at(b, o + 86, signed_one(d.qty_exponent)));
    law_numbers_read_as_written(b, o + 122);
    assert(stands_at(b, o + 122, two(d.manifest_seq)));
}

/// The body of a Market-by-Order definition, its symbol given as the bytes `name`.
pub open spec fn mbo_definition_parts(
    d: codec_common::DefinitionView,
    name: Seq<u8>,
    spare0: Seq<u8>,
    spare1: Seq<u8>,
) -> Seq<Seq<u8>> {
    seq![
        four(d.instrument_id),
        padded(name, 16),
        spare0,
        signed_one(d.price_exponent),
        signed_one(d.qty_exponent),
        spare1,
        two(d.manifest_seq),
    ]
}

/// A Market-by-Order definition reads as it was written: every field, and its symbol up to the padding.
pub proof fn law_an_order_level_definition_reads_as_written(
    message: codec_mbo::Message,
    b: Seq<u8>,
    m: int,
    d: codec_common::DefinitionView,
    name: Seq<u8>,
    len: u8,
    flags: u16,
    spare0: Seq<u8>,
    spare1: Seq<u8>,
)
    requires
        stands_at(b, m, written(head(0x02, len, flags))),
        stands_at(b, m + 4, written(mbo_definition_parts(d, name, spare0, spare1))),
        spare0.len() == 17,
        spare1.len() == 35,
        name.len() <= 16,
        forall|i: int| 0 <= i < name.len() ==> name[i] != 0,
        d.source_id is None,
        vstd::utf8::valid_utf8(name),
        d.symbol == vstd::utf8::decode_utf8(name),
        codec_mbo::is_message(message, b[m], b, m),
    ensures
        message is InstrumentDefinition,
        (message->InstrumentDefinition_0)@ == d,
{
    lemma_head(b, m, 0x02, len, flags);
    lemma_lens();
    reveal_with_fuel(place, 8);
    let parts = mbo_definition_parts(d, name, spare0, spare1);
    let o = m + 4;
    lemma_part_stands(b, o, parts, 0);
    assert(parts[0] == four(d.instrument_id));
    lemma_part_stands(b, o, parts, 1);
    assert(parts[1] == padded(name, 16));
    lemma_part_stands(b, o, parts, 2);
    assert(parts[2] == spare0);
    lemma_part_stands(b, o, parts, 3);
    assert(parts[3] == signed_one(d.price_exponent));
    lemma_part_stands(b, o, parts, 4);
    assert(parts[4] == signed_one(d.qty_exponent));
    lemma_part_stands(b, o, parts, 5);
    assert(parts[5] == spare1);
    lemma_part_stands(b, o, parts, 6);
    assert(parts[6] == two(d.manifest_seq));
    law_numbers_read_as_written(b, o + 0);
    assert(stands_at(b, o + 0, four(d.instrument_id)));
    assert(stands_at(b, o + 4, padded(name, 16)));
    lemma_text(b, o + 4, name, 16);
    law_numbers_read_as_written(b, o + 37);
    assert(stands_at(b, o + 37, signed_one(d.price_exponent)));
    law_numbers_read_as_written(b, o + 38);
    assert(stands_at(b, o + 38, signed_one(d.qty_exponent)));
    law_numbers_read_as_written(b, o + 74);
    assert(stands_at(b, o + 74, two(d.manifest_seq)));
}

/// The body of a Market-by-Price definition of the first generation, its symbol given as the bytes
/// `name`.
pub open spec fn mbp_first_definition_parts(
    d: codec_common::DefinitionView,
    name: Seq<u8>,
    spare0: Seq<u8>,
    spare1: Seq<u8>,
) -> Seq<Seq<u8>> {
    seq![
        four(d.instrument_id),
        padded(name, 16),
        spare0,
        signed_one(d.price_exponent),
        signed_one(d.qty_exponent),
        spare1,
        two(d.manifest_seq),
    ]
}

/// A Market-by-Price definition of the first generation reads as it was written: every field, and
/// its symbol up to the padding.
pub proof fn law_a_price_level_definition_reads_as_written(
    message: codec_mbp::Message,
    b: Seq<u8>,
    m: int,
    d: codec_common::DefinitionView,
    name: Seq<u8>,
    len: u8,
    flags: u16,
    spare0: Seq<u8>,
    spare1: Seq<u8>,
)
    requires
        stands_at(b, m, written(head(0x02, len, flags))),
        stands_at(b, m + 4, written(mbp_first_definition_parts(d, name, spare0, spare1))),
        spare0.len() == 17,
        spare1.len() == 35,
        name.len() <= 16,
        forall|i: int| 0 <= i < name.len() ==> name[i] != 0,
        d.source_id is None,
        vstd::utf8::valid_utf8(name),
        d.symbol == vstd::utf8::decode_utf8(name),
        len >= 80,
        codec_mbp::is_message(message, b[m], b, m, 1),
    ensures
        message is InstrumentDefinition,
        (message->InstrumentDefinition_0)@ == d,
{
    lemma_head(b, m, 0x02, len, flags);
    lemma_lens();
    reveal_with_fuel(place, 8);
    let parts = mbp_first_definition_parts(d, name, spare0, spare1);
    let o = m + 4;
    lemma_part_stands(b, o, parts, 0);
    assert(parts[0] == four(d.instrument_id));
    lemma_part_stands(b, o, parts, 1);
    assert(parts[1] == padded(name, 16));
    lemma_part_stands(b, o, parts, 2);
    assert(parts[2] == spare0);
    lemma_part_stands(b, o, parts, 3);
    assert(parts[3] == signed_one(d.price_exponent));
    lemma_part_stands(b, o, parts, 4);
    assert(parts[4] == signed_one(d.qty_exponent));
    lemma_part_stands(b, o, parts, 5);
    assert(parts[5] == spare1);
    lemma_part_stands(b, o, parts, 6);
    assert(parts[6] == two(d.manifest_seq));
    law_numbers_read_as_written(b, o + 0);
    assert(stands_at(b, o + 0, four(d.instrument_id)));
    assert(stands_at(b, o + 4, padded(name, 16)));
    lemma_text(b, o + 4, name, 16);
    law_numbers_read_as_written(b, o + 37);
    assert(stands_at(b, o + 37, signed_one(d.price_exponent)));
    law_numbers_read_as_written(b, o + 38);
    assert(stands_at(b, o + 38, signed_one(d.qty_exponent)));
    law_numbers_read_as_written(b, o + 74);
    assert(stands_at(b, o + 74, two(d.manifest_seq)));
}

/// The body of a Market-by-Price definition of the third generation, its symbol given as the bytes
/// `name`.
pub open spec fn mbp_third_definition_parts(
    d: codec_common::DefinitionView,
    name: Seq<u8>,
    spare0: Seq<u8>,
    spare1: Seq<u8>,
) -> Seq<Seq<u8>> {
    seq![
        four(d.instrument_id),
        two(d.source_id->0),
        padded(name, 64),
        spare0,
        signed_one(d.price_exponent),
        signed_one(d.qty_exponent),
        spare1,
        two(d.manifest_seq),
    ]
}

/// A Market-by-Price definition of the third generation reads as it was written: every field, and
/// its symbol up to the padding.
pub proof fn law_a_third_definition_reads_as_written(
    message: codec_mbp::Message,
    b: Seq<u8>,
    m: int,
    d: codec_common::DefinitionView,
    name: Seq<u8>,
    len: u8,
    flags: u16,
    spare0: Seq<u8>,
    spare1: Seq<u8>,
)
    requires
        stands_at(b, m, written(head(0x02, len, flags))),
        stands_at(b, m + 4, written(mbp_third_definition_parts(d, name, spare0, spare1))),
        spare0.len() == 17,
        spare1.len() == 35,
        name.len() <= 64,
        forall|i: int| 0 <= i < name.len() ==> name[i] != 0,
        d.source_id is Some,
        vstd::utf8::valid_utf8(name),
        d.symbol == vstd::utf8::decode_utf8(name),
        len >= 130,
        codec_mbp::is_message(message, b[m], b, m, 3),
    ensures
        message is InstrumentDefinition,
        (message->InstrumentDefinition_0)@ == d,
{
    lemma_head(b, m, 0x02, len, flags);
    lemma_lens();
    reveal_with_fuel(place, 9);
    let parts = mbp_third_definition_parts(d, name, spare0, spare1);
    let o = m + 4;
    lemma_part_stands(b, o, parts, 0);
    assert(parts[0] == four(d.instrument_id));
    lemma_part_stands(b, o, parts, 1);
    assert(parts[1] == two(d.source_id->0));
    lemma_part_stands(b, o, parts, 2);
    assert(parts[2] == padded(name, 64));
    lemma_part_stands(b, o, parts, 3);
    assert(parts[3] == spare0);
    lemma_part_stands(b, o, parts, 4);
    assert(parts[4] == signed_one(d.price_exponent));
    lemma_part_stands(b, o, parts, 5);
    assert(parts[5] == signed_one(d.qty_exponent));
    lemma_part_stands(b, o, parts, 6);
    assert(parts[6] == spare1);
    lemma_part_stands(b, o, parts, 7);
    assert(parts[7] == two(d.manifest_seq));
    law_numbers_read_as_written(b, o + 0);
    assert(stands_at(b, o + 0, four(d.instrument_id)));
    law_numbers_read_as_written(b, o + 4);
    assert(stands_at(b, o + 4, two(d.source_id->0)));
    assert(stands_at(b, o + 6, padded(name, 64)));
    lemma_text(b, o + 6, name, 64);
    law_numbers_read_as_written(b, o + 87);
    assert(stands_at(b, o + 87, signed_one(d.price_exponent)));
    law_numbers_read_as_written(b, o + 88);
    assert(stands_at(b, o + 88, signed_one(d.qty_exponent)));
    law_numbers_read_as_written(b, o + 124);
    assert(stands_at(b, o + 124, two(d.manifest_seq)));
}

/// The frame header: the protocol's magic, then the header's fields.
pub open spec fn frame_head(magic: u16, h: FrameHeader) -> Seq<Seq<u8>> {
    seq![
        two(magic),
        one(h.schema_version),
        one(h.channel_id),
        eight(h.sequence),
        eight(h.send_ts),
        one(h.msg_count),
        one(h.reset_count),
        two(h.frame_length),
    ]
}

/// A frame header reads as it was written, in every field, and the datagram is not refused for it.
pub proof fn law_a_frame_header_reads_as_written(
    b: Seq<u8>,
    magic: u16,
    supported: Seq<u8>,
    h: FrameHeader,
)
    requires
        stands_at(b, 0, written(frame_head(magic, h))),
        supported.contains(h.schema_version),
    ensures
        b.len() >= 24,
        header_of(b) == h,
        refusal(b, magic, supported) is None,
{
    lemma_lens();
    reveal_with_fuel(place, 9);
    let parts = frame_head(magic, h);
    lemma_part_stands(b, 0, parts, 0);
    assert(parts[0] == two(magic));
    lemma_part_stands(b, 0, parts, 1);
    assert(parts[1] == one(h.schema_version));
    lemma_part_stands(b, 0, parts, 2);
    assert(parts[2] == one(h.channel_id));
    lemma_part_stands(b, 0, parts, 3);
    assert(parts[3] == eight(h.sequence));
    lemma_part_stands(b, 0, parts, 4);
    assert(parts[4] == eight(h.send_ts));
    lemma_part_stands(b, 0, parts, 5);
    assert(parts[5] == one(h.msg_count));
    lemma_part_stands(b, 0, parts, 6);
    assert(parts[6] == one(h.reset_count));
    lemma_part_stands(b, 0, parts, 7);
    assert(parts[7] == two(h.frame_length));
    law_numbers_read_as_written(b, 0);
    assert(stands_at(b, 0, two(magic)));
    law_numbers_read_as_written(b, 2);
    assert(stands_at(b, 2, one(h.schema_version)));
    law_numbers_read_as_written(b, 3);
    assert(stands_at(b, 3, one(h.channel_id)));
    law_numbers_read_as_written(b, 4);
    assert(stands_at(b, 4, eight(h.sequence)));
    law_numbers_read_as_written(b, 12);
    assert(stands_at(b, 12, eight(h.send_ts)));
    law_numbers_read_as_written(b, 20);
    assert(stands_at(b, 20, one(h.msg_count)));
    law_numbers_read_as_written(b, 21);
    assert(stands_at(b, 21, one(h.reset_count)));
    law_numbers_read_as_written(b, 22);
    assert(stands_at(b, 22, two(h.frame_length)));
}

/// A message as it is on the wire: no shorter than its header, and as long as it says.
pub open spec fn is_whole(msg: Seq<u8>) -> bool {
    4 <= msg.len() <= 255 && msg[1] == msg.len()
}

proof fn lemma_walk_reads(b: Seq<u8>, end: int, off: int, msgs: Seq<Seq<u8>>)
    requires
        0 <= off,
        stands_at(b, off, written(msgs)),
        end == off + written(msgs).len(),
        forall|i: int| 0 <= i < msgs.len() ==> is_whole(#[trigger] msgs[i]),
    ensures
        walk(b, end, off, msgs.len()).len() == msgs.len(),
        forall|i: int|
            0 <= i < msgs.len() ==> stands_at(
                b,
                #[trigger] walk(b, end, off, msgs.len())[i],
                msgs[i],
            ) && walk(b, end, off, msgs.len())[i] == off + place(msgs, i),
    decreases msgs.len(),
{
    if msgs.len() > 0 {
        let first = msgs[0];
        let rest = msgs.drop_first();
        lemma_part_stands(b, off, msgs, 0);
        assert(place(msgs, 0) == 0);
        assert(b[off + 1] == b.subrange(off, off + first.len())[1]);
        lemma_written_first(msgs);
        let next = off + first.len();
        let s = written(msgs);
        assert(b.subrange(next, next + written(rest).len()) =~= b.subrange(
            off,
            off + s.len(),
        ).subrange(first.len() as int, s.len() as int));
        assert(s.subrange(first.len() as int, s.len() as int) =~= written(rest));
        assert forall|i: int| 0 <= i < rest.len() implies is_whole(#[trigger] rest[i]) by {
            assert(rest[i] == msgs[i + 1]);
        }
        lemma_walk_reads(b, end, next, rest);
        let at = walk(b, end, off, msgs.len());
        let after = walk(b, end, next, rest.len());
        assert(at == seq![off] + after);
        assert forall|i: int| 0 <= i < msgs.len() implies stands_at(b, #[trigger] at[i], msgs[i])
            && at[i] == off + place(msgs, i) by {
            if i > 0 {
                lemma_place_first(msgs, i - 1);
                assert(at[i] == after[i - 1]);
                assert(msgs[i] == rest[i - 1]);
            }
        }
    }
}

proof fn lemma_place_first(parts: Seq<Seq<u8>>, i: int)
    requires
        0 <= i < parts.len(),
    ensures
        place(parts, i + 1) == parts[0].len() + place(parts.drop_first(), i),
    decreases i,
{
    if i > 0 {
        lemma_place_first(parts, i - 1);
        assert(parts.drop_first()[i - 1] == parts[i]);
    } else {
        reveal_with_fuel(place, 2);
    }
}

proof fn lemma_written_first(parts: Seq<Seq<u8>>)
    requires
        parts.len() > 0,
    ensures
        written(parts) == parts[0] + written(parts.drop_first()),
    decreases parts.len(),
{
    let rest = parts.drop_first();
    if parts.len() == 1 {
        reveal_with_fuel(written, 2);
        assert(parts.drop_last().len() == 0);
        assert(written(parts) =~= parts[0] + written(rest));
    } else {
        lemma_written_first(parts.drop_last());
        assert(parts.drop_last().drop_first() =~= rest.drop_last());
        assert(written(parts) =~= parts[0] + written(rest));
    }
}

/// A datagram of a header and whole messages, whatever follows them, reads as the header and those
/// messages: each at the place where it was written, none left out and none made up.
pub proof fn law_a_frame_reads_as_written(
    b: Seq<u8>,
    magic: u16,
    supported: Seq<u8>,
    h: FrameHeader,
    msgs: Seq<Seq<u8>>,
)
    requires
        stands_at(b, 0, written(frame_head(magic, h))),
        stands_at(b, 24, written(msgs)),
        supported.contains(h.schema_version),
        h.msg_count == msgs.len(),
        h.frame_length == 24 + written(msgs).len(),
        forall|i: int| 0 <= i < msgs.len() ==> is_whole(#[trigger] msgs[i]),
    ensures
        refusal(b, magic, supported) is None,
        header_of(b) == h,
        offsets(b).len() == msgs.len(),
        forall|i: int|
            0 <= i < msgs.len() ==> stands_at(b, #[trigger] offsets(b)[i], msgs[i]) && offsets(b)[i]
                == 24 + place(msgs, i),
{
    law_a_frame_header_reads_as_written(b, magic, supported, h);
    lemma_walk_reads(b, 24 + written(msgs).len() as int, 24, msgs);
}

/// A Top-of-Book datagram decodes to as many messages as were written into it, each read where it
/// stands, by its own type and by the frame's generation.
pub proof fn law_top_of_book_frames_read_as_written(
    b: Seq<u8>,
    h: FrameHeader,
    msgs: Seq<Seq<u8>>,
    messages: Seq<codec::Message>,
)
    requires
        stands_at(b, 0, written(frame_head(0x445a, h))),
        h.schema_version == 1 || h.schema_version == 2,
        stands_at(b, 24, written(msgs)),
        h.msg_count == msgs.len(),
        h.frame_length == 24 + written(msgs).len(),
        forall|i: int| 0 <= i < msgs.len() ==> is_whole(#[trigger] msgs[i]),
        codec::are_messages(b, messages),
    ensures
        refusal(b, codec::MAGIC, codec::SCHEMA_VERSIONS@) is None,
        header_of(b) == h,
        messages.len() == msgs.len(),
        forall|i: int|
            0 <= i < msgs.len() ==> stands_at(b, 24 + place(msgs, i), #[trigger] msgs[i])
                && codec::is_message(
                messages[i],
                msgs[i][0],
                b,
                24 + place(msgs, i), h.schema_version,
            ),
{
    let s = codec::SCHEMA_VERSIONS@;
    assert(s.contains(s[0]) && s.contains(s[1]));
    law_a_frame_reads_as_written(b, 0x445a, s, h, msgs);
    let at = offsets(b);
    assert forall|i: int| 0 <= i < msgs.len() implies stands_at(
        b,
        24 + place(msgs, i),
        #[trigger] msgs[i],
    ) && codec::is_message(messages[i], msgs[i][0], b, 24 + place(msgs, i), h.schema_version) by {
        assert(stands_at(b, at[i], msgs[i]));
        assert(b.subrange(at[i], at[i] + msgs[i].len())[0] == b[at[i]]);
        assert(codec::is_message(messages[i], b[at[i]], b, at[i], b[2]));
    }
    assert(b[2] == header_of(b).schema_version);
}

/// A Market-by-Order datagram decodes to as many messages as were written into it, each read where it
/// stands, by its own type and by the frame's generation.
pub proof fn law_market_by_order_frames_read_as_written(
    b: Seq<u8>,
    h: FrameHeader,
    msgs: Seq<Seq<u8>>,
    messages: Seq<codec_mbo::Message>,
)
    requires
        stands_at(b, 0, written(frame_head(0x4444, h))),
        h.schema_version == 1,
        stands_at(b, 24, written(msgs)),
        h.msg_count == msgs.len(),
        h.frame_length == 24 + written(msgs).len(),
        forall|i: int| 0 <= i < msgs.len() ==> is_whole(#[trigger] msgs[i]),
        codec_mbo::are_messages(b, messages),
    ensures
        refusal(b, codec_mbo::MAGIC, codec_mbo::SUPPORTED_VERSIONS@) is None,
        header_of(b) == h,
        messages.len() == msgs.len(),
        forall|i: int|
            0 <= i < msgs.len() ==> stands_at(b, 24 + place(msgs, i), #[trigger] msgs[i])
                && codec_mbo::is_message(
                messages[i],
                msgs[i][0],
                b,
                24 + place(msgs, i),
            ),
{
    let s = codec_mbo::SUPPORTED_VERSIONS@;
    assert(s.contains(s[0]));
    law_a_frame_reads_as_written(b, 0x4444, s, h, msgs);
    let at = offsets(b);
    assert forall|i: int| 0 <= i < msgs.len() implies stands_at(
        b,
        24 + place(msgs, i),
        #[trigger] msgs[i],
    ) && codec_mbo::is_message(messages[i], msgs[i][0], b, 24 + place(msgs, i)) by {
        assert(stands_at(b, at[i], msgs[i]));
        assert(b.subrange(at[i], at[i] + msgs[i].len())[0] == b[at[i]]);
        assert(codec_mbo::is_message(messages[i], b[at[i]], b, at[i]));
    }
    assert(b[2] == header_of(b).schema_version);
}

/// A Market-by-Price datagram decodes to as many messages as were written into it, each read where it
/// stands, by its own type and by the frame's generation.
pub proof fn law_market_by_price_frames_read_as_written(
    b: Seq<u8>,
    h: FrameHeader,
    msgs: Seq<Seq<u8>>,
    messages: Seq<codec_mbp::Message>,
)
    requires
        stands_at(b, 0, written(frame_head(0x4442, h))),
        h.schema_version == 1 || h.schema_version == 3,
        stands_at(b, 24, written(msgs)),
        h.msg_count == msgs.len(),
        h.frame_length == 24 + written(msgs).len(),
        forall|i: int| 0 <= i < msgs.len() ==> is_whole(#[trigger] msgs[i]),
        codec_mbp::are_messages(b, messages),
    ensures
        refusal(b, codec_mbp::MAGIC, codec_mbp::SUPPORTED_VERSIONS@) is None,
        header_of(b) == h,
        messages.len() == msgs.len(),
        forall|i: int|
            0 <= i < msgs.len() ==> stands_at(b, 24 + place(msgs, i), #[trigger] msgs[i])
                && codec_mbp::is_message(
                messages[i],
                msgs[i][0],
                b,
                24 + place(msgs, i), h.schema_version,
            ),
{
    let s = codec_mbp::SUPPORTED_VERSIONS@;
    assert(s.contains(s[0]) && s.contains(s[1]));
    law_a_frame_reads_as_written(b, 0x4442, s, h, msgs);
    let at = offsets(b);
    assert forall|i: int| 0 <= i < msgs.len() implies stands_at(
        b,
        24 + place(msgs, i),
        #[trigger] msgs[i],
    ) && codec_mbp::is_message(messages[i], msgs[i][0], b, 24 + place(msgs, i), h.schema_version) by {
        assert(stands_at(b, at[i], msgs[i]));
        assert(b.subrange(at[i], at[i] + msgs[i].len())[0] == b[at[i]]);
        assert(codec_mbp::is_message(messages[i], b[at[i]], b, at[i], b[2]));
    }
    assert(b[2] == header_of(b).schema_version);
}

/// A quote written into a Top-of-Book frame, as message number `i` and whatever is written beside it,
/// is message number `i` of what the frame decodes to, and the same quote in every field.
pub proof fn law_a_quote_in_a_frame_reads_as_written(
    b: Seq<u8>,
    h: FrameHeader,
    msgs: Seq<Seq<u8>>,
    messages: Seq<codec::Message>,
    i: int,
    q: codec::Quote,
    flags: u16,
    spare: Seq<u8>,
)
    requires
        stands_at(b, 0, written(frame_head(0x445a, h))),
        h.schema_version == 1 || h.schema_version == 2,
        stands_at(b, 24, written(msgs)),
        h.msg_count == msgs.len(),
        h.frame_length == 24 + written(msgs).len(),
        forall|j: int| 0 <= j < msgs.len() ==> is_whole(#[trigger] msgs[j]),
        codec::are_messages(b, messages),
        0 <= i < msgs.len(),
        spare.len() == 1,
        msgs[i] == written(head(0x03, 56, flags)) + written(tob_quote_parts(q, spare)),
    ensures
        messages.len() == msgs.len(),
        messages[i] == codec::Message::Quote(q),
{
    law_top_of_book_frames_read_as_written(b, h, msgs, messages);
    let o = 24 + place(msgs, i);
    assert(stands_at(b, o, msgs[i]));
    lemma_head_len(0x03, 56, flags);
    lemma_halves_stand(b, o, written(head(0x03, 56, flags)), written(tob_quote_parts(q, spare)));
    lemma_head(b, o, 0x03, 56, flags);
    assert(msgs[i][0] == b.subrange(o, o + msgs[i].len())[0]);
    law_a_quote_reads_as_written(messages[i], b, o, h.schema_version, q, 56, flags, spare);
}

proof fn lemma_head_len(msg_type: u8, len: u8, flags: u16)
    ensures
        written(head(msg_type, len, flags)).len() == 4,
{
    lemma_lens();
    let parts = head(msg_type, len, flags);
    reveal_with_fuel(written, 4);
    assert(parts.drop_last().drop_last().drop_last().len() == 0);
    assert(parts.drop_last().drop_last().last() == one(msg_type));
    assert(parts.drop_last().last() == one(len));
    assert(parts.last() == two(flags));
}

proof fn lemma_halves_stand(b: Seq<u8>, o: int, first: Seq<u8>, second: Seq<u8>)
    requires
        stands_at(b, o, first + second),
    ensures
        stands_at(b, o, first),
        stands_at(b, o + first.len(), second),
{
    let whole = b.subrange(o, o + (first + second).len());
    let n = first.len() as int;
    assert(b.subrange(o, o + n) =~= whole.subrange(0, n));
    assert(whole.subrange(0, n) =~= first);
    assert(b.subrange(o + n, o + n + second.len()) =~= whole.subrange(n, n + second.len()));
    assert(whole.subrange(n, n + second.len()) =~= second);
}

/// A frame is walked no further than it says it is long, nor further than the datagram goes, nor past
/// the number of messages it says it has; and the walk stops only there, at a message that is shorter
/// than a message header, or at one that would run over the end.
pub proof fn law_the_walk_stops_where_it_must(b: Seq<u8>)
    requires
        b.len() >= 24,
    ensures
        ({
            let at = offsets(b);
            let said = b[22] + 256 * b[23];
            let end = if said <= b.len() {
                said
            } else {
                b.len() as int
            };
            let next = if at.len() == 0 {
                24
            } else {
                at.last() + b[at.last() + 1]
            };
            &&& at.len() <= b[20]
            &&& forall|i: int|
                0 <= i < at.len() ==> 24 <= #[trigger] at[i] && at[i] + b[at[i] + 1] <= end
                    && b[at[i] + 1] >= 4
            &&& at.len() == b[20] || next + 4 > end || b[next + 1] < 4 || next + b[next + 1] > end
        }),
{
    let at = offsets(b);
    assert forall|i: int| 0 <= i < at.len() implies 24 <= #[trigger] at[i] && at[i] + b[at[i] + 1]
        <= codec_common::frame_end(b) && b[at[i] + 1] >= 4 by {
        codec_common::law_messages_tile_the_frame(b, i);
    }
    if at.len() > 0 {
        codec_common::law_messages_tile_the_frame(b, 0);
    }
    lemma_walk_end(b, codec_common::frame_end(b), 24, b[20] as nat);
}

proof fn lemma_walk_end(b: Seq<u8>, end: int, off: int, count: nat)
    ensures
        ({
            let at = walk(b, end, off, count);
            let next = if at.len() == 0 {
                off
            } else {
                at.last() + b[at.last() + 1]
            };
            at.len() == count || next + 4 > end || b[next + 1] < 4 || next + b[next + 1] > end
        }),
    decreases count,
{
    let at = walk(b, end, off, count);
    if at.len() > 0 {
        let rest = walk(b, end, off + b[off + 1], (count - 1) as nat);
        lemma_walk_end(b, end, off + b[off + 1], (count - 1) as nat);
        assert(at == seq![off] + rest);
        if rest.len() > 0 {
            assert(at.last() == rest.last());
        }
    }
}

/// A datagram is refused exactly if it is shorter than its header, does not open with the feed's two
/// magic bytes, or is of a generation that the feed does not have; and for the first of these that
/// holds.
pub proof fn law_only_the_feeds_frames_are_read(b: Seq<u8>)
    ensures
        ({
            let tob = refusal(b, codec::MAGIC, codec::SCHEMA_VERSIONS@);
            let mbo = refusal(b, codec_mbo::MAGIC, codec_mbo::SUPPORTED_VERSIONS@);
            let mbp = refusal(b, codec_mbp::MAGIC, codec_mbp::SUPPORTED_VERSIONS@);
            if b.len() < 24 {
                &&& tob == Some(DecodeReason::TooShort)
                &&& mbo == Some(DecodeReason::TooShort)
                &&& mbp == Some(DecodeReason::TooShort)
            } else {
                &&& tob == Some(DecodeReason::BadMagic) <==> !(b[0] == 0x5a && b[1] == 0x44)
                &&& mbo == Some(DecodeReason::BadMagic) <==> !(b[0] == 0x44 && b[1] == 0x44)
                &&& mbp == Some(DecodeReason::BadMagic) <==> !(b[0] == 0x42 && b[1] == 0x44)
                &&& tob is None <==> b[0] == 0x5a && b[1] == 0x44 && (b[2] == 1 || b[2] == 2)
                &&& mbo is None <==> b[0] == 0x44 && b[1] == 0x44 && b[2] == 1
                &&& mbp is None <==> b[0] == 0x42 && b[1] == 0x44 && (b[2] == 1 || b[2] == 3)
                &&& tob != Some(DecodeReason::TooShort)
                &&& mbo != Some(DecodeReason::TooShort)
                &&& mbp != Some(DecodeReason::TooShort)
            }
        }),
{
    let t = codec::SCHEMA_VERSIONS@;
    let o = codec_mbo::SUPPORTED_VERSIONS@;
    let p = codec_mbp::SUPPORTED_VERSIONS@;
    assert(t.len() == 2 && t[0] == 1 && t[1] == 2);
    assert(o.len() == 1 && o[0] == 1);
    assert(p.len() == 2 && p[0] == 1 && p[1] == 3);
    assert(t.contains(t[0]) && t.contains(t[1]));
    assert(o.contains(o[0]));
    assert(p.contains(p[0]) && p.contains(p[1]));
}

/// Two source ids are assigned, each to its own venue.
pub proof fn law_a_source_id_stands_for_its_venue(source_id: u16)
    ensures
        source_id == 1 ==> codec::registered(source_id) == Some(
            seq!['H', 'y', 'p', 'e', 'r', 'l', 'i', 'q', 'u', 'i', 'd'],
        ),
        source_id == 2 ==> codec::registered(source_id) == Some(
            seq!['P', 'h', 'o', 'e', 'n', 'i', 'x'],
        ),
        source_id != 1 && source_id != 2 ==> codec::registered(source_id) is None,
{
    reveal_strlit("Hyperliquid");
    reveal_strlit("Phoenix");
    assert("Hyperliquid"@ =~= seq!['H', 'y', 'p', 'e', 'r', 'l', 'i', 'q', 'u', 'i', 'd']);
    assert("Phoenix"@ =~= seq!['P', 'h', 'o', 'e', 'n', 'i', 'x']);
}

/// An error says what was wrong with the datagram: how long it was, which magic it opened with and
/// which was wanted, or its generation and those that are read.
pub proof fn law_an_error_says_what_was_wrong(
    e: codec_common::DecodeError,
    b: Seq<u8>,
    magic: u16,
    supported: Seq<u8>,
)
    requires
        refusal(b, magic, supported) is Some,
        e.explains(refusal(b, magic, supported)->0, b, magic, supported),
    ensures
        b.len() < 24 ==> (e matches codec_common::DecodeError::TooShort { len } && len == b.len()),
        b.len() >= 24 && b[0] + 256 * b[1] != magic ==> (
        e matches codec_common::DecodeError::BadMagic { got, expected } && got == b[0] + 256 * b[1]
            && expected == magic),
        b.len() >= 24 && b[0] + 256 * b[1] == magic ==> (
        e matches codec_common::DecodeError::UnsupportedVersion { version, implemented } && version
            == b[2] && implemented@ == supported && !supported.contains(b[2])),
{
}

/// A Market-by-Price definition that says it is shorter than its generation's is told by its type
/// alone, and so is one of a generation that the feed does not have.
pub proof fn law_a_short_definition_is_told_by_type(
    message: codec_mbp::Message,
    b: Seq<u8>,
    m: int,
    schema_version: u8,
)
    requires
        b[m] == 2,
        codec_mbp::is_message(message, b[m], b, m, schema_version),
        schema_version != 1 && schema_version != 3 || (schema_version == 1 && b[m + 1] < 80) || (
        schema_version == 3 && b[m + 1] < 130),
    ensures
        message == codec_mbp::Message::Other(2),
{
}

/// A Market-by-Price message of a fixed size that says another is told by its type alone.
pub proof fn law_a_message_of_another_size_is_told_by_type(
    message: codec_mbp::Message,
    b: Seq<u8>,
    m: int,
    schema_version: u8,
)
    requires
        codec_mbp::is_message(message, b[m], b, m, schema_version),
        ({
            let t = b[m];
            let n = b[m + 1];
            ||| t == 0x01 && n != 16
            ||| t == 0x04 && n != 52
            ||| t == 0x06 && n != 12
            ||| t == 0x07 && n != 24
            ||| t == 0x13 && n != 16
            ||| t == 0x14 && n != 28
            ||| t == 0x20 && n != 40
            ||| t == 0x22 && n != 20
            ||| t == 0x40 && n != 48
            ||| t == 0x41 && n != 36
            ||| t == 0x42 && n != 32
        }),
    ensures
        message == codec_mbp::Message::Other(b[m]),
{
}

/// A message of any other type than a feed's own is told by its type alone; a Top-of-Book or
/// Market-by-Order heartbeat carries nothing.
pub proof fn law_other_types_are_told_by_type(
    tob: codec::Message,
    mbo: codec_mbo::Message,
    mbp: codec_mbp::Message,
    b: Seq<u8>,
    m: int,
    schema_version: u8,
)
    requires
        codec::is_message(tob, b[m], b, m, schema_version),
        codec_mbo::is_message(mbo, b[m], b, m),
        codec_mbp::is_message(mbp, b[m], b, m, schema_version),
    ensures
        b[m] == 1 ==> tob == codec::Message::Heartbeat && mbo == codec_mbo::Message::Heartbeat,
        b[m] == 0 || b[m] > 7 ==> tob == codec::Message::Other(b[m]),
        b[m] == 0 || b[m] == 3 || b[m] == 5 || 7 < b[m] < 0x10 || 0x14 < b[m] < 0x20 || b[m] > 0x22
            ==> mbo == codec_mbo::Message::Other(b[m]),
        b[m] == 0 || b[m] == 3 || b[m] == 5 || 7 < b[m] < 0x13 || 0x14 < b[m] < 0x20 || b[m] == 0x21
            || 0x22 < b[m] < 0x40 || b[m] > 0x42 ==> mbp == codec_mbp::Message::Other(b[m]),
{
}

} // verus!
