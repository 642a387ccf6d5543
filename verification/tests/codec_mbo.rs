//! The Market-by-Order feed on the wire.

use edge_ingest::codec_common::FRAME_HEADER_SIZE;
use edge_ingest::codec_mbo::{
    decode_frame, sizes, InstrumentReset, Message, OrderAdd, SnapshotBegin, SnapshotEnd,
    SnapshotOrder, MAGIC, MSG_BATCH_BOUNDARY, MSG_END_OF_SESSION, MSG_HEARTBEAT,
    MSG_INSTRUMENT_DEFINITION, MSG_INSTRUMENT_RESET, MSG_MANIFEST_SUMMARY, MSG_ORDER_ADD,
    MSG_ORDER_CANCEL, MSG_ORDER_EXECUTE, MSG_SNAPSHOT_BEGIN, MSG_SNAPSHOT_END, MSG_SNAPSHOT_ORDER,
    MSG_TRADE, SIDE_ASK, SIDE_BID,
};

fn frame(messages: &[Vec<u8>]) -> Vec<u8> {
    let body: Vec<u8> = messages.concat();
    let frame_len = (FRAME_HEADER_SIZE + body.len()) as u16;
    let mut f = Vec::new();
    f.extend_from_slice(&MAGIC.to_le_bytes());
    f.push(1);
    f.push(0);
    f.extend_from_slice(&0u64.to_le_bytes());
    f.extend_from_slice(&0u64.to_le_bytes());
    f.push(messages.len() as u8);
    f.push(0);
    f.extend_from_slice(&frame_len.to_le_bytes());
    f.extend_from_slice(&body);
    f
}

fn enc_order_add(o: &OrderAdd) -> Vec<u8> {
    let mut b = vec![MSG_ORDER_ADD, sizes::ORDER_ADD, 0, 0];
    b.extend_from_slice(&o.instrument_id.to_le_bytes());
    b.extend_from_slice(&o.source_id.to_le_bytes());
    b.push(o.side);
    b.push(o.order_flags);
    b.extend_from_slice(&o.per_instrument_seq.to_le_bytes());
    b.extend_from_slice(&o.order_id.to_le_bytes());
    b.extend_from_slice(&o.enter_ts.to_le_bytes());
    b.extend_from_slice(&o.price_raw.to_le_bytes());
    b.extend_from_slice(&o.qty_raw.to_le_bytes());
    b.extend_from_slice(&[0u8; 4]);
    b
}

fn enc_snapshot_begin(s: &SnapshotBegin) -> Vec<u8> {
    let mut b = vec![MSG_SNAPSHOT_BEGIN, sizes::SNAPSHOT_BEGIN, 0, 0];
    b.extend_from_slice(&s.instrument_id.to_le_bytes());
    b.extend_from_slice(&s.anchor_seq.to_le_bytes());
    b.extend_from_slice(&s.total_orders.to_le_bytes());
    b.extend_from_slice(&s.snapshot_id.to_le_bytes());
    b.extend_from_slice(&s.last_instrument_seq.to_le_bytes());
    b.extend_from_slice(&s.ts.to_le_bytes());
    b
}

fn enc_snapshot_order(s: &SnapshotOrder) -> Vec<u8> {
    let mut b = vec![MSG_SNAPSHOT_ORDER, sizes::SNAPSHOT_ORDER, 0, 0];
    b.extend_from_slice(&s.snapshot_id.to_le_bytes());
    b.extend_from_slice(&s.order_id.to_le_bytes());
    b.push(s.side);
    b.push(s.order_flags);
    b.extend_from_slice(&[0u8; 2]);
    b.extend_from_slice(&s.enter_ts.to_le_bytes());
    b.extend_from_slice(&s.price_raw.to_le_bytes());
    b.extend_from_slice(&s.qty_raw.to_le_bytes());
    b
}

fn enc_snapshot_end(s: &SnapshotEnd) -> Vec<u8> {
    let mut b = vec![MSG_SNAPSHOT_END, sizes::SNAPSHOT_END, 0, 0];
    b.extend_from_slice(&s.instrument_id.to_le_bytes());
    b.extend_from_slice(&s.anchor_seq.to_le_bytes());
    b.extend_from_slice(&s.snapshot_id.to_le_bytes());
    b
}

fn enc_instrument_reset(r: &InstrumentReset) -> Vec<u8> {
    let mut b = vec![MSG_INSTRUMENT_RESET, sizes::INSTRUMENT_RESET, 0, 0];
    b.extend_from_slice(&r.instrument_id.to_le_bytes());
    b.push(r.reason);
    b.extend_from_slice(&[0u8; 3]);
    b.extend_from_slice(&r.new_anchor_seq.to_le_bytes());
    b.extend_from_slice(&r.ts.to_le_bytes());
    b
}

fn enc_end_of_session(ts: u64) -> Vec<u8> {
    let mut b = vec![MSG_END_OF_SESSION, sizes::END_OF_SESSION, 0, 0];
    b.extend_from_slice(&ts.to_le_bytes());
    b
}

#[test]
fn order_add_round_trip() {
    let o = OrderAdd {
        instrument_id: 7,
        source_id: 1,
        side: SIDE_BID,
        order_flags: 0,
        per_instrument_seq: 5,
        order_id: 12345,
        enter_ts: 1_780_000_000_000_000_000,
        price_raw: 18_420,
        qty_raw: 1000,
    };
    let f = frame(&[enc_order_add(&o)]);
    assert_eq!(f.len(), FRAME_HEADER_SIZE + 52);
    let (_h, msgs) = decode_frame(&f).unwrap();
    match &msgs[0] {
        Message::OrderAdd(got) => {
            assert_eq!(got.instrument_id, 7);
            assert_eq!(got.side, SIDE_BID);
            assert_eq!(got.per_instrument_seq, 5);
            assert_eq!(got.order_id, 12345);
            assert_eq!(got.price_raw, 18_420);
            assert_eq!(got.qty_raw, 1000);
        }
        other => panic!("expected order add, got {other:?}"),
    }
}

#[test]
fn snapshot_group_round_trips() {
    let begin = SnapshotBegin {
        instrument_id: 7,
        anchor_seq: 100,
        total_orders: 1,
        snapshot_id: 9,
        last_instrument_seq: 42,
        ts: 1,
    };
    let order = SnapshotOrder {
        snapshot_id: 9,
        order_id: 555,
        side: SIDE_ASK,
        order_flags: 0,
        enter_ts: 2,
        price_raw: 18_430,
        qty_raw: 500,
    };
    let end = SnapshotEnd {
        instrument_id: 7,
        anchor_seq: 100,
        snapshot_id: 9,
    };
    let f = frame(&[
        enc_snapshot_begin(&begin),
        enc_snapshot_order(&order),
        enc_snapshot_end(&end),
    ]);
    let (_h, msgs) = decode_frame(&f).unwrap();
    assert_eq!(msgs.len(), 3);
    match (&msgs[0], &msgs[1], &msgs[2]) {
        (Message::SnapshotBegin(b), Message::SnapshotOrder(o), Message::SnapshotEnd(e)) => {
            assert_eq!(b.snapshot_id, 9);
            assert_eq!(b.last_instrument_seq, 42);
            assert_eq!(o.order_id, 555);
            assert_eq!(o.side, SIDE_ASK);
            assert_eq!(o.price_raw, 18_430);
            assert_eq!(e.snapshot_id, 9);
        }
        other => panic!("unexpected snapshot group: {other:?}"),
    }
}

#[test]
fn side_constants_match_spec() {
    assert_eq!(
        SIDE_BID, 0,
        "SIDE_BID must be 0"
    );
    assert_eq!(
        SIDE_ASK, 1,
        "SIDE_ASK must be 1"
    );
}

#[test]
fn side_byte_zero_is_bid_one_is_ask() {
    let make = |side: u8| {
        let o = OrderAdd {
            instrument_id: 1,
            source_id: 0,
            side,
            order_flags: 0,
            per_instrument_seq: 1,
            order_id: 1,
            enter_ts: 0,
            price_raw: 100,
            qty_raw: 1,
        };
        let f = frame(&[enc_order_add(&o)]);
        let (_h, msgs) = decode_frame(&f).unwrap();
        match &msgs[0] {
            Message::OrderAdd(got) => got.side,
            other => panic!("expected OrderAdd, got {other:?}"),
        }
    };
    assert_eq!(make(0), SIDE_BID, "wire byte 0 must equal SIDE_BID");
    assert_eq!(make(1), SIDE_ASK, "wire byte 1 must equal SIDE_ASK");
}

fn put(buf: &mut [u8], off: usize, bytes: &[u8]) {
    buf[off..off + bytes.len()].copy_from_slice(bytes);
}

fn frame_one(msg_type: u8, msg_len: u8, body: &[u8]) -> Vec<u8> {
    let mut msg = vec![msg_type, msg_len, 0, 0];
    msg.extend_from_slice(body);
    frame(&[msg])
}

#[test]
fn frame_header_offsets_match_authority() {
    let body = vec![0u8; 8];
    let mut f = frame_one(MSG_END_OF_SESSION, sizes::END_OF_SESSION, &body);
    f[2] = 1;
    f[3] = 0;
    put(&mut f, 4, &0x1122u64.to_le_bytes());
    put(&mut f, 12, &0x3344u64.to_le_bytes());
    let (h, _msgs) = decode_frame(&f).unwrap();
    assert_eq!(h.schema_version, 1);
    assert_eq!(h.channel_id, 0);
    assert_eq!(h.sequence, 0x1122);
    assert_eq!(h.send_ts, 0x3344);
    assert_eq!(h.msg_count, 1);
}

#[test]
fn message_type_tags_match_authority() {
    assert_eq!(MSG_HEARTBEAT, 0x01);
    assert_eq!(MSG_INSTRUMENT_DEFINITION, 0x02);
    assert_eq!(MSG_TRADE, 0x04);
    assert_eq!(MSG_END_OF_SESSION, 0x06);
    assert_eq!(MSG_MANIFEST_SUMMARY, 0x07);
    assert_eq!(MSG_ORDER_ADD, 0x10);
    assert_eq!(MSG_ORDER_CANCEL, 0x11);
    assert_eq!(MSG_ORDER_EXECUTE, 0x12);
    assert_eq!(MSG_BATCH_BOUNDARY, 0x13);
    assert_eq!(MSG_INSTRUMENT_RESET, 0x14);
    assert_eq!(MSG_SNAPSHOT_BEGIN, 0x20);
    assert_eq!(MSG_SNAPSHOT_ORDER, 0x21);
    assert_eq!(MSG_SNAPSHOT_END, 0x22);
}

#[test]
fn order_add_offsets_match_authority() {
    let decode_side = |side: u8| {
        let mut body = vec![0u8; 48];
        put(&mut body, 0, &7u32.to_le_bytes());
        put(&mut body, 4, &0x0102u16.to_le_bytes());
        body[6] = side;
        body[7] = 0;
        put(&mut body, 8, &5u32.to_le_bytes());
        put(&mut body, 12, &12_345u64.to_le_bytes());
        put(&mut body, 20, &1_780_000_000_000_000_000u64.to_le_bytes());
        put(&mut body, 28, &18_420i64.to_le_bytes());
        put(&mut body, 36, &1_000u64.to_le_bytes());
        let f = frame_one(MSG_ORDER_ADD, sizes::ORDER_ADD, &body);
        match decode_frame(&f).unwrap().1.remove(0) {
            Message::OrderAdd(g) => {
                assert_eq!(g.instrument_id, 7);
                assert_eq!(g.source_id, 0x0102);
                assert_eq!(g.order_flags, 0);
                assert_eq!(g.per_instrument_seq, 5);
                assert_eq!(g.order_id, 12_345);
                assert_eq!(g.enter_ts, 1_780_000_000_000_000_000);
                assert_eq!(g.price_raw, 18_420);
                assert_eq!(g.qty_raw, 1_000);
                g.side
            }
            other => panic!("expected OrderAdd, got {other:?}"),
        }
    };
    assert_eq!(decode_side(0), SIDE_BID);
    assert_eq!(decode_side(1), SIDE_ASK);
}

#[test]
fn order_cancel_offsets_match_authority() {
    let mut body = vec![0u8; 28];
    put(&mut body, 0, &7u32.to_le_bytes());
    put(&mut body, 4, &1u16.to_le_bytes());
    body[6] = 3;
    put(&mut body, 8, &9u32.to_le_bytes());
    put(&mut body, 12, &555u64.to_le_bytes());
    put(&mut body, 20, &42u64.to_le_bytes());
    let f = frame_one(MSG_ORDER_CANCEL, sizes::ORDER_CANCEL, &body);
    match &decode_frame(&f).unwrap().1[0] {
        Message::OrderCancel(g) => {
            assert_eq!(g.instrument_id, 7);
            assert_eq!(g.source_id, 1);
            assert_eq!(g.reason, 3);
            assert_eq!(g.per_instrument_seq, 9);
            assert_eq!(g.order_id, 555);
            assert_eq!(g.ts, 42);
        }
        other => panic!("expected OrderCancel, got {other:?}"),
    }
}

#[test]
fn order_execute_offsets_match_authority() {
    let mut body = vec![0u8; 52];
    put(&mut body, 0, &7u32.to_le_bytes());
    put(&mut body, 4, &1u16.to_le_bytes());
    body[6] = SIDE_BID;
    body[7] = 2;
    put(&mut body, 8, &11u32.to_le_bytes());
    put(&mut body, 12, &555u64.to_le_bytes());
    put(&mut body, 20, &7_777u64.to_le_bytes());
    put(&mut body, 28, &84u64.to_le_bytes());
    put(&mut body, 36, &18_400i64.to_le_bytes());
    put(&mut body, 44, &250u64.to_le_bytes());
    let f = frame_one(MSG_ORDER_EXECUTE, sizes::ORDER_EXECUTE, &body);
    match &decode_frame(&f).unwrap().1[0] {
        Message::OrderExecute(g) => {
            assert_eq!(g.instrument_id, 7);
            assert_eq!(g.source_id, 1);
            assert_eq!(g.aggressor_side, SIDE_BID);
            assert_eq!(g.exec_flags, 2);
            assert_eq!(g.per_instrument_seq, 11);
            assert_eq!(g.order_id, 555);
            assert_eq!(g.trade_id, 7_777);
            assert_eq!(g.ts, 84);
            assert_eq!(g.exec_price_raw, 18_400);
            assert_eq!(g.exec_qty_raw, 250);
        }
        other => panic!("expected OrderExecute, got {other:?}"),
    }
}

#[test]
fn snapshot_begin_offsets_match_authority() {
    let mut body = vec![0u8; 32];
    put(&mut body, 0, &7u32.to_le_bytes());
    put(&mut body, 4, &100u64.to_le_bytes());
    put(&mut body, 12, &3u32.to_le_bytes());
    put(&mut body, 16, &9u32.to_le_bytes());
    put(&mut body, 20, &42u32.to_le_bytes());
    put(&mut body, 24, &1u64.to_le_bytes());
    let f = frame_one(MSG_SNAPSHOT_BEGIN, sizes::SNAPSHOT_BEGIN, &body);
    match &decode_frame(&f).unwrap().1[0] {
        Message::SnapshotBegin(g) => {
            assert_eq!(g.instrument_id, 7);
            assert_eq!(g.anchor_seq, 100);
            assert_eq!(g.total_orders, 3);
            assert_eq!(g.snapshot_id, 9);
            assert_eq!(g.last_instrument_seq, 42);
            assert_eq!(g.ts, 1);
        }
        other => panic!("expected SnapshotBegin, got {other:?}"),
    }
}

#[test]
fn snapshot_order_offsets_match_authority() {
    let decode_side = |side: u8| {
        let mut body = vec![0u8; 40];
        put(&mut body, 0, &9u32.to_le_bytes());
        put(&mut body, 4, &555u64.to_le_bytes());
        body[12] = side;
        body[13] = 0;
        put(&mut body, 16, &2u64.to_le_bytes());
        put(&mut body, 24, &18_430i64.to_le_bytes());
        put(&mut body, 32, &500u64.to_le_bytes());
        let f = frame_one(MSG_SNAPSHOT_ORDER, sizes::SNAPSHOT_ORDER, &body);
        match decode_frame(&f).unwrap().1.remove(0) {
            Message::SnapshotOrder(g) => {
                assert_eq!(g.snapshot_id, 9);
                assert_eq!(g.order_id, 555);
                assert_eq!(g.enter_ts, 2);
                assert_eq!(g.price_raw, 18_430);
                assert_eq!(g.qty_raw, 500);
                g.side
            }
            other => panic!("expected SnapshotOrder, got {other:?}"),
        }
    };
    assert_eq!(decode_side(0), SIDE_BID);
    assert_eq!(decode_side(1), SIDE_ASK);
}

#[test]
fn snapshot_end_offsets_match_authority() {
    let mut body = vec![0u8; 16];
    put(&mut body, 0, &7u32.to_le_bytes());
    put(&mut body, 4, &100u64.to_le_bytes());
    put(&mut body, 12, &9u32.to_le_bytes());
    let f = frame_one(MSG_SNAPSHOT_END, sizes::SNAPSHOT_END, &body);
    match &decode_frame(&f).unwrap().1[0] {
        Message::SnapshotEnd(g) => {
            assert_eq!(g.instrument_id, 7);
            assert_eq!(g.anchor_seq, 100);
            assert_eq!(g.snapshot_id, 9);
        }
        other => panic!("expected SnapshotEnd, got {other:?}"),
    }
}

#[test]
fn manifest_summary_offsets_match_authority() {
    let build = |valid: u8| {
        let mut body = vec![0u8; 20];
        body[0] = 2;
        body[1] = valid;
        put(&mut body, 4, &13u16.to_le_bytes());
        put(&mut body, 8, &786u32.to_le_bytes());
        put(&mut body, 12, &1_780u64.to_le_bytes());
        let f = frame_one(MSG_MANIFEST_SUMMARY, 24, &body);
        match decode_frame(&f).unwrap().1.remove(0) {
            Message::ManifestSummary(g) => g,
            other => panic!("expected ManifestSummary, got {other:?}"),
        }
    };
    let g = build(1);
    assert_eq!(g.channel_id, 2);
    assert!(g.valid);
    assert_eq!(g.manifest_seq, 13);
    assert_eq!(g.instrument_count, 786);
    assert_eq!(g.ts, 1_780);
    assert!(!build(0).valid, "valid byte 0 must decode false");
}

#[test]
fn instrument_definition_offsets_match_authority() {
    let mut body = vec![0u8; 76];
    put(&mut body, 0, &7u32.to_le_bytes());
    put(&mut body, 4, b"BTC");
    body[37] = (-1i8) as u8;
    body[38] = (-8i8) as u8;
    put(&mut body, 74, &13u16.to_le_bytes());
    let f = frame_one(
        MSG_INSTRUMENT_DEFINITION,
        sizes::INSTRUMENT_DEFINITION,
        &body,
    );
    match &decode_frame(&f).unwrap().1[0] {
        Message::InstrumentDefinition(g) => {
            assert_eq!(g.instrument_id, 7);
            assert_eq!(g.symbol.as_str(), "BTC");
            assert_eq!(g.price_exponent, -1);
            assert_eq!(g.qty_exponent, -8);
            assert_eq!(g.manifest_seq, 13);
        }
        other => panic!("expected InstrumentDefinition, got {other:?}"),
    }
}

#[test]
fn trade_offsets_match_authority() {
    let mut body = vec![0u8; 48];
    put(&mut body, 0, &7u32.to_le_bytes());
    put(&mut body, 4, &1u16.to_le_bytes());
    body[6] = 2;
    body[7] = 0;
    put(&mut body, 8, &1_780_000_000_000_000_000u64.to_le_bytes());
    put(&mut body, 16, &18_420i64.to_le_bytes());
    put(&mut body, 24, &1_500u64.to_le_bytes());
    put(&mut body, 32, &99_887_766u64.to_le_bytes());
    put(&mut body, 40, &5_000_000u64.to_le_bytes());
    let f = frame_one(MSG_TRADE, sizes::TRADE, &body);
    match &decode_frame(&f).unwrap().1[0] {
        Message::Trade(g) => {
            assert_eq!(g.instrument_id, 7);
            assert_eq!(g.source_id, 1);
            assert_eq!(g.aggressor_side, 2);
            assert_eq!(g.trade_flags, 0);
            assert_eq!(g.source_ts, 1_780_000_000_000_000_000);
            assert_eq!(g.trade_price_raw, 18_420);
            assert_eq!(g.trade_qty_raw, 1_500);
            assert_eq!(g.trade_id, 99_887_766);
            assert_eq!(g.cumulative_volume_raw, 5_000_000);
        }
        other => panic!("expected Trade, got {other:?}"),
    }
}

#[test]
fn batch_boundary_offsets_match_authority() {
    let mut body = vec![0u8; 12];
    put(&mut body, 0, &77u32.to_le_bytes());
    put(&mut body, 4, &1_780u64.to_le_bytes());
    let f = frame_one(MSG_BATCH_BOUNDARY, sizes::BATCH_BOUNDARY, &body);
    match &decode_frame(&f).unwrap().1[0] {
        Message::BatchBoundary(id, time) => {
            assert_eq!(*id, 77);
            assert_eq!(*time, 1_780);
        }
        other => panic!("expected BatchBoundary, got {other:?}"),
    }
}

#[test]
fn instrument_reset_offsets_match_authority() {
    let mut body = vec![0u8; 24];
    put(&mut body, 0, &7u32.to_le_bytes());
    body[4] = 1;
    put(&mut body, 8, &200u64.to_le_bytes());
    put(&mut body, 16, &42u64.to_le_bytes());
    let f = frame_one(MSG_INSTRUMENT_RESET, sizes::INSTRUMENT_RESET, &body);
    match &decode_frame(&f).unwrap().1[0] {
        Message::InstrumentReset(g) => {
            assert_eq!(g.instrument_id, 7);
            assert_eq!(g.reason, 1);
            assert_eq!(g.new_anchor_seq, 200);
            assert_eq!(g.ts, 42);
        }
        other => panic!("expected InstrumentReset, got {other:?}"),
    }
}

#[test]
fn end_of_session_offsets_match_authority() {
    let mut body = vec![0u8; 8];
    put(&mut body, 0, &1_780u64.to_le_bytes());
    let f = frame_one(MSG_END_OF_SESSION, sizes::END_OF_SESSION, &body);
    match &decode_frame(&f).unwrap().1[0] {
        Message::EndOfSession(ts) => assert_eq!(*ts, 1_780),
        other => panic!("expected EndOfSession, got {other:?}"),
    }
}

#[test]
fn heartbeat_decodes_with_no_body() {
    let f = frame_one(MSG_HEARTBEAT, 4, &[]);
    let (h, msgs) = decode_frame(&f).unwrap();
    assert_eq!(h.msg_count, 1);
    assert!(matches!(msgs.as_slice(), [Message::Heartbeat]));
}

#[test]
fn codec_mbo_bad_magic_errors() {
    let f = frame(&[enc_snapshot_end(&SnapshotEnd {
        instrument_id: 1,
        anchor_seq: 0,
        snapshot_id: 1,
    })]);
    let mut bad = f.clone();
    bad[0] = 0x5A;
    bad[1] = 0x44;
    assert!(decode_frame(&bad).is_err());
    assert!(decode_frame(&f).is_ok());
}

#[test]
fn shared_layouts_read_as_in_top_of_book() {
    let mut body = vec![0u8; 76];
    put(&mut body, 0, &7u32.to_le_bytes());
    put(&mut body, 4, b"BTC-USDT");
    body[37] = (-1i8) as u8;
    body[38] = (-8i8) as u8;
    put(&mut body, 74, &13u16.to_le_bytes());
    let mbo = frame_one(MSG_INSTRUMENT_DEFINITION, sizes::INSTRUMENT_DEFINITION, &body);
    let mut tob = mbo.clone();
    tob[0..2].copy_from_slice(&edge_ingest::codec::MAGIC.to_le_bytes());
    let a = match decode_frame(&mbo).unwrap().1.remove(0) {
        Message::InstrumentDefinition(d) => d,
        other => panic!("expected a definition, got {other:?}"),
    };
    let b = match edge_ingest::codec::decode_frame(&tob).unwrap().1.remove(0) {
        edge_ingest::codec::Message::InstrumentDefinition(d) => d,
        other => panic!("expected a definition, got {other:?}"),
    };
    assert_eq!((a.instrument_id, a.symbol, a.manifest_seq), (b.instrument_id, b.symbol, b.manifest_seq));
    assert_eq!((a.price_exponent, a.qty_exponent), (b.price_exponent, b.qty_exponent));
}

#[test]
fn a_truncated_order_decodes_to_other_and_a_later_generation_is_refused() {
    let f = frame_one(MSG_ORDER_ADD, 8, &[0u8; 4]);
    assert_eq!(decode_frame(&f).unwrap().1, vec![Message::Other(MSG_ORDER_ADD)]);
    let mut later = frame_one(MSG_HEARTBEAT, 4, &[]);
    later[2] = 3;
    assert!(decode_frame(&later).is_err());
}
