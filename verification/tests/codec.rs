//! The Top-of-Book and Trades feed on the wire.

use edge_ingest::codec::{
    apply_exponent, decode_frame, source_name, InstrumentDefinition, Message, Quote, Trade, MAGIC,
    MSG_CHANNEL_RESET, MSG_HEADER_SIZE, MSG_INSTRUMENT_DEFINITION, MSG_QUOTE, MSG_TRADE, TRADE_SIZE,
};
use edge_ingest::codec_common::FRAME_HEADER_SIZE;

/// The scaled value of a raw integer.
fn value(raw: i64, exponent: i8) -> f64 {
    apply_exponent(raw, exponent).unwrap() as f64 / 1e18
}

fn encode_quote_frame(q: &Quote) -> Vec<u8> {
    let mut body = vec![MSG_QUOTE, 60u8, 0, 0];
    body.extend_from_slice(&q.instrument_id.to_le_bytes());
    body.extend_from_slice(&q.source_id.to_le_bytes());
    body.push(q.update_flags);
    body.push(0);
    body.extend_from_slice(&q.source_ts.to_le_bytes());
    body.extend_from_slice(&q.bid_price_raw.to_le_bytes());
    body.extend_from_slice(&q.bid_qty_raw.to_le_bytes());
    body.extend_from_slice(&q.ask_price_raw.to_le_bytes());
    body.extend_from_slice(&q.ask_qty_raw.to_le_bytes());
    body.extend_from_slice(&q.bid_n.to_le_bytes());
    body.extend_from_slice(&q.ask_n.to_le_bytes());
    body.extend_from_slice(&[0u8; 4]);

    let frame_len = (FRAME_HEADER_SIZE + body.len()) as u16;
    let mut frame = Vec::new();
    frame.extend_from_slice(&MAGIC.to_le_bytes());
    frame.push(1);
    frame.push(0);
    frame.extend_from_slice(&0u64.to_le_bytes());
    frame.extend_from_slice(&0u64.to_le_bytes());
    frame.push(1);
    frame.push(0);
    frame.extend_from_slice(&frame_len.to_le_bytes());
    frame.extend_from_slice(&body);
    frame
}

#[test]
fn quote_round_trip() {
    let q = Quote {
        instrument_id: 42,
        source_id: 1,
        update_flags: 0b11,
        source_ts: 1_780_609_924_758_000_000,
        bid_price_raw: 6788,
        bid_qty_raw: 10657,
        ask_price_raw: 6790,
        ask_qty_raw: 10886,
        bid_n: 5,
        ask_n: 3,
    };
    let frame = encode_quote_frame(&q);
    let (hdr, msgs) = decode_frame(&frame).unwrap();
    assert_eq!(hdr.msg_count, 1);
    assert_eq!(msgs.len(), 1);
    match &msgs[0] {
        Message::Quote(got) => {
            assert_eq!(got.instrument_id, 42);
            assert_eq!(got.bid_price_raw, 6788);
            assert_eq!(got.ask_qty_raw, 10886);
            assert_eq!(got.bid_n, 5);
            assert_eq!(got.ask_n, 3);
            assert!((value(got.bid_price_raw, -2) - 67.88).abs() < 1e-9);
        }
        _ => panic!("expected quote"),
    }
}

fn encode_trade_frame(t: &Trade) -> Vec<u8> {
    let mut body = vec![MSG_TRADE, TRADE_SIZE, 0, 0];
    body.extend_from_slice(&t.instrument_id.to_le_bytes());
    body.extend_from_slice(&t.source_id.to_le_bytes());
    body.push(t.aggressor_side);
    body.push(t.trade_flags);
    body.extend_from_slice(&t.source_ts.to_le_bytes());
    body.extend_from_slice(&t.trade_price_raw.to_le_bytes());
    body.extend_from_slice(&t.trade_qty_raw.to_le_bytes());
    body.extend_from_slice(&t.trade_id.to_le_bytes());
    body.extend_from_slice(&t.cumulative_volume_raw.to_le_bytes());

    let frame_len = (FRAME_HEADER_SIZE + body.len()) as u16;
    let mut frame = Vec::new();
    frame.extend_from_slice(&MAGIC.to_le_bytes());
    frame.push(1);
    frame.push(0);
    frame.extend_from_slice(&0u64.to_le_bytes());
    frame.extend_from_slice(&0u64.to_le_bytes());
    frame.push(1);
    frame.push(0);
    frame.extend_from_slice(&frame_len.to_le_bytes());
    frame.extend_from_slice(&body);
    frame
}

#[test]
fn trade_round_trip() {
    assert_eq!(TRADE_SIZE, 52);
    let t = Trade {
        instrument_id: 42,
        source_id: 1,
        aggressor_side: 2,
        trade_flags: 0,
        source_ts: 1_780_609_924_758_000_000,
        trade_price_raw: 6789,
        trade_qty_raw: 1500,
        trade_id: 99_887_766,
        cumulative_volume_raw: 5_000_000,
    };
    let frame = encode_trade_frame(&t);
    assert_eq!(frame.len(), 76);
    let (hdr, msgs) = decode_frame(&frame).unwrap();
    assert_eq!(hdr.msg_count, 1);
    assert_eq!(msgs.len(), 1);
    match &msgs[0] {
        Message::Trade(got) => {
            assert_eq!(got.instrument_id, 42);
            assert_eq!(got.source_id, 1);
            assert_eq!(got.aggressor_side, 2);
            assert_eq!(
                edge_ingest::model::Side::from_code(got.aggressor_side),
                edge_ingest::model::Side::Sell
            );
            assert_eq!(got.source_ts, 1_780_609_924_758_000_000);
            assert_eq!(got.trade_price_raw, 6789);
            assert_eq!(got.trade_qty_raw, 1500);
            assert_eq!(got.trade_id, 99_887_766);
            assert_eq!(got.cumulative_volume_raw, 5_000_000);
            assert!((value(got.trade_price_raw, -2) - 67.89).abs() < 1e-9);
        }
        other => panic!("expected trade, got {other:?}"),
    }
}

#[test]
fn channel_reset_decodes() {
    let mut body = vec![MSG_CHANNEL_RESET, 12u8, 0, 0];
    body.extend_from_slice(&777u64.to_le_bytes());
    let frame_len = (FRAME_HEADER_SIZE + body.len()) as u16;
    let mut frame = Vec::new();
    frame.extend_from_slice(&MAGIC.to_le_bytes());
    frame.push(1);
    frame.push(0);
    frame.extend_from_slice(&0u64.to_le_bytes());
    frame.extend_from_slice(&0u64.to_le_bytes());
    frame.push(1);
    frame.push(0);
    frame.extend_from_slice(&frame_len.to_le_bytes());
    frame.extend_from_slice(&body);
    let (_h, msgs) = decode_frame(&frame).unwrap();
    match &msgs[0] {
        Message::ChannelReset(ts) => assert_eq!(*ts, 777),
        other => panic!("expected channel reset, got {other:?}"),
    }
}

#[test]
fn codec_bad_magic_errors() {
    assert!(decode_frame(&[0u8; 30]).is_err());
}

#[test]
fn runt_message_decodes_to_other_without_panicking() {
    let mut f = Vec::new();
    f.extend_from_slice(&MAGIC.to_le_bytes());
    f.push(1);
    f.push(0);
    f.extend_from_slice(&0u64.to_le_bytes());
    f.extend_from_slice(&0u64.to_le_bytes());
    f.push(1);
    f.push(0);
    f.extend_from_slice(&28u16.to_le_bytes());
    f.push(MSG_QUOTE);
    f.push(4);
    f.extend_from_slice(&0u16.to_le_bytes());
    assert_eq!(f.len(), 28);

    let (hdr, msgs) = decode_frame(&f).expect("must not panic on a truncated message");
    assert_eq!(hdr.msg_count, 1);
    assert!(
        matches!(msgs.as_slice(), [Message::Other(MSG_QUOTE)]),
        "a truncated quote must decode to Other, got {msgs:?}"
    );
}

fn instrument_def_frame(schema: u8, body: &[u8]) -> Vec<u8> {
    let msg_len = (MSG_HEADER_SIZE + body.len()) as u8;
    let frame_len = (FRAME_HEADER_SIZE + msg_len as usize) as u16;
    let mut f = Vec::new();
    f.extend_from_slice(&MAGIC.to_le_bytes());
    f.push(schema);
    f.push(0);
    f.extend_from_slice(&0u64.to_le_bytes());
    f.extend_from_slice(&0u64.to_le_bytes());
    f.push(1);
    f.push(0);
    f.extend_from_slice(&frame_len.to_le_bytes());
    f.extend_from_slice(&[MSG_INSTRUMENT_DEFINITION, msg_len, 0, 0]);
    f.extend_from_slice(body);
    f
}

fn schema_1_def(
    id: u32,
    symbol: &[u8],
    price_exp: i8,
    qty_exp: i8,
    manifest_seq: u16,
) -> Vec<u8> {
    let mut body = vec![0u8; 76];
    body[0..4].copy_from_slice(&id.to_le_bytes());
    body[4..4 + symbol.len()].copy_from_slice(symbol);
    body[20..28].copy_from_slice(b"LEGONEXX");
    body[37] = price_exp as u8;
    body[38] = qty_exp as u8;
    body[74..76].copy_from_slice(&manifest_seq.to_le_bytes());
    instrument_def_frame(1, &body)
}

fn schema_2_def(
    id: u32,
    symbol: &[u8],
    price_exp: i8,
    qty_exp: i8,
    manifest_seq: u16,
) -> Vec<u8> {
    let mut body = vec![0u8; 124];
    body[0..4].copy_from_slice(&id.to_le_bytes());
    body[4..4 + symbol.len()].copy_from_slice(symbol);
    body[68..76].copy_from_slice(b"LEGONEXX");
    body[85] = price_exp as u8;
    body[86] = qty_exp as u8;
    body[122..124].copy_from_slice(&manifest_seq.to_le_bytes());
    instrument_def_frame(2, &body)
}

fn decode_def(frame: &[u8]) -> InstrumentDefinition {
    match decode_frame(frame).unwrap().1.remove(0) {
        Message::InstrumentDefinition(d) => d,
        other => panic!("expected instrument definition, got {other:?}"),
    }
}

#[test]
fn instrument_definition_schema_1_decodes() {
    let f = schema_1_def(7, b"BTC-USDT", -1, -8, 13);
    assert_eq!(f.len(), FRAME_HEADER_SIZE + 80);
    let d = decode_def(&f);
    assert_eq!(d.instrument_id, 7);
    assert_eq!(d.symbol.as_str(), "BTC-USDT");
    assert_eq!(d.price_exponent, -1);
    assert_eq!(d.qty_exponent, -8);
    assert_eq!(d.manifest_seq, 13);
}

#[test]
fn instrument_definition_schema_2_decodes_the_same_instrument() {
    let f = schema_2_def(7, b"BTC-USDT", -1, -8, 13);
    assert_eq!(f.len(), FRAME_HEADER_SIZE + 128);
    let d = decode_def(&f);
    assert_eq!(d.instrument_id, 7);
    assert_eq!(d.symbol.as_str(), "BTC-USDT");
    assert_eq!(d.price_exponent, -1);
    assert_eq!(d.qty_exponent, -8);
    assert_eq!(d.manifest_seq, 13);

    let one = decode_def(&schema_1_def(7, b"BTC-USDT", -1, -8, 13));
    assert_eq!(d.symbol, one.symbol);
    assert_eq!(d.price_exponent, one.price_exponent);
    assert_eq!(d.qty_exponent, one.qty_exponent);
    assert_eq!(d.manifest_seq, one.manifest_seq);
}

#[test]
fn schema_2_symbol_longer_than_16_bytes() {
    let symbol = b"KXPRESPARTYWINNER-2028-DEMOCRATIC";
    assert!(symbol.len() > 16);
    let d = decode_def(&schema_2_def(7, symbol, -1, -8, 13));
    assert_eq!(d.symbol.as_str(), "KXPRESPARTYWINNER-2028-DEMOCRATIC");
    assert_eq!(d.price_exponent, -1);
    assert_eq!(d.qty_exponent, -8);
    assert_eq!(d.manifest_seq, 13);
}

#[test]
fn symbol_filling_the_field_stops_at_its_width() {
    let d = decode_def(&schema_1_def(7, b"ABCDEFGHIJKLMNOP", -1, -8, 13));
    assert_eq!(d.symbol.as_str(), "ABCDEFGHIJKLMNOP");

    let wide = [b'S'; 64];
    let d = decode_def(&schema_2_def(7, &wide, -1, -8, 13));
    assert_eq!(d.symbol.as_str(), "S".repeat(64));
    assert_eq!(d.manifest_seq, 13);
}

#[test]
fn frame_gate_accepts_schemas_1_and_2_only() {
    let mut f = encode_quote_frame(&Quote {
        instrument_id: 42,
        source_id: 1,
        update_flags: 0,
        source_ts: 0,
        bid_price_raw: 6788,
        bid_qty_raw: 1,
        ask_price_raw: 6790,
        ask_qty_raw: 1,
        bid_n: 1,
        ask_n: 1,
    });
    for schema in [1u8, 2] {
        f[2] = schema;
        assert!(decode_frame(&f).is_ok(), "schema {schema} must be accepted");
    }
    for schema in [0u8, 3, 255] {
        f[2] = schema;
        let err = decode_frame(&f).expect_err("unimplemented schema must be refused");
        assert!(
            err.message()
                .contains(&format!("unsupported schema version {schema}")),
            "unexpected error for schema {schema}: {err:?}"
        );
    }
}

#[test]
fn source_registry_maps_known_ids() {
    assert_eq!(source_name(1), Some("Hyperliquid"));
    assert_eq!(source_name(2), Some("Phoenix"));
    assert_eq!(source_name(0), None);
    assert_eq!(source_name(999), None);
}

#[test]
fn a_manifest_summary_a_heartbeat_and_an_end_decode() {
    let mut body = vec![7u8, 24, 0, 0, 9, 1, 0, 0];
    body.extend_from_slice(&13u16.to_le_bytes());
    body.extend_from_slice(&[0, 0]);
    body.extend_from_slice(&786u32.to_le_bytes());
    body.extend_from_slice(&1_780u64.to_le_bytes());
    body.extend_from_slice(&[1, 4, 0, 0]);
    body.extend_from_slice(&[6, 12, 0, 0]);
    body.extend_from_slice(&55u64.to_le_bytes());
    body.extend_from_slice(&[0x3f, 4, 0, 0]);
    let mut f = Vec::new();
    f.extend_from_slice(&MAGIC.to_le_bytes());
    f.extend_from_slice(&[1, 3]);
    f.extend_from_slice(&11u64.to_le_bytes());
    f.extend_from_slice(&12u64.to_le_bytes());
    f.extend_from_slice(&[4, 2]);
    f.extend_from_slice(&((FRAME_HEADER_SIZE + body.len()) as u16).to_le_bytes());
    f.extend_from_slice(&body);
    let (h, m) = decode_frame(&f).unwrap();
    assert_eq!((h.channel_id, h.sequence, h.send_ts, h.reset_count), (3, 11, 12, 2));
    match &m[0] {
        Message::ManifestSummary(s) => {
            assert_eq!((s.channel_id, s.valid, s.manifest_seq), (9, true, 13));
            assert_eq!((s.instrument_count, s.ts), (786, 1_780));
        }
        other => panic!("expected a summary, got {other:?}"),
    }
    assert_eq!(m[1], Message::Heartbeat);
    assert_eq!(m[2], Message::EndOfSession(55));
    assert_eq!(m[3], Message::Other(0x3f));
}
