//! The Market-by-Price feed on the wire.

use edge_ingest::codec_common::{MSG_HEADER_SIZE, SCHEMA_V1};
use edge_ingest::codec_mbp::{
    decode_datagram, sizes, BatchBoundary, BookClear, InstrumentDefinition, InstrumentReset,
    LevelUpdate, ManifestSummary, Message, SnapshotBegin, SnapshotEnd, SnapshotLevel, Trade,
    AGGRESSOR_SELL, CLEAR_SIDE_BID, CLEAR_SIDE_BOTH, MAGIC, MSG_BATCH_BOUNDARY, MSG_BOOK_CLEAR,
    MSG_END_OF_SESSION, MSG_HEARTBEAT, MSG_INSTRUMENT_DEFINITION, MSG_INSTRUMENT_RESET,
    MSG_LEVEL_UPDATE, MSG_MANIFEST_SUMMARY, MSG_SNAPSHOT_BEGIN, MSG_SNAPSHOT_END,
    MSG_SNAPSHOT_LEVEL, MSG_TRADE, SCOPE_ENTIRE_SIDE, SCOPE_FROM_PRICE, SIDE_ASK, SIDE_BID,
    U16_UNAVAILABLE,
};

fn datagram(
    channel_id: u8,
    reset_count: u8,
    sequence: u64,
    messages: &[Vec<u8>],
) -> Vec<u8> {
    let body: Vec<u8> = messages.concat();
    let mut f = vec![0u8; 24];
    f[0..2].copy_from_slice(&MAGIC.to_le_bytes());
    f[2] = SCHEMA_V1;
    f[3] = channel_id;
    f[4..12].copy_from_slice(&sequence.to_le_bytes());
    f[12..20].copy_from_slice(&1_700_000_000_000_000_000u64.to_le_bytes());
    f[20] = messages.len() as u8;
    f[21] = reset_count;
    f[22..24].copy_from_slice(&((24 + body.len()) as u16).to_le_bytes());
    f.extend_from_slice(&body);
    f
}

fn u16_wire(v: Option<u16>) -> u16 {
    v.unwrap_or(U16_UNAVAILABLE)
}

fn enc_instrument_definition(d: &InstrumentDefinition) -> Vec<u8> {
    let mut b = vec![0u8; sizes::INSTRUMENT_DEFINITION - MSG_HEADER_SIZE];
    b[0..4].copy_from_slice(&d.instrument_id.to_le_bytes());
    let sym = &d.symbol.as_bytes()[..d.symbol.len().min(16)];
    b[4..4 + sym.len()].copy_from_slice(sym);
    b[37] = d.price_exponent as u8;
    b[38] = d.qty_exponent as u8;
    b[74..76].copy_from_slice(&d.manifest_seq.to_le_bytes());
    msg(MSG_INSTRUMENT_DEFINITION, 0, &b)
}

fn enc_manifest_summary(m: &ManifestSummary) -> Vec<u8> {
    let mut b = vec![m.channel_id, m.valid as u8, 0, 0];
    b.extend_from_slice(&m.manifest_seq.to_le_bytes());
    b.extend_from_slice(&[0u8; 2]);
    b.extend_from_slice(&m.instrument_count.to_le_bytes());
    b.extend_from_slice(&m.ts.to_le_bytes());
    msg(MSG_MANIFEST_SUMMARY, 0, &b)
}

fn enc_trade(t: &Trade) -> Vec<u8> {
    let mut b = Vec::new();
    b.extend_from_slice(&t.instrument_id.to_le_bytes());
    b.extend_from_slice(&t.source_id.to_le_bytes());
    b.push(t.aggressor_side);
    b.push(t.trade_flags);
    b.extend_from_slice(&t.source_ts.to_le_bytes());
    b.extend_from_slice(&t.trade_price_raw.to_le_bytes());
    b.extend_from_slice(&t.trade_qty_raw.to_le_bytes());
    b.extend_from_slice(&t.trade_id.to_le_bytes());
    b.extend_from_slice(&t.cumulative_volume_raw.to_le_bytes());
    msg(MSG_TRADE, 0, &b)
}

fn enc_level_update(u: &LevelUpdate) -> Vec<u8> {
    let mut b = Vec::new();
    b.extend_from_slice(&u.instrument_id.to_le_bytes());
    b.extend_from_slice(&u.source_id.to_le_bytes());
    b.push(u.side);
    b.push(u.action);
    b.extend_from_slice(&u.per_instrument_seq.to_le_bytes());
    b.extend_from_slice(&u.price_raw.to_le_bytes());
    b.extend_from_slice(&u.qty_raw.to_le_bytes());
    b.extend_from_slice(&u.ts.to_le_bytes());
    b.extend_from_slice(&u16_wire(u.order_count).to_le_bytes());
    b.extend_from_slice(&u16_wire(u.level_index).to_le_bytes());
    b.push(u.update_reason);
    b.push(u.level_flags);
    b.extend_from_slice(&[0u8; 2]);
    msg(MSG_LEVEL_UPDATE, 0, &b)
}

fn enc_book_clear(c: &BookClear) -> Vec<u8> {
    let mut b = Vec::new();
    b.extend_from_slice(&c.instrument_id.to_le_bytes());
    b.extend_from_slice(&c.source_id.to_le_bytes());
    b.push(c.clear_side);
    b.push(c.scope);
    b.extend_from_slice(&c.per_instrument_seq.to_le_bytes());
    b.extend_from_slice(&c.from_price_raw.to_le_bytes());
    b.extend_from_slice(&c.ts.to_le_bytes());
    b.push(c.clear_reason);
    b.extend_from_slice(&[0u8; 3]);
    msg(MSG_BOOK_CLEAR, 0, &b)
}

fn enc_snapshot_level(l: &SnapshotLevel) -> Vec<u8> {
    let mut b = Vec::new();
    b.extend_from_slice(&l.snapshot_id.to_le_bytes());
    b.extend_from_slice(&l.price_raw.to_le_bytes());
    b.extend_from_slice(&l.qty_raw.to_le_bytes());
    b.extend_from_slice(&u16_wire(l.order_count).to_le_bytes());
    b.push(l.side);
    b.push(l.level_flags);
    b.extend_from_slice(&[0u8; 4]);
    msg(MSG_SNAPSHOT_LEVEL, 0, &b)
}

fn enc_snapshot_begin(s: &SnapshotBegin) -> Vec<u8> {
    let mut b = Vec::new();
    b.extend_from_slice(&s.instrument_id.to_le_bytes());
    b.extend_from_slice(&s.anchor_seq.to_le_bytes());
    b.extend_from_slice(&s.total_levels.to_le_bytes());
    b.extend_from_slice(&s.snapshot_id.to_le_bytes());
    b.extend_from_slice(&s.last_instrument_seq.to_le_bytes());
    b.extend_from_slice(&s.ts.to_le_bytes());
    b.extend_from_slice(&s.depth_bound.to_le_bytes());
    msg(MSG_SNAPSHOT_BEGIN, 0, &b)
}

fn enc_snapshot_end(e: &SnapshotEnd) -> Vec<u8> {
    let mut b = Vec::new();
    b.extend_from_slice(&e.instrument_id.to_le_bytes());
    b.extend_from_slice(&e.anchor_seq.to_le_bytes());
    b.extend_from_slice(&e.snapshot_id.to_le_bytes());
    msg(MSG_SNAPSHOT_END, 0, &b)
}

fn enc_batch_boundary(bb: &BatchBoundary) -> Vec<u8> {
    let mut b = Vec::new();
    b.extend_from_slice(&bb.batch_id.to_le_bytes());
    b.extend_from_slice(&bb.batch_time.to_le_bytes());
    msg(MSG_BATCH_BOUNDARY, 0, &b)
}

fn enc_instrument_reset(r: &InstrumentReset) -> Vec<u8> {
    let mut b = Vec::new();
    b.extend_from_slice(&r.instrument_id.to_le_bytes());
    b.push(r.reason);
    b.extend_from_slice(&[0u8; 3]);
    b.extend_from_slice(&r.new_anchor_seq.to_le_bytes());
    b.extend_from_slice(&r.ts.to_le_bytes());
    msg(MSG_INSTRUMENT_RESET, 0, &b)
}

fn enc_heartbeat(ts: u64) -> Vec<u8> {
    let mut b = vec![0u8; 4];
    b.extend_from_slice(&ts.to_le_bytes());
    msg(MSG_HEARTBEAT, 0, &b)
}

fn enc_end_of_session(ts: u64) -> Vec<u8> {
    msg(MSG_END_OF_SESSION, 0, &ts.to_le_bytes())
}

fn datagram_header(msg_count: u8, reset_count: u8, body_len: usize) -> Vec<u8> {
    let mut h = vec![0u8; 24];
    h[0..2].copy_from_slice(&MAGIC.to_le_bytes());
    h[2] = 1;
    h[3] = 2;
    h[4..12].copy_from_slice(&7u64.to_le_bytes());
    h[12..20].copy_from_slice(&1_700_000_000_000_000_000u64.to_le_bytes());
    h[20] = msg_count;
    h[21] = reset_count;
    h[22..24].copy_from_slice(&((24 + body_len) as u16).to_le_bytes());
    h
}

fn msg(ty: u8, flags: u16, body: &[u8]) -> Vec<u8> {
    let mut m = vec![ty, (4 + body.len()) as u8];
    m.extend_from_slice(&flags.to_le_bytes());
    m.extend_from_slice(body);
    m
}

fn one(ty: u8, flags: u16, body: &[u8]) -> Vec<u8> {
    let m = msg(ty, flags, body);
    let mut f = datagram_header(1, 0, m.len());
    f.extend_from_slice(&m);
    f
}

#[test]
fn rejects_a_sibling_protocols_magic() {
    let mut f = one(MSG_HEARTBEAT, 0, &[0u8; 12]);
    f[0..2].copy_from_slice(&0x4444u16.to_le_bytes());
    assert!(decode_datagram(&f).is_err());
}

#[test]
fn rejects_an_unimplemented_schema_version() {
    let mut f = one(MSG_HEARTBEAT, 0, &[0u8; 12]);
    f[2] = SCHEMA_V1 + 1;
    assert!(decode_datagram(&f).is_err());
}

#[test]
fn datagram_header_fields_decode() {
    let (h, _) = decode_datagram(&one(MSG_HEARTBEAT, 0, &[0u8; 12])).unwrap();
    assert_eq!(h.schema_version, 1);
    assert_eq!(h.channel_id, 2);
    assert_eq!(h.sequence, 7);
    assert_eq!(h.reset_count, 0);
}

#[test]
fn heartbeat_decodes() {
    let mut b = vec![0u8; 12];
    b[0] = 2;
    b[4..12].copy_from_slice(&99u64.to_le_bytes());
    let (_, m) = decode_datagram(&one(MSG_HEARTBEAT, 0, &b)).unwrap();
    assert!(matches!(m[0], Message::Heartbeat(99)));
}

#[test]
fn instrument_definition_decodes() {
    let mut b = vec![0u8; 76];
    b[0..4].copy_from_slice(&41u32.to_le_bytes());
    b[4..15].copy_from_slice(b"KXBTCPERP\0\0");
    b[37] = (-4i8) as u8;
    b[38] = 0;
    b[74..76].copy_from_slice(&3u16.to_le_bytes());
    let (_, m) = decode_datagram(&one(MSG_INSTRUMENT_DEFINITION, 0, &b)).unwrap();
    let Message::InstrumentDefinition(d) = &m[0] else {
        panic!("{:?}", m[0])
    };
    assert_eq!(d.instrument_id, 41);
    assert_eq!(&*d.symbol, "KXBTCPERP");
    assert_eq!(d.price_exponent, -4);
    assert_eq!(d.qty_exponent, 0);
    assert_eq!(d.manifest_seq, 3);
}

#[test]
fn trade_decodes() {
    let mut b = vec![0u8; 48];
    b[0..4].copy_from_slice(&41u32.to_le_bytes());
    b[4..6].copy_from_slice(&3u16.to_le_bytes());
    b[6] = AGGRESSOR_SELL;
    b[8..16].copy_from_slice(&555u64.to_le_bytes());
    b[16..24].copy_from_slice(&6200i64.to_le_bytes());
    b[24..32].copy_from_slice(&150u64.to_le_bytes());
    b[32..40].copy_from_slice(&0u64.to_le_bytes());
    let (_, m) = decode_datagram(&one(MSG_TRADE, 0, &b)).unwrap();
    let Message::Trade(t) = &m[0] else { panic!() };
    assert_eq!(t.instrument_id, 41);
    assert_eq!(t.aggressor_side, AGGRESSOR_SELL);
    assert_eq!(t.trade_price_raw, 6200);
    assert_eq!(t.trade_qty_raw, 150);
    assert_eq!(t.trade_id, 0, "the sentinel the arbiter bypasses on");
}

#[test]
fn manifest_summary_decodes() {
    let mut b = vec![0u8; 20];
    b[0] = 2;
    b[1] = 1;
    b[4..6].copy_from_slice(&3u16.to_le_bytes());
    b[8..12].copy_from_slice(&13u32.to_le_bytes());
    let (_, m) = decode_datagram(&one(MSG_MANIFEST_SUMMARY, 0, &b)).unwrap();
    let Message::ManifestSummary(s) = &m[0] else {
        panic!()
    };
    assert!(s.valid);
    assert_eq!(s.manifest_seq, 3);
    assert_eq!(s.instrument_count, 13);
}

#[test]
fn manifest_summary_valid_is_any_non_zero() {
    let mut b = vec![0u8; 20];
    b[1] = 2;
    let (_, m) = decode_datagram(&one(MSG_MANIFEST_SUMMARY, 0, &b)).unwrap();
    let Message::ManifestSummary(s) = &m[0] else {
        panic!()
    };
    assert!(s.valid);
}

#[test]
fn end_of_session_decodes() {
    let (_, m) = decode_datagram(&one(MSG_END_OF_SESSION, 0, &42u64.to_le_bytes())).unwrap();
    assert!(matches!(m[0], Message::EndOfSession(42)));
}

#[test]
fn reserved_types_do_not_decode() {
    for ty in [0x03u8, 0x05] {
        let (_, m) = decode_datagram(&one(ty, 0, &[0u8; 20])).unwrap();
        assert!(
            matches!(m[0], Message::Other(t) if t == ty),
            "type {ty:#04x} decoded"
        );
    }
}

#[test]
fn unknown_type_is_skipped_not_fatal() {
    let unknown = msg(0x7F, 0, &[0u8; 8]);
    let hb = {
        let mut b = vec![0u8; 12];
        b[4..12].copy_from_slice(&77u64.to_le_bytes());
        msg(MSG_HEARTBEAT, 0, &b)
    };
    let mut f = datagram_header(2, 0, unknown.len() + hb.len());
    f.extend_from_slice(&unknown);
    f.extend_from_slice(&hb);
    let (_, m) = decode_datagram(&f).unwrap();
    assert!(matches!(m[0], Message::Other(0x7F)));
    assert!(matches!(m[1], Message::Heartbeat(77)));
}

#[test]
fn wrong_body_length_does_not_decode() {
    for (ty, correct) in [
        (MSG_HEARTBEAT, 12usize),
        (MSG_TRADE, 48),
        (MSG_END_OF_SESSION, 8),
        (MSG_MANIFEST_SUMMARY, 20),
    ] {
        for len in [correct - 1, correct + 1] {
            let (_, m) = decode_datagram(&one(ty, 0, &vec![0u8; len])).unwrap();
            assert!(
                matches!(m[0], Message::Other(t) if t == ty),
                "type {ty:#04x} len {len} decoded"
            );
        }
    }
}

#[test]
fn an_over_long_instrument_definition_still_decodes() {
    let mut long = vec![0u8; 76 + 8];
    long[0..4].copy_from_slice(&41u32.to_le_bytes());
    let (_, m) = decode_datagram(&one(MSG_INSTRUMENT_DEFINITION, 0, &long)).unwrap();
    assert!(
        matches!(&m[0], Message::InstrumentDefinition(d) if d.instrument_id == 41),
        "a v1 definition with trailing bytes must still decode: {:?}",
        m[0]
    );

    let short = vec![0u8; 75];
    let (_, m) = decode_datagram(&one(MSG_INSTRUMENT_DEFINITION, 0, &short)).unwrap();
    assert!(
        matches!(m[0], Message::Other(MSG_INSTRUMENT_DEFINITION)),
        "a short definition is still rejected: {:?}",
        m[0]
    );
}

#[test]
fn level_update_decodes() {
    let mut b = vec![0u8; 44];
    b[0..4].copy_from_slice(&41u32.to_le_bytes());
    b[4..6].copy_from_slice(&3u16.to_le_bytes());
    b[6] = SIDE_ASK;
    b[7] = 2;
    b[8..12].copy_from_slice(&17u32.to_le_bytes());
    b[12..20].copy_from_slice(&(-6300i64).to_le_bytes());
    b[20..28].copy_from_slice(&150u64.to_le_bytes());
    b[28..36].copy_from_slice(&999u64.to_le_bytes());
    b[36..38].copy_from_slice(&4u16.to_le_bytes());
    b[38..40].copy_from_slice(&1u16.to_le_bytes());
    b[40] = 1;
    b[41] = 0b10;
    let (_, m) = decode_datagram(&one(MSG_LEVEL_UPDATE, 0, &b)).unwrap();
    let Message::LevelUpdate(u) = &m[0] else {
        panic!("{:?}", m[0])
    };
    assert_eq!(u.instrument_id, 41);
    assert_eq!(u.side, SIDE_ASK);
    assert_eq!(u.action, 2);
    assert_eq!(u.per_instrument_seq, 17);
    assert_eq!(u.price_raw, -6300);
    assert_eq!(u.qty_raw, 150);
    assert_eq!(u.ts, 999);
    assert_eq!(u.order_count, Some(4));
    assert_eq!(u.level_index, Some(1));
    assert_eq!(u.update_reason, 1);
    assert_eq!(u.level_flags, 0b10);
}

#[test]
fn level_update_u16_sentinels_are_none_but_zero_is_real() {
    let mut b = vec![0u8; 44];
    b[36..38].copy_from_slice(&0xFFFFu16.to_le_bytes());
    b[38..40].copy_from_slice(&0xFFFFu16.to_le_bytes());
    let (_, m) = decode_datagram(&one(MSG_LEVEL_UPDATE, 0, &b)).unwrap();
    let Message::LevelUpdate(u) = &m[0] else {
        panic!()
    };
    assert_eq!(u.order_count, None);
    assert_eq!(u.level_index, None);

    let (_, m) = decode_datagram(&one(MSG_LEVEL_UPDATE, 0, &[0u8; 44])).unwrap();
    let Message::LevelUpdate(u) = &m[0] else {
        panic!()
    };
    assert_eq!(u.order_count, Some(0), "0 is a real order count");
}

#[test]
fn level_update_zero_quantity_is_valid() {
    let mut b = vec![0u8; 44];
    b[12..20].copy_from_slice(&6300i64.to_le_bytes());
    b[20..28].copy_from_slice(&0u64.to_le_bytes());
    let (_, m) = decode_datagram(&one(MSG_LEVEL_UPDATE, 0, &b)).unwrap();
    let Message::LevelUpdate(u) = &m[0] else {
        panic!()
    };
    assert_eq!(u.qty_raw, 0);
}

#[test]
fn level_update_enums_are_permissive() {
    let mut b = vec![0u8; 44];
    b[6] = 200;
    b[7] = 200;
    b[40] = 200;
    let (_, m) = decode_datagram(&one(MSG_LEVEL_UPDATE, 0, &b)).unwrap();
    let Message::LevelUpdate(u) = &m[0] else {
        panic!()
    };
    assert_eq!((u.side, u.action, u.update_reason), (200, 200, 200));
}

#[test]
fn book_clear_decodes() {
    let mut b = vec![0u8; 32];
    b[0..4].copy_from_slice(&41u32.to_le_bytes());
    b[6] = CLEAR_SIDE_BID;
    b[7] = SCOPE_FROM_PRICE;
    b[8..12].copy_from_slice(&18u32.to_le_bytes());
    b[12..20].copy_from_slice(&6100i64.to_le_bytes());
    b[20..28].copy_from_slice(&1_234u64.to_le_bytes());
    b[28] = 1;
    let (_, m) = decode_datagram(&one(MSG_BOOK_CLEAR, 0, &b)).unwrap();
    let Message::BookClear(c) = &m[0] else {
        panic!("{:?}", m[0])
    };
    assert_eq!(c.clear_side, CLEAR_SIDE_BID);
    assert_eq!(c.scope, SCOPE_FROM_PRICE);
    assert_eq!(c.per_instrument_seq, 18);
    assert_eq!(c.from_price_raw, 6100);
    assert_eq!(c.clear_reason, 1);
}

#[test]
fn book_clear_from_price_on_both_sides_is_malformed() {
    let mut b = vec![0u8; 32];
    b[6] = CLEAR_SIDE_BOTH;
    b[7] = SCOPE_FROM_PRICE;
    let (_, m) = decode_datagram(&one(MSG_BOOK_CLEAR, 0, &b)).unwrap();
    assert!(
        matches!(m[0], Message::Other(MSG_BOOK_CLEAR)),
        "must not decode as a clear"
    );
}

#[test]
fn book_clear_on_both_sides_is_malformed_for_every_unrecognized_scope() {
    for scope in [SCOPE_FROM_PRICE, 2, 3, 17, 255] {
        let mut b = vec![0u8; 32];
        b[6] = CLEAR_SIDE_BOTH;
        b[7] = scope;
        let (_, m) = decode_datagram(&one(MSG_BOOK_CLEAR, 0, &b)).unwrap();
        assert!(
            matches!(m[0], Message::Other(MSG_BOOK_CLEAR)),
            "scope {scope} with Clear Side = 2 must not decode as a clear"
        );
    }
}

#[test]
fn book_clear_both_sides_entirely_is_valid() {
    let mut b = vec![0u8; 32];
    b[6] = CLEAR_SIDE_BOTH;
    b[7] = SCOPE_ENTIRE_SIDE;
    let (_, m) = decode_datagram(&one(MSG_BOOK_CLEAR, 0, &b)).unwrap();
    assert!(matches!(m[0], Message::BookClear(_)));
}

#[test]
fn snapshot_level_decodes() {
    let mut b = vec![0u8; 28];
    b[0..4].copy_from_slice(&5u32.to_le_bytes());
    b[4..12].copy_from_slice(&6200i64.to_le_bytes());
    b[12..20].copy_from_slice(&150u64.to_le_bytes());
    b[20..22].copy_from_slice(&2u16.to_le_bytes());
    b[22] = SIDE_BID;
    b[23] = 1;
    let (_, m) = decode_datagram(&one(MSG_SNAPSHOT_LEVEL, 1, &b)).unwrap();
    let Message::SnapshotLevel(l) = &m[0] else {
        panic!("{:?}", m[0])
    };
    assert_eq!(l.snapshot_id, 5);
    assert_eq!(l.price_raw, 6200);
    assert_eq!(l.qty_raw, 150);
    assert_eq!(l.order_count, Some(2));
    assert_eq!(l.side, SIDE_BID);
    assert_eq!(l.level_flags, 1);

    b[20..22].copy_from_slice(&0xFFFFu16.to_le_bytes());
    let (_, m) = decode_datagram(&one(MSG_SNAPSHOT_LEVEL, 1, &b)).unwrap();
    let Message::SnapshotLevel(l) = &m[0] else {
        panic!()
    };
    assert_eq!(l.order_count, None);
}

#[test]
fn snapshot_begin_decodes_including_depth_bound() {
    let mut b = vec![0u8; 36];
    b[0..4].copy_from_slice(&41u32.to_le_bytes());
    b[4..12].copy_from_slice(&900u64.to_le_bytes());
    b[12..16].copy_from_slice(&1210u32.to_le_bytes());
    b[16..20].copy_from_slice(&5u32.to_le_bytes());
    b[20..24].copy_from_slice(&16u32.to_le_bytes());
    b[24..32].copy_from_slice(&7_777u64.to_le_bytes());
    b[32..36].copy_from_slice(&0u32.to_le_bytes());
    let (_, m) = decode_datagram(&one(MSG_SNAPSHOT_BEGIN, 1, &b)).unwrap();
    let Message::SnapshotBegin(s) = &m[0] else {
        panic!("{:?}", m[0])
    };
    assert_eq!(s.instrument_id, 41);
    assert_eq!(s.anchor_seq, 900);
    assert_eq!(s.total_levels, 1210);
    assert_eq!(s.snapshot_id, 5);
    assert_eq!(s.last_instrument_seq, 16);
    assert_eq!(s.ts, 7_777);
    assert_eq!(s.depth_bound, 0);
}

#[test]
fn snapshot_begin_rejects_the_short_sibling_layout() {
    let (_, m) = decode_datagram(&one(MSG_SNAPSHOT_BEGIN, 1, &[0u8; 32])).unwrap();
    assert!(matches!(m[0], Message::Other(MSG_SNAPSHOT_BEGIN)));
}

#[test]
fn snapshot_begin_bounded_depth_decodes() {
    let mut b = vec![0u8; 36];
    b[32..36].copy_from_slice(&25u32.to_le_bytes());
    let (_, m) = decode_datagram(&one(MSG_SNAPSHOT_BEGIN, 1, &b)).unwrap();
    let Message::SnapshotBegin(s) = &m[0] else {
        panic!()
    };
    assert_eq!(s.depth_bound, 25);
}

#[test]
fn snapshot_end_decodes() {
    let mut b = vec![0u8; 16];
    b[0..4].copy_from_slice(&41u32.to_le_bytes());
    b[4..12].copy_from_slice(&900u64.to_le_bytes());
    b[12..16].copy_from_slice(&5u32.to_le_bytes());
    let (_, m) = decode_datagram(&one(MSG_SNAPSHOT_END, 1, &b)).unwrap();
    let Message::SnapshotEnd(e) = &m[0] else {
        panic!()
    };
    assert_eq!((e.instrument_id, e.anchor_seq, e.snapshot_id), (41, 900, 5));
}

#[test]
fn batch_boundary_decodes() {
    let mut b = vec![0u8; 12];
    b[0..4].copy_from_slice(&123u32.to_le_bytes());
    b[4..12].copy_from_slice(&456u64.to_le_bytes());
    let (_, m) = decode_datagram(&one(MSG_BATCH_BOUNDARY, 0, &b)).unwrap();
    let Message::BatchBoundary(bb) = &m[0] else {
        panic!()
    };
    assert_eq!((bb.batch_id, bb.batch_time), (123, 456));
}

#[test]
fn instrument_reset_decodes() {
    let mut b = vec![0u8; 24];
    b[0..4].copy_from_slice(&41u32.to_le_bytes());
    b[4] = 3;
    b[8..16].copy_from_slice(&1_000u64.to_le_bytes());
    b[16..24].copy_from_slice(&2_000u64.to_le_bytes());
    let (_, m) = decode_datagram(&one(MSG_INSTRUMENT_RESET, 0, &b)).unwrap();
    let Message::InstrumentReset(r) = &m[0] else {
        panic!()
    };
    assert_eq!(
        (r.instrument_id, r.reason, r.new_anchor_seq, r.ts),
        (41, 3, 1_000, 2_000)
    );
}

#[test]
fn wrong_body_length_does_not_decode_price_types() {
    for (ty, correct) in [
        (MSG_BATCH_BOUNDARY, 12usize),
        (MSG_INSTRUMENT_RESET, 24),
        (MSG_SNAPSHOT_BEGIN, 36),
        (MSG_SNAPSHOT_END, 16),
        (MSG_LEVEL_UPDATE, 44),
        (MSG_BOOK_CLEAR, 32),
        (MSG_SNAPSHOT_LEVEL, 28),
    ] {
        for len in [correct - 1, correct + 1] {
            let (_, m) = decode_datagram(&one(ty, 0, &vec![0u8; len])).unwrap();
            assert!(
                matches!(m[0], Message::Other(t) if t == ty),
                "type {ty:#04x} len {len} decoded"
            );
        }
    }
}

#[test]
fn builders_round_trip_through_the_decoder() {
    let def = InstrumentDefinition {
        instrument_id: 41,
        source_id: None,
        symbol: "KXBTCPERP".into(),
        price_exponent: -4,
        qty_exponent: -2,
        manifest_seq: 3,
    };
    let manifest = ManifestSummary {
        channel_id: 2,
        valid: true,
        manifest_seq: 3,
        instrument_count: 13,
        ts: 111,
    };
    let trade = Trade {
        instrument_id: 41,
        source_id: 3,
        aggressor_side: AGGRESSOR_SELL,
        trade_flags: 1,
        source_ts: 222,
        trade_price_raw: -6200,
        trade_qty_raw: 150,
        trade_id: 9876,
        cumulative_volume_raw: 4242,
    };
    let update = LevelUpdate {
        instrument_id: 41,
        source_id: 3,
        side: SIDE_ASK,
        action: 2,
        per_instrument_seq: 17,
        price_raw: -6300,
        qty_raw: 150,
        ts: 333,
        order_count: Some(4),
        level_index: None,
        update_reason: 1,
        level_flags: 0b10,
    };
    let clear = BookClear {
        instrument_id: 41,
        source_id: 3,
        clear_side: CLEAR_SIDE_BID,
        scope: SCOPE_FROM_PRICE,
        per_instrument_seq: 18,
        from_price_raw: 6100,
        ts: 444,
        clear_reason: 1,
    };
    let begin = SnapshotBegin {
        instrument_id: 41,
        anchor_seq: 900,
        total_levels: 2,
        snapshot_id: 5,
        last_instrument_seq: 16,
        ts: 555,
        depth_bound: 25,
    };
    let level = SnapshotLevel {
        snapshot_id: 5,
        price_raw: 6200,
        qty_raw: 150,
        order_count: None,
        side: SIDE_BID,
        level_flags: 1,
    };
    let end = SnapshotEnd {
        instrument_id: 41,
        anchor_seq: 900,
        snapshot_id: 5,
    };
    let batch = BatchBoundary {
        batch_id: 123,
        batch_time: 666,
    };
    let reset = InstrumentReset {
        instrument_id: 41,
        reason: 3,
        new_anchor_seq: 1_000,
        ts: 777,
    };

    let built: Vec<Vec<u8>> = vec![
        enc_instrument_definition(&def),
        enc_manifest_summary(&manifest),
        enc_trade(&trade),
        enc_level_update(&update),
        enc_book_clear(&clear),
        enc_snapshot_begin(&begin),
        enc_snapshot_level(&level),
        enc_snapshot_end(&end),
        enc_batch_boundary(&batch),
        enc_instrument_reset(&reset),
        enc_heartbeat(888),
        enc_end_of_session(999),
    ];
    for (m, want) in built.iter().zip([
        sizes::INSTRUMENT_DEFINITION,
        sizes::MANIFEST_SUMMARY,
        sizes::TRADE,
        sizes::LEVEL_UPDATE,
        sizes::BOOK_CLEAR,
        sizes::SNAPSHOT_BEGIN,
        sizes::SNAPSHOT_LEVEL,
        sizes::SNAPSHOT_END,
        sizes::BATCH_BOUNDARY,
        sizes::INSTRUMENT_RESET,
        sizes::HEARTBEAT,
        sizes::END_OF_SESSION,
    ]) {
        assert_eq!(m.len(), want, "type {:#04x} wrong length", m[0]);
    }

    let (h, m) = decode_datagram(&datagram(4, 9, 12_345, &built)).unwrap();
    assert_eq!((h.channel_id, h.reset_count, h.sequence), (4, 9, 12_345));
    assert_eq!(m.len(), 12);

    let Message::InstrumentDefinition(d) = &m[0] else {
        panic!("{:?}", m[0])
    };
    assert_eq!(
        (
            d.instrument_id,
            &*d.symbol,
            d.price_exponent,
            d.qty_exponent,
            d.manifest_seq
        ),
        (41, "KXBTCPERP", -4, -2, 3)
    );
    let Message::ManifestSummary(s) = &m[1] else {
        panic!("{:?}", m[1])
    };
    assert_eq!(
        (
            s.channel_id,
            s.valid,
            s.manifest_seq,
            s.instrument_count,
            s.ts
        ),
        (2, true, 3, 13, 111)
    );
    let Message::Trade(t) = &m[2] else {
        panic!("{:?}", m[2])
    };
    assert_eq!(
        (
            t.instrument_id,
            t.aggressor_side,
            t.source_ts,
            t.trade_price_raw,
            t.trade_qty_raw,
            t.trade_id,
            t.cumulative_volume_raw
        ),
        (41, AGGRESSOR_SELL, 222, -6200, 150, 9876, 4242)
    );
    let Message::LevelUpdate(u) = &m[3] else {
        panic!("{:?}", m[3])
    };
    assert_eq!(
        (
            u.instrument_id,
            u.side,
            u.action,
            u.per_instrument_seq,
            u.price_raw,
            u.qty_raw,
            u.ts,
            u.order_count,
            u.level_index,
            u.update_reason,
            u.level_flags
        ),
        (41, SIDE_ASK, 2, 17, -6300, 150, 333, Some(4), None, 1, 0b10)
    );
    let Message::BookClear(c) = &m[4] else {
        panic!("{:?}", m[4])
    };
    assert_eq!(
        (
            c.instrument_id,
            c.clear_side,
            c.scope,
            c.per_instrument_seq,
            c.from_price_raw,
            c.ts,
            c.clear_reason
        ),
        (41, CLEAR_SIDE_BID, SCOPE_FROM_PRICE, 18, 6100, 444, 1)
    );
    let Message::SnapshotBegin(sb) = &m[5] else {
        panic!("{:?}", m[5])
    };
    assert_eq!(
        (
            sb.instrument_id,
            sb.anchor_seq,
            sb.total_levels,
            sb.snapshot_id,
            sb.last_instrument_seq,
            sb.ts,
            sb.depth_bound
        ),
        (41, 900, 2, 5, 16, 555, 25)
    );
    let Message::SnapshotLevel(sl) = &m[6] else {
        panic!("{:?}", m[6])
    };
    assert_eq!(
        (
            sl.snapshot_id,
            sl.price_raw,
            sl.qty_raw,
            sl.order_count,
            sl.side,
            sl.level_flags
        ),
        (5, 6200, 150, None, SIDE_BID, 1)
    );
    let Message::SnapshotEnd(se) = &m[7] else {
        panic!("{:?}", m[7])
    };
    assert_eq!(
        (se.instrument_id, se.anchor_seq, se.snapshot_id),
        (41, 900, 5)
    );
    let Message::BatchBoundary(bb) = &m[8] else {
        panic!("{:?}", m[8])
    };
    assert_eq!((bb.batch_id, bb.batch_time), (123, 666));
    let Message::InstrumentReset(r) = &m[9] else {
        panic!("{:?}", m[9])
    };
    assert_eq!(
        (r.instrument_id, r.reason, r.new_anchor_seq, r.ts),
        (41, 3, 1_000, 777)
    );
    assert!(matches!(m[10], Message::Heartbeat(888)));
    assert!(matches!(m[11], Message::EndOfSession(999)));
}

#[test]
fn index_addressing_range_is_skipped() {
    for ty in 0x50u8..=0x5F {
        let (_, m) = decode_datagram(&one(ty, 0, &[0u8; 20])).unwrap();
        assert!(
            matches!(m[0], Message::Other(t) if t == ty),
            "type {ty:#04x} decoded"
        );
    }
}

#[test]
fn a_third_generation_definition_carries_its_source() {
    let mut b = vec![0u8; 126];
    b[0..4].copy_from_slice(&41u32.to_le_bytes());
    b[4..6].copy_from_slice(&9u16.to_le_bytes());
    b[6..15].copy_from_slice(b"KXBTCPERP");
    b[87] = (-4i8) as u8;
    b[124..126].copy_from_slice(&3u16.to_le_bytes());
    let mut f = one(MSG_INSTRUMENT_DEFINITION, 0, &b);
    f[2] = 3;
    let (h, m) = decode_datagram(&f).unwrap();
    assert_eq!(h.schema_version, 3);
    let Message::InstrumentDefinition(d) = &m[0] else {
        panic!("{:?}", m[0])
    };
    assert_eq!((d.instrument_id, d.source_id, d.symbol.as_str()), (41, Some(9), "KXBTCPERP"));
    assert_eq!((d.price_exponent, d.qty_exponent, d.manifest_seq), (-4, 0, 3));
}

#[test]
fn a_liquidation_is_skipped() {
    let (_, m) = decode_datagram(&one(edge_ingest::codec_mbp::MSG_LIQUIDATION, 0, &[0u8; 20])).unwrap();
    assert_eq!(m, vec![Message::Other(0x08)]);
}
