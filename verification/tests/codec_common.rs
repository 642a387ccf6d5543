//! Frames, readers and definitions shared by the feeds.

use edge_ingest::codec_common::{
    apply_exponent, cstr, decode_frame_with, i64le, instrument_definition, u16le, u32le, u64le, u8le,
    DecodeError, InstrumentDef, FRAME_HEADER_SIZE, MSG_HEADER_SIZE, SCHEMA_V1, SCHEMA_V3,
};

const TEST_MAGIC: u16 = 0x445A;
const MSG_INSTRUMENT_DEFINITION: u8 = 0x02;

fn frame(schema_version: u8, msg_type: u8, body: &[u8]) -> Vec<u8> {
    let mut f = vec![0u8; FRAME_HEADER_SIZE];
    f[0..2].copy_from_slice(&TEST_MAGIC.to_le_bytes());
    f[2] = schema_version;
    f[20] = 1;
    f.push(msg_type);
    f.push((MSG_HEADER_SIZE + body.len()) as u8);
    f.extend_from_slice(&0u16.to_le_bytes());
    f.extend_from_slice(body);
    let len = f.len() as u16;
    f[22..24].copy_from_slice(&len.to_le_bytes());
    f
}

fn def_body_v1(
    id: u32,
    symbol: &str,
    price_exp: i8,
    qty_exp: i8,
    manifest_seq: u16,
) -> Vec<u8> {
    let mut b = vec![0u8; 76];
    b[0..4].copy_from_slice(&id.to_le_bytes());
    b[4..4 + symbol.len()].copy_from_slice(symbol.as_bytes());
    b[37] = price_exp as u8;
    b[38] = qty_exp as u8;
    b[74..76].copy_from_slice(&manifest_seq.to_le_bytes());
    b
}

fn def_body_v3(
    id: u32,
    source_id: u16,
    symbol: &str,
    price_exp: i8,
    qty_exp: i8,
    manifest_seq: u16,
) -> Vec<u8> {
    let mut b = vec![0u8; 126];
    b[0..4].copy_from_slice(&id.to_le_bytes());
    b[4..6].copy_from_slice(&source_id.to_le_bytes());
    b[6..6 + symbol.len()].copy_from_slice(symbol.as_bytes());
    b[87] = price_exp as u8;
    b[88] = qty_exp as u8;
    b[124..126].copy_from_slice(&manifest_seq.to_le_bytes());
    b
}

#[test]
fn instrument_definition_decodes_schema_v3() {
    let long = "KXNCAAFGAME-26AUG15DALSEA-SEA";
    let body = def_body_v3(41, 3, long, -8, -6, 7);
    let f = frame(3, MSG_INSTRUMENT_DEFINITION, &body);

    let d = instrument_definition(&f, FRAME_HEADER_SIZE, 3).expect("v3 definition decodes");

    assert_eq!(d.instrument_id, 41);
    assert_eq!(d.source_id, Some(3));
    assert_eq!(
        &*d.symbol, long,
        "the full 64-byte symbol, not a 16-byte prefix"
    );
    assert_eq!(d.price_exponent, -8);
    assert_eq!(d.qty_exponent, -6);
    assert_eq!(d.manifest_seq, 7);
}

#[test]
fn instrument_definition_decodes_schema_v1() {
    let body = def_body_v1(41, "BTC-USDT", -8, -6, 7);
    let f = frame(1, MSG_INSTRUMENT_DEFINITION, &body);

    let d = instrument_definition(&f, FRAME_HEADER_SIZE, 1).expect("v1 definition decodes");

    assert_eq!(d.instrument_id, 41);
    assert_eq!(d.source_id, None, "v1 carries no per-instrument source id");
    assert_eq!(&*d.symbol, "BTC-USDT");
    assert_eq!(d.price_exponent, -8);
    assert_eq!(d.qty_exponent, -6);
    assert_eq!(d.manifest_seq, 7);
}

#[test]
fn a_v1_length_definition_claiming_v3_is_rejected() {
    let mut f = frame(
        3,
        MSG_INSTRUMENT_DEFINITION,
        &def_body_v1(41, "BTC-USDT", -8, -6, 7),
    );
    f.extend_from_slice(&[0xAA; 96]);
    let len = f.len() as u16;
    f[22..24].copy_from_slice(&len.to_le_bytes());

    assert!(
        instrument_definition(&f, FRAME_HEADER_SIZE, 3).is_none(),
        "a 76-byte body cannot be a v3 definition, whatever the frame claims"
    );
}

#[test]
fn the_frame_gate_admits_only_implemented_versions() {
    let body = def_body_v3(41, 3, "BTC-USDT", -8, -6, 7);
    let supported = &[SCHEMA_V1, SCHEMA_V3];

    for v in [0u8, 2, 4, 255] {
        let f = frame(v, MSG_INSTRUMENT_DEFINITION, &body);
        assert!(
            decode_frame_with(&f, TEST_MAGIC, supported, |_, _, _, _, _| ()).is_err(),
            "schema version {v} must be rejected, not parsed at some other layout"
        );
    }
    for v in [SCHEMA_V1, SCHEMA_V3] {
        let f = frame(v, MSG_INSTRUMENT_DEFINITION, &body);
        assert!(
            decode_frame_with(&f, TEST_MAGIC, supported, |_, _, _, _, _| ()).is_ok(),
            "schema version {v} must be accepted"
        );
    }
}

#[test]
fn a_feed_implementing_only_v1_rejects_v3() {
    let f = frame(
        SCHEMA_V3,
        MSG_INSTRUMENT_DEFINITION,
        &def_body_v3(41, 3, "BTC-USDT", -8, -6, 7),
    );
    assert!(decode_frame_with(&f, TEST_MAGIC, &[SCHEMA_V1], |_, _, _, _, _| ()).is_err());
}

#[test]
fn both_generations_decode_the_same_instrument_identically() {
    let v1 = instrument_definition(
        &frame(
            SCHEMA_V1,
            MSG_INSTRUMENT_DEFINITION,
            &def_body_v1(41, "BTC-USDT", -8, -6, 7),
        ),
        FRAME_HEADER_SIZE,
        SCHEMA_V1,
    )
    .expect("v1");
    let v3 = instrument_definition(
        &frame(
            SCHEMA_V3,
            MSG_INSTRUMENT_DEFINITION,
            &def_body_v3(41, 9, "BTC-USDT", -8, -6, 7),
        ),
        FRAME_HEADER_SIZE,
        SCHEMA_V3,
    )
    .expect("v3");

    assert_eq!(v1.instrument_id, v3.instrument_id);
    assert_eq!(v1.symbol, v3.symbol);
    assert_eq!(v1.price_exponent, v3.price_exponent);
    assert_eq!(v1.qty_exponent, v3.qty_exponent);
    assert_eq!(v1.manifest_seq, v3.manifest_seq);
    assert_eq!(
        (v1.source_id, v3.source_id),
        (None, Some(9)),
        "the only field that may differ across generations"
    );
}

#[test]
fn readers_are_little_endian_and_bounds_checked() {
    let b = [0x01u8, 0x02, 0x03, 0x04, 0x05, 0x06, 0x07, 0x88];
    assert_eq!(u8le(&b, 7), Some(0x88));
    assert_eq!(u8le(&b, 8), None);
    assert_eq!(u16le(&b, 0), Some(0x0201));
    assert_eq!(u16le(&b, 7), None);
    assert_eq!(u32le(&b, 4), Some(0x8807_0605));
    assert_eq!(u32le(&b, 5), None);
    assert_eq!(u64le(&b, 0), Some(0x8807_0605_0403_0201));
    assert_eq!(u64le(&b, 1), None);
    assert_eq!(i64le(&b, 0), Some(0x8807_0605_0403_0201u64 as i64));
    assert_eq!(i64le(&[0xffu8; 8], 0), Some(-1));
    assert_eq!(u32le(&b, usize::MAX), None);
}

#[test]
fn a_symbol_field_stops_at_nul_and_replaces_what_is_not_utf8() {
    assert_eq!(cstr(b"BTC\0\0X", 0, 6), Some("BTC".to_string()));
    assert_eq!(cstr(b"BTC\0\0X", 1, 2), Some("TC".to_string()));
    assert_eq!(cstr(b"\0BTC", 0, 4), Some(String::new()));
    assert_eq!(cstr(b"BTC", 0, 4), None);
    assert_eq!(cstr(b"BTC", usize::MAX, 4), None);
    assert_eq!(cstr("Zürich\0".as_bytes(), 0, 8), Some("Zürich".to_string()));
    assert_eq!(cstr(b"A\xffB\0", 0, 4), Some("A\u{fffd}B".to_string()));
}

#[test]
fn exponents_scale_exactly_or_to_the_nearest_unit() {
    assert_eq!(apply_exponent(6788, -2), Some(67_880_000_000_000_000_000));
    assert_eq!(apply_exponent(-6788, -2), Some(-67_880_000_000_000_000_000));
    assert_eq!(apply_exponent(3, 0), Some(3_000_000_000_000_000_000));
    assert_eq!(apply_exponent(3, 2), Some(300_000_000_000_000_000_000));
    assert_eq!(apply_exponent(1, -9), Some(1_000_000_000));
    assert_eq!(apply_exponent(7, -18), Some(7));
    assert_eq!(apply_exponent(15, -19), Some(2), "halves go away from zero");
    assert_eq!(apply_exponent(-15, -19), Some(-2));
    assert_eq!(apply_exponent(14, -19), Some(1));
    assert_eq!(apply_exponent(1, -19), Some(1), "something is never nothing");
    assert_eq!(apply_exponent(-1, -19), Some(-1));
    assert_eq!(apply_exponent(i64::MAX, -37), Some(1));
    assert_eq!(apply_exponent(i64::MAX, -38), Some(1));
    assert_eq!(apply_exponent(i64::MIN, -128), Some(-1));
    assert_eq!(apply_exponent(0, -128), Some(0));
    assert_eq!(apply_exponent(0, 127), Some(0));
    assert_eq!(apply_exponent(i64::MAX, 1), Some(9_223_372_036_854_775_807 * 10i128.pow(19)));
    assert_eq!(apply_exponent(1, 20), Some(100_000_000_000_000_000_000_000_000_000_000_000_000));
    assert_eq!(apply_exponent(2, 20), None);
    assert_eq!(apply_exponent(-1, 21), None);
}

#[test]
fn every_refusal_says_why() {
    let f = frame(SCHEMA_V1, MSG_INSTRUMENT_DEFINITION, &[0u8; 4]);
    let short = decode_frame_with(&f[..23], TEST_MAGIC, &[1], |_, _, _, _, _| ()).unwrap_err();
    assert_eq!(short, DecodeError::TooShort { len: 23 });
    assert_eq!(short.message(), "datagram too short: 23 bytes");

    let magic = decode_frame_with(&f, 0x0d4b, &[1], |_, _, _, _, _| ()).unwrap_err();
    assert_eq!(magic, DecodeError::BadMagic { got: TEST_MAGIC, expected: 0x0d4b });
    assert_eq!(magic.message(), "bad magic 0x445A (expected 0x0D4B)");

    let version = decode_frame_with(&f, TEST_MAGIC, &[3, 12], |_, _, _, _, _| ()).unwrap_err();
    assert_eq!(
        version,
        DecodeError::UnsupportedVersion { version: 1, implemented: vec![3, 12] }
    );
    assert_eq!(version.message(), "unsupported schema version 1 (implemented: [3, 12])");
}

#[test]
fn the_walk_stops_at_a_message_that_runs_past_its_frame() {
    let mut f = frame(SCHEMA_V1, 9, &[0u8; 4]);
    f[20] = 3;
    f.extend_from_slice(&[8, 8, 0x34, 0x12, 0, 0, 0, 0]);
    f.extend_from_slice(&[7, 200, 0, 0]);
    let len = f.len() as u16;
    f[22..24].copy_from_slice(&len.to_le_bytes());
    let walked = |f: &[u8]| {
        decode_frame_with(f, TEST_MAGIC, &[1], |ty, flags, _b, off, ver| (ty, flags, off, ver))
            .unwrap()
            .1
    };
    assert_eq!(walked(&f), vec![(9, 0, 24, 1), (8, 0x1234, 32, 1)]);

    let mut runt = f.clone();
    runt[33] = 3;
    assert_eq!(walked(&runt), vec![(9, 0, 24, 1)], "a length below the header stops the walk");

    let mut fewer = f.clone();
    fewer[20] = 1;
    assert_eq!(walked(&fewer), vec![(9, 0, 24, 1)], "the count bounds the walk");

    let mut clamped = f;
    clamped[22..24].copy_from_slice(&u16::MAX.to_le_bytes());
    assert_eq!(walked(&clamped).len(), 2, "a frame length past the datagram is clamped");
}

#[test]
fn a_definition_is_keyed_by_id_and_manifest() {
    let d = instrument_definition(
        &frame(SCHEMA_V1, MSG_INSTRUMENT_DEFINITION, &def_body_v1(41, "BTC", -8, -6, 7)),
        FRAME_HEADER_SIZE,
        SCHEMA_V1,
    )
    .unwrap();
    assert_eq!((d.id(), d.manifest_seq()), (41, 7));
    assert!(instrument_definition(&[], 0, SCHEMA_V1).is_none());
    assert!(instrument_definition(&[0u8; 200], usize::MAX, SCHEMA_V3).is_none());
    let two = frame(2, MSG_INSTRUMENT_DEFINITION, &def_body_v3(41, 3, "BTC", -8, -6, 7));
    assert!(instrument_definition(&two, FRAME_HEADER_SIZE, 2).is_none());
}
