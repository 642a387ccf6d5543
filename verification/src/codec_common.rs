//! What the edge feed's protocols share: the 24-byte frame header, the 4-byte message header, the
//! bounds-checked little-endian readers, the instrument definition, and the walk over a frame's
//! messages.

use crate::model::VALUE_EXP;
use crate::text::{decimal_text, hex4_text, joined_text, push_decimal, push_hex4, push_joined};
use vstd::prelude::*;

verus! {

pub const FRAME_HEADER_SIZE: usize = 24;

pub const MSG_HEADER_SIZE: usize = 4;

/// The wire generations that are implemented. Generation 2 is absent: no publisher of these feeds
/// emits it.
pub const SCHEMA_V1: u8 = 1;

pub const SCHEMA_V3: u8 = 3;

/// Symbol widths and body lengths of an instrument definition per generation, without the message
/// header.
pub const DEF_SYM_LEN_V1: usize = 16;

pub const DEF_SYM_LEN_V3: usize = 64;

pub const DEF_BODY_LEN_V1: usize = 76;

pub const DEF_BODY_LEN_V3: usize = 126;

/// The frame header.
#[derive(Debug, Clone, Copy, PartialEq, Eq, Structural)]
pub struct FrameHeader {
    pub schema_version: u8,
    pub channel_id: u8,
    pub sequence: u64,
    pub send_ts: u64,
    pub msg_count: u8,
    pub reset_count: u8,
    pub frame_length: u16,
}

/// Why a datagram is refused whole.
#[derive(Debug, Clone, PartialEq, Eq)]
pub enum DecodeError {
    /// Shorter than a frame header.
    TooShort { len: usize },
    /// Not the protocol that was asked for.
    BadMagic { got: u16, expected: u16 },
    /// A wire generation that is not implemented.
    UnsupportedVersion { version: u8, implemented: Vec<u8> },
}

impl DecodeError {
    /// The text of [`DecodeError::message`].
    pub open spec fn text(self) -> Seq<char> {
        match self {
            DecodeError::TooShort { len } => "datagram too short: "@ + decimal_text(len as nat)
                + " bytes"@,
            DecodeError::BadMagic { got, expected } => "bad magic 0x"@ + hex4_text(got as nat)
                + " (expected 0x"@ + hex4_text(expected as nat) + ")"@,
            DecodeError::UnsupportedVersion { version, implemented } =>
                "unsupported schema version "@ + decimal_text(version as nat) + " (implemented: ["@
                    + joined_text(implemented@) + "])"@,
        }
    }

    /// What is wrong, in words.
    pub fn message(&self) -> (r: String)
        ensures
            r@ == self.text(),
    {
        let mut out = String::new();
        match self {
            DecodeError::TooShort { len } => {
                out.append("datagram too short: ");
                push_decimal(&mut out, *len as u64);
                out.append(" bytes");
            },
            DecodeError::BadMagic { got, expected } => {
                out.append("bad magic 0x");
                push_hex4(&mut out, *got);
                out.append(" (expected 0x");
                push_hex4(&mut out, *expected);
                out.append(")");
            },
            DecodeError::UnsupportedVersion { version, implemented } => {
                out.append("unsupported schema version ");
                push_decimal(&mut out, *version as u64);
                out.append(" (implemented: [");
                push_joined(&mut out, implemented);
                out.append("])");
            },
        }
        assert(out@ =~= self.text());
        out
    }
}

/// The little-endian number in the two bytes at `o`.
pub open spec fn le16(b: Seq<u8>, o: int) -> u16 {
    (b[o] + 0x100 * b[o + 1]) as u16
}

/// The little-endian number in the four bytes at `o`.
pub open spec fn le32(b: Seq<u8>, o: int) -> u32 {
    (le16(b, o) + 0x1_0000 * le16(b, o + 2)) as u32
}

/// The little-endian number in the eight bytes at `o`.
pub open spec fn le64(b: Seq<u8>, o: int) -> u64 {
    (le32(b, o) + 0x1_0000_0000 * le32(b, o + 4)) as u64
}

/// `v` as a two's complement number.
pub open spec fn signed64(v: u64) -> i64 {
    if v < 0x8000_0000_0000_0000 {
        v as i64
    } else {
        (v - 0x1_0000_0000_0000_0000) as i64
    }
}

/// `v` as a two's complement number.
pub open spec fn signed8(v: u8) -> i8 {
    if v < 0x80 {
        v as i8
    } else {
        (v - 0x100) as i8
    }
}

/// `n` bytes at `o` are inside `b`.
pub open spec fn fits(b: Seq<u8>, o: int, n: int) -> bool {
    o + n <= b.len()
}

/// Whether `n` bytes at `o` are inside `b`.
pub(crate) fn holds(b: &[u8], o: usize, n: usize) -> (r: bool)
    ensures
        r == fits(b@, o as int, n as int),
        b@.len() <= usize::MAX,
{
    n <= b.len() && o <= b.len() - n
}

pub(crate) fn get16(b: &[u8], o: usize) -> (r: u16)
    requires
        fits(b@, o as int, 2),
    ensures
        r == le16(b@, o as int),
{
    assert(b.len() == b@.len());
    b[o] as u16 + 0x100 * (b[o + 1] as u16)
}

pub(crate) fn get32(b: &[u8], o: usize) -> (r: u32)
    requires
        fits(b@, o as int, 4),
    ensures
        r == le32(b@, o as int),
{
    assert(b.len() == b@.len());
    get16(b, o) as u32 + 0x1_0000 * (get16(b, o + 2) as u32)
}

pub(crate) fn get64(b: &[u8], o: usize) -> (r: u64)
    requires
        fits(b@, o as int, 8),
    ensures
        r == le64(b@, o as int),
{
    assert(b.len() == b@.len());
    get32(b, o) as u64 + 0x1_0000_0000 * (get32(b, o + 4) as u64)
}

/// `v` read as a signed number.
pub(crate) fn as_signed(v: u64) -> (r: i64)
    ensures
        r == signed64(v),
{
    if v < 0x8000_0000_0000_0000 {
        v as i64
    } else {
        -((0xffff_ffff_ffff_ffff - v) as i64) - 1
    }
}

pub(crate) fn get_i64(b: &[u8], o: usize) -> (r: i64)
    requires
        fits(b@, o as int, 8),
    ensures
        r == signed64(le64(b@, o as int)),
{
    as_signed(get64(b, o))
}

pub(crate) fn get_i8(b: &[u8], o: usize) -> (r: i8)
    requires
        fits(b@, o as int, 1),
    ensures
        r == signed8(b@[o as int]),
{
    let v = b[o];
    if v < 0x80 {
        v as i8
    } else {
        -((0xff - v) as i8) - 1
    }
}

/// The byte at `o`.
pub fn u8le(b: &[u8], o: usize) -> (r: Option<u8>)
    ensures
        r == if fits(b@, o as int, 1) {
            Some(b@[o as int])
        } else {
            None
        },
{
    if holds(b, o, 1) {
        Some(b[o])
    } else {
        None
    }
}

/// The little-endian number in the two bytes at `o`, where they are there.
pub fn u16le(b: &[u8], o: usize) -> (r: Option<u16>)
    ensures
        r == if fits(b@, o as int, 2) {
            Some(le16(b@, o as int))
        } else {
            None
        },
{
    if holds(b, o, 2) {
        Some(get16(b, o))
    } else {
        None
    }
}

/// The little-endian number in the four bytes at `o`, where they are there.
pub fn u32le(b: &[u8], o: usize) -> (r: Option<u32>)
    ensures
        r == if fits(b@, o as int, 4) {
            Some(le32(b@, o as int))
        } else {
            None
        },
{
    if holds(b, o, 4) {
        Some(get32(b, o))
    } else {
        None
    }
}

/// The little-endian number in the eight bytes at `o`, where they are there.
pub fn u64le(b: &[u8], o: usize) -> (r: Option<u64>)
    ensures
        r == if fits(b@, o as int, 8) {
            Some(le64(b@, o as int))
        } else {
            None
        },
{
    if holds(b, o, 8) {
        Some(get64(b, o))
    } else {
        None
    }
}

/// The signed little-endian number in the eight bytes at `o`, where they are there.
pub fn i64le(b: &[u8], o: usize) -> (r: Option<i64>)
    ensures
        r == if fits(b@, o as int, 8) {
            Some(signed64(le64(b@, o as int)))
        } else {
            None
        },
{
    match u64le(b, o) {
        Some(v) => Some(as_signed(v)),
        None => None,
    }
}

/// Ten to the power of `n`.
pub open spec fn pow10(n: nat) -> int
    decreases n,
{
    if n == 0 {
        1
    } else {
        10 * pow10((n - 1) as nat)
    }
}

/// The whole number nearest to `n / unit`, halves up; but what is something is at least one.
pub open spec fn nearest(n: int, unit: int) -> int {
    let near = (n + unit / 2) / unit;
    if n != 0 && near == 0 {
        1
    } else {
        near
    }
}

/// `raw` scaled by ten to the `exponent`, in units of `10^-VALUE_EXP`: exact where the unit can express
/// it, else the nearest, halves away from zero. What is not zero is never taken for zero.
pub open spec fn scaled(raw: int, exponent: int) -> int {
    let shift = exponent + VALUE_EXP;
    if shift >= 0 {
        raw * pow10(shift as nat)
    } else if raw >= 0 {
        nearest(raw, pow10((-shift) as nat))
    } else {
        -nearest(-raw, pow10((-shift) as nat))
    }
}

proof fn lemma_pow10_grows(m: nat, n: nat)
    requires
        m <= n,
    ensures
        1 <= pow10(m) <= pow10(n),
    decreases n,
{
    if n > 0 {
        lemma_pow10_grows(0, (n - 1) as nat);
        if m < n {
            lemma_pow10_grows(m, (n - 1) as nat);
        }
    }
}

proof fn lemma_pow10_known()
    ensures
        pow10(19) == 10_000_000_000_000_000_000,
        pow10(20) == 100_000_000_000_000_000_000,
{
    reveal_with_fuel(pow10, 21);
}

proof fn lemma_scaled_grows(raw: int, m: nat, n: nat)
    requires
        m <= n,
    ensures
        raw >= 0 ==> raw * pow10(m) <= raw * pow10(n),
        raw <= 0 ==> raw * pow10(m) >= raw * pow10(n),
{
    lemma_pow10_grows(m, n);
    let a = pow10(m);
    let b = pow10(n);
    assert(raw >= 0 ==> raw * a <= raw * b) by (nonlinear_arith)
        requires
            a <= b,
    ;
    assert(raw <= 0 ==> raw * a >= raw * b) by (nonlinear_arith)
        requires
            a <= b,
    ;
}

/// Ten to the power of `n`, for the powers that a 64-bit number can be rounded by.
fn small_power(n: u8) -> (r: i128)
    requires
        n <= 19,
    ensures
        r == pow10(n as nat),
        1 <= r <= 10_000_000_000_000_000_000,
{
    let mut r: i128 = 1;
    let mut i: u8 = 0;
    while i < n
        invariant
            i <= n <= 19,
            r == pow10(i as nat),
        decreases n - i,
    {
        proof {
            lemma_pow10_grows(i as nat, 19);
            lemma_pow10_known();
        }
        r = 10 * r;
        i += 1;
    }
    proof {
        lemma_pow10_grows(n as nat, 19);
        lemma_pow10_known();
    }
    r
}

/// A raw price or quantity with its implied decimal exponent applied, in units of
/// `10^-VALUE_EXP`; `None` where it does not fit.
pub fn apply_exponent(raw: i64, exponent: i8) -> (r: Option<i128>)
    ensures
        r == if i128::MIN <= scaled(raw as int, exponent as int) <= i128::MAX {
            Some(scaled(raw as int, exponent as int) as i128)
        } else {
            None
        },
{
    let shift: i16 = exponent as i16 + 18;
    if shift >= 0 {
        let mut acc: i128 = raw as i128;
        let mut i: i16 = 0;
        assert(raw * pow10(0) == raw);
        while i < shift
            invariant
                0 <= i <= shift,
                shift == exponent + VALUE_EXP,
                acc == raw * pow10(i as nat),
            decreases shift - i,
        {
            proof {
                lemma_scaled_grows(raw as int, (i + 1) as nat, shift as nat);
                let p = pow10(i as nat);
                assert(raw * (10 * p) == 10 * (raw * p)) by (nonlinear_arith);
            }
            if acc > 17_014_118_346_046_923_173_168_730_371_588_410_572 || acc
                < -17_014_118_346_046_923_173_168_730_371_588_410_572 {
                proof {
                    lemma_scaled_grows(raw as int, 0, i as nat);
                }
                return None;
            }
            acc = acc * 10;
            i += 1;
        }
        Some(acc)
    } else {
        let ghost unit = pow10((-shift) as nat);
        if -shift >= 20 {
            proof {
                lemma_pow10_grows(20, (-shift) as nat);
                lemma_pow10_known();
                let up = if raw >= 0 {
                    raw as int
                } else {
                    -(raw as int)
                };
                assert((up + unit / 2) / unit == 0) by (nonlinear_arith)
                    requires
                        0 <= up <= 10_000_000_000_000_000_000,
                        unit >= 100_000_000_000_000_000_000,
                ;
            }
            return Some(
                if raw > 0 {
                    1
                } else if raw < 0 {
                    -1
                } else {
                    0
                },
            );
        }
        let unit: i128 = small_power((-shift) as u8);
        let half: i128 = unit / 2;
        if raw >= 0 {
            let sum: i128 = raw as i128 + half;
            proof {
                lemma_quotient(sum as int, unit as int);
            }
            let near: i128 = sum / unit;
            Some(
                if raw != 0 && near == 0 {
                    1
                } else {
                    near
                },
            )
        } else {
            let sum: i128 = -(raw as i128) + half;
            proof {
                lemma_quotient(sum as int, unit as int);
            }
            let near: i128 = sum / unit;
            Some(
                if near == 0 {
                    -1
                } else {
                    -near
                },
            )
        }
    }
}

proof fn lemma_quotient(a: int, b: int)
    by (nonlinear_arith)
    requires
        0 <= a,
        1 <= b,
    ensures
        0 <= a / b <= a,
{
}

/// A raw value is zero exactly if what it is scaled to is: a quantity that is there never reads as one
/// that is gone.
pub proof fn law_something_is_never_nothing(raw: int, exponent: int)
    ensures
        scaled(raw, exponent) == 0 <==> raw == 0,
        raw > 0 ==> scaled(raw, exponent) > 0,
        raw < 0 ==> scaled(raw, exponent) < 0,
{
    let shift = exponent + VALUE_EXP;
    if shift >= 0 {
        lemma_pow10_grows(0, shift as nat);
        let p = pow10(shift as nat);
        assert(raw > 0 ==> raw * p > 0) by (nonlinear_arith)
            requires
                p >= 1,
        ;
        assert(raw < 0 ==> raw * p < 0) by (nonlinear_arith)
            requires
                p >= 1,
        ;
    } else {
        lemma_pow10_grows(0, (-shift) as nat);
        let p = pow10((-shift) as nat);
        let n = if raw >= 0 {
            raw
        } else {
            -raw
        };
        lemma_quotient(n + p / 2, p);
        assert((0 + p / 2) / p == 0) by (nonlinear_arith)
            requires
                p >= 1,
        ;
    }
}

/// The text that `String::from_utf8_lossy` makes of `bytes`.
pub uninterp spec fn lossy_text(bytes: Seq<u8>) -> Seq<char>;

/// `String::from_utf8_lossy`: the text of the bytes. Bytes that are UTF-8 read as the characters they
/// encode; what the replacement of other bytes looks like is left to the name.
#[verifier::external_body]
fn lossy(bytes: &[u8]) -> (r: String)
    ensures
        r@ == lossy_text(bytes@),
        vstd::utf8::valid_utf8(bytes@) ==> r@ == vstd::utf8::decode_utf8(bytes@),
{
    String::from_utf8_lossy(bytes).into_owned()
}

/// Bytes as text: the characters that they encode, or what `String::from_utf8_lossy` makes of them
/// where they are not UTF-8.
pub open spec fn text_of(bytes: Seq<u8>) -> Seq<char> {
    if vstd::utf8::valid_utf8(bytes) {
        vstd::utf8::decode_utf8(bytes)
    } else {
        lossy_text(bytes)
    }
}

/// The position of the first NUL in `field`, its length if there is none.
pub open spec fn nul_at(field: Seq<u8>) -> int
    decreases field.len(),
{
    if field.len() == 0 || field[0] == 0 {
        0
    } else {
        1 + nul_at(field.drop_first())
    }
}

/// The bytes of `field` before its first NUL.
pub open spec fn until_nul(field: Seq<u8>) -> Seq<u8> {
    field.take(nul_at(field))
}

proof fn lemma_nul_at(field: Seq<u8>, end: int)
    requires
        0 <= end <= field.len(),
        forall|i: int| 0 <= i < end ==> field[i] != 0,
        end < field.len() ==> field[end] == 0,
    ensures
        nul_at(field) == end,
    decreases end,
{
    if end > 0 {
        lemma_nul_at(field.drop_first(), end - 1);
    }
}

/// The text of a fixed-width, NUL-padded field, where the field is inside the buffer.
pub fn cstr(b: &[u8], start: usize, len: usize) -> (r: Option<String>)
    ensures
        match r {
            Some(s) => fits(b@, start as int, len as int) && s@ == text_of(
                until_nul(b@.subrange(start as int, start + len)),
            ),
            None => !fits(b@, start as int, len as int),
        },
{
    if !holds(b, start, len) {
        return None;
    }
    let ghost field = b@.subrange(start as int, start + len);
    let mut end: usize = 0;
    while end < len && b[start + end] != 0
        invariant
            end <= len,
            start + len <= b@.len() <= usize::MAX,
            field == b@.subrange(start as int, start + len),
            forall|i: int| 0 <= i < end ==> field[i] != 0,
        decreases len - end,
    {
        end += 1;
    }
    proof {
        lemma_nul_at(field, end as int);
        assert(until_nul(field) =~= b@.subrange(start as int, start + end));
    }
    Some(lossy(vstd::slice::slice_subrange(b, start, start + end)))
}

/// What a subscriber keys reference data on.
pub trait InstrumentDef {
    spec fn wire_id(&self) -> u32;

    spec fn wire_manifest_seq(&self) -> u16;

    fn id(&self) -> (r: u32)
        ensures
            r == self.wire_id(),
    ;

    fn manifest_seq(&self) -> (r: u16)
        ensures
            r == self.wire_manifest_seq(),
    ;
}

/// The instrument definition of the feeds whose layout widened together. A generation 1 frame carries
/// no source id.
#[derive(Debug, Clone, PartialEq, Eq)]
pub struct InstrumentDefinition {
    pub instrument_id: u32,
    pub source_id: Option<u16>,
    pub symbol: String,
    pub price_exponent: i8,
    pub qty_exponent: i8,
    pub manifest_seq: u16,
}

/// An [`InstrumentDefinition`], its symbol as text.
pub struct DefinitionView {
    pub instrument_id: u32,
    pub source_id: Option<u16>,
    pub symbol: Seq<char>,
    pub price_exponent: i8,
    pub qty_exponent: i8,
    pub manifest_seq: u16,
}

impl View for InstrumentDefinition {
    type V = DefinitionView;

    open spec fn view(&self) -> DefinitionView {
        DefinitionView {
            instrument_id: self.instrument_id,
            source_id: self.source_id,
            symbol: self.symbol@,
            price_exponent: self.price_exponent,
            qty_exponent: self.qty_exponent,
            manifest_seq: self.manifest_seq,
        }
    }
}

impl InstrumentDef for InstrumentDefinition {
    open spec fn wire_id(&self) -> u32 {
        self.instrument_id
    }

    open spec fn wire_manifest_seq(&self) -> u16 {
        self.manifest_seq
    }

    fn id(&self) -> (r: u32) {
        self.instrument_id
    }

    fn manifest_seq(&self) -> (r: u16) {
        self.manifest_seq
    }
}

/// The symbol in the field of `len` bytes at `o`.
pub open spec fn symbol_at(b: Seq<u8>, o: int, len: int) -> Seq<char> {
    text_of(until_nul(b.subrange(o, o + len)))
}

/// The body length that a generation's definition needs.
pub open spec fn definition_body(schema_version: u8) -> Option<int> {
    if schema_version == SCHEMA_V1 {
        Some(DEF_BODY_LEN_V1 as int)
    } else if schema_version == SCHEMA_V3 {
        Some(DEF_BODY_LEN_V3 as int)
    } else {
        None
    }
}

/// The definition in the message at `m`: there where the generation is implemented, the declared
/// length covers its layout, and the buffer holds it. A longer declared length is a later minor
/// version's and still decodes.
pub open spec fn definition_at(b: Seq<u8>, m: int, schema_version: u8) -> Option<DefinitionView> {
    let body = m + MSG_HEADER_SIZE;
    match definition_body(schema_version) {
        Some(need) => if fits(b, body, need) && b[m + 1] - MSG_HEADER_SIZE >= need {
            Some(
                if schema_version == SCHEMA_V1 {
                    DefinitionView {
                        instrument_id: le32(b, body),
                        source_id: None,
                        symbol: symbol_at(b, body + 4, DEF_SYM_LEN_V1 as int),
                        price_exponent: signed8(b[body + 37]),
                        qty_exponent: signed8(b[body + 38]),
                        manifest_seq: le16(b, body + 74),
                    }
                } else {
                    DefinitionView {
                        instrument_id: le32(b, body),
                        source_id: Some(le16(b, body + 4)),
                        symbol: symbol_at(b, body + 6, DEF_SYM_LEN_V3 as int),
                        price_exponent: signed8(b[body + 87]),
                        qty_exponent: signed8(b[body + 88]),
                        manifest_seq: le16(b, body + 124),
                    }
                },
            )
        } else {
            None
        },
        None => None,
    }
}

/// A field's text where the field is known to be inside the buffer.
pub(crate) fn symbol(b: &[u8], start: usize, len: usize) -> (r: String)
    requires
        fits(b@, start as int, len as int),
    ensures
        r@ == symbol_at(b@, start as int, len as int),
{
    match cstr(b, start, len) {
        Some(s) => s,
        None => String::new(),
    }
}

/// Decode the definition in the message at `msg_offset` by the layout its frame's generation declares.
pub fn instrument_definition(b: &[u8], msg_offset: usize, schema_version: u8) -> (r: Option<
    InstrumentDefinition,
>)
    ensures
        match r {
            Some(d) => Some(d@) == definition_at(b@, msg_offset as int, schema_version),
            None => definition_at(b@, msg_offset as int, schema_version) is None,
        },
{
    let need: usize = if schema_version == SCHEMA_V1 {
        DEF_BODY_LEN_V1
    } else if schema_version == SCHEMA_V3 {
        DEF_BODY_LEN_V3
    } else {
        return None;
    };
    if !holds(b, msg_offset, MSG_HEADER_SIZE + need) {
        return None;
    }
    if (b[msg_offset + 1] as usize) < MSG_HEADER_SIZE + need {
        return None;
    }
    let body: usize = msg_offset + MSG_HEADER_SIZE;
    if schema_version == SCHEMA_V1 {
        Some(
            InstrumentDefinition {
                instrument_id: get32(b, body),
                source_id: None,
                symbol: symbol(b, body + 4, DEF_SYM_LEN_V1),
                price_exponent: get_i8(b, body + 37),
                qty_exponent: get_i8(b, body + 38),
                manifest_seq: get16(b, body + 74),
            },
        )
    } else {
        Some(
            InstrumentDefinition {
                instrument_id: get32(b, body),
                source_id: Some(get16(b, body + 4)),
                symbol: symbol(b, body + 6, DEF_SYM_LEN_V3),
                price_exponent: get_i8(b, body + 87),
                qty_exponent: get_i8(b, body + 88),
                manifest_seq: get16(b, body + 124),
            },
        )
    }
}

/// The header of a datagram that is long enough to have one.
pub open spec fn header_of(b: Seq<u8>) -> FrameHeader {
    FrameHeader {
        schema_version: b[2],
        channel_id: b[3],
        sequence: le64(b, 4),
        send_ts: le64(b, 12),
        msg_count: b[20],
        reset_count: b[21],
        frame_length: le16(b, 22),
    }
}

/// Where the frame ends: where it says, or where the datagram does if that is sooner.
pub open spec fn frame_end(b: Seq<u8>) -> int {
    if le16(b, 22) <= b.len() {
        le16(b, 22) as int
    } else {
        b.len() as int
    }
}

/// The offsets of the messages from `off` on, `count` at most. The walk moves by each message's
/// declared length, and stops at one that is shorter than its header or runs past the frame.
pub open spec fn walk(b: Seq<u8>, end: int, off: int, count: nat) -> Seq<int>
    decreases count,
{
    if count == 0 || off + MSG_HEADER_SIZE > end || b[off + 1] < MSG_HEADER_SIZE || off + b[off + 1]
        > end {
        Seq::empty()
    } else {
        seq![off] + walk(b, end, off + b[off + 1], (count - 1) as nat)
    }
}

/// The offsets of a datagram's messages.
pub open spec fn offsets(b: Seq<u8>) -> Seq<int> {
    walk(b, frame_end(b), FRAME_HEADER_SIZE as int, b[20] as nat)
}

/// Why a datagram is refused, if it is.
pub open spec fn refusal(b: Seq<u8>, magic: u16, supported: Seq<u8>) -> Option<DecodeReason> {
    if b.len() < FRAME_HEADER_SIZE {
        Some(DecodeReason::TooShort)
    } else if le16(b, 0) != magic {
        Some(DecodeReason::BadMagic)
    } else if !supported.contains(b[2]) {
        Some(DecodeReason::UnsupportedVersion)
    } else {
        None
    }
}

/// The grounds of a [`DecodeError`].
pub enum DecodeReason {
    TooShort,
    BadMagic,
    UnsupportedVersion,
}

impl DecodeError {
    /// The error says why this datagram is refused.
    pub open spec fn explains(
        self,
        reason: DecodeReason,
        b: Seq<u8>,
        magic: u16,
        supported: Seq<u8>,
    ) -> bool {
        match reason {
            DecodeReason::TooShort => self matches DecodeError::TooShort { len } && len == b.len(),
            DecodeReason::BadMagic => self == (DecodeError::BadMagic {
                got: le16(b, 0),
                expected: magic,
            }),
            DecodeReason::UnsupportedVersion => self matches DecodeError::UnsupportedVersion {
                version,
                implemented,
            } && version == b[2] && implemented@ == supported,
        }
    }
}

/// Whether `v` is among the bytes.
fn lists(bytes: &[u8], v: u8) -> (r: bool)
    ensures
        r == bytes@.contains(v),
{
    let mut i: usize = 0;
    while i < bytes.len()
        invariant
            i <= bytes@.len(),
            forall|j: int| 0 <= j < i ==> bytes@[j] != v,
        decreases bytes@.len() - i,
    {
        if bytes[i] == v {
            assert(bytes@[i as int] == v);
            return true;
        }
        i += 1;
    }
    false
}

/// Decode one datagram into its header and its messages, with the protocol's magic, the generations
/// it implements and its decoder of one message. `decode_message(msg_type, flags, buf, offset,
/// schema_version)` is called once per message, with the offset of the message's header.
pub fn decode_frame_with<M, F: Fn(u8, u16, &[u8], usize, u8) -> M>(
    buf: &[u8],
    magic: u16,
    supported_versions: &[u8],
    decode_message: F,
) -> (r: Result<(FrameHeader, Vec<M>), DecodeError>)
    requires
        forall|off: usize|
            fits(buf@, off as int, MSG_HEADER_SIZE as int) && fits(
                buf@,
                off as int,
                buf@[off + 1] as int,
            ) ==> #[trigger] decode_message.requires(
                (buf@[off as int], le16(buf@, off + 2), buf, off, buf@[2]),
            ),
    ensures
        match r {
            Ok((header, messages)) => {
                let at = offsets(buf@);
                &&& refusal(buf@, magic, supported_versions@) is None
                &&& header == header_of(buf@)
                &&& messages@.len() == at.len()
                &&& forall|i: int|
                    0 <= i < at.len() ==> decode_message.ensures(
                        (buf@[at[i]], le16(buf@, at[i] + 2), buf, at[i] as usize, buf@[2]),
                        #[trigger] messages@[i],
                    )
            },
            Err(e) => {
                &&& refusal(buf@, magic, supported_versions@) is Some
                &&& e.explains(
                    refusal(buf@, magic, supported_versions@)->0,
                    buf@,
                    magic,
                    supported_versions@,
                )
            },
        },
{
    if buf.len() < FRAME_HEADER_SIZE {
        return Err(DecodeError::TooShort { len: buf.len() });
    }
    let got = get16(buf, 0);
    if got != magic {
        return Err(DecodeError::BadMagic { got, expected: magic });
    }
    let header = FrameHeader {
        schema_version: buf[2],
        channel_id: buf[3],
        sequence: get64(buf, 4),
        send_ts: get64(buf, 12),
        msg_count: buf[20],
        reset_count: buf[21],
        frame_length: get16(buf, 22),
    };
    if !lists(supported_versions, header.schema_version) {
        return Err(
            DecodeError::UnsupportedVersion {
                version: header.schema_version,
                implemented: vstd::slice::slice_to_vec(supported_versions),
            },
        );
    }
    let end: usize = if header.frame_length as usize <= buf.len() {
        header.frame_length as usize
    } else {
        buf.len()
    };
    let mut messages: Vec<M> = Vec::new();
    let mut off: usize = FRAME_HEADER_SIZE;
    let mut left: u8 = header.msg_count;
    let ghost at = offsets(buf@);
    proof {
        assert(Seq::<int>::empty() + at =~= at);
    }
    let ghost mut done = Seq::<int>::empty();
    while left > 0
        invariant
            end == frame_end(buf@),
            end <= buf@.len(),
            FRAME_HEADER_SIZE <= off,
            off <= end || off == FRAME_HEADER_SIZE,
            header.schema_version == buf@[2],
            buf@.len() >= FRAME_HEADER_SIZE,
            at == done + walk(buf@, end as int, off as int, left as nat),
            messages@.len() == done.len(),
            forall|i: int|
                0 <= i < done.len() ==> decode_message.ensures(
                    (buf@[done[i]], le16(buf@, done[i] + 2), buf, done[i] as usize, buf@[2]),
                    #[trigger] messages@[i],
                ),
            forall|off: usize|
                fits(buf@, off as int, MSG_HEADER_SIZE as int) && fits(
                    buf@,
                    off as int,
                    buf@[off + 1] as int,
                ) ==> #[trigger] decode_message.requires(
                    (buf@[off as int], le16(buf@, off + 2), buf, off, buf@[2]),
                ),
        ensures
            at == done,
            messages@.len() == done.len(),
            forall|i: int|
                0 <= i < done.len() ==> decode_message.ensures(
                    (buf@[done[i]], le16(buf@, done[i] + 2), buf, done[i] as usize, buf@[2]),
                    #[trigger] messages@[i],
                ),
        decreases left,
    {
        if end < MSG_HEADER_SIZE || off > end - MSG_HEADER_SIZE {
            assert(done + Seq::<int>::empty() =~= done);
            break;
        }
        let msg_len: usize = buf[off + 1] as usize;
        if msg_len < MSG_HEADER_SIZE || msg_len > end - off {
            assert(done + Seq::<int>::empty() =~= done);
            break;
        }
        let message = decode_message(
            buf[off],
            get16(buf, off + 2),
            buf,
            off,
            header.schema_version,
        );
        messages.push(message);
        proof {
            let rest = walk(buf@, end as int, off + msg_len, (left - 1) as nat);
            assert(done + (seq![off as int] + rest) =~= done.push(off as int) + rest);
            done = done.push(off as int);
        }
        off += msg_len;
        left -= 1;
        assert(left == 0 ==> done + Seq::<int>::empty() =~= done);
    }
    Ok((header, messages))
}

proof fn lemma_walk(b: Seq<u8>, end: int, off: int, count: nat, i: int)
    requires
        0 <= i < walk(b, end, off, count).len(),
        0 <= off,
    ensures
        ({
            let at = walk(b, end, off, count);
            &&& at[0] == off
            &&& at.len() <= count
            &&& off <= at[i]
            &&& MSG_HEADER_SIZE <= b[at[i] + 1]
            &&& at[i] + b[at[i] + 1] <= end
            &&& i + 1 < at.len() ==> at[i + 1] == at[i] + b[at[i] + 1]
        }),
    decreases count,
{
    let rest = walk(b, end, off + b[off + 1], (count - 1) as nat);
    if i > 0 {
        lemma_walk(b, end, off + b[off + 1], (count - 1) as nat, i - 1);
    } else if rest.len() > 0 {
        lemma_walk(b, end, off + b[off + 1], (count - 1) as nat, 0);
    }
    if rest.len() > 0 {
        lemma_walk(b, end, off + b[off + 1], (count - 1) as nat, rest.len() - 1);
    }
}

/// Every message lies inside the frame and the datagram, starts where the one before it ends, and
/// there are no more of them than the header says.
pub proof fn law_messages_tile_the_frame(b: Seq<u8>, i: int)
    requires
        FRAME_HEADER_SIZE <= b.len(),
        0 <= i < offsets(b).len(),
    ensures
        ({
            let at = offsets(b);
            &&& at[0] == FRAME_HEADER_SIZE
            &&& at.len() <= header_of(b).msg_count
            &&& FRAME_HEADER_SIZE <= at[i]
            &&& at[i] + MSG_HEADER_SIZE <= at[i] + b[at[i] + 1] <= frame_end(b) <= b.len()
            &&& i + 1 < at.len() ==> at[i + 1] == at[i] + b[at[i] + 1]
        }),
{
    lemma_walk(b, frame_end(b), FRAME_HEADER_SIZE as int, b[20] as nat, i);
}

proof fn lemma_first_nul(field: Seq<u8>)
    ensures
        0 <= nul_at(field) <= field.len(),
        forall|i: int| 0 <= i < nul_at(field) ==> field[i] != 0,
        nul_at(field) < field.len() ==> field[nul_at(field)] == 0,
    decreases field.len(),
{
    if field.len() > 0 && field[0] != 0 {
        let rest = field.drop_first();
        lemma_first_nul(rest);
        assert forall|i: int| 0 <= i < nul_at(field) implies field[i] != 0 by {
            if i > 0 {
                assert(rest[i - 1] == field[i]);
            }
        }
    }
}

/// A symbol ends before its first NUL, or at its field's width if there is none.
pub proof fn law_a_symbol_ends_at_its_first_nul(field: Seq<u8>)
    ensures
        until_nul(field).len() <= field.len(),
        until_nul(field) == field.take(until_nul(field).len() as int),
        forall|i: int| 0 <= i < until_nul(field).len() ==> until_nul(field)[i] != 0,
        until_nul(field).len() < field.len() ==> field[until_nul(field).len() as int] == 0,
{
    lemma_first_nul(field);
}

/// A definition whose declared length does not cover its generation's layout never decodes, whatever
/// bytes follow it; nor does one of a generation that is not implemented.
pub proof fn law_a_short_definition_is_refused(b: Seq<u8>, m: int, schema_version: u8)
    requires
        schema_version != SCHEMA_V1 || b[m + 1] < MSG_HEADER_SIZE + DEF_BODY_LEN_V1,
        schema_version != SCHEMA_V3 || b[m + 1] < MSG_HEADER_SIZE + DEF_BODY_LEN_V3,
    ensures
        definition_at(b, m, schema_version) is None,
{
}

/// One instrument written in both generations decodes to the same definition but for the source id,
/// which the first cannot carry.
pub proof fn law_both_generations_decode_the_same_instrument(
    one: Seq<u8>,
    m1: int,
    three: Seq<u8>,
    m3: int,
)
    requires
        definition_at(one, m1, SCHEMA_V1) is Some,
        definition_at(three, m3, SCHEMA_V3) is Some,
        le32(one, m1 + 4) == le32(three, m3 + 4),
        until_nul(one.subrange(m1 + 8, m1 + 24)) == until_nul(three.subrange(m3 + 10, m3 + 74)),
        one[m1 + 41] == three[m3 + 91],
        one[m1 + 42] == three[m3 + 92],
        le16(one, m1 + 78) == le16(three, m3 + 128),
    ensures
        definition_at(three, m3, SCHEMA_V3)->0 == (DefinitionView {
            source_id: Some(le16(three, m3 + 8)),
            ..definition_at(one, m1, SCHEMA_V1)->0
        }),
        (definition_at(one, m1, SCHEMA_V1)->0).source_id is None,
{
}

} // verus!
