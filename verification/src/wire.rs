//! The wire's layout, written out field by field: what a publisher puts in a datagram.

use crate::codec_common::{le16, le32, le64, signed64, signed8};
use vstd::prelude::*;

verus! {

/// The `width` bytes of `v`, least significant first.
pub open spec fn little_endian(v: nat, width: nat) -> Seq<u8>
    decreases width,
{
    if width == 0 {
        Seq::empty()
    } else {
        seq![(v % 256) as u8] + little_endian(v / 256, (width - 1) as nat)
    }
}

/// A signed number of eight bytes in two's complement.
pub open spec fn complement64(v: i64) -> nat {
    if v >= 0 {
        v as nat
    } else {
        (v + 0x1_0000_0000_0000_0000) as nat
    }
}

/// A signed number of one byte in two's complement.
pub open spec fn complement8(v: i8) -> nat {
    if v >= 0 {
        v as nat
    } else {
        (v + 0x100) as nat
    }
}

pub open spec fn one(v: u8) -> Seq<u8> {
    little_endian(v as nat, 1)
}

pub open spec fn two(v: u16) -> Seq<u8> {
    little_endian(v as nat, 2)
}

pub open spec fn four(v: u32) -> Seq<u8> {
    little_endian(v as nat, 4)
}

pub open spec fn eight(v: u64) -> Seq<u8> {
    little_endian(v as nat, 8)
}

pub open spec fn signed_eight(v: i64) -> Seq<u8> {
    little_endian(complement64(v), 8)
}

pub open spec fn signed_one(v: i8) -> Seq<u8> {
    little_endian(complement8(v), 1)
}

/// A flag: one for yes.
pub open spec fn yes_no(v: bool) -> Seq<u8> {
    one(
        if v {
            1
        } else {
            0
        },
    )
}

/// A count that may be missing, which the wire says with its largest number.
pub open spec fn countable(v: Option<u16>) -> Seq<u8> {
    two(
        match v {
            Some(n) => n,
            None => 0xffff,
        },
    )
}

/// A text in a field of `width` bytes, filled up with zeros.
pub open spec fn padded(text: Seq<u8>, width: nat) -> Seq<u8> {
    Seq::new(
        width,
        |i: int|
            if i < text.len() {
                text[i]
            } else {
                0u8
            },
    )
}

/// Parts written one behind the other.
pub open spec fn written(parts: Seq<Seq<u8>>) -> Seq<u8>
    decreases parts.len(),
{
    if parts.len() == 0 {
        Seq::empty()
    } else {
        written(parts.drop_last()) + parts.last()
    }
}

/// Where part number `i` starts.
pub open spec fn place(parts: Seq<Seq<u8>>, i: int) -> int
    decreases i,
{
    if i <= 0 {
        0
    } else {
        place(parts, i - 1) + parts[i - 1].len()
    }
}

/// The bytes of `b` from `o` on start with `s`.
pub open spec fn stands_at(b: Seq<u8>, o: int, s: Seq<u8>) -> bool {
    0 <= o && o + s.len() <= b.len() && b.subrange(o, o + s.len()) == s
}

pub proof fn lemma_little_endian_len(v: nat, width: nat)
    ensures
        little_endian(v, width).len() == width,
    decreases width,
{
    if width > 0 {
        lemma_little_endian_len(v / 256, (width - 1) as nat);
    }
}

/// A number keeps its bytes when it is written in two halves.
proof fn lemma_halves(v: nat, a: nat, b: nat, power: nat)
    requires
        power == pow256(a),
    ensures
        little_endian(v, a + b) == little_endian(v, a) + little_endian(v / power, b),
    decreases a,
{
    if a > 0 {
        lemma_pow256(a);
        lemma_pow256((a - 1) as nat);
        let low = pow256((a - 1) as nat);
        lemma_halves(v / 256, (a - 1) as nat, b, low);
        assert(v / 256 / low == v / (256 * low)) by (nonlinear_arith)
            requires
                low >= 1,
        ;
        assert(little_endian(v, a + b) =~= little_endian(v, a) + little_endian(v / power, b));
    } else {
        assert(v / 1 == v);
        assert(little_endian(v, a + b) =~= little_endian(v, a) + little_endian(v / power, b));
    }
}

spec fn pow256(n: nat) -> nat
    decreases n,
{
    if n == 0 {
        1
    } else {
        256 * pow256((n - 1) as nat)
    }
}

proof fn lemma_pow256(n: nat)
    ensures
        pow256(n) >= 1,
    decreases n,
{
    if n > 0 {
        lemma_pow256((n - 1) as nat);
    }
}

proof fn lemma_read_two(b: Seq<u8>, o: int, v: nat)
    requires
        stands_at(b, o, little_endian(v, 2)),
    ensures
        le16(b, o) == v % 0x1_0000,
{
    reveal_with_fuel(little_endian, 3);
    let s = little_endian(v, 2);
    assert(b[o] == b.subrange(o, o + s.len())[0]);
    assert(b[o + 1] == b.subrange(o, o + s.len())[1]);
    assert(s[0] == v % 256);
    assert(s[1] == v / 256 % 256);
}

proof fn lemma_read_four(b: Seq<u8>, o: int, v: nat)
    requires
        stands_at(b, o, little_endian(v, 4)),
    ensures
        le32(b, o) == v % 0x1_0000_0000,
{
    reveal_with_fuel(pow256, 3);
    lemma_halves(v, 2, 2, 0x1_0000);
    lemma_little_endian_len(v, 2);
    lemma_little_endian_len(v / 0x1_0000, 2);
    let s = little_endian(v, 4);
    assert(b.subrange(o, o + 2) =~= s.subrange(0, 2));
    assert(b.subrange(o + 2, o + 4) =~= s.subrange(2, 4));
    assert(s.subrange(0, 2) =~= little_endian(v, 2));
    assert(s.subrange(2, 4) =~= little_endian(v / 0x1_0000, 2));
    lemma_read_two(b, o, v);
    lemma_read_two(b, o + 2, v / 0x1_0000);
}

proof fn lemma_read_eight(b: Seq<u8>, o: int, v: nat)
    requires
        stands_at(b, o, little_endian(v, 8)),
    ensures
        le64(b, o) == v % 0x1_0000_0000_0000_0000,
{
    reveal_with_fuel(pow256, 5);
    lemma_halves(v, 4, 4, 0x1_0000_0000);
    lemma_little_endian_len(v, 4);
    lemma_little_endian_len(v / 0x1_0000_0000, 4);
    let s = little_endian(v, 8);
    assert(b.subrange(o, o + 4) =~= s.subrange(0, 4));
    assert(b.subrange(o + 4, o + 8) =~= s.subrange(4, 8));
    assert(s.subrange(0, 4) =~= little_endian(v, 4));
    assert(s.subrange(4, 8) =~= little_endian(v / 0x1_0000_0000, 4));
    lemma_read_four(b, o, v);
    lemma_read_four(b, o + 4, v / 0x1_0000_0000);
}

/// A number that was written in little-endian order is the number that is read.
pub proof fn law_numbers_read_as_written(b: Seq<u8>, o: int)
    ensures
        forall|v: u8| #[trigger] stands_at(b, o, one(v)) ==> b[o] == v,
        forall|v: u16| #[trigger] stands_at(b, o, two(v)) ==> le16(b, o) == v,
        forall|v: u32| #[trigger] stands_at(b, o, four(v)) ==> le32(b, o) == v,
        forall|v: u64| #[trigger] stands_at(b, o, eight(v)) ==> le64(b, o) == v,
        forall|v: i64| #[trigger]
            stands_at(b, o, signed_eight(v)) ==> signed64(le64(b, o)) == v,
        forall|v: i8| #[trigger] stands_at(b, o, signed_one(v)) ==> signed8(b[o]) == v,
{
    reveal_with_fuel(little_endian, 2);
    assert forall|v: nat| #[trigger] stands_at(b, o, little_endian(v, 1)) implies b[o] == v % 256 by {
        assert(b[o] == b.subrange(o, o + 1)[0]);
    }
    assert forall|v: u8| #[trigger] stands_at(b, o, one(v)) implies b[o] == v by {
        assert(stands_at(b, o, little_endian(v as nat, 1)));
    }
    assert forall|v: i8| #[trigger] stands_at(b, o, signed_one(v)) implies signed8(b[o]) == v by {
        assert(stands_at(b, o, little_endian(complement8(v), 1)));
    }
    assert forall|v: u16| #[trigger] stands_at(b, o, two(v)) implies le16(b, o) == v by {
        lemma_read_two(b, o, v as nat);
    }
    assert forall|v: u32| #[trigger] stands_at(b, o, four(v)) implies le32(b, o) == v by {
        lemma_read_four(b, o, v as nat);
    }
    assert forall|v: u64| #[trigger] stands_at(b, o, eight(v)) implies le64(b, o) == v by {
        lemma_read_eight(b, o, v as nat);
    }
    assert forall|v: i64| #[trigger] stands_at(b, o, signed_eight(v)) implies signed64(le64(b, o))
        == v by {
        lemma_read_eight(b, o, complement64(v));
    }
}

pub proof fn lemma_lens()
    ensures
        forall|v: u8| (#[trigger] one(v)).len() == 1,
        forall|v: u16| (#[trigger] two(v)).len() == 2,
        forall|v: u32| (#[trigger] four(v)).len() == 4,
        forall|v: u64| (#[trigger] eight(v)).len() == 8,
        forall|v: i64| (#[trigger] signed_eight(v)).len() == 8,
        forall|v: i8| (#[trigger] signed_one(v)).len() == 1,
{
    assert forall|v: nat, n: nat| (#[trigger] little_endian(v, n)).len() == n by {
        lemma_little_endian_len(v, n);
    }
}

proof fn lemma_written(parts: Seq<Seq<u8>>, i: int)
    requires
        0 <= i < parts.len(),
    ensures
        written(parts).len() == place(parts, parts.len() as int),
        0 <= place(parts, i),
        place(parts, i) + parts[i].len() <= written(parts).len(),
        written(parts).subrange(place(parts, i), place(parts, i) + parts[i].len()) == parts[i],
    decreases parts.len(),
{
    let rest = parts.drop_last();
    let n = parts.len() - 1;
    lemma_place_prefix(parts, n);
    if n > 0 {
        lemma_written(rest, 0);
    }
    if i < n {
        lemma_written(rest, i);
        lemma_place_prefix(parts, i);
        assert(written(parts).subrange(place(parts, i), place(parts, i) + parts[i].len())
            =~= written(rest).subrange(place(rest, i), place(rest, i) + rest[i].len()));
    } else {
        assert(written(parts).subrange(place(parts, i), place(parts, i) + parts[i].len())
            =~= parts.last());
    }
    lemma_place_rises(parts, i);
}

proof fn lemma_place_rises(parts: Seq<Seq<u8>>, i: int)
    requires
        0 <= i <= parts.len(),
    ensures
        0 <= place(parts, i),
    decreases i,
{
    if i > 0 {
        lemma_place_rises(parts, i - 1);
    }
}

proof fn lemma_place_prefix(parts: Seq<Seq<u8>>, i: int)
    requires
        0 <= i < parts.len(),
    ensures
        place(parts, i) == place(parts.drop_last(), i),
    decreases i,
{
    if i > 0 {
        lemma_place_prefix(parts, i - 1);
    }
}

/// Where parts stand written, each stands at its place.
pub proof fn lemma_part_stands(b: Seq<u8>, o: int, parts: Seq<Seq<u8>>, i: int)
    requires
        stands_at(b, o, written(parts)),
        0 <= i < parts.len(),
    ensures
        stands_at(b, o + place(parts, i), parts[i]),
        o + place(parts, parts.len() as int) <= b.len(),
{
    lemma_written(parts, i);
    let s = written(parts);
    let at = place(parts, i);
    assert(b.subrange(o + at, o + at + parts[i].len()) =~= b.subrange(o, o + s.len()).subrange(
        at,
        at + parts[i].len(),
    ));
}

} // verus!
