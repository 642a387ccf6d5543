//! What the texts of numbers say, and what trimming, splitting and ordering texts come to.

use crate::codec_common::{nearest, pow10, scaled};
use crate::text::{
    byte_value, decimal_text, digits_value, first, hex4_text, is_number, is_white, joined_text,
    joined_texts, lemma_first_in_range, split, text_less, trim, trim_end, trim_start,
};
use vstd::arithmetic::power::pow;
use vstd::prelude::*;

verus! {

proof fn lemma_digit(d: int)
    requires
        0 <= d < 10,
    ensures
        crate::text::digit(d) as u32 == 0x30 + d,
        !is_white(crate::text::digit(d)),
        crate::text::digit(d) != '+',
        crate::text::digit(d) != ',',
        crate::text::digit(d) != ';',
        crate::text::digit(d) != '=',
{
}

/// A number's decimal text is digits alone, stands for that number, and starts with a zero only
/// where it is the number zero.
pub proof fn law_a_decimal_text_stands_for_its_number(n: nat)
    ensures
        is_number(decimal_text(n)),
        digits_value(decimal_text(n)) == n,
        decimal_text(n)[0] == '0' ==> n == 0,
        forall|i: int|
            0 <= i < decimal_text(n).len() ==> '0' as u32 <= #[trigger] decimal_text(n)[i] as u32
                <= '9' as u32,
    decreases n,
{
    let t = decimal_text(n);
    if n < 10 {
        lemma_digit(n as int);
        assert(t.drop_last() =~= Seq::empty());
        assert(digits_value(t.drop_last()) == 0);
        if t[0] == '0' {
            assert('0' as u32 == 0x30);
        }
    } else {
        law_a_decimal_text_stands_for_its_number(n / 10);
        lemma_digit((n % 10) as int);
        let front = decimal_text(n / 10);
        assert(t.drop_last() =~= front);
        assert(t[0] == front[0]);
        assert forall|i: int| 0 <= i < t.len() implies '0' as u32 <= #[trigger] t[i] as u32 <= '9' as u32 by {
            if i < front.len() {
                assert(t[i] == front[i]);
            }
        }
    }
}

/// Digits stand for a number by their places: each further digit is worth a tenth of the one before it.
pub proof fn law_digits_count_by_their_places(s: Seq<char>)
    requires
        is_number(s),
    ensures
        digits_value(s) == (s[0] as u32 - '0' as u32) * pow(10, (s.len() - 1) as nat) + digits_value(
            s.drop_first(),
        ),
    decreases s.len(),
{
    vstd::arithmetic::power::lemma_pow0(10);
    if s.len() == 1 {
        assert(s.drop_last() =~= Seq::empty());
        assert(s.drop_first() =~= Seq::empty());
        assert(digits_value(s.drop_last()) == 0);
        assert(s.last() == s[0]);
    } else {
        let t = s.drop_last();
        assert forall|i: int| 0 <= i < t.len() implies 0x30 <= #[trigger] t[i] as u32 <= 0x39 by {
            assert(t[i] == s[i]);
        }
        law_digits_count_by_their_places(t);
        assert(s.drop_first().drop_last() =~= t.drop_first());
        assert(s.drop_first().last() == s.last());
        assert(t[0] == s[0]);
        let d = s[0] as u32 - '0' as u32;
        let p = pow(10, (t.len() - 1) as nat);
        vstd::arithmetic::power::lemma_pow_adds(10, (t.len() - 1) as nat, 1);
        vstd::arithmetic::power::lemma_pow1(10);
        assert(pow(10, (s.len() - 1) as nat) == p * 10);
        assert((d * p + digits_value(t.drop_first())) * 10 == d * (p * 10) + digits_value(
            t.drop_first(),
        ) * 10) by (nonlinear_arith);
    }
}

/// A text is read as a number up to 255 exactly if it is that number in decimal digits, with or
/// without a plus sign; the decimal text of such a number reads as it, that of a larger one does
/// not.
pub proof fn law_a_byte_reads_as_it_is_written(n: nat, s: Seq<char>)
    ensures
        n <= 255 ==> byte_value(decimal_text(n)) == Some(n as u8),
        n > 255 ==> byte_value(decimal_text(n)) is None,
        byte_value(seq!['+'] + decimal_text(n)) == byte_value(decimal_text(n)),
        s.len() == 0 ==> byte_value(s) is None,
        s.len() > 1 && (exists|i: int|
            1 <= i < s.len() && !('0' as u32 <= #[trigger] s[i] as u32 <= '9' as u32)) ==> byte_value(s)
            is None,
        s.len() > 0 && s[0] != '+' && !('0' as u32 <= s[0] as u32 <= '9' as u32) ==> byte_value(s) is None,
{
    law_a_decimal_text_stands_for_its_number(n);
    let t = decimal_text(n);
    assert(t[0] as u32 >= '0' as u32);
    assert(t[0] != '+');
    let u = seq!['+'] + t;
    assert(u[0] == '+');
    assert(u.drop_first() =~= t);
    if exists|i: int| 1 <= i < s.len() && !('0' as u32 <= #[trigger] s[i] as u32 <= '9' as u32) {
        let i = choose|i: int|
            1 <= i < s.len() && !('0' as u32 <= #[trigger] s[i] as u32 <= '9' as u32);
        assert(s.drop_first()[i - 1] == s[i]);
    }
}

/// What a hexadecimal digit counts.
pub open spec fn hex_value(c: char) -> int {
    if c as u32 <= '9' as u32 {
        c as u32 - '0' as u32
    } else {
        c as u32 - 'A' as u32 + 10
    }
}

/// Four hexadecimal digits stand for their number.
pub proof fn law_hex_stands_for_its_number(n: u16)
    ensures
        ({
            let t = hex4_text(n as nat);
            &&& t.len() == 4
            &&& forall|i: int|
                0 <= i < 4 ==> '0' as u32 <= #[trigger] t[i] as u32 <= '9' as u32 || 'A' as u32
                    <= t[i] as u32 <= 'F' as u32
            &&& hex_value(t[0]) * 4096 + hex_value(t[1]) * 256 + hex_value(t[2]) * 16 + hex_value(t[3])
                == n
        }),
{
    let t = hex4_text(n as nat);
    let m = n as int;
    lemma_places(m);
    lemma_hex_digit(m / 4096);
    lemma_hex_digit(m / 256 % 16);
    lemma_hex_digit(m / 16 % 16);
    lemma_hex_digit(m % 16);
    assert(t[0] == crate::text::digit(m / 4096));
    assert(t[1] == crate::text::digit(m / 256 % 16));
    assert(t[2] == crate::text::digit(m / 16 % 16));
    assert(t[3] == crate::text::digit(m % 16));
}

proof fn lemma_places(m: int)
    requires
        0 <= m <= 0xffff,
    ensures
        0 <= m / 4096 < 16,
        m / 4096 * 4096 + m / 256 % 16 * 256 + m / 16 % 16 * 16 + m % 16 == m,
{
    let a = m / 16;
    let b = a / 16;
    let c = b / 16;
    assert(m == 16 * a + m % 16);
    assert(a == 16 * b + a % 16);
    assert(b == 16 * c + b % 16);
    assert(m / 256 == b);
    assert(m / 4096 == c);
}

proof fn lemma_hex_digit(d: int)
    requires
        0 <= d < 16,
    ensures
        hex_value(crate::text::digit(d)) == d,
        '0' as u32 <= crate::text::digit(d) as u32 <= '9' as u32 || 'A' as u32 <= crate::text::digit(
            d,
        ) as u32 <= 'F' as u32,
{
}

/// A list of numbers reads as their decimal texts in order, with a comma and a space between one
/// and the next.
pub proof fn law_a_list_is_its_items_with_commas(numbers: Seq<u8>, n: u8, t: Seq<Seq<char>>, x: Seq<char>)
    ensures
        joined_text(seq![n]) == decimal_text(n as nat),
        numbers.len() > 0 ==> joined_text(numbers.push(n)) == joined_text(numbers) + seq![',', ' ']
            + decimal_text(n as nat),
        joined_texts(seq![x]) == x,
        t.len() > 0 ==> joined_texts(t.push(x)) == joined_texts(t) + seq![',', ' '] + x,
{
    reveal_strlit(", ");
    assert(", "@ =~= seq![',', ' ']);
    assert(numbers.push(n).drop_last() =~= numbers);
    assert(t.push(x).drop_last() =~= t);
}

proof fn lemma_trim_start(s: Seq<char>) -> (n: int)
    ensures
        0 <= n <= s.len(),
        trim_start(s) == s.subrange(n, s.len() as int),
        forall|i: int| 0 <= i < n ==> is_white(#[trigger] s[i]),
        n < s.len() ==> !is_white(s[n]),
    decreases s.len(),
{
    if s.len() > 0 && is_white(s[0]) {
        let rest = s.drop_first();
        let n = lemma_trim_start(rest);
        assert forall|i: int| 0 <= i < n + 1 implies is_white(#[trigger] s[i]) by {
            if i > 0 {
                assert(rest[i - 1] == s[i]);
            }
        }
        assert(trim_start(s) =~= s.subrange(n + 1, s.len() as int));
        if n + 1 < s.len() {
            assert(rest[n] == s[n + 1]);
        }
        n + 1
    } else {
        assert(s =~= s.subrange(0, s.len() as int));
        0
    }
}

proof fn lemma_trim_end(s: Seq<char>) -> (n: int)
    ensures
        0 <= n <= s.len(),
        trim_end(s) == s.subrange(0, n),
        forall|i: int| n <= i < s.len() ==> is_white(#[trigger] s[i]),
        n > 0 ==> !is_white(s[n - 1]),
    decreases s.len(),
{
    if s.len() > 0 && is_white(s.last()) {
        let rest = s.drop_last();
        let n = lemma_trim_end(rest);
        assert(trim_end(s) =~= s.subrange(0, n));
        assert forall|i: int| n <= i < s.len() implies is_white(#[trigger] s[i]) by {
            if i < s.len() - 1 {
                assert(rest[i] == s[i]);
            }
        }
        if n > 0 {
            assert(rest[n - 1] == s[n - 1]);
        }
        n
    } else {
        assert(s =~= s.subrange(0, s.len() as int));
        s.len() as int
    }
}

/// Trimming takes the white space off both ends, and nothing else: what is left is a stretch of the
/// text with only white space before and after it, and neither starts nor ends with any.
pub proof fn law_trimming_takes_the_white_ends(s: Seq<char>) -> (r: (int, int))
    ensures
        0 <= r.0 <= r.1 <= s.len(),
        trim(s) == s.subrange(r.0, r.1),
        forall|i: int| 0 <= i < r.0 ==> is_white(#[trigger] s[i]),
        forall|i: int| r.1 <= i < s.len() ==> is_white(#[trigger] s[i]),
        r.0 < r.1 ==> !is_white(s[r.0]) && !is_white(s[r.1 - 1]),
{
    let a = lemma_trim_start(s);
    let t = trim_start(s);
    let b = lemma_trim_end(t);
    assert(trim(s) =~= s.subrange(a, a + b));
    assert forall|i: int| a + b <= i < s.len() implies is_white(#[trigger] s[i]) by {
        assert(t[i - a] == s[i]);
    }
    if b > 0 {
        assert(t[b - 1] == s[a + b - 1]);
        assert(t[0] == s[a]);
    }
    (a, a + b)
}

/// The blank, the tab and the line ends are white space; what is seen of ASCII is not.
pub proof fn law_white_space_is_what_is_not_seen(c: char)
    ensures
        c == ' ' || c == '\t' || c == '\n' || c == '\r' ==> is_white(c),
        0x21 <= c as u32 <= 0x7e ==> !is_white(c),
{
}

/// A text that neither starts nor ends with white space is trimmed already.
pub proof fn lemma_trimmed(s: Seq<char>)
    requires
        s.len() > 0,
        !is_white(s[0]),
        !is_white(s.last()),
    ensures
        trim(s) == s,
{
}

/// The parts put together again, with the separator between one and the next.
pub open spec fn rejoined(parts: Seq<Seq<char>>, sep: char) -> Seq<char>
    decreases parts.len(),
{
    if parts.len() == 0 {
        Seq::empty()
    } else if parts.len() == 1 {
        parts[0]
    } else {
        parts[0].push(sep) + rejoined(parts.drop_first(), sep)
    }
}

/// Splitting undoes joining: the parts of a text have no separator in them, and put together with
/// it are the text.
pub proof fn law_splitting_parts_at_the_separator(s: Seq<char>, sep: char)
    ensures
        split(s, sep).len() > 0,
        rejoined(split(s, sep), sep) == s,
        forall|i: int|
            0 <= i < split(s, sep).len() ==> !(#[trigger] split(s, sep)[i]).contains(sep),
    decreases s.len(),
{
    lemma_first_in_range(s, sep);
    let at = first(s, sep);
    let parts = split(s, sep);
    if at < s.len() {
        let rest = s.skip(at + 1);
        law_splitting_parts_at_the_separator(rest, sep);
        assert(parts.drop_first() =~= split(rest, sep));
        assert(parts[0] == s.take(at));
        assert(s.take(at).push(sep) + rest =~= s);
        assert forall|i: int| 0 <= i < parts.len() implies !(#[trigger] parts[i]).contains(sep) by {
            if i > 0 {
                assert(parts[i] == split(rest, sep)[i - 1]);
            }
        }
    } else {
        assert(parts[0] == s);
    }
}

/// Joining undoes splitting: parts without a separator in them, put together with it, split into
/// those parts.
pub proof fn law_joined_parts_split_again(parts: Seq<Seq<char>>, sep: char)
    requires
        parts.len() > 0,
        forall|i: int| 0 <= i < parts.len() ==> !(#[trigger] parts[i]).contains(sep),
    ensures
        split(rejoined(parts, sep), sep) == parts,
    decreases parts.len(),
{
    let s = rejoined(parts, sep);
    lemma_first_in_range(s, sep);
    let at = first(s, sep);
    assert(!parts[0].contains(sep));
    if parts.len() == 1 {
        if at < s.len() {
            assert(s[at] == sep);
            assert(parts[0].contains(sep));
        }
        assert(parts =~= seq![s]);
    } else {
        let n = parts[0].len() as int;
        let rest = parts.drop_first();
        assert(s[n] == sep);
        if at < n {
            assert(s[at] == parts[0][at]);
            assert(parts[0].contains(sep));
        }
        assert(at == n);
        assert forall|i: int| 0 <= i < rest.len() implies !(#[trigger] rest[i]).contains(sep) by {
            assert(rest[i] == parts[i + 1]);
        }
        law_joined_parts_split_again(rest, sep);
        assert(s.take(n) =~= parts[0]);
        assert(s.skip(n + 1) =~= rejoined(rest, sep));
        assert(parts =~= seq![parts[0]] + rest);
    }
}

/// The first place of a character is where it stands and none stands before; where it stands
/// nowhere it is the end.
pub proof fn law_the_first_place_is_the_first(s: Seq<char>, c: char)
    ensures
        0 <= first(s, c) <= s.len(),
        first(s, c) < s.len() ==> s[first(s, c)] == c,
        forall|j: int| 0 <= j < first(s, c) ==> s[j] != c,
{
    lemma_first_in_range(s, c);
}

/// `a` and `b` part at `i`: they agree before it, and there `a` has ended or has the smaller character.
pub open spec fn parts_below(a: Seq<char>, b: Seq<char>, i: int) -> bool {
    &&& 0 <= i <= a.len()
    &&& i < b.len()
    &&& forall|j: int| 0 <= j < i ==> #[trigger] a[j] == b[j]
    &&& i == a.len() || (a[i] as int) < (b[i] as int)
}

/// A text comes before another exactly if where they part it has ended or has the smaller character.
pub proof fn law_texts_are_ordered_where_they_part(a: Seq<char>, b: Seq<char>)
    ensures
        text_less(a, b) <==> exists|i: int| parts_below(a, b, i),
    decreases a.len(),
{
    if b.len() > 0 && a.len() > 0 && a[0] == b[0] {
        let x = a.drop_first();
        let y = b.drop_first();
        law_texts_are_ordered_where_they_part(x, y);
        if exists|i: int| parts_below(x, y, i) {
            let i = choose|i: int| parts_below(x, y, i);
            assert forall|j: int| 0 <= j < i + 1 implies #[trigger] a[j] == b[j] by {
                if j > 0 {
                    assert(x[j - 1] == y[j - 1]);
                }
            }
            assert(parts_below(a, b, i + 1));
        }
        if exists|i: int| parts_below(a, b, i) {
            let i = choose|i: int| parts_below(a, b, i);
            assert(i > 0);
            assert forall|j: int| 0 <= j < i - 1 implies #[trigger] x[j] == y[j] by {
                assert(a[j + 1] == b[j + 1]);
            }
            assert(parts_below(x, y, i - 1));
        }
    } else if b.len() > 0 && text_less(a, b) {
        assert(parts_below(a, b, 0));
    } else if exists|i: int| parts_below(a, b, i) {
        let i = choose|i: int| parts_below(a, b, i);
        if i > 0 {
            assert(a[0] == b[0]);
        }
    }
}

/// A value keeps its worth: with an exponent of minus eighteen or more it is the raw number times
/// ten to the power of the exponent plus eighteen; below, it is the nearest there is, halves away
/// from zero, but never zero for what is not. It has the sign of the raw number.
pub proof fn law_a_value_keeps_its_worth(raw: int, exponent: int)
    ensures
        exponent >= -18 ==> scaled(raw, exponent) == raw * pow(10, (exponent + 18) as nat),
        exponent < -18 && raw >= 0 ==> {
            let unit = pow(10, (-18 - exponent) as nat);
            let r = scaled(raw, exponent);
            -unit <= 2 * (raw - r * unit) < unit || (r == 1 && 0 < 2 * raw < unit)
        },
        scaled(-raw, exponent) == -scaled(raw, exponent),
{
    if exponent >= -18 {
        lemma_pow10((exponent + 18) as nat);
        let p = pow10((exponent + 18) as nat);
        assert((-raw) * p == -(raw * p)) by (nonlinear_arith);
    } else {
        let k = (-18 - exponent) as nat;
        lemma_pow10(k);
        vstd::arithmetic::power::lemma_pow_positive(10, k);
        let unit = pow(10, k);
        vstd::arithmetic::power::lemma_pow_adds(10, 1, (k - 1) as nat);
        vstd::arithmetic::power::lemma_pow1(10);
        let q = pow(10, (k - 1) as nat);
        assert(unit == 10 * q);
        let half = unit / 2;
        assert(half == 5 * q && 2 * half == unit);
        if raw >= 0 {
            let near = (raw + half) / unit;
            assert(-unit <= 2 * (raw - near * unit) < unit) by {
                vstd::arithmetic::div_mod::lemma_fundamental_div_mod(raw + half, unit);
                vstd::arithmetic::div_mod::lemma_mod_bound(raw + half, unit);
                assert(unit * near == near * unit) by (nonlinear_arith);
            }
            if near == 0 {
                assert(0 * unit == 0);
                assert(near * unit == 0 * unit);
            }
        }
        assert(nearest(0, unit) == 0) by {
            vstd::arithmetic::div_mod::lemma_small_mod(half as nat, unit as nat);
            vstd::arithmetic::div_mod::lemma_basic_div(half, unit);
        }
    }
}

proof fn lemma_pow10(n: nat)
    ensures
        pow10(n) == pow(10, n),
    decreases n,
{
    reveal(pow);
    if n > 0 {
        lemma_pow10((n - 1) as nat);
    }
}

} // verus!
