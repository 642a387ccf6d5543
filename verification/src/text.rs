//! Text: numbers in words, splitting and trimming, and order.

use crate::table::same_text;
use vstd::prelude::*;

verus! {

/// The digit for `d`, of base sixteen at most.
pub open spec fn digit(d: int) -> char {
    if d <= 0 {
        '0'
    } else if d == 1 {
        '1'
    } else if d == 2 {
        '2'
    } else if d == 3 {
        '3'
    } else if d == 4 {
        '4'
    } else if d == 5 {
        '5'
    } else if d == 6 {
        '6'
    } else if d == 7 {
        '7'
    } else if d == 8 {
        '8'
    } else if d == 9 {
        '9'
    } else if d == 10 {
        'A'
    } else if d == 11 {
        'B'
    } else if d == 12 {
        'C'
    } else if d == 13 {
        'D'
    } else if d == 14 {
        'E'
    } else {
        'F'
    }
}

/// `n` in decimal, without leading zeros.
pub open spec fn decimal_text(n: nat) -> Seq<char>
    decreases n,
{
    if n < 10 {
        seq![digit(n as int)]
    } else {
        decimal_text(n / 10).push(digit((n % 10) as int))
    }
}

/// `n` as four upper-case hexadecimal digits.
pub open spec fn hex4_text(n: nat) -> Seq<char> {
    seq![
        digit((n / 4096) as int),
        digit((n / 256 % 16) as int),
        digit((n / 16 % 16) as int),
        digit((n % 16) as int),
    ]
}

/// Numbers in decimal, with `", "` between them.
pub open spec fn joined_text(numbers: Seq<u8>) -> Seq<char>
    decreases numbers.len(),
{
    if numbers.len() == 0 {
        Seq::empty()
    } else if numbers.len() == 1 {
        decimal_text(numbers[0] as nat)
    } else {
        joined_text(numbers.drop_last()) + ", "@ + decimal_text(numbers.last() as nat)
    }
}

/// One digit as text.
fn digit_str(d: u64) -> (r: &'static str)
    requires
        d < 16,
    ensures
        r@ == seq![digit(d as int)],
{
    proof {
        reveal_strlit("0");
        reveal_strlit("1");
        reveal_strlit("2");
        reveal_strlit("3");
        reveal_strlit("4");
        reveal_strlit("5");
        reveal_strlit("6");
        reveal_strlit("7");
        reveal_strlit("8");
        reveal_strlit("9");
        reveal_strlit("A");
        reveal_strlit("B");
        reveal_strlit("C");
        reveal_strlit("D");
        reveal_strlit("E");
        reveal_strlit("F");
    }
    match d {
        0 => "0",
        1 => "1",
        2 => "2",
        3 => "3",
        4 => "4",
        5 => "5",
        6 => "6",
        7 => "7",
        8 => "8",
        9 => "9",
        10 => "A",
        11 => "B",
        12 => "C",
        13 => "D",
        14 => "E",
        _ => "F",
    }
}

/// Append `n` in decimal.
pub fn push_decimal(out: &mut String, n: u64)
    ensures
        final(out)@ == old(out)@ + decimal_text(n as nat),
    decreases n,
{
    if n >= 10 {
        push_decimal(out, n / 10);
    }
    out.append(digit_str(n % 10));
    proof {
        assert(out@ =~= old(out)@ + decimal_text(n as nat));
    }
}

/// Append `n` as four hexadecimal digits.
pub fn push_hex4(out: &mut String, n: u16)
    ensures
        final(out)@ == old(out)@ + hex4_text(n as nat),
{
    let n: u64 = n as u64;
    out.append(digit_str(n / 4096));
    out.append(digit_str(n / 256 % 16));
    out.append(digit_str(n / 16 % 16));
    out.append(digit_str(n % 16));
    proof {
        assert(out@ =~= old(out)@ + hex4_text(n as nat));
    }
}

/// Append the numbers, with `", "` between them.
pub fn push_joined(out: &mut String, numbers: &Vec<u8>)
    ensures
        final(out)@ == old(out)@ + joined_text(numbers@),
{
    let mut i: usize = 0;
    proof {
        assert(out@ =~= old(out)@ + joined_text(numbers@.take(0)));
    }
    while i < numbers.len()
        invariant
            i <= numbers@.len(),
            out@ == old(out)@ + joined_text(numbers@.take(i as int)),
        decreases numbers@.len() - i,
    {
        if i > 0 {
            out.append(", ");
        }
        push_decimal(out, numbers[i] as u64);
        proof {
            assert(numbers@.take(i + 1).drop_last() =~= numbers@.take(i as int));
            assert(numbers@.take(i + 1).last() == numbers@[i as int]);
            if i == 0 {
                assert(numbers@.take(0) =~= Seq::<u8>::empty());
            }
            assert(out@ =~= old(out)@ + joined_text(numbers@.take(i + 1)));
        }
        i += 1;
    }
    proof {
        assert(numbers@.take(i as int) =~= numbers@);
    }
}

/// The characters of a text.
pub fn chars_of(s: &str) -> (r: Vec<char>)
    ensures
        r@ == s@,
{
    let n = s.unicode_len();
    let mut r: Vec<char> = Vec::new();
    let mut i: usize = 0;
    while i < n
        invariant
            n == s@.len(),
            i <= n,
            r@ == s@.take(i as int),
        decreases n - i,
    {
        r.push(s.get_char(i));
        i += 1;
        assert(r@ =~= s@.take(i as int));
    }
    assert(s@.take(n as int) =~= s@);
    r
}

/// Whether a character is white space.
pub open spec fn is_white(c: char) -> bool {
    let u = c as u32;
    ||| 0x09 <= u <= 0x0d
    ||| u == 0x20
    ||| u == 0x85
    ||| u == 0xa0
    ||| u == 0x1680
    ||| 0x2000 <= u <= 0x200a
    ||| u == 0x2028
    ||| u == 0x2029
    ||| u == 0x202f
    ||| u == 0x205f
    ||| u == 0x3000
}

fn white(c: char) -> (r: bool)
    ensures
        r == is_white(c),
{
    let u: u32 = c as u32;
    (0x09 <= u && u <= 0x0d) || u == 0x20 || u == 0x85 || u == 0xa0 || u == 0x1680 || (0x2000 <= u
        && u <= 0x200a) || u == 0x2028 || u == 0x2029 || u == 0x202f || u == 0x205f || u == 0x3000
}

/// `s` without the white space it starts with.
pub open spec fn trim_start(s: Seq<char>) -> Seq<char>
    decreases s.len(),
{
    if s.len() > 0 && is_white(s[0]) {
        trim_start(s.drop_first())
    } else {
        s
    }
}

/// `s` without the white space it ends with.
pub open spec fn trim_end(s: Seq<char>) -> Seq<char>
    decreases s.len(),
{
    if s.len() > 0 && is_white(s.last()) {
        trim_end(s.drop_last())
    } else {
        s
    }
}

/// `s` without the white space around it.
pub open spec fn trim(s: Seq<char>) -> Seq<char> {
    trim_end(trim_start(s))
}

/// Where the text between two positions starts and ends once it is trimmed.
pub fn trimmed(s: &Vec<char>, from: usize, to: usize) -> (r: (usize, usize))
    requires
        from <= to <= s@.len(),
    ensures
        from <= r.0 <= r.1 <= to,
        s@.subrange(r.0 as int, r.1 as int) == trim(s@.subrange(from as int, to as int)),
{
    let mut a = from;
    while a < to && white(s[a])
        invariant
            from <= a <= to <= s@.len(),
            trim_start(s@.subrange(from as int, to as int)) == trim_start(
                s@.subrange(a as int, to as int),
            ),
        decreases to - a,
    {
        proof {
            let now = s@.subrange(a as int, to as int);
            assert(now.drop_first() =~= s@.subrange(a + 1, to as int));
        }
        a += 1;
    }
    let mut b = to;
    while a < b && white(s[b - 1])
        invariant
            from <= a <= b <= to <= s@.len(),
            trim_end(s@.subrange(a as int, to as int)) == trim_end(
                s@.subrange(a as int, b as int),
            ),
        decreases b - a,
    {
        proof {
            let now = s@.subrange(a as int, b as int);
            assert(now.drop_last() =~= s@.subrange(a as int, b - 1));
        }
        b -= 1;
    }
    (a, b)
}

/// The position of the first `c`, the length of `s` if there is none.
pub open spec fn first(s: Seq<char>, c: char) -> int
    decreases s.len(),
{
    if s.len() == 0 || s[0] == c {
        0
    } else {
        1 + first(s.drop_first(), c)
    }
}

/// The parts of `s` between one `sep` and the next.
pub open spec fn split(s: Seq<char>, sep: char) -> Seq<Seq<char>>
    decreases s.len(),
{
    let i = first(s, sep);
    if 0 <= i < s.len() {
        seq![s.take(i)] + split(s.skip(i + 1), sep)
    } else {
        seq![s]
    }
}

/// The parts of a text are its first part and the parts of what follows the separator.
pub(crate) proof fn lemma_split_step(s: Seq<char>, sep: char)
    ensures
        0 <= first(s, sep) <= s.len(),
        split(s, sep).len() > 0,
        split(s, sep)[0] == s.take(first(s, sep)),
        split(s, sep).drop_first() == (if first(s, sep) < s.len() {
            split(s.skip(first(s, sep) + 1), sep)
        } else {
            Seq::empty()
        }),
{
    lemma_first_in_range(s, sep);
    let i = first(s, sep);
    if i < s.len() {
        let rest = split(s.skip(i + 1), sep);
        assert((seq![s.take(i)] + rest).drop_first() =~= rest);
    } else {
        assert(s.take(i) =~= s);
        assert(seq![s].drop_first() =~= Seq::empty());
    }
}

pub(crate) proof fn lemma_first_in_range(s: Seq<char>, c: char)
    ensures
        0 <= first(s, c) <= s.len(),
        first(s, c) < s.len() ==> s[first(s, c)] == c,
        forall|j: int| 0 <= j < first(s, c) ==> s[j] != c,
    decreases s.len(),
{
    if s.len() > 0 && s[0] != c {
        let rest = s.drop_first();
        lemma_first_in_range(rest, c);
        assert forall|j: int| 0 <= j < first(s, c) implies s[j] != c by {
            if j > 0 {
                assert(rest[j - 1] == s[j]);
            }
        }
    }
}

/// The first `c` at or after `from`, `to` if there is none before it.
pub fn find(s: &Vec<char>, from: usize, to: usize, c: char) -> (r: usize)
    requires
        from <= to <= s@.len(),
    ensures
        from <= r <= to,
        r - from == first(s@.subrange(from as int, to as int), c),
{
    let mut i = from;
    while i < to && s[i] != c
        invariant
            from <= i <= to <= s@.len(),
            first(s@.subrange(from as int, to as int), c) == (i - from) + first(
                s@.subrange(i as int, to as int),
                c,
            ),
        decreases to - i,
    {
        proof {
            let now = s@.subrange(i as int, to as int);
            assert(now.drop_first() =~= s@.subrange(i + 1, to as int));
        }
        i += 1;
    }
    i
}

/// The number that decimal digits stand for.
pub open spec fn digits_value(s: Seq<char>) -> nat
    decreases s.len(),
{
    if s.len() == 0 {
        0
    } else {
        digits_value(s.drop_last()) * 10 + (s.last() as u32 - 0x30) as nat
    }
}

/// Decimal digits, one at least.
pub open spec fn is_number(s: Seq<char>) -> bool {
    &&& s.len() > 0
    &&& forall|i: int| 0 <= i < s.len() ==> 0x30 <= #[trigger] s[i] as u32 <= 0x39
}

/// The number in `0..=255` that `s` stands for: decimal digits, with or without a plus sign.
pub open spec fn byte_value(s: Seq<char>) -> Option<u8> {
    let d = if s.len() > 0 && s[0] == '+' {
        s.drop_first()
    } else {
        s
    };
    if is_number(d) && digits_value(d) <= 255 {
        Some(digits_value(d) as u8)
    } else {
        None
    }
}

proof fn lemma_digits_grow(s: Seq<char>, i: int)
    requires
        0 <= i <= s.len(),
    ensures
        digits_value(s.take(i)) <= digits_value(s),
    decreases s.len(),
{
    if i < s.len() {
        lemma_digits_grow(s.drop_last(), i);
        assert(s.drop_last().take(i) =~= s.take(i));
    } else {
        assert(s.take(i) =~= s);
    }
}

/// Read the text between two positions as a number in `0..=255`.
pub fn parse_byte(s: &Vec<char>, from: usize, to: usize) -> (r: Option<u8>)
    requires
        from <= to <= s@.len(),
    ensures
        r == byte_value(s@.subrange(from as int, to as int)),
{
    let ghost whole = s@.subrange(from as int, to as int);
    let mut a = from;
    if from < to && s[from] == '+' {
        a = from + 1;
        assert(whole.drop_first() =~= s@.subrange(a as int, to as int));
    }
    let ghost d = s@.subrange(a as int, to as int);
    if a == to {
        return None;
    }
    let mut acc: u32 = 0;
    let mut i = a;
    while i < to
        invariant
            a <= i <= to <= s@.len(),
            d == s@.subrange(a as int, to as int),
            acc <= 255,
            acc == digits_value(d.take(i - a)),
            forall|j: int| 0 <= j < i - a ==> 0x30 <= #[trigger] d[j] as u32 <= 0x39,
            d == (if whole.len() > 0 && whole[0] == '+' {
                whole.drop_first()
            } else {
                whole
            }),
            whole == s@.subrange(from as int, to as int),
        decreases to - i,
    {
        let u: u32 = s[i] as u32;
        assert(d[i - a] == s@[i as int]);
        if u < 0x30 || u > 0x39 {
            return None;
        }
        acc = acc * 10 + (u - 0x30);
        proof {
            assert(d.take(i - a + 1).drop_last() =~= d.take(i - a));
            assert(d.take(i - a + 1).last() == d[i - a]);
            lemma_digits_grow(d, i - a + 1);
        }
        if acc > 255 {
            return None;
        }
        i += 1;
    }
    assert(d.take(to - a) =~= d);
    Some(acc as u8)
}

/// `a` comes before `b` in order of code points.
pub open spec fn text_less(a: Seq<char>, b: Seq<char>) -> bool
    decreases a.len(),
{
    if b.len() == 0 {
        false
    } else if a.len() == 0 {
        true
    } else if a[0] != b[0] {
        (a[0] as int) < (b[0] as int)
    } else {
        text_less(a.drop_first(), b.drop_first())
    }
}

pub proof fn lemma_text_less_transitive(a: Seq<char>, b: Seq<char>, c: Seq<char>)
    requires
        text_less(a, b),
        text_less(b, c),
    ensures
        text_less(a, c),
    decreases a.len(),
{
    if a.len() > 0 && a[0] == b[0] && b[0] == c[0] {
        lemma_text_less_transitive(a.drop_first(), b.drop_first(), c.drop_first());
    }
}

pub proof fn lemma_text_less_irreflexive(a: Seq<char>)
    ensures
        !text_less(a, a),
    decreases a.len(),
{
    if a.len() > 0 {
        lemma_text_less_irreflexive(a.drop_first());
    }
}

pub proof fn lemma_text_less_total(a: Seq<char>, b: Seq<char>)
    ensures
        text_less(a, b) || a == b || text_less(b, a),
    decreases a.len(),
{
    if a.len() > 0 && b.len() > 0 && a[0] == b[0] {
        lemma_text_less_total(a.drop_first(), b.drop_first());
        if a.drop_first() == b.drop_first() {
            assert(a =~= seq![a[0]] + a.drop_first());
            assert(b =~= seq![b[0]] + b.drop_first());
        }
    } else if a.len() == 0 && b.len() == 0 {
        assert(a =~= b);
    }
}

proof fn lemma_code_point(c: char)
    ensures
        c as u32 == c as int,
{
}

/// Whether `a` comes before `b`.
pub fn less_text(a: &str, b: &str) -> (r: bool)
    ensures
        r == text_less(a@, b@),
{
    let x = chars_of(a);
    let y = chars_of(b);
    let mut i: usize = 0;
    proof {
        assert(a@.skip(0) =~= a@);
        assert(b@.skip(0) =~= b@);
    }
    while i < x.len() && i < y.len() && x[i] == y[i]
        invariant
            x@ == a@,
            y@ == b@,
            i <= x@.len(),
            i <= y@.len(),
            text_less(a@, b@) == text_less(a@.skip(i as int), b@.skip(i as int)),
        decreases x@.len() - i,
    {
        proof {
            assert(a@.skip(i as int).drop_first() =~= a@.skip(i + 1));
            assert(b@.skip(i as int).drop_first() =~= b@.skip(i + 1));
        }
        i += 1;
    }
    if i >= y.len() {
        false
    } else if i >= x.len() {
        true
    } else {
        let p: char = x[i];
        let q: char = y[i];
        proof {
            lemma_code_point(p);
            lemma_code_point(q);
        }
        (p as u32) < (q as u32)
    }
}

/// The texts of a list of strings.
pub open spec fn texts(v: Seq<String>) -> Seq<Seq<char>> {
    v.map_values(|s: String| s@)
}

/// `v` lists the texts of `all`, each once, in order.
pub open spec fn lists_texts(v: Seq<Seq<char>>, all: Set<Seq<char>>) -> bool {
    &&& forall|t: Seq<char>| v.contains(t) == #[trigger] all.contains(t)
    &&& forall|i: int, j: int| 0 <= i < j < v.len() ==> text_less(#[trigger] v[i], #[trigger] v[j])
}

/// Put a text in its place among texts in order; one that is there already is not put twice.
pub(crate) fn insert_text(v: &mut Vec<String>, s: String, Ghost(all): Ghost<Set<Seq<char>>>)
    requires
        lists_texts(texts(old(v)@), all),
    ensures
        lists_texts(texts(final(v)@), all.insert(s@)),
{
    let ghost was = texts(v@);
    let mut i: usize = 0;
    while i < v.len() && less_text(v[i].as_str(), s.as_str())
        invariant
            i <= v@.len(),
            was == texts(v@),
            forall|j: int| 0 <= j < i ==> text_less(#[trigger] was[j], s@),
        decreases v@.len() - i,
    {
        assert(was[i as int] == v@[i as int]@);
        i += 1;
    }
    if i < v.len() && same_text(v[i].as_str(), s.as_str()) {
        proof {
            assert(was[i as int] == s@);
            assert(all.insert(s@) =~= all);
        }
        return;
    }
    proof {
        if i < v.len() {
            assert(was[i as int] == v@[i as int]@);
            lemma_text_less_total(was[i as int], s@);
        }
    }
    let ghost t = s@;
    let ghost at = i as int;
    v.insert(i, s);
    proof {
        let now = texts(v@);
        assert(now =~= was.insert(at, t));
        assert forall|x: Seq<char>| now.contains(x) == #[trigger] all.insert(t).contains(x) by {
            if now.contains(x) {
                let k = choose|k: int| 0 <= k < now.len() && now[k] == x;
                if k < at {
                    assert(was[k] == x);
                } else if k > at {
                    assert(was[k - 1] == x);
                }
            }
            if was.contains(x) {
                let k = choose|k: int| 0 <= k < was.len() && was[k] == x;
                if k < at {
                    assert(now[k] == x);
                } else {
                    assert(now[k + 1] == x);
                }
            }
            assert(now[at] == t);
        }
        assert forall|p: int, q: int| 0 <= p < q < now.len() implies text_less(
            #[trigger] now[p],
            #[trigger] now[q],
        ) by {
            let a = if p < at {
                was[p]
            } else if p > at {
                was[p - 1]
            } else {
                t
            };
            if p == at {
                if q > at + 1 {
                    lemma_text_less_transitive(t, was[at], was[q - 1]);
                }
            } else if q == at {
                assert(text_less(was[p], t));
            } else if p < at && q > at {
                assert(text_less(was[p], was[q - 1]));
            }
        }
    }
}

/// The texts in order are one list: two lists of the same texts are equal.
pub proof fn law_a_list_of_texts_is_determined(
    a: Seq<Seq<char>>,
    b: Seq<Seq<char>>,
    all: Set<Seq<char>>,
)
    requires
        lists_texts(a, all),
        lists_texts(b, all),
    ensures
        a == b,
    decreases a.len(),
{
    if a.len() == 0 {
        if b.len() > 0 {
            assert(b.contains(b[0]));
            assert(all.contains(b[0]));
        }
        assert(a =~= b);
    } else if b.len() == 0 {
        assert(a.contains(a[0]));
        assert(all.contains(a[0]));
    } else {
        let x = a.last();
        let y = b.last();
        assert(a.contains(x) && b.contains(y));
        assert(all.contains(x) && all.contains(y));
        let i = choose|i: int| 0 <= i < b.len() && b[i] == x;
        let j = choose|j: int| 0 <= j < a.len() && a[j] == y;
        if x != y {
            assert(text_less(b[i], b[b.len() - 1]));
            assert(text_less(a[j], a[a.len() - 1]));
            lemma_text_less_transitive(x, y, x);
            lemma_text_less_irreflexive(x);
        }
        let rest = all.remove(x);
        assert forall|t: Seq<char>| a.drop_last().contains(t) == #[trigger] rest.contains(t) by {
            lemma_last_is_alone(a, all, t);
        }
        assert forall|t: Seq<char>| b.drop_last().contains(t) == #[trigger] rest.contains(t) by {
            lemma_last_is_alone(b, all, t);
        }
        law_a_list_of_texts_is_determined(a.drop_last(), b.drop_last(), rest);
        assert(a =~= a.drop_last().push(x));
        assert(b =~= b.drop_last().push(y));
    }
}

proof fn lemma_last_is_alone(a: Seq<Seq<char>>, all: Set<Seq<char>>, t: Seq<char>)
    requires
        lists_texts(a, all),
        a.len() > 0,
    ensures
        a.drop_last().contains(t) == all.remove(a.last()).contains(t),
{
    if a.drop_last().contains(t) {
        let k = choose|k: int| 0 <= k < a.len() - 1 && a.drop_last()[k] == t;
        assert(a[k] == t);
        assert(a.contains(t));
        assert(all.contains(t));
        lemma_text_less_irreflexive(t);
    }
    if all.contains(t) && t != a.last() {
        let k = choose|k: int| 0 <= k < a.len() && a[k] == t;
        assert(a.drop_last()[k] == t);
    }
}

/// Texts with `", "` between them.
pub open spec fn joined_texts(t: Seq<Seq<char>>) -> Seq<char>
    decreases t.len(),
{
    if t.len() == 0 {
        Seq::empty()
    } else if t.len() == 1 {
        t[0]
    } else {
        joined_texts(t.drop_last()) + ", "@ + t.last()
    }
}

/// Append the texts, with `", "` between them.
pub fn push_joined_texts(out: &mut String, t: &Vec<String>)
    ensures
        final(out)@ == old(out)@ + joined_texts(texts(t@)),
{
    let ghost all = texts(t@);
    let mut i: usize = 0;
    proof {
        assert(out@ =~= old(out)@ + joined_texts(all.take(0)));
    }
    while i < t.len()
        invariant
            i <= t@.len(),
            all == texts(t@),
            out@ == old(out)@ + joined_texts(all.take(i as int)),
        decreases t@.len() - i,
    {
        if i > 0 {
            out.append(", ");
        }
        out.append(t[i].as_str());
        proof {
            assert(all.take(i + 1).drop_last() =~= all.take(i as int));
            assert(all.take(i + 1).last() == t@[i as int]@);
            if i == 0 {
                assert(all.take(0) =~= Seq::empty());
            }
            assert(out@ =~= old(out)@ + joined_texts(all.take(i + 1)));
        }
        i += 1;
    }
    proof {
        assert(all.take(i as int) =~= all);
    }
}

} // verus!
