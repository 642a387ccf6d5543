//! When two updates are the same update, told from their values.

use crate::identity::{canonical, canonical_levels, QuoteId};
use crate::model::NormalizedQuote;
use vstd::prelude::*;

verus! {

/// A value's canonical form is the nearest whole number of ten thousand million units, halves away from
/// zero.
pub proof fn law_the_canonical_form_is_the_nearest(x: int)
    ensures
        x >= 0 ==> -5_000_000_000 <= x - 10_000_000_000 * canonical(x) < 5_000_000_000,
        x < 0 ==> -5_000_000_000 < x - 10_000_000_000 * canonical(x) <= 5_000_000_000,
        canonical(-x) == -canonical(x),
{
}

/// Values at least a canonical unit apart have canonical forms apart.
pub proof fn law_values_a_unit_apart_are_told_apart(a: int, b: int)
    requires
        a - b >= 10_000_000_000 || b - a >= 10_000_000_000,
    ensures
        canonical(a) != canonical(b),
{
    law_the_canonical_form_is_the_nearest(a);
    law_the_canonical_form_is_the_nearest(b);
}

/// Two numbers are at least a canonical unit apart.
pub open spec fn far(a: i128, b: i128) -> bool {
    a - b >= 10_000_000_000 || b - a >= 10_000_000_000
}

/// The two quotes differ by a canonical unit or more in a price or a size, or in a count.
pub open spec fn differ(a: NormalizedQuote, b: NormalizedQuote) -> bool {
    far(a.bid, b.bid) || far(a.bid_size, b.bid_size) || far(a.ask, b.ask) || far(a.ask_size, b.ask_size)
        || a.bid_n != b.bid_n || a.ask_n != b.ask_n
}

proof fn lemma_canonical_fits(x: i128)
    ensures
        i128::MIN <= canonical(x as int) <= i128::MAX,
{
}

/// Two quotes have the same identity exactly if bid, bid size, ask and ask size each agree in canonical
/// units and the counts agree.
pub proof fn law_quotes_are_the_same_in_every_field(a: NormalizedQuote, b: NormalizedQuote)
    ensures
        QuoteId::of_spec(a) == QuoteId::of_spec(b) <==> {
            &&& canonical(a.bid as int) == canonical(b.bid as int)
            &&& canonical(a.bid_size as int) == canonical(b.bid_size as int)
            &&& canonical(a.ask as int) == canonical(b.ask as int)
            &&& canonical(a.ask_size as int) == canonical(b.ask_size as int)
            &&& a.bid_n == b.bid_n
            &&& a.ask_n == b.ask_n
        },
{
    lemma_canonical_fits(a.bid);
    lemma_canonical_fits(a.bid_size);
    lemma_canonical_fits(a.ask);
    lemma_canonical_fits(a.ask_size);
    lemma_canonical_fits(b.bid);
    lemma_canonical_fits(b.bid_size);
    lemma_canonical_fits(b.ask);
    lemma_canonical_fits(b.ask_size);
}

/// Quotes that differ by a canonical unit or more in any price or size, or in a count, are not the
/// same.
pub proof fn law_quotes_that_differ_are_told_apart(a: NormalizedQuote, b: NormalizedQuote)
    requires
        differ(a, b),
    ensures
        QuoteId::of_spec(a) != QuoteId::of_spec(b),
{
    law_quotes_are_the_same_in_every_field(a, b);
    if far(a.bid, b.bid) {
        law_values_a_unit_apart_are_told_apart(a.bid as int, b.bid as int);
    }
    if far(a.bid_size, b.bid_size) {
        law_values_a_unit_apart_are_told_apart(a.bid_size as int, b.bid_size as int);
    }
    if far(a.ask, b.ask) {
        law_values_a_unit_apart_are_told_apart(a.ask as int, b.ask as int);
    }
    if far(a.ask_size, b.ask_size) {
        law_values_a_unit_apart_are_told_apart(a.ask_size as int, b.ask_size as int);
    }
}

/// Two sides are the same exactly if they have as many levels and these agree one by one, price and
/// size, in canonical units.
pub proof fn law_levels_are_the_same_one_by_one(a: Seq<(i128, i128)>, b: Seq<(i128, i128)>)
    ensures
        canonical_levels(a) == canonical_levels(b) <==> a.len() == b.len() && forall|i: int|
            0 <= i < a.len() ==> canonical((#[trigger] a[i]).0 as int) == canonical(b[i].0 as int)
                && canonical(a[i].1 as int) == canonical(b[i].1 as int),
{
    let x = canonical_levels(a);
    let y = canonical_levels(b);
    if a.len() == b.len() && forall|i: int|
        0 <= i < a.len() ==> canonical((#[trigger] a[i]).0 as int) == canonical(b[i].0 as int)
            && canonical(a[i].1 as int) == canonical(b[i].1 as int) {
        assert(x =~= y);
    }
    if x == y {
        assert(x.len() == a.len() && y.len() == b.len());
        assert forall|i: int| 0 <= i < a.len() implies canonical((#[trigger] a[i]).0 as int)
            == canonical(b[i].0 as int) && canonical(a[i].1 as int) == canonical(b[i].1 as int) by {
            assert(x[i] == y[i]);
            lemma_canonical_fits(a[i].0);
            lemma_canonical_fits(a[i].1);
            lemma_canonical_fits(b[i].0);
            lemma_canonical_fits(b[i].1);
        }
    }
}

/// Two sides differ by a level, or by a canonical unit or more in the price or the size of one.
pub open spec fn levels_differ(a: Seq<(i128, i128)>, b: Seq<(i128, i128)>) -> bool {
    a.len() != b.len() || exists|i: int|
        0 <= i < a.len() && (far((#[trigger] a[i]).0, b[i].0) || far(a[i].1, b[i].1))
}

/// Sides that differ by a level or by a canonical unit or more in one are not the same.
pub proof fn law_levels_that_differ_are_told_apart(a: Seq<(i128, i128)>, b: Seq<(i128, i128)>)
    requires
        levels_differ(a, b),
    ensures
        canonical_levels(a) != canonical_levels(b),
{
    law_levels_are_the_same_one_by_one(a, b);
    if a.len() == b.len() {
        let i = choose|i: int|
            0 <= i < a.len() && (far((#[trigger] a[i]).0, b[i].0) || far(a[i].1, b[i].1));
        if far(a[i].0, b[i].0) {
            law_values_a_unit_apart_are_told_apart(a[i].0 as int, b[i].0 as int);
        } else {
            law_values_a_unit_apart_are_told_apart(a[i].1 as int, b[i].1 as int);
        }
    }
}

} // verus!
