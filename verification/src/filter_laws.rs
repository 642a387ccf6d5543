//! What a channel filter selects, told from its text and the registry.

use crate::channel_filter::{
    ascending, bound, clause_of, clauses_of, first_row, ingests, lacking, parsed, published, published_under,
    selected, summary_line, Refusal, SelectionView,
};
use crate::feeds::{Feed, FeedPublisher};
use crate::text::{byte_value, decimal_text, first, is_white, lemma_first_in_range, split, trim};
use crate::text_laws::{
    law_a_byte_reads_as_it_is_written, law_a_decimal_text_stands_for_its_number,
    law_joined_parts_split_again, lemma_trimmed, rejoined,
};
use vstd::prelude::*;

verus! {

/// The first row that is wanted is wanted, and none before it is; there is none exactly if no row
/// is wanted.
pub proof fn law_the_first_row_is_the_first(rows: Seq<Feed>, wanted: spec_fn(Feed) -> bool) -> (at: int)
    ensures
        0 <= at <= rows.len(),
        forall|i: int| 0 <= i < at ==> !wanted(#[trigger] rows[i]),
        at < rows.len() ==> wanted(rows[at]),
        first_row(rows, wanted) == (if at < rows.len() {
            Some(rows[at])
        } else {
            None
        }),
    decreases rows.len(),
{
    if rows.len() == 0 || wanted(rows[0]) {
        0
    } else {
        let rest = rows.drop_first();
        let at = law_the_first_row_is_the_first(rest, wanted);
        assert forall|i: int| 0 <= i < at + 1 implies !wanted(#[trigger] rows[i]) by {
            if i > 0 {
                assert(rest[i - 1] == rows[i]);
            }
        }
        at + 1
    }
}

/// A publisher of the feed was derived from the channel.
pub open spec fn sends_on(f: Feed, c: u8) -> bool {
    exists|j: int| 0 <= j < f.publishers@.len() && (#[trigger] f.publishers@[j]).channel == Some(c)
}

/// Every feed that carries the code has a publisher of the channel.
pub open spec fn all_send_on(rows: Seq<Feed>, code: Seq<char>, c: u8) -> bool {
    forall|i: int|
        0 <= i < rows.len() && (#[trigger] rows[i]).code@ == code ==> sends_on(rows[i], c)
}

/// The token is blank, or the number of a channel that every feed of the code has.
pub open spec fn token_is_good(rows: Seq<Feed>, code: Seq<char>, token: Seq<char>) -> bool {
    let t = trim(token);
    t.len() == 0 || (byte_value(t) is Some && all_send_on(rows, code, byte_value(t)->0))
}

/// Some token before number `n` is the number of the channel.
pub open spec fn is_named(tokens: Seq<Seq<char>>, n: int, c: u8) -> bool {
    exists|i: int|
        0 <= i < n && trim(#[trigger] tokens[i]).len() > 0 && byte_value(trim(tokens[i])) == Some(c)
}

/// A clause selects the channels that its tokens name, if each token is blank or names a channel
/// that every feed of the code has. Else the first token that is not so is told: as no number if it
/// is none, and else with the first feed that lacks the channel.
pub proof fn law_a_clause_selects_what_it_names(
    rows: Seq<Feed>,
    code: Seq<char>,
    tokens: Seq<Seq<char>>,
    so_far: Set<u8>,
) -> (n: int)
    ensures
        0 <= n <= tokens.len(),
        forall|i: int| 0 <= i < n ==> token_is_good(rows, code, #[trigger] tokens[i]),
        n < tokens.len() ==> !token_is_good(rows, code, tokens[n]),
        n == tokens.len() ==> (selected(rows, code, tokens, so_far) matches Ok(ids) && forall|c: u8|
            #[trigger] ids.contains(c) <==> so_far.contains(c) || is_named(tokens, n, c)),
        n < tokens.len() && byte_value(trim(tokens[n])) is None ==> selected(
            rows,
            code,
            tokens,
            so_far,
        ) == Err::<Set<u8>, Refusal>(Refusal::BadId { code, text: trim(tokens[n]) }),
        n < tokens.len() && byte_value(trim(tokens[n])) is Some ==> exists|at: int|
            {
                let id = byte_value(trim(tokens[n]))->0;
                &&& 0 <= at < rows.len()
                &&& (#[trigger] rows[at]).code@ == code && !sends_on(rows[at], id)
                &&& forall|j: int|
                    0 <= j < at && (#[trigger] rows[j]).code@ == code ==> sends_on(rows[j], id)
                &&& selected(rows, code, tokens, so_far) == Err::<Set<u8>, Refusal>(
                    Refusal::UnknownChannel {
                        code,
                        venue: rows[at].venue@,
                        category: rows[at].category@,
                        id,
                        published_set: published(rows[at]),
                    },
                )
            },
    decreases tokens.len(),
{
    if tokens.len() == 0 {
        0
    } else {
        let t = trim(tokens[0]);
        let rest = tokens.drop_first();
        assert forall|f: Feed, c: u8| #[trigger] published(f).contains(c) <==> sends_on(f, c) by {}
        if t.len() > 0 && byte_value(t) is None {
            0
        } else {
            let id = byte_value(t)->0;
            let at = law_the_first_row_is_the_first(rows, lacking(code, id));
            if t.len() > 0 && at < rows.len() {
                assert(lacking(code, id)(rows[at]));
                assert(!sends_on(rows[at], id));
                assert forall|j: int| 0 <= j < at && (#[trigger] rows[j]).code@ == code implies sends_on(
                    rows[j],
                    id,
                ) by {
                    assert(!lacking(code, id)(rows[j]));
                }
                0
            } else {
                if t.len() > 0 {
                    assert(all_send_on(rows, code, id)) by {
                        assert forall|i: int| 0 <= i < rows.len() && (#[trigger] rows[i]).code@
                            == code implies sends_on(rows[i], id) by {
                            assert(!lacking(code, id)(rows[i]));
                        }
                    }
                }
                let next = if t.len() == 0 {
                    so_far
                } else {
                    so_far.insert(id)
                };
                let n = law_a_clause_selects_what_it_names(rows, code, rest, next);
                assert forall|i: int| 0 <= i < n + 1 implies token_is_good(
                    rows,
                    code,
                    #[trigger] tokens[i],
                ) by {
                    if i > 0 {
                        assert(rest[i - 1] == tokens[i]);
                    }
                }
                if n < rest.len() {
                    assert(rest[n] == tokens[n + 1]);
                } else {
                    let ids = selected(rows, code, tokens, so_far)->Ok_0;
                    assert forall|c: u8| #[trigger] ids.contains(c) <==> so_far.contains(c) || is_named(
                        tokens,
                        n + 1,
                        c,
                    ) by {
                        if is_named(rest, n, c) {
                            let i = choose|i: int|
                                0 <= i < n && trim(#[trigger] rest[i]).len() > 0 && byte_value(
                                    trim(rest[i]),
                                ) == Some(c);
                            assert(tokens[i + 1] == rest[i]);
                        }
                        if is_named(tokens, n + 1, c) {
                            let i = choose|i: int|
                                0 <= i < n + 1 && trim(#[trigger] tokens[i]).len() > 0 && byte_value(
                                    trim(tokens[i]),
                                ) == Some(c);
                            if i > 0 {
                                assert(rest[i - 1] == tokens[i]);
                            }
                        }
                        if t.len() > 0 && c == id {
                            assert(trim(tokens[0]).len() > 0);
                            assert(is_named(tokens, n + 1, c));
                        }
                    }
                }
                n + 1
            }
        }
    }
}

/// What a clause says: nothing if it is blank; without an equals sign it is refused for that; the
/// code before the first one has to be that of a feed, and every feed of it to send on some
/// channel; and what is behind it has to select something.
pub proof fn law_what_a_clause_says(rows: Seq<Feed>, clause: Seq<char>)
    ensures
        ({
            let c = trim(clause);
            let eq = first(c, '=');
            let code = trim(c.take(eq));
            let known = exists|i: int| 0 <= i < rows.len() && (#[trigger] rows[i]).code@ == code;
            let all_flat = |i: int| 0 <= i < rows.len() && rows[i].code@ == code && forall|x: u8|
                !sends_on(rows[i], x);
            let r = clause_of(rows, clause);
            &&& c.len() == 0 <==> r == Ok::<Option<(Seq<char>, SelectionView)>, Refusal>(None)
            &&& c.len() > 0 && !c.contains('=') <==> r == Err::<
                Option<(Seq<char>, SelectionView)>,
                Refusal,
            >(Refusal::MissingIds { clause: c })
            &&& c.contains('=') && !known ==> (r matches Err(Refusal::UnknownCode { code: x, known: k })
                && x == code && forall|y: Seq<char>| #[trigger]
                k.contains(y) <==> exists|i: int|
                    0 <= i < rows.len() && (#[trigger] rows[i]).code@ == y)
            &&& (r matches Err(Refusal::UnknownCode { .. }) ==> !known)
            &&& (r matches Err(Refusal::FlatRow { .. })) <==> c.contains('=') && exists|i: int|
                #[trigger] all_flat(i)
            &&& (r matches Ok(Some((x, s))) ==> {
                &&& x == code && known
                &&& selected(rows, code, split(c.skip(eq + 1), ','), Set::empty()) == Ok::<
                    Set<u8>,
                    Refusal,
                >(s.ids)
                &&& exists|y: u8| s.ids.contains(y)
            })
        }),
{
    let c = trim(clause);
    let eq = first(c, '=');
    let code = trim(c.take(eq));
    lemma_first_in_range(c, '=');
    if c.contains('=') {
        let i = choose|i: int| 0 <= i < c.len() && c[i] == '=';
        assert(eq < c.len());
    } else if eq < c.len() {
        assert(c.contains(c[eq]));
    }
    let carrying = crate::channel_filter::carrying(code);
    let flat = crate::channel_filter::flat(code);
    let a = law_the_first_row_is_the_first(rows, carrying);
    let b = law_the_first_row_is_the_first(rows, flat);
    if a < rows.len() {
        assert(carrying(rows[a]));
        assert(rows[a].code@ == code);
    } else {
        assert forall|i: int| 0 <= i < rows.len() implies (#[trigger] rows[i]).code@ != code by {
            assert(!carrying(rows[i]));
        }
    }
    let all_flat = |i: int| 0 <= i < rows.len() && rows[i].code@ == code && forall|x: u8|
        !sends_on(rows[i], x);
    assert forall|i: int| 0 <= i < rows.len() implies (flat(rows[i]) <==> #[trigger] all_flat(i)) by {
        assert forall|x: u8| published(rows[i]).contains(x) <==> #[trigger] sends_on(rows[i], x) by {}
        if flat(rows[i]) {
            assert forall|x: u8| !#[trigger] sends_on(rows[i], x) by {
                assert(!published(rows[i]).contains(x));
            }
        }
        if all_flat(i) {
            assert forall|x: u8| !#[trigger] published(rows[i]).contains(x) by {
                assert(!sends_on(rows[i], x));
            }
            assert(published(rows[i]) =~= Set::<u8>::empty());
        }
    }
    if b < rows.len() {
        assert(all_flat(b));
        assert(rows[b].code@ == code);
    } else {
        assert forall|i: int| !#[trigger] all_flat(i) by {
            if 0 <= i < rows.len() {
                assert(!flat(rows[i]));
            }
        }
    }
    let tokens = split(c.skip(eq + 1), ',');
    let n = law_a_clause_selects_what_it_names(rows, code, tokens, Set::empty());
    match selected(rows, code, tokens, Set::empty()) {
        Ok(ids) => {
            if ids != Set::<u8>::empty() {
                assert(exists|y: u8| ids.contains(y)) by {
                    if forall|y: u8| !ids.contains(y) {
                        assert(ids =~= Set::<u8>::empty());
                    }
                }
            }
        },
        Err(_) => {},
    }
}

/// A clause as it is written: the code, an equals sign, and the ids with commas between them.
pub open spec fn clause_text(code: Seq<char>, ids: Seq<u8>) -> Seq<char> {
    code.push('=') + rejoined(ids.map_values(|id: u8| decimal_text(id as nat)), ',')
}

/// A filter as it is written: its clauses with semicolons between them.
pub open spec fn filter_text(clauses: Seq<(Seq<char>, Seq<u8>)>) -> Seq<char> {
    rejoined(clauses.map_values(|c: (Seq<char>, Seq<u8>)| clause_text(c.0, c.1)), ';')
}

/// A code that can be written: not blank at its ends, and with neither an equals sign nor a
/// semicolon in it.
pub open spec fn is_code(code: Seq<char>) -> bool {
    code.len() > 0 && !is_white(code[0]) && !is_white(code.last()) && !code.contains('=')
        && !code.contains(';')
}

/// The clause can stand: its code is that of some feed, it names an id at least, and every feed of
/// the code sends on each.
pub open spec fn can_stand(rows: Seq<Feed>, code: Seq<char>, ids: Seq<u8>) -> bool {
    &&& is_code(code)
    &&& exists|i: int| 0 <= i < rows.len() && (#[trigger] rows[i]).code@ == code
    &&& ids.len() > 0
    &&& forall|i: int| 0 <= i < ids.len() ==> all_send_on(rows, code, #[trigger] ids[i])
}

proof fn lemma_decimal(n: u8)
    ensures
        ({
            let t = decimal_text(n as nat);
            &&& t.len() > 0
            &&& trim(t) == t
            &&& byte_value(t) == Some(n)
            &&& forall|i: int|
                0 <= i < t.len() ==> (#[trigger] t[i]) != ',' && t[i] != ';' && t[i] != '=' && !is_white(
                    t[i],
                )
        }),
{
    let t = decimal_text(n as nat);
    law_a_decimal_text_stands_for_its_number(n as nat);
    law_a_byte_reads_as_it_is_written(n as nat, t);
    assert forall|i: int| 0 <= i < t.len() implies (#[trigger] t[i]) != ',' && t[i] != ';' && t[i] != '='
        && !is_white(t[i]) by {
        assert('0' as u32 <= t[i] as u32 <= '9' as u32);
    }
    lemma_trimmed(t);
}

proof fn lemma_ids_text(ids: Seq<u8>)
    requires
        ids.len() > 0,
    ensures
        ({
            let tokens = ids.map_values(|id: u8| decimal_text(id as nat));
            let t = rejoined(tokens, ',');
            &&& t.len() > 0
            &&& split(t, ',') == tokens
            &&& forall|i: int| 0 <= i < t.len() ==> (#[trigger] t[i]) != ';'
            &&& !is_white(t.last())
        }),
    decreases ids.len(),
{
    let tokens = ids.map_values(|id: u8| decimal_text(id as nat));
    let t = rejoined(tokens, ',');
    assert forall|i: int| 0 <= i < tokens.len() implies !(#[trigger] tokens[i]).contains(',') by {
        lemma_decimal(ids[i]);
    }
    law_joined_parts_split_again(tokens, ',');
    lemma_decimal(ids[0]);
    assert(tokens[0] == decimal_text(ids[0] as nat));
    if ids.len() > 1 {
        let rest = ids.drop_first();
        lemma_ids_text(rest);
        let tail = rest.map_values(|id: u8| decimal_text(id as nat));
        assert(tokens.drop_first() =~= tail);
        let u = rejoined(tail, ',');
        let head = tokens[0].push(',');
        assert(t == head + u);
        assert forall|i: int| 0 <= i < t.len() implies (#[trigger] t[i]) != ';' by {
            if i < tokens[0].len() {
                assert(t[i] == tokens[0][i]);
            } else if i >= head.len() {
                assert(t[i] == u[i - head.len()]);
            }
        }
        assert(t.last() == u.last());
    }
}

proof fn lemma_clause_reads(rows: Seq<Feed>, code: Seq<char>, ids: Seq<u8>)
    requires
        can_stand(rows, code, ids),
    ensures
        !clause_text(code, ids).contains(';'),
        ({
            let r = clause_of(rows, clause_text(code, ids));
            r matches Ok(Some((c, s))) && c == code && s.ids == ids.to_set() && s.published_set_size
                == published_under(rows, code).len()
        }),
{
    let t = clause_text(code, ids);
    let tokens = ids.map_values(|id: u8| decimal_text(id as nat));
    let tail = rejoined(tokens, ',');
    lemma_ids_text(ids);
    let n = code.len() as int;
    assert(t[n] == '=');
    assert(t[0] == code[0]);
    assert(t.last() == tail.last());
    lemma_trimmed(t);
    lemma_first_in_range(t, '=');
    let eq = first(t, '=');
    if eq < n {
        assert(code[eq] == t[eq]);
        assert(code.contains('='));
    }
    assert(eq == n);
    assert(t.contains('='));
    assert(t.take(n) =~= code);
    lemma_trimmed(code);
    assert(t.skip(n + 1) =~= tail);
    assert(!t.contains(';')) by {
        if t.contains(';') {
            let i = choose|i: int| 0 <= i < t.len() && t[i] == ';';
            if i < n {
                assert(code[i] == ';');
                assert(code.contains(';'));
            } else if i > n {
                assert(tail[i - n - 1] == ';');
            }
        }
    }
    law_what_a_clause_says(rows, t);
    let m = law_a_clause_selects_what_it_names(rows, code, tokens, Set::empty());
    assert forall|i: int| 0 <= i < tokens.len() implies token_is_good(rows, code, #[trigger] tokens[i]) by {
        lemma_decimal(ids[i]);
        assert(all_send_on(rows, code, ids[i]));
    }
    assert(m == tokens.len());
    let got = selected(rows, code, tokens, Set::empty())->Ok_0;
    assert(got =~= ids.to_set()) by {
        assert forall|c: u8| got.contains(c) <==> ids.to_set().contains(c) by {
            if is_named(tokens, m, c) {
                let i = choose|i: int|
                    0 <= i < m && trim(#[trigger] tokens[i]).len() > 0 && byte_value(trim(tokens[i]))
                        == Some(c);
                lemma_decimal(ids[i]);
                assert(ids[i] == c);
            }
            if ids.contains(c) {
                let i = choose|i: int| 0 <= i < ids.len() && ids[i] == c;
                lemma_decimal(ids[i]);
                assert(tokens[i] == decimal_text(ids[i] as nat));
                assert(trim(tokens[i]).len() > 0);
                assert(is_named(tokens, m, c));
            }
        }
    }
    assert(ids.to_set().contains(ids[0]));
    assert(got != Set::<u8>::empty());
    let all_flat = |i: int| 0 <= i < rows.len() && rows[i].code@ == code && forall|x: u8|
        !sends_on(rows[i], x);
    assert forall|i: int| 0 <= i < rows.len() && (#[trigger] rows[i]).code@ == code implies sends_on(
        rows[i],
        ids[0],
    ) by {
        assert(all_send_on(rows, code, ids[0]));
    }
    assert(first_row(rows, crate::channel_filter::flat(code)) is None) by {
        let b = law_the_first_row_is_the_first(rows, crate::channel_filter::flat(code));
        if b < rows.len() {
            assert(crate::channel_filter::flat(code)(rows[b]));
            assert(rows[b].code@ == code);
            assert(sends_on(rows[b], ids[0]));
            assert(published(rows[b]).contains(ids[0]));
        }
    }
}

proof fn lemma_clauses_read(
    rows: Seq<Feed>,
    clauses: Seq<(Seq<char>, Seq<u8>)>,
    so_far: Map<Seq<char>, SelectionView>,
)
    requires
        forall|i: int|
            0 <= i < clauses.len() ==> can_stand(rows, (#[trigger] clauses[i]).0, clauses[i].1),
        forall|i: int, j: int|
            0 <= i < j < clauses.len() ==> (#[trigger] clauses[i]).0 != (#[trigger] clauses[j]).0,
        forall|i: int| 0 <= i < clauses.len() ==> !so_far.contains_key((#[trigger] clauses[i]).0),
    ensures
        ({
            let texts = clauses.map_values(|c: (Seq<char>, Seq<u8>)| clause_text(c.0, c.1));
            let r = clauses_of(rows, texts, so_far);
            &&& r is Ok
            &&& forall|code: Seq<char>| #[trigger]
                (r->Ok_0).contains_key(code) <==> so_far.contains_key(code) || exists|i: int|
                    0 <= i < clauses.len() && (#[trigger] clauses[i]).0 == code
            &&& forall|code: Seq<char>| #[trigger]
                so_far.contains_key(code) ==> (r->Ok_0)[code] == so_far[code]
            &&& forall|i: int|
                0 <= i < clauses.len() ==> (r->Ok_0)[(#[trigger] clauses[i]).0].ids
                    == clauses[i].1.to_set() && (r->Ok_0)[clauses[i].0].published_set_size
                    == published_under(rows, clauses[i].0).len()
        }),
    decreases clauses.len(),
{
    let texts = clauses.map_values(|c: (Seq<char>, Seq<u8>)| clause_text(c.0, c.1));
    if clauses.len() > 0 {
        let c = clauses[0];
        let rest = clauses.drop_first();
        lemma_clause_reads(rows, c.0, c.1);
        assert(texts[0] == clause_text(c.0, c.1));
        let s = (clause_of(rows, texts[0])->Ok_0->0).1;
        let next = so_far.insert(c.0, s);
        assert forall|i: int| 0 <= i < rest.len() implies can_stand(
            rows,
            (#[trigger] rest[i]).0,
            rest[i].1,
        ) && !next.contains_key(rest[i].0) by {
            assert(rest[i] == clauses[i + 1]);
            assert(clauses[0].0 != clauses[i + 1].0);
        }
        assert forall|i: int, j: int| 0 <= i < j < rest.len() implies (#[trigger] rest[i]).0 != (
        #[trigger] rest[j]).0 by {
            assert(rest[i] == clauses[i + 1] && rest[j] == clauses[j + 1]);
        }
        lemma_clauses_read(rows, rest, next);
        assert(texts.drop_first() =~= rest.map_values(
            |c: (Seq<char>, Seq<u8>)| clause_text(c.0, c.1),
        ));
        let r = clauses_of(rows, texts, so_far);
        assert forall|code: Seq<char>| #[trigger]
            (r->Ok_0).contains_key(code) <==> so_far.contains_key(code) || exists|i: int|
                0 <= i < clauses.len() && (#[trigger] clauses[i]).0 == code by {
            if exists|i: int| 0 <= i < rest.len() && (#[trigger] rest[i]).0 == code {
                let i = choose|i: int| 0 <= i < rest.len() && (#[trigger] rest[i]).0 == code;
                assert(clauses[i + 1].0 == code);
            }
            if exists|i: int| 0 <= i < clauses.len() && (#[trigger] clauses[i]).0 == code {
                let i = choose|i: int| 0 <= i < clauses.len() && (#[trigger] clauses[i]).0 == code;
                if i > 0 {
                    assert(rest[i - 1].0 == code);
                }
            }
            if code == c.0 {
                assert(clauses[0].0 == code);
            }
        }
        assert(next.contains_key(c.0));
        assert forall|code: Seq<char>| #[trigger] so_far.contains_key(code) implies (r->Ok_0)[code]
            == so_far[code] by {
            assert(next.contains_key(code));
            assert(code != c.0);
        }
        assert forall|i: int| 0 <= i < clauses.len() implies (r->Ok_0)[(#[trigger] clauses[i]).0].ids
            == clauses[i].1.to_set() && (r->Ok_0)[clauses[i].0].published_set_size
            == published_under(rows, clauses[i].0).len() by {
            if i > 0 {
                assert(rest[i - 1] == clauses[i]);
            }
        }
    } else {
        assert(texts.len() == 0);
    }
}

/// A filter reads as it was written: of clauses that can stand, each of another code, it narrows
/// exactly their codes, and each to exactly the ids that were written for it.
pub proof fn law_a_filter_reads_as_it_was_written(
    rows: Seq<Feed>,
    clauses: Seq<(Seq<char>, Seq<u8>)>,
)
    requires
        clauses.len() > 0,
        forall|i: int|
            0 <= i < clauses.len() ==> can_stand(rows, (#[trigger] clauses[i]).0, clauses[i].1),
        forall|i: int, j: int|
            0 <= i < j < clauses.len() ==> (#[trigger] clauses[i]).0 != (#[trigger] clauses[j]).0,
    ensures
        ({
            let r = parsed(rows, filter_text(clauses));
            &&& r is Ok
            &&& forall|code: Seq<char>| #[trigger]
                (r->Ok_0).contains_key(code) <==> exists|i: int|
                    0 <= i < clauses.len() && (#[trigger] clauses[i]).0 == code
            &&& forall|i: int|
                0 <= i < clauses.len() ==> (r->Ok_0)[(#[trigger] clauses[i]).0].ids
                    == clauses[i].1.to_set()
        }),
{
    let texts = clauses.map_values(|c: (Seq<char>, Seq<u8>)| clause_text(c.0, c.1));
    assert forall|i: int| 0 <= i < texts.len() implies !(#[trigger] texts[i]).contains(';') by {
        assert(can_stand(rows, clauses[i].0, clauses[i].1));
        lemma_clause_reads(rows, clauses[i].0, clauses[i].1);
    }
    law_joined_parts_split_again(texts, ';');
    lemma_clauses_read(rows, clauses, Map::empty());
}

/// A code that is written twice is refused.
pub proof fn law_a_repeated_code_is_refused(rows: Seq<Feed>, code: Seq<char>, a: Seq<u8>, b: Seq<u8>)
    requires
        can_stand(rows, code, a),
        can_stand(rows, code, b),
    ensures
        parsed(rows, filter_text(seq![(code, a), (code, b)])) == Err::<
            Map<Seq<char>, SelectionView>,
            Refusal,
        >(Refusal::RepeatedCode { code }),
{
    let clauses = seq![(code, a), (code, b)];
    let texts = clauses.map_values(|c: (Seq<char>, Seq<u8>)| clause_text(c.0, c.1));
    lemma_clause_reads(rows, code, a);
    lemma_clause_reads(rows, code, b);
    assert(texts[0] == clause_text(code, a) && texts[1] == clause_text(code, b));
    law_joined_parts_split_again(texts, ';');
    reveal_with_fuel(clauses_of, 3);
    assert(texts.drop_first()[0] == texts[1]);
}

/// How many channels a code has is counted over all of its feeds, each once.
pub proof fn law_channels_are_counted_over_all_feeds(rows: Seq<Feed>, code: Seq<char>, c: u8)
    ensures
        published_under(rows, code).contains(c) <==> exists|i: int|
            0 <= i < rows.len() && (#[trigger] rows[i]).code@ == code && sends_on(rows[i], c),
{
    assert forall|f: Feed| #[trigger] published(f).contains(c) <==> sends_on(f, c) by {}
    if published_under(rows, code).contains(c) {
        let i = choose|i: int|
            0 <= i < rows.len() && (#[trigger] rows[i]).code@ == code && published(rows[i]).contains(c);
        assert(sends_on(rows[i], c));
    }
    if exists|i: int| 0 <= i < rows.len() && (#[trigger] rows[i]).code@ == code && sends_on(rows[i], c) {
        let i = choose|i: int|
            0 <= i < rows.len() && (#[trigger] rows[i]).code@ == code && sends_on(rows[i], c);
        assert(published(rows[i]).contains(c));
    }
}

/// A channel of a code is ingested unless the code is narrowed to others; and a feed of a narrowed
/// code is left its publishers of the selected channels, in order, any other all of them.
pub proof fn law_a_narrowed_code_is_left_its_channels(
    narrowed: Map<Seq<char>, SelectionView>,
    feed: Feed,
    channel: u8,
    p: FeedPublisher,
)
    ensures
        ingests(narrowed, feed.code@, channel) <==> !(narrowed.contains_key(feed.code@)
            && !narrowed[feed.code@].ids.contains(channel)),
        !narrowed.contains_key(feed.code@) ==> bound(narrowed, feed) == feed.publishers@,
        narrowed.contains_key(feed.code@) ==> (bound(narrowed, feed).contains(p)
            <==> feed.publishers@.contains(p) && p.channel is Some && ingests(
            narrowed,
            feed.code@,
            p.channel->0,
        )),
{
    if narrowed.contains_key(feed.code@) {
        crate::recent::lemma_filter(
            feed.publishers@,
            |p: FeedPublisher| p.channel is Some && narrowed[feed.code@].ids.contains(p.channel->0),
        );
    }
}

/// A set of channels is listed in rising order, each of its channels once and no other.
pub proof fn law_channels_are_listed_rising(set: Set<u8>, from: int)
    requires
        0 <= from <= 256,
    ensures
        forall|i: int, j: int|
            0 <= i < j < ascending(set, from).len() ==> #[trigger] ascending(set, from)[i]
                < #[trigger] ascending(set, from)[j],
        forall|c: u8| #[trigger]
            ascending(set, from).contains(c) <==> from <= c && set.contains(c),
    decreases 256 - from,
{
    if from < 256 {
        law_channels_are_listed_rising(set, from + 1);
        let rest = ascending(set, from + 1);
        let all = ascending(set, from);
        if set.contains(from as u8) {
            assert forall|i: int, j: int| 0 <= i < j < all.len() implies #[trigger] all[i]
                < #[trigger] all[j] by {
                assert(all[j] == rest[j - 1]);
                assert(rest.contains(rest[j - 1]));
                if i > 0 {
                    assert(all[i] == rest[i - 1]);
                }
            }
            assert forall|c: u8| #[trigger] all.contains(c) <==> from <= c && set.contains(c) by {
                if all.contains(c) {
                    let k = choose|k: int| 0 <= k < all.len() && all[k] == c;
                    if k > 0 {
                        assert(rest[k - 1] == c);
                        assert(rest.contains(c));
                    }
                }
                if from <= c && set.contains(c) {
                    if c == from {
                        assert(all[0] == c);
                    } else {
                        assert(rest.contains(c));
                        let k = choose|k: int| 0 <= k < rest.len() && rest[k] == c;
                        assert(all[k + 1] == c);
                    }
                }
            }
        } else {
            assert forall|c: u8| #[trigger] all.contains(c) <==> from <= c && set.contains(c) by {
                assert(rest.contains(c) <==> from + 1 <= c && set.contains(c));
            }
        }
    }
}

/// A summary line tells of a code how many channels are selected, of how many there are.
pub proof fn law_a_summary_line_tells_the_share(code: Seq<char>, s: SelectionView)
    ensures
        summary_line(code, s) == code + seq!['='] + decimal_text(s.ids.len()) + seq![
            ' ',
            'o',
            'f',
            ' ',
        ] + decimal_text(s.published_set_size),
{
    reveal_strlit("=");
    reveal_strlit(" of ");
    assert("="@ =~= seq!['=']);
    assert(" of "@ =~= seq![' ', 'o', 'f', ' ']);
}

} // verus!
