//! The channel filter: which channels of an activated feed this process decodes.
//!
//! It is an allowlist, keyed by group code: `code=10,11;other=3` narrows the feeds that carry those
//! codes, and a code that is not mentioned keeps every channel. It acts where a publisher derives a
//! port per channel, and a feed whose publishers bind a base flat is refused: there a channel id tells
//! mirrors apart, not markets.

use crate::feeds::{Feed, FeedPublisher, Registry};
use crate::table::{group_views, same_text, views, Table};
use crate::text::{
    byte_value, chars_of, decimal_text, find, first, insert_text, joined_text, joined_texts,
    lemma_split_step, lists_texts, parse_byte, push_decimal, push_joined, push_joined_texts, split, texts, trim,
    trimmed,
};
use vstd::prelude::*;

verus! {

broadcast use group_views;

/// Why a channel filter is refused. A filter that silently filters nothing is worse than one that
/// refuses to start.
#[derive(Debug, Clone, PartialEq, Eq)]
pub enum FilterError {
    /// A clause with no `=`.
    MissingIds { clause: String },
    /// A code that no loaded feed carries.
    UnknownCode { code: String, known: Vec<String> },
    /// A code listed twice.
    RepeatedCode { code: String },
    /// A clause that selects no channel at all.
    EmptySelection { code: String },
    /// An id that is not a number in `0..=255`.
    BadId { code: String, text: String },
    /// An id outside the published set of one of the feeds that carry the code.
    UnknownChannel {
        code: String,
        venue: String,
        category: String,
        id: u8,
        published_set: Vec<u8>,
    },
    /// A feed whose publishers bind a base flat.
    FlatRow { code: String, venue: String, category: String },
}

/// The grounds of a [`FilterError`].
pub enum Refusal {
    MissingIds { clause: Seq<char> },
    UnknownCode { code: Seq<char>, known: Set<Seq<char>> },
    RepeatedCode { code: Seq<char> },
    EmptySelection { code: Seq<char> },
    BadId { code: Seq<char>, text: Seq<char> },
    UnknownChannel {
        code: Seq<char>,
        venue: Seq<char>,
        category: Seq<char>,
        id: u8,
        published_set: Set<u8>,
    },
    FlatRow { code: Seq<char>, venue: Seq<char>, category: Seq<char> },
}

/// The ids of `set` from `from` on, ascending.
pub open spec fn ascending(set: Set<u8>, from: int) -> Seq<u8>
    decreases 256 - from,
{
    if from >= 256 {
        Seq::empty()
    } else if set.contains(from as u8) {
        seq![from as u8] + ascending(set, from + 1)
    } else {
        ascending(set, from + 1)
    }
}

impl FilterError {
    /// The error says what was wrong.
    pub open spec fn tells(self, why: Refusal) -> bool {
        match why {
            Refusal::MissingIds { clause } => self matches FilterError::MissingIds { clause: c }
                && c@ == clause,
            Refusal::UnknownCode { code, known } => self matches FilterError::UnknownCode {
                code: c,
                known: k,
            } && c@ == code && lists_texts(texts(k@), known),
            Refusal::RepeatedCode { code } => self matches FilterError::RepeatedCode { code: c }
                && c@ == code,
            Refusal::EmptySelection { code } => self matches FilterError::EmptySelection { code: c }
                && c@ == code,
            Refusal::BadId { code, text } => self matches FilterError::BadId { code: c, text: t }
                && c@ == code && t@ == text,
            Refusal::UnknownChannel { code, venue, category, id, published_set } =>
                self matches FilterError::UnknownChannel {
                    code: c,
                    venue: v,
                    category: g,
                    id: i,
                    published_set: p,
                } && c@ == code && v@ == venue && g@ == category && i == id && p@ == ascending(
                    published_set,
                    0,
                ),
            Refusal::FlatRow { code, venue, category } => self matches FilterError::FlatRow {
                code: c,
                venue: v,
                category: g,
            } && c@ == code && v@ == venue && g@ == category,
        }
    }

    /// The text of [`FilterError::message`].
    pub open spec fn text(self) -> Seq<char> {
        match self {
            FilterError::MissingIds { clause } => "channel filter clause `"@ + clause@
                + "` has no `=`; the syntax is `<code>=<id>[,<id>...][;<code>=...]`"@,
            FilterError::UnknownCode { code, known } => "channel filter names group code `"@ + code@
                + "`, which no feed in the loaded feed registry carries; it would filter nothing. Known codes: "@
                + joined_texts(texts(known@)),
            FilterError::RepeatedCode { code } => "channel filter lists group code `"@ + code@
                + "` twice; one clause would win and the other's channels would go silently unbound"@,
            FilterError::EmptySelection { code } => "channel filter selects no channel for `"@
                + code@
                + "`; the feed would bind no socket at all, which is `--feed`'s job, not this flag's"@,
            FilterError::BadId { code, text } => "channel filter id `"@ + text@ + "` for `"@ + code@
                + "` is not a channel id (0-255)"@,
            FilterError::UnknownChannel { code, venue, category, id, published_set } =>
                "channel filter names channel "@ + decimal_text(id as nat) + " on `"@ + code@
                    + "`, which is not in the published set of "@ + venue@ + "/"@ + category@
                    + ". Every feed carrying a code is narrowed by the same clause, so an id must be in every one of their published sets: an id in none of them binds a port no publisher sends to (which reads as a dead feed rather than as a typo), and an id in only some leaves the remaining feeds binding no socket at all. Published set of "@
                    + venue@ + "/"@ + category@ + ": "@ + joined_text(published_set@),
            FilterError::FlatRow { code, venue, category } => "channel filter narrows `"@ + code@
                + "` ("@ + venue@ + "/"@ + category@
                + "), whose publishers bind one base port flat. On such a feed `channel_id` identifies mirrors, not markets — each publisher carries the complete instrument universe — so narrowing it would give up redundancy without reducing a single decoded message. Remove the clause, or use `--publisher-port` to drop a specific mirror"@,
        }
    }

    /// What is wrong, in words: the feed at fault, and the consequence.
    pub fn message(&self) -> (r: String)
        ensures
            r@ == self.text(),
    {
        let mut out = String::new();
        match self {
            FilterError::MissingIds { clause } => {
                out.append("channel filter clause `");
                out.append(clause.as_str());
                out.append("` has no `=`; the syntax is `<code>=<id>[,<id>...][;<code>=...]`");
            },
            FilterError::UnknownCode { code, known } => {
                out.append("channel filter names group code `");
                out.append(code.as_str());
                out.append(
                    "`, which no feed in the loaded feed registry carries; it would filter nothing. Known codes: ",
                );
                push_joined_texts(&mut out, known);
            },
            FilterError::RepeatedCode { code } => {
                out.append("channel filter lists group code `");
                out.append(code.as_str());
                out.append(
                    "` twice; one clause would win and the other's channels would go silently unbound",
                );
            },
            FilterError::EmptySelection { code } => {
                out.append("channel filter selects no channel for `");
                out.append(code.as_str());
                out.append(
                    "`; the feed would bind no socket at all, which is `--feed`'s job, not this flag's",
                );
            },
            FilterError::BadId { code, text } => {
                out.append("channel filter id `");
                out.append(text.as_str());
                out.append("` for `");
                out.append(code.as_str());
                out.append("` is not a channel id (0-255)");
            },
            FilterError::UnknownChannel { code, venue, category, id, published_set } => {
                out.append("channel filter names channel ");
                push_decimal(&mut out, *id as u64);
                out.append(" on `");
                out.append(code.as_str());
                out.append("`, which is not in the published set of ");
                out.append(venue.as_str());
                out.append("/");
                out.append(category.as_str());
                out.append(
                    ". Every feed carrying a code is narrowed by the same clause, so an id must be in every one of their published sets: an id in none of them binds a port no publisher sends to (which reads as a dead feed rather than as a typo), and an id in only some leaves the remaining feeds binding no socket at all. Published set of ",
                );
                out.append(venue.as_str());
                out.append("/");
                out.append(category.as_str());
                out.append(": ");
                push_joined(&mut out, published_set);
            },
            FilterError::FlatRow { code, venue, category } => {
                out.append("channel filter narrows `");
                out.append(code.as_str());
                out.append("` (");
                out.append(venue.as_str());
                out.append("/");
                out.append(category.as_str());
                out.append(
                    "), whose publishers bind one base port flat. On such a feed `channel_id` identifies mirrors, not markets — each publisher carries the complete instrument universe — so narrowing it would give up redundancy without reducing a single decoded message. Remove the clause, or use `--publisher-port` to drop a specific mirror",
                );
            },
        }
        assert(out@ =~= self.text());
        out
    }
}

/// The channel ids that a feed's publishers were derived from. Empty for a flat feed.
pub open spec fn published(f: Feed) -> Set<u8> {
    Set::new(|c: u8| carries_channel(f.publishers@, c))
}

/// Some publisher was derived from channel `c`.
pub open spec fn carries_channel(publishers: Seq<FeedPublisher>, c: u8) -> bool {
    exists|i: int| 0 <= i < publishers.len() && (#[trigger] publishers[i]).channel == Some(c)
}

/// The channels of all the feeds that carry a code.
pub open spec fn published_under(rows: Seq<Feed>, code: Seq<char>) -> Set<u8> {
    Set::new(|c: u8| carried_under(rows, code, c))
}

/// Some feed that carries the code has channel `c`.
pub open spec fn carried_under(rows: Seq<Feed>, code: Seq<char>, c: u8) -> bool {
    exists|i: int|
        0 <= i < rows.len() && (#[trigger] rows[i]).code@ == code && published(rows[i]).contains(c)
}

/// The codes of the rows.
pub open spec fn codes_of(rows: Seq<Feed>) -> Set<Seq<char>> {
    Set::new(
        |code: Seq<char>| exists|i: int| 0 <= i < rows.len() && (#[trigger] rows[i]).code@ == code,
    )
}

/// The first row for which `wanted` holds.
pub open spec fn first_row(rows: Seq<Feed>, wanted: spec_fn(Feed) -> bool) -> Option<Feed>
    decreases rows.len(),
{
    if rows.len() == 0 {
        None
    } else if wanted(rows[0]) {
        Some(rows[0])
    } else {
        first_row(rows.drop_first(), wanted)
    }
}

/// A feed that carries the code.
pub open spec fn carrying(code: Seq<char>) -> spec_fn(Feed) -> bool {
    |f: Feed| f.code@ == code
}

/// A flat feed that carries the code.
pub open spec fn flat(code: Seq<char>) -> spec_fn(Feed) -> bool {
    |f: Feed| f.code@ == code && published(f) == Set::<u8>::empty()
}

/// A feed that carries the code and not the channel.
pub open spec fn lacking(code: Seq<char>, id: u8) -> spec_fn(Feed) -> bool {
    |f: Feed| f.code@ == code && !published(f).contains(id)
}

proof fn lemma_first_row_at(rows: Seq<Feed>, wanted: spec_fn(Feed) -> bool, at: int)
    requires
        0 <= at <= rows.len(),
        forall|j: int| 0 <= j < at ==> !wanted(#[trigger] rows[j]),
        at < rows.len() ==> wanted(rows[at]),
    ensures
        first_row(rows, wanted) == (if at < rows.len() {
            Some(rows[at])
        } else {
            None
        }),
    decreases at,
{
    if at > 0 {
        assert(!wanted(rows[0]));
        assert forall|j: int| 0 <= j < at - 1 implies !wanted(
            #[trigger] rows.drop_first()[j],
        ) by {
            assert(!wanted(rows[j + 1]));
        }
        lemma_first_row_at(rows.drop_first(), wanted, at - 1);
    }
}

/// The ids that a clause's tokens select: each is a number, and a channel of every feed that carries
/// the code. An empty token is a stray separator.
pub open spec fn selected(
    rows: Seq<Feed>,
    code: Seq<char>,
    tokens: Seq<Seq<char>>,
    so_far: Set<u8>,
) -> Result<Set<u8>, Refusal>
    decreases tokens.len(),
{
    if tokens.len() == 0 {
        Ok(so_far)
    } else {
        let token = trim(tokens[0]);
        if token.len() == 0 {
            selected(rows, code, tokens.drop_first(), so_far)
        } else {
            match byte_value(token) {
                None => Err(Refusal::BadId { code, text: token }),
                Some(id) => match first_row(rows, lacking(code, id)) {
                    Some(f) => Err(
                        Refusal::UnknownChannel {
                            code,
                            venue: f.venue@,
                            category: f.category@,
                            id,
                            published_set: published(f),
                        },
                    ),
                    None => selected(rows, code, tokens.drop_first(), so_far.insert(id)),
                },
            }
        }
    }
}

/// What one clause resolved to: the ids it selects, and how many channels the code's feeds have.
#[verifier::ext_equal]
pub struct SelectionView {
    pub ids: Set<u8>,
    pub published_set_size: nat,
}

/// What one clause says: nothing if it is blank, else a code and what is selected of it.
pub open spec fn clause_of(rows: Seq<Feed>, clause: Seq<char>) -> Result<
    Option<(Seq<char>, SelectionView)>,
    Refusal,
> {
    let c = trim(clause);
    let eq = first(c, '=');
    if c.len() == 0 {
        Ok(None)
    } else if eq >= c.len() {
        Err(Refusal::MissingIds { clause: c })
    } else {
        let code = trim(c.take(eq));
        if first_row(rows, carrying(code)) is None {
            Err(Refusal::UnknownCode { code, known: codes_of(rows) })
        } else {
            match first_row(rows, flat(code)) {
                Some(f) => Err(Refusal::FlatRow { code, venue: f.venue@, category: f.category@ }),
                None => match selected(rows, code, split(c.skip(eq + 1), ','), Set::empty()) {
                    Err(e) => Err(e),
                    Ok(ids) => if ids == Set::<u8>::empty() {
                        Err(Refusal::EmptySelection { code })
                    } else {
                        Ok(
                            Some(
                                (
                                    code,
                                    SelectionView {
                                        ids,
                                        published_set_size: published_under(rows, code).len(),
                                    },
                                ),
                            ),
                        )
                    },
                },
            }
        }
    }
}

/// What a list of clauses adds to what is narrowed already. A code can be narrowed once.
pub open spec fn clauses_of(
    rows: Seq<Feed>,
    clauses: Seq<Seq<char>>,
    so_far: Map<Seq<char>, SelectionView>,
) -> Result<Map<Seq<char>, SelectionView>, Refusal>
    decreases clauses.len(),
{
    if clauses.len() == 0 {
        Ok(so_far)
    } else {
        match clause_of(rows, clauses[0]) {
            Err(e) => Err(e),
            Ok(None) => clauses_of(rows, clauses.drop_first(), so_far),
            Ok(Some((code, selection))) => if so_far.contains_key(code) {
                Err(Refusal::RepeatedCode { code })
            } else {
                clauses_of(rows, clauses.drop_first(), so_far.insert(code, selection))
            },
        }
    }
}

/// What a filter's text stands for, against a set of feeds.
pub open spec fn parsed(rows: Seq<Feed>, spec_text: Seq<char>) -> Result<
    Map<Seq<char>, SelectionView>,
    Refusal,
> {
    clauses_of(rows, split(spec_text, ';'), Map::empty())
}

/// What one clause resolved to.
#[derive(Debug, Clone)]
pub struct Selection {
    ids: Vec<u8>,
    published_set_size: usize,
}

impl Selection {
    pub closed spec fn wf(&self) -> bool {
        self.ids@.no_duplicates()
    }
}

impl View for Selection {
    type V = SelectionView;

    closed spec fn view(&self) -> SelectionView {
        SelectionView {
            ids: self.ids@.to_set(),
            published_set_size: self.published_set_size as nat,
        }
    }
}

/// Which channels of each group code this process ingests. A code that is absent admits everything.
#[derive(Debug, Clone)]
pub struct ChannelFilter {
    narrowed: Table<String, Selection>,
}

impl View for ChannelFilter {
    type V = Map<Seq<char>, SelectionView>;

    closed spec fn view(&self) -> Map<Seq<char>, SelectionView> {
        views(self.narrowed@)
    }
}

/// Whether a channel of a code is ingested.
pub open spec fn ingests(
    narrowed: Map<Seq<char>, SelectionView>,
    code: Seq<char>,
    channel: u8,
) -> bool {
    narrowed.contains_key(code) ==> narrowed[code].ids.contains(channel)
}

/// The publishers of a feed that are bound.
pub open spec fn bound(narrowed: Map<Seq<char>, SelectionView>, feed: Feed) -> Seq<FeedPublisher> {
    if narrowed.contains_key(feed.code@) {
        feed.publishers@.filter(
            |p: FeedPublisher|
                p.channel is Some && narrowed[feed.code@].ids.contains(p.channel->0),
        )
    } else {
        feed.publishers@
    }
}

/// The summary line of one code.
pub open spec fn summary_line(code: Seq<char>, s: SelectionView) -> Seq<char> {
    code + "="@ + decimal_text(s.ids.len()) + " of "@ + decimal_text(s.published_set_size)
}

/// The summary lines of a filter.
pub open spec fn summary_lines(narrowed: Map<Seq<char>, SelectionView>) -> Set<Seq<char>> {
    Set::new(
        |line: Seq<char>|
            exists|code: Seq<char>| #[trigger]
                narrowed.contains_key(code) && line == summary_line(code, narrowed[code]),
    )
}

proof fn lemma_ascending(set: Set<u8>, from: int)
    requires
        0 <= from <= 256,
    ensures
        forall|x: u8| #[trigger]
            ascending(set, from).contains(x) == (from <= x && set.contains(x)),
        ascending(set, from).no_duplicates(),
    decreases 256 - from,
{
    if from < 256 {
        lemma_ascending(set, from + 1);
        let rest = ascending(set, from + 1);
        let all = ascending(set, from);
        if set.contains(from as u8) {
            assert(!rest.contains(from as u8));
            assert forall|x: u8| #[trigger] all.contains(x) == (from <= x && set.contains(x)) by {
                if all.contains(x) {
                    let k = choose|k: int| 0 <= k < all.len() && all[k] == x;
                    if k > 0 {
                        assert(rest[k - 1] == x);
                        assert(rest.contains(x));
                    }
                }
                if from <= x && set.contains(x) {
                    if x == from {
                        assert(all[0] == x);
                    } else {
                        assert(rest.contains(x));
                        let k = choose|k: int| 0 <= k < rest.len() && rest[k] == x;
                        assert(all[k + 1] == x);
                    }
                }
            }
            assert forall|i: int, j: int| 0 <= i < all.len() && 0 <= j < all.len() && i != j implies all[i]
                != all[j] by {
                if i > 0 && j > 0 {
                    assert(all[i] == rest[i - 1] && all[j] == rest[j - 1]);
                } else if i > 0 {
                    assert(rest.contains(rest[i - 1]));
                } else if j > 0 {
                    assert(rest.contains(rest[j - 1]));
                }
            }
        } else {
            assert forall|x: u8| #[trigger] all.contains(x) == (from <= x && set.contains(x)) by {
                assert(rest.contains(x) == (from + 1 <= x && set.contains(x)));
            }
        }
    }
}

proof fn lemma_ascending_len(set: Set<u8>)
    ensures
        set.finite(),
        ascending(set, 0).len() == set.len(),
        ascending(set, 0).len() <= 256,
{
    lemma_ascending(set, 0);
    let all = ascending(set, 0);
    all.unique_seq_to_set();
    vstd::seq_lib::seq_to_set_is_finite(all);
    assert(all.to_set() =~= set) by {
        assert forall|x: u8| all.to_set().contains(x) == set.contains(x) by {
            assert(all.contains(x) == (0 <= x && set.contains(x)));
        }
    }
    lemma_ascending_bound(set, 0);
}

proof fn lemma_ascending_bound(set: Set<u8>, from: int)
    requires
        0 <= from <= 256,
    ensures
        ascending(set, from).len() <= 256 - from,
    decreases 256 - from,
{
    if from < 256 {
        lemma_ascending_bound(set, from + 1);
    }
}

/// Whether a publisher of the feed was derived from channel `c`.
fn has_channel(f: &Feed, c: u8) -> (r: bool)
    ensures
        r == published(*f).contains(c),
{
    let mut i: usize = 0;
    while i < f.publishers.len()
        invariant
            i <= f.publishers@.len(),
            forall|j: int| 0 <= j < i ==> (#[trigger] f.publishers@[j]).channel != Some(c),
        decreases f.publishers@.len() - i,
    {
        if let Some(id) = f.publishers[i].channel {
            if id == c {
                assert(f.publishers@[i as int].channel == Some(c));
                return true;
            }
        }
        i += 1;
    }
    false
}

/// The channels of a feed, ascending.
fn published_set(f: &Feed) -> (r: Vec<u8>)
    ensures
        r@ == ascending(published(*f), 0),
{
    let ghost set = published(*f);
    let mut r: Vec<u8> = Vec::new();
    let mut c: u16 = 0;
    proof {
        assert(Seq::<u8>::empty() + ascending(set, 0) =~= ascending(set, 0));
    }
    while c < 256
        invariant
            c <= 256,
            set == published(*f),
            r@ + ascending(set, c as int) == ascending(set, 0),
        decreases 256 - c,
    {
        let ghost before = r@;
        if has_channel(f, c as u8) {
            r.push(c as u8);
            proof {
                assert(before + ascending(set, c as int) =~= r@ + ascending(set, c + 1));
            }
        }
        c += 1;
    }
    proof {
        assert(r@ + ascending(set, 256) =~= r@);
    }
    r
}

/// Whether a feed's publishers bind a base flat.
fn is_flat(f: &Feed) -> (r: bool)
    ensures
        r == (published(*f) == Set::<u8>::empty()),
{
    let mut i: usize = 0;
    while i < f.publishers.len()
        invariant
            i <= f.publishers@.len(),
            forall|j: int| 0 <= j < i ==> (#[trigger] f.publishers@[j]).channel is None,
        decreases f.publishers@.len() - i,
    {
        if let Some(c) = f.publishers[i].channel {
            proof {
                assert(f.publishers@[i as int].channel == Some(c));
                assert(published(*f).contains(c));
            }
            return false;
        }
        i += 1;
    }
    proof {
        assert(published(*f) =~= Set::<u8>::empty());
    }
    true
}

/// How many channels the feeds that carry a code have.
fn published_count(rows: &[Feed], code: &str) -> (r: usize)
    ensures
        r == published_under(rows@, code@).len(),
{
    let ghost set = published_under(rows@, code@);
    let mut r: usize = 0;
    let mut c: u16 = 0;
    while c < 256
        invariant
            c <= 256,
            r <= c,
            set == published_under(rows@, code@),
            r + ascending(set, c as int).len() == ascending(set, 0).len(),
        decreases 256 - c,
    {
        let mut i: usize = 0;
        let mut found = false;
        while i < rows.len() && !found
            invariant
                i <= rows@.len(),
                c < 256,
                found ==> carried_under(rows@, code@, c as u8),
                !found ==> forall|j: int|
                    0 <= j < i ==> !((#[trigger] rows@[j]).code@ == code@ && published(
                        rows@[j],
                    ).contains(c as u8)),
            decreases rows@.len() - i,
        {
            if same_text(rows[i].code.as_str(), code) && has_channel(&rows[i], c as u8) {
                assert(rows@[i as int].code@ == code@);
                found = true;
            }
            i += 1;
        }
        assert(found == set.contains(c as u8));
        if found {
            r += 1;
        }
        c += 1;
    }
    proof {
        lemma_ascending_len(set);
    }
    r
}

/// The codes that the rows carry, in order.
fn known_codes(rows: &[Feed]) -> (r: Vec<String>)
    ensures
        lists_texts(texts(r@), codes_of(rows@)),
{
    let mut r: Vec<String> = Vec::new();
    let mut i: usize = 0;
    let ghost mut all = Set::<Seq<char>>::empty();
    while i < rows.len()
        invariant
            i <= rows@.len(),
            lists_texts(texts(r@), all),
            forall|code: Seq<char>| #[trigger]
                all.contains(code) <==> exists|j: int|
                    0 <= j < i && (#[trigger] rows@[j]).code@ == code,
        decreases rows@.len() - i,
    {
        let ghost before = all;
        insert_text(&mut r, rows[i].code.clone(), Ghost(all));
        proof {
            all = all.insert(rows@[i as int].code@);
            assert forall|code: Seq<char>| #[trigger] all.contains(code) implies exists|j: int|
                0 <= j < i + 1 && (#[trigger] rows@[j]).code@ == code by {
                if before.contains(code) {
                    let j = choose|j: int| 0 <= j < i && (#[trigger] rows@[j]).code@ == code;
                    assert(rows@[j].code@ == code);
                } else {
                    assert(rows@[i as int].code@ == code);
                }
            }
        }
        i += 1;
    }
    proof {
        assert(all =~= codes_of(rows@));
    }
    r
}

/// The position of the first feed that carries a code, past the end if there is none.
fn carrying_at(rows: &[Feed], code: &str) -> (r: usize)
    ensures
        r <= rows@.len(),
        first_row(rows@, carrying(code@)) == (if r < rows@.len() {
            Some(rows@[r as int])
        } else {
            None
        }),
{
    let mut i: usize = 0;
    while i < rows.len() && !same_text(rows[i].code.as_str(), code)
        invariant
            i <= rows@.len(),
            forall|j: int| 0 <= j < i ==> !carrying(code@)(#[trigger] rows@[j]),
        decreases rows@.len() - i,
    {
        i += 1;
    }
    proof {
        lemma_first_row_at(rows@, carrying(code@), i as int);
    }
    i
}

/// The position of the first flat feed that carries a code, past the end if there is none.
fn flat_at(rows: &[Feed], code: &str) -> (r: usize)
    ensures
        r <= rows@.len(),
        first_row(rows@, flat(code@)) == (if r < rows@.len() {
            Some(rows@[r as int])
        } else {
            None
        }),
{
    let mut i: usize = 0;
    while i < rows.len() && !(same_text(rows[i].code.as_str(), code) && is_flat(&rows[i]))
        invariant
            i <= rows@.len(),
            forall|j: int| 0 <= j < i ==> !flat(code@)(#[trigger] rows@[j]),
        decreases rows@.len() - i,
    {
        i += 1;
    }
    proof {
        lemma_first_row_at(rows@, flat(code@), i as int);
    }
    i
}

/// The position of the first feed that carries a code and not a channel, past the end if there is
/// none.
fn lacking_at(rows: &[Feed], code: &str, id: u8) -> (r: usize)
    ensures
        r <= rows@.len(),
        first_row(rows@, lacking(code@, id)) == (if r < rows@.len() {
            Some(rows@[r as int])
        } else {
            None
        }),
{
    let mut i: usize = 0;
    while i < rows.len() && !(same_text(rows[i].code.as_str(), code) && !has_channel(&rows[i], id))
        invariant
            i <= rows@.len(),
            forall|j: int| 0 <= j < i ==> !lacking(code@, id)(#[trigger] rows@[j]),
        decreases rows@.len() - i,
    {
        i += 1;
    }
    proof {
        lemma_first_row_at(rows@, lacking(code@, id), i as int);
    }
    i
}

/// Put an id among the ids, once.
fn put_id(ids: &mut Vec<u8>, id: u8)
    requires
        old(ids)@.no_duplicates(),
    ensures
        final(ids)@.no_duplicates(),
        final(ids)@.to_set() == old(ids)@.to_set().insert(id),
{
    if !lists_id(ids, id) {
        ids.push(id);
        proof {
            assert(ids@.to_set() =~= old(ids)@.to_set().insert(id)) by {
                broadcast use vstd::seq_lib::group_seq_properties;

            }
        }
    } else {
        proof {
            assert(old(ids)@.to_set().insert(id) =~= old(ids)@.to_set());
        }
    }
}

/// Whether an id is among the ids.
fn lists_id(ids: &Vec<u8>, id: u8) -> (r: bool)
    ensures
        r == ids@.contains(id),
{
    let mut i: usize = 0;
    while i < ids.len()
        invariant
            i <= ids@.len(),
            forall|j: int| 0 <= j < i ==> ids@[j] != id,
        decreases ids@.len() - i,
    {
        if ids[i] == id {
            assert(ids@[i as int] == id);
            return true;
        }
        i += 1;
    }
    false
}

/// Read the ids between two positions of a filter's text.
fn select(rows: &[Feed], code: &str, text: &str, s: &Vec<char>, from: usize, to: usize) -> (r:
    Result<Vec<u8>, FilterError>)
    requires
        s@ == text@,
        from <= to <= s@.len(),
    ensures
        ({
            let got = selected(
                rows@,
                code@,
                split(s@.subrange(from as int, to as int), ','),
                Set::empty(),
            );
            match r {
                Ok(ids) => ids@.no_duplicates() && got == Ok::<Set<u8>, Refusal>(ids@.to_set()),
                Err(e) => got is Err && e.tells(got->Err_0),
            }
        }),
{
    let ghost got = selected(
        rows@,
        code@,
        split(s@.subrange(from as int, to as int), ','),
        Set::empty(),
    );
    let mut ids: Vec<u8> = Vec::new();
    let mut at = from;
    let mut done = false;
    proof {
        assert(ids@.to_set() =~= Set::<u8>::empty());
    }
    while !done
        invariant
            s@ == text@,
            from <= to <= s@.len(),
            at <= to,
            got == selected(
                rows@,
                code@,
                split(s@.subrange(from as int, to as int), ','),
                Set::empty(),
            ),
            ids@.no_duplicates(),
            done ==> got == Ok::<Set<u8>, Refusal>(ids@.to_set()),
            !done ==> got == selected(
                rows@,
                code@,
                split(s@.subrange(at as int, to as int), ','),
                ids@.to_set(),
            ),
        decreases to - at,
            (if done {
                0int
            } else {
                1int
            }),
    {
        let ghost rest = s@.subrange(at as int, to as int);
        let end = find(s, at, to, ',');
        proof {
            reveal_with_fuel(selected, 2);
            lemma_split_step(rest, ',');
            assert(rest.take(first(rest, ',')) =~= s@.subrange(at as int, end as int));
            if end < to {
                assert(rest.skip(first(rest, ',') + 1) =~= s@.subrange(end + 1, to as int));
            }
        }
        let (a, b) = trimmed(s, at, end);
        if a < b {
            match parse_byte(s, a, b) {
                None => {
                    return Err(
                        FilterError::BadId {
                            code: code.to_owned(),
                            text: text.substring_char(a, b).to_owned(),
                        },
                    );
                },
                Some(id) => {
                    let i = lacking_at(rows, code, id);
                    if i < rows.len() {
                        return Err(
                            FilterError::UnknownChannel {
                                code: code.to_owned(),
                                venue: rows[i].venue.clone(),
                                category: rows[i].category.clone(),
                                id,
                                published_set: published_set(&rows[i]),
                            },
                        );
                    }
                    put_id(&mut ids, id);
                },
            }
        }
        if end < to {
            at = end + 1;
        } else {
            done = true;
        }
    }
    Ok(ids)
}

/// Read the clause between two positions of a filter's text.
fn read_clause(rows: &[Feed], text: &str, s: &Vec<char>, from: usize, to: usize) -> (r: Result<
    Option<(String, Selection)>,
    FilterError,
>)
    requires
        s@ == text@,
        from <= to <= s@.len(),
    ensures
        ({
            let got = clause_of(rows@, s@.subrange(from as int, to as int));
            match r {
                Ok(Some((code, selection))) => selection.wf() && got == Ok::<
                    Option<(Seq<char>, SelectionView)>,
                    Refusal,
                >(Some((code@, selection@))),
                Ok(None) => got == Ok::<Option<(Seq<char>, SelectionView)>, Refusal>(None),
                Err(e) => got is Err && e.tells(got->Err_0),
            }
        }),
{
    let (a, b) = trimmed(s, from, to);
    let ghost c = s@.subrange(a as int, b as int);
    if a == b {
        return Ok(None);
    }
    let eq = find(s, a, b, '=');
    if eq == b {
        return Err(FilterError::MissingIds { clause: text.substring_char(a, b).to_owned() });
    }
    let (x, y) = trimmed(s, a, eq);
    let code = text.substring_char(x, y);
    proof {
        assert(c.take(first(c, '=')) =~= s@.subrange(a as int, eq as int));
        assert(c.skip(first(c, '=') + 1) =~= s@.subrange(eq + 1, b as int));
    }
    let i = carrying_at(rows, code);
    if i >= rows.len() {
        return Err(FilterError::UnknownCode { code: code.to_owned(), known: known_codes(rows) });
    }
    let i = flat_at(rows, code);
    if i < rows.len() {
        return Err(
            FilterError::FlatRow {
                code: code.to_owned(),
                venue: rows[i].venue.clone(),
                category: rows[i].category.clone(),
            },
        );
    }
    match select(rows, code, text, s, eq + 1, b) {
        Err(e) => Err(e),
        Ok(ids) => {
            if ids.len() == 0 {
                assert(ids@.to_set() =~= Set::<u8>::empty());
                return Err(FilterError::EmptySelection { code: code.to_owned() });
            }
            assert(ids@.to_set().contains(ids@[0]));
            let published_set_size = published_count(rows, code);
            Ok(Some((code.to_owned(), Selection { ids, published_set_size })))
        },
    }
}

impl Default for ChannelFilter {
    /// Nothing narrowed.
    fn default() -> (r: Self)
        ensures
            r.wf(),
            r@ == Map::<Seq<char>, SelectionView>::empty(),
    {
        ChannelFilter { narrowed: Table::new() }
    }
}

impl ChannelFilter {
    pub closed spec fn wf(&self) -> bool {
        &&& self.narrowed.wf()
        &&& forall|code: Seq<char>| #[trigger]
            self.narrowed@.contains_key(code) ==> self.narrowed@[code].wf()
    }

    /// Read `<code>=<id>[,<id>...][;<code>=...]` against the loaded registry.
    pub fn parse(loaded: &Registry, spec_text: &str) -> (r: Result<ChannelFilter, FilterError>)
        ensures
            match r {
                Ok(f) => f.wf() && parsed(loaded.rows@, spec_text@) == Ok::<
                    Map<Seq<char>, SelectionView>,
                    Refusal,
                >(f@),
                Err(e) => parsed(loaded.rows@, spec_text@) is Err && e.tells(
                    parsed(loaded.rows@, spec_text@)->Err_0,
                ),
            },
    {
        Self::parse_within(loaded.rows.as_slice(), spec_text)
    }

    /// Read a filter against a set of feeds. One clause narrows every feed that carries its code, so
    /// an id has to be a channel of each of them.
    pub fn parse_within(feed_rows: &[Feed], spec_text: &str) -> (r: Result<
        ChannelFilter,
        FilterError,
    >)
        ensures
            match r {
                Ok(f) => f.wf() && parsed(feed_rows@, spec_text@) == Ok::<
                    Map<Seq<char>, SelectionView>,
                    Refusal,
                >(f@),
                Err(e) => parsed(feed_rows@, spec_text@) is Err && e.tells(
                    parsed(feed_rows@, spec_text@)->Err_0,
                ),
            },
    {
        let ghost got = parsed(feed_rows@, spec_text@);
        let s = chars_of(spec_text);
        let n = s.len();
        let mut narrowed: Table<String, Selection> = Table::new();
        let mut at: usize = 0;
        let mut done = false;
        proof {
            assert(s@.subrange(0, n as int) =~= s@);
        }
        while !done
            invariant
                s@ == spec_text@,
                n == s@.len(),
                at <= n,
                got == parsed(feed_rows@, spec_text@),
                narrowed.wf(),
                forall|code: Seq<char>| #[trigger]
                    narrowed@.contains_key(code) ==> narrowed@[code].wf(),
                done ==> got == Ok::<Map<Seq<char>, SelectionView>, Refusal>(views(narrowed@)),
                !done ==> got == clauses_of(
                    feed_rows@,
                    split(s@.subrange(at as int, n as int), ';'),
                    views(narrowed@),
                ),
            decreases n - at,
                (if done {
                    0int
                } else {
                    1int
                }),
        {
            let ghost rest = s@.subrange(at as int, n as int);
            let end = find(&s, at, n, ';');
            proof {
                reveal_with_fuel(clauses_of, 2);
                lemma_split_step(rest, ';');
                assert(rest.take(first(rest, ';')) =~= s@.subrange(at as int, end as int));
                if end < n {
                    assert(rest.skip(first(rest, ';') + 1) =~= s@.subrange(end + 1, n as int));
                }
            }
            match read_clause(feed_rows, spec_text, &s, at, end) {
                Err(e) => {
                    return Err(e);
                },
                Ok(None) => {},
                Ok(Some((code, selection))) => {
                    if narrowed.contains_key(&code) {
                        return Err(FilterError::RepeatedCode { code });
                    }
                    narrowed.insert(code, selection);
                },
            }
            if end < n {
                at = end + 1;
            } else {
                done = true;
            }
        }
        Ok(ChannelFilter { narrowed })
    }

    /// Whether this process ingests a channel of the feed that carries `code`.
    pub fn admits(&self, code: &str, channel: u8) -> (r: bool)
        requires
            self.wf(),
        ensures
            r == ingests(self@, code@, channel),
    {
        match self.narrowed.get(&code.to_owned()) {
            None => true,
            Some(s) => lists_id(&s.ids, channel),
        }
    }

    /// The publishers of `feed` that this process binds. The rest are never spawned.
    pub fn publishers_for<'a>(&self, feed: &'a Feed) -> (r: Vec<&'a FeedPublisher>)
        requires
            self.wf(),
        ensures
            r@.len() == bound(self@, *feed).len(),
            forall|i: int| 0 <= i < r@.len() ==> *(#[trigger] r@[i]) == bound(self@, *feed)[i],
    {
        let ghost all = feed.publishers@;
        let mut r: Vec<&'a FeedPublisher> = Vec::new();
        let chosen = self.narrowed.get(&feed.code);
        let ghost keep = |p: FeedPublisher|
            p.channel is Some && self@[feed.code@].ids.contains(p.channel->0);
        let ghost kept = |i: int|
            if chosen is Some {
                all.take(i).filter(keep)
            } else {
                all.take(i)
            };
        let mut i: usize = 0;
        proof {
            reveal(Seq::filter);
        }
        while i < feed.publishers.len()
            invariant
                i <= all.len(),
                all == feed.publishers@,
                self.wf(),
                chosen is Some == self@.contains_key(feed.code@),
                chosen matches Some(s) ==> s@ == self@[feed.code@],
                keep == (|p: FeedPublisher|
                    p.channel is Some && self@[feed.code@].ids.contains(p.channel->0)),
                kept == (|i: int|
                    if chosen is Some {
                        all.take(i).filter(keep)
                    } else {
                        all.take(i)
                    }),
                r@.len() == kept(i as int).len(),
                forall|j: int| 0 <= j < r@.len() ==> *(#[trigger] r@[j]) == kept(i as int)[j],
            decreases all.len() - i,
        {
            let p = &feed.publishers[i];
            let wanted = match chosen {
                None => true,
                Some(s) => match p.channel {
                    Some(c) => lists_id(&s.ids, c),
                    None => false,
                },
            };
            proof {
                reveal(Seq::filter);
                assert(all.take(i + 1).drop_last() =~= all.take(i as int));
                assert(all.take(i + 1).last() == all[i as int]);
                assert(chosen is None ==> kept(i + 1) =~= kept(i as int).push(all[i as int]));
            }
            if wanted {
                r.push(p);
            }
            i += 1;
        }
        proof {
            assert(all.take(i as int) =~= all);
        }
        r
    }

    /// Whether nothing is narrowed.
    pub fn is_empty(&self) -> (r: bool)
        requires
            self.wf(),
        ensures
            r == (self@ == Map::<Seq<char>, SelectionView>::empty()),
    {
        let n = self.narrowed.len();
        proof {
            self.narrowed.lemma_len();
            if n == 0 {
                assert(self@.dom() =~= Set::empty());
                assert(self@ =~= Map::empty());
            } else {
                self.narrowed.lemma_item(0);
                assert(self@.contains_key(self.narrowed.items()[0].0@));
            }
        }
        n == 0
    }

    /// What is narrowed, for the startup log: `code=admitted of published`, in order.
    pub fn summary(&self) -> (r: Vec<String>)
        requires
            self.wf(),
        ensures
            lists_texts(texts(r@), summary_lines(self@)),
    {
        let mut r: Vec<String> = Vec::new();
        let mut i: usize = 0;
        let ghost mut all = Set::<Seq<char>>::empty();
        let ghost items = self.narrowed.items();
        while i < self.narrowed.len()
            invariant
                self.wf(),
                items == self.narrowed.items(),
                i <= items.len(),
                lists_texts(texts(r@), all),
                forall|line: Seq<char>| #[trigger]
                    all.contains(line) <==> exists|j: int|
                        0 <= j < i && line == summary_line(
                            (#[trigger] items[j]).0@,
                            items[j].1@,
                        ),
            decreases items.len() - i,
        {
            let ghost before = all;
            proof {
                self.narrowed.lemma_item(i as int);
            }
            let code = self.narrowed.key_at(i);
            let s = self.narrowed.value_at(i);
            let mut line = code.clone();
            line.append("=");
            push_decimal(&mut line, s.ids.len() as u64);
            line.append(" of ");
            push_decimal(&mut line, s.published_set_size as u64);
            let ghost text = line@;
            proof {
                s.ids@.unique_seq_to_set();
                assert(line@ =~= summary_line(items[i as int].0@, items[i as int].1@));
            }
            insert_text(&mut r, line, Ghost(all));
            proof {
                all = all.insert(text);
                assert forall|line: Seq<char>| #[trigger] all.contains(line) implies exists|j: int|
                    0 <= j < i + 1 && line == summary_line(
                        (#[trigger] items[j]).0@,
                        items[j].1@,
                    ) by {
                    if before.contains(line) {
                        let j = choose|j: int|
                            0 <= j < i && line == summary_line(
                                (#[trigger] items[j]).0@,
                                items[j].1@,
                            );
                        assert(line == summary_line(items[j].0@, items[j].1@));
                    } else {
                        assert(line == summary_line(items[i as int].0@, items[i as int].1@));
                    }
                }
            }
            i += 1;
        }
        proof {
            assert forall|line: Seq<char>| all.contains(line) == summary_lines(self@).contains(
                line,
            ) by {
                if all.contains(line) {
                    let j = choose|j: int|
                        0 <= j < i && line == summary_line(
                            (#[trigger] items[j]).0@,
                            items[j].1@,
                        );
                    self.narrowed.lemma_item(j);
                    assert(self@.contains_key(items[j].0@));
                }
                if summary_lines(self@).contains(line) {
                    let code = choose|code: Seq<char>| #[trigger]
                        self@.contains_key(code) && line == summary_line(code, self@[code]);
                    let j = self.narrowed.lemma_stored(code);
                    assert(line == summary_line(items[j].0@, items[j].1@));
                }
            }
            assert(all =~= summary_lines(self@));
        }
        r
    }

    /// The group codes that are narrowed, in order.
    pub fn codes(&self) -> (r: Vec<String>)
        requires
            self.wf(),
        ensures
            lists_texts(texts(r@), self@.dom()),
    {
        let mut r: Vec<String> = Vec::new();
        let mut i: usize = 0;
        let ghost mut all = Set::<Seq<char>>::empty();
        let ghost items = self.narrowed.items();
        while i < self.narrowed.len()
            invariant
                self.wf(),
                items == self.narrowed.items(),
                i <= items.len(),
                lists_texts(texts(r@), all),
                forall|code: Seq<char>| #[trigger]
                    all.contains(code) <==> exists|j: int|
                        0 <= j < i && (#[trigger] items[j]).0@ == code,
            decreases items.len() - i,
        {
            let ghost before = all;
            insert_text(&mut r, self.narrowed.key_at(i).clone(), Ghost(all));
            proof {
                all = all.insert(items[i as int].0@);
                assert forall|code: Seq<char>| #[trigger] all.contains(code) implies exists|j: int|
                    0 <= j < i + 1 && (#[trigger] items[j]).0@ == code by {
                    if before.contains(code) {
                        let j = choose|j: int| 0 <= j < i && (#[trigger] items[j]).0@ == code;
                        assert(items[j].0@ == code);
                    } else {
                        assert(items[i as int].0@ == code);
                    }
                }
            }
            i += 1;
        }
        proof {
            assert forall|code: Seq<char>| all.contains(code) == self@.dom().contains(code) by {
                if all.contains(code) {
                    let j = choose|j: int| 0 <= j < i && (#[trigger] items[j]).0@ == code;
                    self.narrowed.lemma_item(j);
                }
                if self@.dom().contains(code) {
                    let j = self.narrowed.lemma_stored(code);
                    assert(items[j].0@ == code);
                }
            }
            assert(all =~= self@.dom());
        }
        r
    }
}

/// What a filter that was accepted keeps of every code it narrows: something, all of it a channel of
/// every feed that carries the code.
pub open spec fn sound(rows: Seq<Feed>, narrowed: Map<Seq<char>, SelectionView>) -> bool {
    forall|code: Seq<char>| #[trigger]
        narrowed.contains_key(code) ==> {
            &&& narrowed[code].ids != Set::<u8>::empty()
            &&& narrowed[code].published_set_size == published_under(rows, code).len()
            &&& codes_of(rows).contains(code)
            &&& forall|i: int, c: u8|
                0 <= i < rows.len() && (#[trigger] rows[i]).code@ == code
                    && #[trigger] narrowed[code].ids.contains(c) ==> published(rows[i]).contains(c)
        }
}

proof fn lemma_first_row_none(rows: Seq<Feed>, wanted: spec_fn(Feed) -> bool, i: int)
    requires
        first_row(rows, wanted) is None,
        0 <= i < rows.len(),
    ensures
        !wanted(rows[i]),
    decreases rows.len(),
{
    if i > 0 {
        lemma_first_row_none(rows.drop_first(), wanted, i - 1);
    }
}

proof fn lemma_first_row_some(rows: Seq<Feed>, wanted: spec_fn(Feed) -> bool) -> (i: int)
    requires
        first_row(rows, wanted) is Some,
    ensures
        0 <= i < rows.len(),
        wanted(rows[i]),
        first_row(rows, wanted) == Some(rows[i]),
    decreases rows.len(),
{
    if wanted(rows[0]) {
        0
    } else {
        1 + lemma_first_row_some(rows.drop_first(), wanted)
    }
}

proof fn lemma_selected_is_sound(
    rows: Seq<Feed>,
    code: Seq<char>,
    tokens: Seq<Seq<char>>,
    so_far: Set<u8>,
    i: int,
    c: u8,
)
    requires
        selected(rows, code, tokens, so_far) is Ok,
        0 <= i < rows.len(),
        rows[i].code@ == code,
        forall|x: u8| so_far.contains(x) ==> published(rows[i]).contains(x),
        selected(rows, code, tokens, so_far)->Ok_0.contains(c),
    ensures
        published(rows[i]).contains(c),
    decreases tokens.len(),
{
    if tokens.len() > 0 {
        let token = trim(tokens[0]);
        if token.len() == 0 {
            lemma_selected_is_sound(rows, code, tokens.drop_first(), so_far, i, c);
        } else {
            let id = byte_value(token)->0;
            lemma_first_row_none(rows, lacking(code, id), i);
            lemma_selected_is_sound(rows, code, tokens.drop_first(), so_far.insert(id), i, c);
        }
    }
}

proof fn lemma_clauses_are_sound(
    rows: Seq<Feed>,
    clauses: Seq<Seq<char>>,
    so_far: Map<Seq<char>, SelectionView>,
)
    requires
        sound(rows, so_far),
        clauses_of(rows, clauses, so_far) is Ok,
    ensures
        sound(rows, clauses_of(rows, clauses, so_far)->Ok_0),
    decreases clauses.len(),
{
    if clauses.len() > 0 {
        match clause_of(rows, clauses[0]) {
            Err(_) => {},
            Ok(None) => {
                lemma_clauses_are_sound(rows, clauses.drop_first(), so_far);
            },
            Ok(Some((code, selection))) => {
                let next = so_far.insert(code, selection);
                let c = trim(clauses[0]);
                let tokens = split(c.skip(first(c, '=') + 1), ',');
                assert(sound(rows, next)) by {
                    let at = lemma_first_row_some(rows, carrying(code));
                    assert(codes_of(rows).contains(rows[at].code@));
                    assert forall|i: int, x: u8|
                        0 <= i < rows.len() && (#[trigger] rows[i]).code@ == code
                            && #[trigger] selection.ids.contains(x) implies published(
                        rows[i],
                    ).contains(x) by {
                        lemma_selected_is_sound(rows, code, tokens, Set::empty(), i, x);
                    }
                }
                lemma_clauses_are_sound(rows, clauses.drop_first(), next);
            },
        }
    }
}

/// A filter that is accepted names only codes of the registry and only channels that every feed of
/// the code publishes, and selects something of each.
pub proof fn law_an_accepted_filter_is_sound(rows: Seq<Feed>, spec_text: Seq<char>)
    requires
        parsed(rows, spec_text) is Ok,
    ensures
        sound(rows, parsed(rows, spec_text)->Ok_0),
{
    lemma_clauses_are_sound(rows, split(spec_text, ';'), Map::empty());
}

/// A filter that is accepted leaves every feed at least one publisher for each channel it selects: it
/// never narrows a feed to nothing.
pub proof fn law_an_accepted_filter_empties_no_feed(
    rows: Seq<Feed>,
    spec_text: Seq<char>,
    i: int,
    c: u8,
)
    requires
        parsed(rows, spec_text) is Ok,
        0 <= i < rows.len(),
        (parsed(rows, spec_text)->Ok_0).contains_key(rows[i].code@),
        (parsed(rows, spec_text)->Ok_0)[rows[i].code@].ids.contains(c),
    ensures
        carries_channel(bound(parsed(rows, spec_text)->Ok_0, rows[i]), c),
        bound(parsed(rows, spec_text)->Ok_0, rows[i]).len() > 0,
{
    law_an_accepted_filter_is_sound(rows, spec_text);
    let narrowed = parsed(rows, spec_text)->Ok_0;
    let f = rows[i];
    assert(published(f).contains(c));
    let all = f.publishers@;
    let k = choose|k: int| 0 <= k < all.len() && (#[trigger] all[k]).channel == Some(c);
    let keep = |p: FeedPublisher|
        p.channel is Some && narrowed[f.code@].ids.contains(p.channel->0);
    all.lemma_filter_contains(keep, k);
    let kept = all.filter(keep);
    let j = choose|j: int| 0 <= j < kept.len() && kept[j] == all[k];
    assert(kept[j].channel == Some(c));
}

/// A filter that is accepted narrows no flat feed.
pub proof fn law_a_flat_feed_is_never_narrowed(rows: Seq<Feed>, spec_text: Seq<char>, i: int)
    requires
        parsed(rows, spec_text) is Ok,
        0 <= i < rows.len(),
        published(rows[i]) == Set::<u8>::empty(),
    ensures
        !(parsed(rows, spec_text)->Ok_0).contains_key(rows[i].code@),
        bound(parsed(rows, spec_text)->Ok_0, rows[i]) == rows[i].publishers@,
{
    law_an_accepted_filter_is_sound(rows, spec_text);
    let narrowed = parsed(rows, spec_text)->Ok_0;
    if narrowed.contains_key(rows[i].code@) {
        let ids = narrowed[rows[i].code@].ids;
        assert(exists|c: u8| ids.contains(c)) by {
            if !(exists|c: u8| ids.contains(c)) {
                assert(ids =~= Set::<u8>::empty());
            }
        }
        let c = choose|c: u8| ids.contains(c);
        assert(published(rows[i]).contains(c));
    }
}

/// A feed that a filter does not mention keeps every channel and every publisher.
pub proof fn law_an_unmentioned_feed_is_not_narrowed(
    narrowed: Map<Seq<char>, SelectionView>,
    feed: Feed,
    channel: u8,
)
    requires
        !narrowed.contains_key(feed.code@),
    ensures
        ingests(narrowed, feed.code@, channel),
        bound(narrowed, feed) == feed.publishers@,
{
}

/// What is bound of a narrowed feed are publishers of it, each of a channel that the filter ingests.
pub proof fn law_only_selected_channels_are_bound(
    narrowed: Map<Seq<char>, SelectionView>,
    feed: Feed,
    i: int,
)
    requires
        narrowed.contains_key(feed.code@),
        0 <= i < bound(narrowed, feed).len(),
    ensures
        feed.publishers@.contains(bound(narrowed, feed)[i]),
        bound(narrowed, feed)[i].channel is Some,
        ingests(narrowed, feed.code@, bound(narrowed, feed)[i].channel->0),
{
    let keep = |p: FeedPublisher|
        p.channel is Some && narrowed[feed.code@].ids.contains(p.channel->0);
    feed.publishers@.lemma_filter_pred(keep, i);
    feed.publishers@.lemma_filter_contains_rev(keep, feed.publishers@.filter(keep)[i]);
}

/// A text of separators and white space narrows nothing.
pub proof fn law_a_blank_filter_narrows_nothing(rows: Seq<Feed>, clauses: Seq<Seq<char>>)
    requires
        forall|i: int| 0 <= i < clauses.len() ==> trim(#[trigger] clauses[i]).len() == 0,
    ensures
        clauses_of(rows, clauses, Map::empty()) == Ok::<Map<Seq<char>, SelectionView>, Refusal>(
            Map::empty(),
        ),
    decreases clauses.len(),
{
    if clauses.len() > 0 {
        assert(trim(clauses[0]).len() == 0);
        assert forall|i: int| 0 <= i < clauses.drop_first().len() implies trim(
            #[trigger] clauses.drop_first()[i],
        ).len() == 0 by {
            assert(trim(clauses[i + 1]).len() == 0);
        }
        law_a_blank_filter_narrows_nothing(rows, clauses.drop_first());
    }
}

/// The channels that a filter selects of a code are no more than its feeds have.
pub proof fn law_the_summary_is_a_share(rows: Seq<Feed>, spec_text: Seq<char>, code: Seq<char>)
    requires
        parsed(rows, spec_text) is Ok,
        (parsed(rows, spec_text)->Ok_0).contains_key(code),
    ensures
        ({
            let s = (parsed(rows, spec_text)->Ok_0)[code];
            0 < s.ids.len() <= s.published_set_size <= 256
        }),
{
    law_an_accepted_filter_is_sound(rows, spec_text);
    let s = (parsed(rows, spec_text)->Ok_0)[code];
    let all = published_under(rows, code);
    lemma_ascending_len(s.ids);
    lemma_ascending_len(all);
    let at = choose|i: int| 0 <= i < rows.len() && (#[trigger] rows[i]).code@ == code;
    assert(s.ids.subset_of(all)) by {
        assert forall|c: u8| s.ids.contains(c) implies all.contains(c) by {
            assert(rows[at].code@ == code && published(rows[at]).contains(c));
        }
    }
    vstd::set_lib::lemma_len_subset(s.ids, all);
    assert(s.ids.len() > 0) by {
        if s.ids.len() == 0 {
            assert(s.ids =~= Set::<u8>::empty());
        }
    }
}

} // verus!
