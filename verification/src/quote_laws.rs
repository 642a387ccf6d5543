//! What leaves of the quotes that the emit stage is offered, told from the offers alone.

use crate::arbiter::{QUOTE_TICK_CAP, ArbiterView, ListingId};
use crate::effects::{NoteView, What};
use crate::floor::{floor_decision, floor_run, Admit, Sample, Tick};
use crate::floor_laws::{
    already_sent, at_tick, followed, law_floor_drops_what_is_older,
    law_floor_forwards_the_leaders_new_content, law_floor_forwards_what_is_newer,
    law_floor_tells_the_first_follower, opened_by,
};
use crate::identity::QuoteId;
use crate::identity_laws::{differ, law_quotes_that_differ_are_told_apart};
use crate::model::{NormalizedQuote, Publisher};
use crate::run_laws::Offer;
use crate::table::Key;
use vstd::prelude::*;

verus! {

/// The quote of an offer.
pub open spec fn quote_of(o: Offer) -> NormalizedQuote {
    o.msg->Quote_0
}

/// The offer is a quote that carries a source time no more than five seconds ahead of its arrival, or
/// of our clock where it carries no arrival.
pub open spec fn is_believed(o: Offer) -> bool {
    let q = quote_of(o);
    &&& o.msg is Quote
    &&& q.source_ts_ns != 0
    &&& q.source_ts_ns <= 5_000_000_000 + (if q.recv_ts_ns != 0 {
        q.recv_ts_ns
    } else {
        o.now.wall_ns
    })
}

/// The offer is a believed quote of the instrument.
pub open spec fn is_of(o: Offer, key: ListingId) -> bool {
    is_believed(o) && (quote_of(o).venue@, quote_of(o).symbol@) == key
}

/// Nothing of a quote was broadcast yet.
pub open spec fn starts(a: ArbiterView) -> bool {
    a.quotes == Map::<ListingId, Tick<QuoteId, Publisher>>::empty()
}

spec fn sample_of(o: Offer) -> Sample<ListingId, QuoteId, Publisher> {
    let q = quote_of(o);
    Sample {
        key: (q.venue@, q.symbol@),
        source_ts: q.source_ts_ns,
        content: QuoteId::of_spec(q),
        publisher: o.publisher,
        arrival_ns: q.recv_ts_ns,
    }
}

spec fn samples_of(run: Seq<Offer>, n: int) -> Seq<Sample<ListingId, QuoteId, Publisher>>
    decreases n,
{
    if n <= 0 {
        Seq::empty()
    } else if is_believed(run[n - 1]) {
        samples_of(run, n - 1).push(sample_of(run[n - 1]))
    } else {
        samples_of(run, n - 1)
    }
}

proof fn lemma_grows(run: Seq<Offer>, i: int, n: int)
    requires
        0 <= i <= n <= run.len(),
    ensures
        samples_of(run, i).is_prefix_of(samples_of(run, n)),
        i < n && is_believed(run[i]) ==> samples_of(run, i).len() < samples_of(run, n).len()
            && samples_of(run, n)[samples_of(run, i).len() as int] == sample_of(run[i]),
    decreases n,
{
    if i < n {
        lemma_grows(run, i, n - 1);
        assert(samples_of(run, n - 1).is_prefix_of(samples_of(run, n)));
    }
    assert(samples_of(run, i) =~= samples_of(run, n).subrange(0, samples_of(run, i).len() as int));
}

/// Each sample is that of one offer.
proof fn lemma_origin(run: Seq<Offer>, n: int, y: int) -> (j: int)
    requires
        0 <= n <= run.len(),
        0 <= y < samples_of(run, n).len(),
    ensures
        0 <= j < n,
        is_believed(run[j]),
        samples_of(run, j).len() == y,
        samples_of(run, n)[y] == sample_of(run[j]),
    decreases n,
{
    if y == samples_of(run, n - 1).len() {
        n - 1
    } else {
        lemma_origin(run, n - 1, y)
    }
}

proof fn lemma_prefix(
    some: Seq<Sample<ListingId, QuoteId, Publisher>>,
    all: Seq<Sample<ListingId, QuoteId, Publisher>>,
    n: int,
)
    requires
        some.is_prefix_of(all),
        0 <= n <= some.len(),
    ensures
        floor_run(Map::<ListingId, Tick<QuoteId, Publisher>>::empty(), QUOTE_TICK_CAP as int, some, n)
            == floor_run(
            Map::<ListingId, Tick<QuoteId, Publisher>>::empty(),
            QUOTE_TICK_CAP as int,
            all,
            n,
        ),
    decreases n,
{
    if n > 0 {
        lemma_prefix(some, all, n - 1);
        assert(some[n - 1] == all.subrange(0, some.len() as int)[n - 1]);
    }
}

proof fn lemma_floor_follows(a: ArbiterView, run: Seq<Offer>, n: int)
    requires
        starts(a),
        0 <= n <= run.len(),
    ensures
        a.after_run(run, n).quotes == floor_run(
            Map::<ListingId, Tick<QuoteId, Publisher>>::empty(),
            QUOTE_TICK_CAP as int,
            samples_of(run, n),
            samples_of(run, n).len() as int,
        ),
    decreases n,
{
    if n > 0 {
        lemma_floor_follows(a, run, n - 1);
        let was = samples_of(run, n - 1);
        let now = samples_of(run, n);
        lemma_grows(run, n - 1, n);
        lemma_prefix(was, now, was.len() as int);
        assert(a.after_run(run, n) == a.after_run(run, n - 1).takes(run[n - 1]).0);
    }
}

spec fn decision_on(run: Seq<Offer>, n: int) -> Admit<Publisher> {
    floor_decision(
        Map::<ListingId, Tick<QuoteId, Publisher>>::empty(),
        QUOTE_TICK_CAP as int,
        samples_of(run, run.len() as int),
        samples_of(run, n).len() as int,
    )
}

/// What is broadcast and counted for an offer is what the floor decides on it.
proof fn lemma_decided(a: ArbiterView, run: Seq<Offer>, n: int)
    requires
        starts(a),
        0 <= n < run.len(),
        is_believed(run[n]),
    ensures
        ({
            let fx = a.effects_of(run, n);
            let q = quote_of(run[n]);
            let p = run[n].publisher;
            match decision_on(run, n) {
                Admit::Emitted { opened_tick } => {
                    &&& fx.sent == seq![run[n].msg]
                    &&& fx.notes.contains(NoteView { venue: q.venue@, what: What::QuoteAdmitted(p) })
                    &&& fx.notes.contains(
                        NoteView { venue: q.venue@, what: What::QuoteTickWon(p) },
                    ) <==> opened_tick
                },
                Admit::Contest { winner, lead_ns } => {
                    &&& fx.sent.len() == 0
                    &&& fx.notes.contains(
                        NoteView {
                            venue: q.venue@,
                            what: What::QuoteLead { winner, loser: p, lead_ns },
                        },
                    )
                },
                Admit::Dropped => fx.sent.len() == 0 && fx.notes == seq![
                    NoteView { venue: q.venue@, what: What::QuoteDropped },
                ],
            }
        }),
{
    let all = samples_of(run, run.len() as int);
    let some = samples_of(run, n);
    lemma_floor_follows(a, run, n);
    lemma_grows(run, n, run.len() as int);
    lemma_prefix(some, all, some.len() as int);
    let fx = a.effects_of(run, n);
    let venue = quote_of(run[n]).venue@;
    let p = run[n].publisher;
    match decision_on(run, n) {
        Admit::Emitted { opened_tick } => {
            assert(fx.sent =~= seq![run[n].msg]);
            assert(fx.notes[1] == NoteView { venue, what: What::QuoteAdmitted(p) });
            if opened_tick {
                assert(fx.notes[2] == NoteView { venue, what: What::QuoteTickWon(p) });
            } else {
                assert(fx.notes.len() == 2);
            }
        },
        Admit::Contest { winner, lead_ns } => {
            assert(fx.notes[1] == NoteView {
                venue,
                what: What::QuoteLead { winner, loser: p, lead_ns },
            });
        },
        Admit::Dropped => {
            assert(fx.notes =~= seq![NoteView { venue, what: What::QuoteDropped }]);
        },
    }
}

/// A believed quote that is later than all believed ones of its instrument before it, or the first, is
/// broadcast, and its publisher has won the tick.
pub proof fn law_a_newer_quote_is_broadcast(a: ArbiterView, run: Seq<Offer>, key: ListingId, n: int)
    requires
        starts(a),
        0 <= n < run.len(),
        is_of(run[n], key),
        forall|j: int|
            0 <= j < n && is_of(#[trigger] run[j], key) ==> quote_of(run[j]).source_ts_ns < quote_of(
                run[n],
            ).source_ts_ns,
    ensures
        a.effects_of(run, n).sent == seq![run[n].msg],
        a.effects_of(run, n).notes.contains(
            NoteView { venue: key.0, what: What::QuoteTickWon(run[n].publisher) },
        ),
{
    let all = samples_of(run, run.len() as int);
    let x = samples_of(run, n).len() as int;
    lemma_grows(run, n, run.len() as int);
    assert forall|y: int| 0 <= y < x && (#[trigger] all[y]).key == all[x].key implies all[y].source_ts
        < all[x].source_ts by {
        assert(all[y] == samples_of(run, n)[y]) by {
            assert(all.subrange(0, x)[y] == all[y]);
        }
        let j = lemma_origin(run, n, y);
        assert(is_of(run[j], key));
    }
    law_floor_forwards_what_is_newer(QUOTE_TICK_CAP as int, all, x);
    lemma_decided(a, run, n);
}

/// A believed quote that is older than a believed one of its instrument before it is not broadcast.
pub proof fn law_an_older_quote_is_not_broadcast(
    a: ArbiterView,
    run: Seq<Offer>,
    key: ListingId,
    j: int,
    n: int,
)
    requires
        starts(a),
        0 <= j < n < run.len(),
        is_of(run[n], key),
        is_of(run[j], key),
        quote_of(run[j]).source_ts_ns > quote_of(run[n]).source_ts_ns,
    ensures
        a.effects_of(run, n).sent.len() == 0,
{
    let all = samples_of(run, run.len() as int);
    lemma_grows(run, n, run.len() as int);
    lemma_grows(run, j, n);
    lemma_grows(run, j, run.len() as int);
    law_floor_drops_what_is_older(
        QUOTE_TICK_CAP as int,
        all,
        samples_of(run, n).len() as int,
        samples_of(run, j).len() as int,
    );
    lemma_decided(a, run, n);
}

/// Of the offers before number `n`, number `i` opened the tick of the instrument: a believed quote
/// of it, later than all before it, and none since is later.
pub open spec fn opens_tick(run: Seq<Offer>, key: ListingId, n: int, i: int) -> bool {
    &&& 0 <= i < n
    &&& is_of(run[i], key)
    &&& forall|j: int|
        0 <= j < i && is_of(#[trigger] run[j], key) ==> quote_of(run[j]).source_ts_ns < quote_of(
            run[i],
        ).source_ts_ns
    &&& forall|j: int|
        0 <= j < n && is_of(#[trigger] run[j], key) ==> quote_of(run[j]).source_ts_ns <= quote_of(
            run[i],
        ).source_ts_ns
}

proof fn lemma_opens(run: Seq<Offer>, key: ListingId, n: int, i: int)
    requires
        0 <= n < run.len(),
        opens_tick(run, key, n, i),
        is_of(run[n], key),
    ensures
        ({
            let all = samples_of(run, run.len() as int);
            let x = samples_of(run, n).len() as int;
            let o = samples_of(run, i).len() as int;
            &&& x < all.len()
            &&& all[x] == sample_of(run[n])
            &&& all[o] == sample_of(run[i])
            &&& opened_by(all, key, x, o)
        }),
{
    let all = samples_of(run, run.len() as int);
    let x = samples_of(run, n).len() as int;
    let o = samples_of(run, i).len() as int;
    lemma_grows(run, n, run.len() as int);
    lemma_grows(run, i, n);
    lemma_grows(run, i, run.len() as int);
    assert forall|y: int| 0 <= y < x && (#[trigger] all[y]).key == key implies all[y].source_ts
        <= all[o].source_ts && (y < o ==> all[y].source_ts < all[o].source_ts) by {
        assert(all.subrange(0, x)[y] == all[y]);
        let j = lemma_origin(run, n, y);
        assert(is_of(run[j], key));
        if y < o && j >= i {
            lemma_grows(run, i, j);
        }
    }
}

/// At the tick that its publisher opened, a quote that differs from every one that this publisher
/// has sent at this tick by a canonical unit or more in a price or a size, or in a count, is
/// broadcast.
pub proof fn law_the_leaders_new_quote_is_broadcast(
    a: ArbiterView,
    run: Seq<Offer>,
    key: ListingId,
    i: int,
    n: int,
)
    requires
        starts(a),
        0 <= n < run.len(),
        opens_tick(run, key, n, i),
        is_of(run[n], key),
        quote_of(run[n]).source_ts_ns == quote_of(run[i]).source_ts_ns,
        run[n].publisher == run[i].publisher,
        forall|j: int|
            i <= j < n && is_of(#[trigger] run[j], key) && quote_of(run[j]).source_ts_ns == quote_of(
                run[n],
            ).source_ts_ns && run[j].publisher == run[n].publisher ==> differ(
                quote_of(run[j]),
                quote_of(run[n]),
            ),
    ensures
        a.effects_of(run, n).sent == seq![run[n].msg],
        !a.effects_of(run, n).notes.contains(
            NoteView { venue: key.0, what: What::QuoteTickWon(run[n].publisher) },
        ),
{
    let all = samples_of(run, run.len() as int);
    let x = samples_of(run, n).len() as int;
    let o = samples_of(run, i).len() as int;
    lemma_opens(run, key, n, i);
    if already_sent(all, o, x, all[x].content) {
        let y = choose|y: int| #[trigger]
            at_tick(all, o, y, x) && all[y].publisher.id() == all[o].publisher.id() && all[y].content
                == all[x].content;
        lemma_grows(run, n, run.len() as int);
        assert(all.subrange(0, x)[y] == all[y]);
        let j = lemma_origin(run, n, y);
        assert(is_of(run[j], key));
        if j < i {
            lemma_grows(run, j, i);
        }
        law_quotes_that_differ_are_told_apart(quote_of(run[j]), quote_of(run[n]));
    }
    law_floor_forwards_the_leaders_new_content(QUOTE_TICK_CAP as int, all, o, x);
    lemma_decided(a, run, n);
}

/// At a tick that another publisher opened nothing of this one is broadcast; the first such copy is
/// told, with who won and how much earlier the winner's came.
pub proof fn law_a_followers_quote_is_not_broadcast(
    a: ArbiterView,
    run: Seq<Offer>,
    key: ListingId,
    i: int,
    n: int,
)
    requires
        starts(a),
        0 <= n < run.len(),
        opens_tick(run, key, n, i),
        is_of(run[n], key),
        quote_of(run[n]).source_ts_ns == quote_of(run[i]).source_ts_ns,
        run[n].publisher != run[i].publisher,
    ensures
        a.effects_of(run, n).sent.len() == 0,
        (forall|j: int|
            i <= j < n && is_of(#[trigger] run[j], key) && quote_of(run[j]).source_ts_ns == quote_of(
                run[n],
            ).source_ts_ns ==> run[j].publisher == run[i].publisher) && quote_of(run[n]).recv_ts_ns
            >= quote_of(run[i]).recv_ts_ns ==> a.effects_of(run, n).notes.contains(
            NoteView {
                venue: key.0,
                what: What::QuoteLead {
                    winner: run[i].publisher,
                    loser: run[n].publisher,
                    lead_ns: (quote_of(run[n]).recv_ts_ns - quote_of(run[i]).recv_ts_ns) as u64,
                },
            },
        ),
{
    let all = samples_of(run, run.len() as int);
    let x = samples_of(run, n).len() as int;
    let o = samples_of(run, i).len() as int;
    lemma_opens(run, key, n, i);
    law_floor_tells_the_first_follower(QUOTE_TICK_CAP as int, all, o, x);
    lemma_decided(a, run, n);
    if followed(all, o, x) {
        let y = choose|y: int| #[trigger]
            at_tick(all, o, y, x) && all[y].publisher.id() != all[o].publisher.id();
        lemma_grows(run, n, run.len() as int);
        assert(all.subrange(0, x)[y] == all[y]);
        let j = lemma_origin(run, n, y);
        assert(is_of(run[j], key));
        if j < i {
            lemma_grows(run, j, i);
        }
        assert(run[j].publisher != run[i].publisher);
    }
}

} // verus!
