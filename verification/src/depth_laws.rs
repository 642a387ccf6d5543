//! What leaves of the depth snapshots that the emit stage is offered, told from the offers alone.

use crate::arbiter::{DEPTH_TICK_CAP, ArbiterView, DepthContent, ListingId};
use crate::effects::{NoteView, What};
use crate::floor::{floor_decision, floor_run, Admit, Sample, Tick};
use crate::floor_laws::{
    already_sent, at_tick, followed, law_floor_drops_what_is_older,
    law_floor_forwards_the_leaders_new_content, law_floor_forwards_what_is_newer,
    law_floor_tells_the_first_follower, opened_by,
};
use crate::identity::canonical_levels;
use crate::identity_laws::{law_levels_that_differ_are_told_apart, levels_differ};
use crate::model::{DepthView, Publisher};
use crate::run_laws::Offer;
use crate::table::Key;
use vstd::prelude::*;

verus! {

/// The depth snapshot of an offer.
pub open spec fn depth_of(o: Offer) -> DepthView {
    o.msg->Depth_0
}

/// The offer is a depth snapshot of a source time no more than five seconds ahead of our clock.
pub open spec fn is_believed(o: Offer) -> bool {
    let q = depth_of(o);
    &&& o.msg is Depth
    &&& q.source_ts_ns <= 5_000_000_000 + o.now.wall_ns
}

/// The offer is a believed depth snapshot of the instrument.
pub open spec fn is_of(o: Offer, key: ListingId) -> bool {
    is_believed(o) && (depth_of(o).venue, depth_of(o).symbol) == key
}

/// Nothing of a depth snapshot was broadcast yet.
pub open spec fn starts(a: ArbiterView) -> bool {
    a.depths == Map::<ListingId, Tick<DepthContent, Publisher>>::empty()
}

spec fn sample_of(o: Offer) -> Sample<ListingId, DepthContent, Publisher> {
    let q = depth_of(o);
    Sample {
        key: (q.venue, q.symbol),
        source_ts: q.source_ts_ns,
        content: (canonical_levels(q.bids), canonical_levels(q.asks)),
        publisher: o.publisher,
        arrival_ns: q.recv_ts_ns,
    }
}

spec fn samples_of(run: Seq<Offer>, n: int) -> Seq<Sample<ListingId, DepthContent, Publisher>>
    decreases n,
{
    if n <= 0 {
        Seq::empty()
    } else if is_believed(run[n - 1]) {
        samples_of(run, n - 1).push(sample_of(run[n - 1]))
    } else {
        samples_of(run, n - 1)
    }
}

proof fn lemma_grows(run: Seq<Offer>, i: int, n: int)
    requires
        0 <= i <= n <= run.len(),
    ensures
        samples_of(run, i).is_prefix_of(samples_of(run, n)),
        i < n && is_believed(run[i]) ==> samples_of(run, i).len() < samples_of(run, n).len()
            && samples_of(run, n)[samples_of(run, i).len() as int] == sample_of(run[i]),
    decreases n,
{
    if i < n {
        lemma_grows(run, i, n - 1);
        assert(samples_of(run, n - 1).is_prefix_of(samples_of(run, n)));
    }
    assert(samples_of(run, i) =~= samples_of(run, n).subrange(0, samples_of(run, i).len() as int));
}

/// Each sample is that of one offer.
proof fn lemma_origin(run: Seq<Offer>, n: int, y: int) -> (j: int)
    requires
        0 <= n <= run.len(),
        0 <= y < samples_of(run, n).len(),
    ensures
        0 <= j < n,
        is_believed(run[j]),
        samples_of(run, j).len() == y,
        samples_of(run, n)[y] == sample_of(run[j]),
    decreases n,
{
    if y == samples_of(run, n - 1).len() {
        n - 1
    } else {
        lemma_origin(run, n - 1, y)
    }
}

proof fn lemma_prefix(
    some: Seq<Sample<ListingId, DepthContent, Publisher>>,
    all: Seq<Sample<ListingId, DepthContent, Publisher>>,
    n: int,
)
    requires
        some.is_prefix_of(all),
        0 <= n <= some.len(),
    ensures
        floor_run(Map::<ListingId, Tick<DepthContent, Publisher>>::empty(), DEPTH_TICK_CAP as int, some, n)
            == floor_run(
            Map::<ListingId, Tick<DepthContent, Publisher>>::empty(),
            DEPTH_TICK_CAP as int,
            all,
            n,
        ),
    decreases n,
{
    if n > 0 {
        lemma_prefix(some, all, n - 1);
        assert(some[n - 1] == all.subrange(0, some.len() as int)[n - 1]);
    }
}

proof fn lemma_floor_follows(a: ArbiterView, run: Seq<Offer>, n: int)
    requires
        starts(a),
        0 <= n <= run.len(),
    ensures
        a.after_run(run, n).depths == floor_run(
            Map::<ListingId, Tick<DepthContent, Publisher>>::empty(),
            DEPTH_TICK_CAP as int,
            samples_of(run, n),
            samples_of(run, n).len() as int,
        ),
    decreases n,
{
    if n > 0 {
        lemma_floor_follows(a, run, n - 1);
        let was = samples_of(run, n - 1);
        let now = samples_of(run, n);
        lemma_grows(run, n - 1, n);
        lemma_prefix(was, now, was.len() as int);
        assert(a.after_run(run, n) == a.after_run(run, n - 1).takes(run[n - 1]).0);
    }
}

spec fn decision_on(run: Seq<Offer>, n: int) -> Admit<Publisher> {
    floor_decision(
        Map::<ListingId, Tick<DepthContent, Publisher>>::empty(),
        DEPTH_TICK_CAP as int,
        samples_of(run, run.len() as int),
        samples_of(run, n).len() as int,
    )
}

/// What is broadcast and counted for an offer is what the floor decides on it.
proof fn lemma_decided(a: ArbiterView, run: Seq<Offer>, n: int)
    requires
        starts(a),
        0 <= n < run.len(),
        is_believed(run[n]),
    ensures
        ({
            let fx = a.effects_of(run, n);
            let q = depth_of(run[n]);
            let p = run[n].publisher;
            match decision_on(run, n) {
                Admit::Emitted { opened_tick } => {
                    &&& fx.sent == seq![run[n].msg]
                    &&& fx.notes.contains(NoteView { venue: q.venue, what: What::DepthAdmitted(p) })
                    &&& fx.notes.contains(
                        NoteView { venue: q.venue, what: What::DepthTickWon(p) },
                    ) <==> opened_tick
                },
                Admit::Contest { winner, lead_ns } => {
                    &&& fx.sent.len() == 0
                    &&& fx.notes.contains(
                        NoteView {
                            venue: q.venue,
                            what: What::DepthLead { winner, loser: p, lead_ns },
                        },
                    )
                },
                Admit::Dropped => fx.sent.len() == 0 && fx.notes == seq![
                    NoteView { venue: q.venue, what: What::DepthDropped(p) },
                ],
            }
        }),
{
    let all = samples_of(run, run.len() as int);
    let some = samples_of(run, n);
    lemma_floor_follows(a, run, n);
    lemma_grows(run, n, run.len() as int);
    lemma_prefix(some, all, some.len() as int);
    let fx = a.effects_of(run, n);
    let venue = depth_of(run[n]).venue;
    let p = run[n].publisher;
    match decision_on(run, n) {
        Admit::Emitted { opened_tick } => {
            assert(fx.sent =~= seq![run[n].msg]);
            assert(fx.notes[1] == NoteView { venue, what: What::DepthAdmitted(p) });
            if opened_tick {
                assert(fx.notes[2] == NoteView { venue, what: What::DepthTickWon(p) });
            } else {
                assert(fx.notes.len() == 2);
            }
        },
        Admit::Contest { winner, lead_ns } => {
            assert(fx.notes[1] == NoteView {
                venue,
                what: What::DepthLead { winner, loser: p, lead_ns },
            });
        },
        Admit::Dropped => {
            assert(fx.notes =~= seq![NoteView { venue, what: What::DepthDropped(p) }]);
        },
    }
}

/// A believed depth snapshot that is later than all believed ones of its instrument before it, or
/// the first, is broadcast, and its publisher has won the tick.
pub proof fn law_a_newer_depth_is_broadcast(a: ArbiterView, run: Seq<Offer>, key: ListingId, n: int)
    requires
        starts(a),
        0 <= n < run.len(),
        is_of(run[n], key),
        forall|j: int|
            0 <= j < n && is_of(#[trigger] run[j], key) ==> depth_of(run[j]).source_ts_ns < depth_of(
                run[n],
            ).source_ts_ns,
    ensures
        a.effects_of(run, n).sent == seq![run[n].msg],
        a.effects_of(run, n).notes.contains(
            NoteView { venue: key.0, what: What::DepthTickWon(run[n].publisher) },
        ),
{
    let all = samples_of(run, run.len() as int);
    let x = samples_of(run, n).len() as int;
    lemma_grows(run, n, run.len() as int);
    assert forall|y: int| 0 <= y < x && (#[trigger] all[y]).key == all[x].key implies all[y].source_ts
        < all[x].source_ts by {
        assert(all[y] == samples_of(run, n)[y]) by {
            assert(all.subrange(0, x)[y] == all[y]);
        }
        let j = lemma_origin(run, n, y);
        assert(is_of(run[j], key));
    }
    law_floor_forwards_what_is_newer(DEPTH_TICK_CAP as int, all, x);
    lemma_decided(a, run, n);
}

/// A believed depth snapshot that is older than a believed one of its instrument before it is not
/// broadcast.
pub proof fn law_an_older_depth_is_not_broadcast(
    a: ArbiterView,
    run: Seq<Offer>,
    key: ListingId,
    j: int,
    n: int,
)
    requires
        starts(a),
        0 <= j < n < run.len(),
        is_of(run[n], key),
        is_of(run[j], key),
        depth_of(run[j]).source_ts_ns > depth_of(run[n]).source_ts_ns,
    ensures
        a.effects_of(run, n).sent.len() == 0,
{
    let all = samples_of(run, run.len() as int);
    lemma_grows(run, n, run.len() as int);
    lemma_grows(run, j, n);
    lemma_grows(run, j, run.len() as int);
    law_floor_drops_what_is_older(
        DEPTH_TICK_CAP as int,
        all,
        samples_of(run, n).len() as int,
        samples_of(run, j).len() as int,
    );
    lemma_decided(a, run, n);
}

/// Of the offers before number `n`, number `i` opened the tick of the instrument: a believed depth
/// snapshot of it, later than all before it, and none since is later.
pub open spec fn opens_tick(run: Seq<Offer>, key: ListingId, n: int, i: int) -> bool {
    &&& 0 <= i < n
    &&& is_of(run[i], key)
    &&& forall|j: int|
        0 <= j < i && is_of(#[trigger] run[j], key) ==> depth_of(run[j]).source_ts_ns < depth_of(
            run[i],
        ).source_ts_ns
    &&& forall|j: int|
        0 <= j < n && is_of(#[trigger] run[j], key) ==> depth_of(run[j]).source_ts_ns <= depth_of(
            run[i],
        ).source_ts_ns
}

proof fn lemma_opens(run: Seq<Offer>, key: ListingId, n: int, i: int)
    requires
        0 <= n < run.len(),
        opens_tick(run, key, n, i),
        is_of(run[n], key),
    ensures
        ({
            let all = samples_of(run, run.len() as int);
            let x = samples_of(run, n).len() as int;
            let o = samples_of(run, i).len() as int;
            &&& x < all.len()
            &&& all[x] == sample_of(run[n])
            &&& all[o] == sample_of(run[i])
            &&& opened_by(all, key, x, o)
        }),
{
    let all = samples_of(run, run.len() as int);
    let x = samples_of(run, n).len() as int;
    let o = samples_of(run, i).len() as int;
    lemma_grows(run, n, run.len() as int);
    lemma_grows(run, i, n);
    lemma_grows(run, i, run.len() as int);
    assert forall|y: int| 0 <= y < x && (#[trigger] all[y]).key == key implies all[y].source_ts
        <= all[o].source_ts && (y < o ==> all[y].source_ts < all[o].source_ts) by {
        assert(all.subrange(0, x)[y] == all[y]);
        let j = lemma_origin(run, n, y);
        assert(is_of(run[j], key));
        if y < o && j >= i {
            lemma_grows(run, i, j);
        }
    }
}

/// At the tick that its publisher opened, a depth snapshot that differs from every one that this
/// publisher has sent at this tick by a level, or by a canonical unit or more in a price or a size
/// of one, is broadcast.
pub proof fn law_the_leaders_new_depth_is_broadcast(
    a: ArbiterView,
    run: Seq<Offer>,
    key: ListingId,
    i: int,
    n: int,
)
    requires
        starts(a),
        0 <= n < run.len(),
        opens_tick(run, key, n, i),
        is_of(run[n], key),
        depth_of(run[n]).source_ts_ns == depth_of(run[i]).source_ts_ns,
        run[n].publisher == run[i].publisher,
        forall|j: int|
            i <= j < n && is_of(#[trigger] run[j], key) && depth_of(run[j]).source_ts_ns == depth_of(
                run[n],
            ).source_ts_ns && run[j].publisher == run[n].publisher ==> levels_differ(
                depth_of(run[j]).bids,
                depth_of(run[n]).bids,
            ) || levels_differ(depth_of(run[j]).asks, depth_of(run[n]).asks),
    ensures
        a.effects_of(run, n).sent == seq![run[n].msg],
        !a.effects_of(run, n).notes.contains(
            NoteView { venue: key.0, what: What::DepthTickWon(run[n].publisher) },
        ),
{
    let all = samples_of(run, run.len() as int);
    let x = samples_of(run, n).len() as int;
    let o = samples_of(run, i).len() as int;
    lemma_opens(run, key, n, i);
    if already_sent(all, o, x, all[x].content) {
        let y = choose|y: int| #[trigger]
            at_tick(all, o, y, x) && all[y].publisher.id() == all[o].publisher.id() && all[y].content
                == all[x].content;
        lemma_grows(run, n, run.len() as int);
        assert(all.subrange(0, x)[y] == all[y]);
        let j = lemma_origin(run, n, y);
        assert(is_of(run[j], key));
        if j < i {
            lemma_grows(run, j, i);
        }
        if levels_differ(depth_of(run[j]).bids, depth_of(run[n]).bids) {
            law_levels_that_differ_are_told_apart(depth_of(run[j]).bids, depth_of(run[n]).bids);
        } else {
            law_levels_that_differ_are_told_apart(depth_of(run[j]).asks, depth_of(run[n]).asks);
        }
    }
    law_floor_forwards_the_leaders_new_content(DEPTH_TICK_CAP as int, all, o, x);
    lemma_decided(a, run, n);
}

/// At a tick that another publisher opened nothing of this one is broadcast; the first such copy is
/// told, with who won and how much earlier the winner's came.
pub proof fn law_a_followers_depth_is_not_broadcast(
    a: ArbiterView,
    run: Seq<Offer>,
    key: ListingId,
    i: int,
    n: int,
)
    requires
        starts(a),
        0 <= n < run.len(),
        opens_tick(run, key, n, i),
        is_of(run[n], key),
        depth_of(run[n]).source_ts_ns == depth_of(run[i]).source_ts_ns,
        run[n].publisher != run[i].publisher,
    ensures
        a.effects_of(run, n).sent.len() == 0,
        (forall|j: int|
            i <= j < n && is_of(#[trigger] run[j], key) && depth_of(run[j]).source_ts_ns == depth_of(
                run[n],
            ).source_ts_ns ==> run[j].publisher == run[i].publisher) && depth_of(run[n]).recv_ts_ns
            >= depth_of(run[i]).recv_ts_ns ==> a.effects_of(run, n).notes.contains(
            NoteView {
                venue: key.0,
                what: What::DepthLead {
                    winner: run[i].publisher,
                    loser: run[n].publisher,
                    lead_ns: (depth_of(run[n]).recv_ts_ns - depth_of(run[i]).recv_ts_ns) as u64,
                },
            },
        ),
{
    let all = samples_of(run, run.len() as int);
    let x = samples_of(run, n).len() as int;
    let o = samples_of(run, i).len() as int;
    lemma_opens(run, key, n, i);
    law_floor_tells_the_first_follower(DEPTH_TICK_CAP as int, all, o, x);
    lemma_decided(a, run, n);
    if followed(all, o, x) {
        let y = choose|y: int| #[trigger]
            at_tick(all, o, y, x) && all[y].publisher.id() != all[o].publisher.id();
        lemma_grows(run, n, run.len() as int);
        assert(all.subrange(0, x)[y] == all[y]);
        let j = lemma_origin(run, n, y);
        assert(is_of(run[j], key));
        if j < i {
            lemma_grows(run, j, i);
        }
        assert(run[j].publisher != run[i].publisher);
    }
}

} // verus!
