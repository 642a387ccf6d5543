//! What the floor and the window decide, told from what they were offered alone.

use crate::floor::{floor_decision, floor_run, Admit, Sample, Tick};
use crate::recent::RecentView;
use crate::table::Key;
use crate::window::{
    forwarded, lemma_still_seen, window_at, window_decision, window_run, windows_wf, Offered, Seen,
};
use vstd::prelude::*;

verus! {

/// Of the samples before number `n`, number `i` opened the tick that `key` is at: none of the key
/// before it is as late, and none after it is later.
pub open spec fn opened_by<K, I, P>(samples: Seq<Sample<K, I, P>>, key: K, n: int, i: int) -> bool {
    &&& 0 <= i < n
    &&& samples[i].key == key
    &&& forall|j: int|
        0 <= j < i && (#[trigger] samples[j]).key == key ==> samples[j].source_ts
            < samples[i].source_ts
    &&& forall|j: int|
        0 <= j < n && (#[trigger] samples[j]).key == key ==> samples[j].source_ts
            <= samples[i].source_ts
}

/// Sample `j`, before number `n`, is at the tick that number `i` opened.
pub open spec fn at_tick<K, I, P>(samples: Seq<Sample<K, I, P>>, i: int, j: int, n: int) -> bool {
    i <= j < n && samples[j].key == samples[i].key && samples[j].source_ts == samples[i].source_ts
}

/// A sample before number `n`, at the tick that number `i` opened, came from another publisher.
pub open spec fn followed<K, I, P: Key>(samples: Seq<Sample<K, I, P>>, i: int, n: int) -> bool {
    exists|j: int| #[trigger]
        at_tick(samples, i, j, n) && samples[j].publisher.id() != samples[i].publisher.id()
}

/// A sample before number `n`, at the tick that number `i` opened and by its opener, has the content.
pub open spec fn already_sent<K, I, P: Key>(
    samples: Seq<Sample<K, I, P>>,
    i: int,
    n: int,
    content: I,
) -> bool {
    exists|j: int| #[trigger]
        at_tick(samples, i, j, n) && samples[j].publisher.id() == samples[i].publisher.id()
            && samples[j].content == content
}

pub open spec fn tells_of<K, I, P: Key>(
    samples: Seq<Sample<K, I, P>>,
    i: int,
    n: int,
    tick: Tick<I, P>,
) -> bool {
    &&& tick.high_water == samples[i].source_ts
    &&& tick.leader == samples[i].publisher
    &&& tick.leader_arrival_ns == samples[i].arrival_ns
    &&& tick.follower_recorded <==> followed(samples, i, n)
    &&& forall|c: I| #[trigger] tick.contents.has(c) ==> already_sent(samples, i, n, c)
}

proof fn lemma_tick<K, I, P: Key>(cap: int, samples: Seq<Sample<K, I, P>>, key: K, n: int)
    requires
        0 <= n <= samples.len(),
    ensures
        ({
            let run = floor_run(Map::<K, Tick<I, P>>::empty(), cap, samples, n);
            &&& run.contains_key(key) ==> exists|i: int| #[trigger]
                opened_by(samples, key, n, i) && tells_of(samples, i, n, run[key])
            &&& !run.contains_key(key) ==> forall|j: int|
                0 <= j < n ==> (#[trigger] samples[j]).key != key
        }),
    decreases n,
{
    if n > 0 {
        lemma_tick(cap, samples, key, n - 1);
        let was = floor_run(Map::<K, Tick<I, P>>::empty(), cap, samples, n - 1);
        let run = floor_run(Map::<K, Tick<I, P>>::empty(), cap, samples, n);
        let s = samples[n - 1];
        if was.contains_key(key) {
            let i = choose|i: int| #[trigger]
                opened_by(samples, key, n - 1, i) && tells_of(samples, i, n - 1, was[key]);
            if s.key == key && s.source_ts > samples[i].source_ts {
                assert(opened_by(samples, key, n, n - 1));
                assert(at_tick(samples, n - 1, n - 1, n));
                assert forall|j: int| #[trigger] at_tick(samples, n - 1, j, n) implies j == n - 1 by {}
                assert forall|c: I| #[trigger] run[key].contents.has(c) implies already_sent(
                    samples,
                    n - 1,
                    n,
                    c,
                ) by {
                    assert(c == s.content);
                }
                assert(tells_of(samples, n - 1, n, run[key]));
            } else {
                assert(opened_by(samples, key, n, i));
                assert forall|j: int| #[trigger] at_tick(samples, i, j, n) implies at_tick(
                    samples,
                    i,
                    j,
                    n - 1,
                ) || j == n - 1 by {}
                if followed(samples, i, n - 1) {
                    let j = choose|j: int| #[trigger]
                        at_tick(samples, i, j, n - 1) && samples[j].publisher.id()
                            != samples[i].publisher.id();
                    assert(at_tick(samples, i, j, n));
                }
                let joins = s.key == key && s.source_ts == samples[i].source_ts;
                if joins {
                    assert(at_tick(samples, i, n - 1, n));
                }
                assert(followed(samples, i, n) <==> followed(samples, i, n - 1) || (joins
                    && s.publisher.id() != samples[i].publisher.id()));
                assert forall|c: I| #[trigger] run[key].contents.has(c) implies already_sent(
                    samples,
                    i,
                    n,
                    c,
                ) by {
                    if was[key].contents.has(c) {
                        let j = choose|j: int| #[trigger]
                            at_tick(samples, i, j, n - 1) && samples[j].publisher.id()
                                == samples[i].publisher.id() && samples[j].content == c;
                        assert(at_tick(samples, i, j, n));
                    } else {
                        assert(c == s.content);
                        assert(joins && s.publisher.id() == samples[i].publisher.id());
                    }
                }
                assert(tells_of(samples, i, n, run[key]));
            }
        } else if s.key == key {
            assert(opened_by(samples, key, n, n - 1));
            assert(at_tick(samples, n - 1, n - 1, n));
            assert forall|j: int| #[trigger] at_tick(samples, n - 1, j, n) implies j == n - 1 by {}
            assert forall|c: I| #[trigger] run[key].contents.has(c) implies already_sent(
                samples,
                n - 1,
                n,
                c,
            ) by {
                assert(c == s.content);
            }
            assert(tells_of(samples, n - 1, n, run[key]));
        }
    }
}

/// The first sample of a key is forwarded, and so is one that is later than all of its key before
/// it; each opens a tick.
pub proof fn law_floor_forwards_what_is_newer<K, I, P: Key>(
    cap: int,
    samples: Seq<Sample<K, I, P>>,
    n: int,
)
    requires
        0 <= n < samples.len(),
        forall|j: int|
            0 <= j < n && (#[trigger] samples[j]).key == samples[n].key ==> samples[j].source_ts
                < samples[n].source_ts,
    ensures
        floor_decision(Map::<K, Tick<I, P>>::empty(), cap, samples, n)
            == (Admit::<P>::Emitted { opened_tick: true }),
{
    lemma_tick(cap, samples, samples[n].key, n);
}

/// A sample that is older than one of its key before it is dropped.
pub proof fn law_floor_drops_what_is_older<K, I, P: Key>(
    cap: int,
    samples: Seq<Sample<K, I, P>>,
    n: int,
    j: int,
)
    requires
        0 <= j < n < samples.len(),
        samples[j].key == samples[n].key,
        samples[j].source_ts > samples[n].source_ts,
    ensures
        floor_decision(Map::<K, Tick<I, P>>::empty(), cap, samples, n) == Admit::<P>::Dropped,
{
    let key = samples[n].key;
    lemma_tick(cap, samples, key, n);
    assert(floor_run(Map::<K, Tick<I, P>>::empty(), cap, samples, n).contains_key(key));
}

/// At the tick that its publisher opened, a content that this publisher has not sent there yet is
/// forwarded; it opens nothing.
pub proof fn law_floor_forwards_the_leaders_new_content<K, I, P: Key>(
    cap: int,
    samples: Seq<Sample<K, I, P>>,
    i: int,
    n: int,
)
    requires
        n < samples.len(),
        opened_by(samples, samples[n].key, n, i),
        samples[n].source_ts == samples[i].source_ts,
        samples[n].publisher.id() == samples[i].publisher.id(),
        !already_sent(samples, i, n, samples[n].content),
    ensures
        floor_decision(Map::<K, Tick<I, P>>::empty(), cap, samples, n)
            == (Admit::<P>::Emitted { opened_tick: false }),
{
    let key = samples[n].key;
    lemma_tick(cap, samples, key, n);
    let run = floor_run(Map::<K, Tick<I, P>>::empty(), cap, samples, n);
    assert(run.contains_key(key));
    let o = choose|o: int| #[trigger]
        opened_by(samples, key, n, o) && tells_of(samples, o, n, run[key]);
    assert(o == i);
}

/// At a tick that another publisher opened nothing is forwarded: the first copy is told as a
/// contest, with the opener and how much earlier it came, and what comes after it is dropped.
pub proof fn law_floor_tells_the_first_follower<K, I, P: Key>(
    cap: int,
    samples: Seq<Sample<K, I, P>>,
    i: int,
    n: int,
)
    requires
        n < samples.len(),
        opened_by(samples, samples[n].key, n, i),
        samples[n].source_ts == samples[i].source_ts,
        samples[n].publisher.id() != samples[i].publisher.id(),
    ensures
        floor_decision(Map::<K, Tick<I, P>>::empty(), cap, samples, n) == (if followed(samples, i, n) {
            Admit::<P>::Dropped
        } else {
            Admit::<P>::Contest {
                winner: samples[i].publisher,
                lead_ns: if samples[n].arrival_ns >= samples[i].arrival_ns {
                    (samples[n].arrival_ns - samples[i].arrival_ns) as u64
                } else {
                    0
                },
            }
        }),
{
    let key = samples[n].key;
    lemma_tick(cap, samples, key, n);
    let run = floor_run(Map::<K, Tick<I, P>>::empty(), cap, samples, n);
    assert(run.contains_key(key));
    let o = choose|o: int| #[trigger]
        opened_by(samples, key, n, o) && tells_of(samples, o, n, run[key]);
    assert(o == i);
}

/// What is remembered beyond the cap is forgotten oldest first, one for one; what is not beyond it
/// stays.
pub proof fn law_the_oldest_is_forgotten_first<I, V>(r: RecentView<I, V>, i: I, v: V, cap: int)
    requires
        r.wf(),
        !r.has(i),
        r.len() <= cap,
        cap >= 1,
    ensures
        ({
            let now = r.push(i, v).trim(cap);
            let full = r.len() == cap;
            &&& now.has(i) && now.map[i] == v
            &&& now.len() == r.len() + (if full {
                0int
            } else {
                1
            })
            &&& now.order.last() == i
            &&& forall|x: I|
                x != i ==> (#[trigger] now.has(x) <==> r.has(x) && !(full && x == r.order[0]))
            &&& forall|x: I| x != i && #[trigger] now.has(x) ==> now.map[x] == r.map[x]
            &&& forall|j: int|
                0 <= j < now.len() - 1 ==> #[trigger] now.order[j] == r.order[if full {
                    j + 1
                } else {
                    j
                }]
        }),
{
    if r.len() == cap {
        let first = r.order[0];
        assert(r.order.contains(first));
        assert(r.map.contains_key(first));
    }
}

proof fn lemma_seen_was_offered<K, I, P: Key>(
    cap: int,
    offers: Seq<Offered<K, I, P>>,
    key: K,
    value: I,
    n: int,
)
    requires
        0 <= n <= offers.len(),
        window_at(window_run(Map::<K, Seen<I, P>>::empty(), cap, offers, n), key).has(value),
    ensures
        exists|i: int|
            0 <= i < n && (#[trigger] offers[i]).key == key && offers[i].value == value,
    decreases n,
{
    let none = Map::<K, Seen<I, P>>::empty();
    if n > 0 {
        let was = window_at(window_run(none, cap, offers, n - 1), key);
        if was.has(value) {
            lemma_seen_was_offered(cap, offers, key, value, n - 1);
            let i = choose|i: int|
                0 <= i < n - 1 && (#[trigger] offers[i]).key == key && offers[i].value == value;
            assert(offers[i].key == key);
        } else {
            assert(offers[n - 1].key == key && offers[n - 1].value == value);
        }
    }
}

/// What was never offered under its key is forwarded.
pub proof fn law_window_forwards_what_is_new<K, I, P: Key>(
    cap: int,
    offers: Seq<Offered<K, I, P>>,
    n: int,
)
    requires
        0 <= n < offers.len(),
        forall|i: int|
            0 <= i < n ==> !((#[trigger] offers[i]).key == offers[n].key && offers[i].value
                == offers[n].value),
    ensures
        window_decision(Map::<K, Seen<I, P>>::empty(), cap, offers, n) is Emitted,
{
    let o = offers[n];
    if window_at(window_run(Map::<K, Seen<I, P>>::empty(), cap, offers, n), o.key).has(o.value) {
        lemma_seen_was_offered(cap, offers, o.key, o.value, n);
    }
}

proof fn lemma_first_is_remembered<K, I, P: Key>(
    cap: int,
    offers: Seq<Offered<K, I, P>>,
    i: int,
    n: int,
)
    requires
        0 <= i < n <= offers.len(),
        n - i <= cap,
        window_decision(Map::<K, Seen<I, P>>::empty(), cap, offers, i) is Emitted,
    ensures
        ({
            let none = Map::<K, Seen<I, P>>::empty();
            let w = window_at(window_run(none, cap, offers, n), offers[i].key);
            &&& forwarded(none, cap, offers, offers[i].key, i + 1, n) <= n - i - 1
            &&& w.has(offers[i].value)
            &&& w.map[offers[i].value] == (offers[i].publisher, offers[i].arrival_ns)
        }),
    decreases n,
{
    let none = Map::<K, Seen<I, P>>::empty();
    let key = offers[i].key;
    assert(windows_wf(none, cap));
    if n > i + 1 {
        lemma_first_is_remembered(cap, offers, i, n - 1);
    }
    lemma_still_seen(none, cap, offers, i, n);
    crate::window::law_window_is_bounded(none, cap, offers, n);
    let w = window_at(window_run(none, cap, offers, n), key);
    let c = forwarded(none, cap, offers, key, i + 1, n);
    assert(w.order.contains(w.order[w.len() - 1 - c]));
    assert(w.map.contains_key(offers[i].value));
}

/// What was forwarded is not forwarded again for its key while fewer than `cap` offers have come
/// since: a copy by the same publisher is dropped, one by another is told as a contest, with the
/// first publisher and how much earlier it came.
pub proof fn law_window_tells_who_came_first<K, I, P: Key>(
    cap: int,
    offers: Seq<Offered<K, I, P>>,
    i: int,
    n: int,
)
    requires
        0 <= i < n < offers.len(),
        n - i <= cap,
        offers[n].key == offers[i].key,
        offers[n].value == offers[i].value,
        window_decision(Map::<K, Seen<I, P>>::empty(), cap, offers, i) is Emitted,
    ensures
        window_decision(Map::<K, Seen<I, P>>::empty(), cap, offers, n) == (
        if offers[n].publisher.id() == offers[i].publisher.id() {
            Admit::<P>::Dropped
        } else {
            Admit::<P>::Contest {
                winner: offers[i].publisher,
                lead_ns: if offers[n].arrival_ns >= offers[i].arrival_ns {
                    (offers[n].arrival_ns - offers[i].arrival_ns) as u64
                } else {
                    0
                },
            }
        }),
{
    lemma_first_is_remembered(cap, offers, i, n);
}

} // verus!
