//! Bounded deduplication of recently seen identities.

use crate::floor::{elapsed, elapsed_ns, Admit};
use crate::recent::{Recent, RecentView};
use crate::table::{Key, Table};
use vstd::prelude::*;

verus! {

/// One key's window: each remembered value with who first delivered it and when, oldest first.
pub type Seen<I, P> = RecentView<I, (P, u64)>;

/// The window's decision for one value, and the window afterwards.
pub open spec fn seen_step<I, P: Key>(
    seen: Seen<I, P>,
    cap: int,
    value: I,
    publisher: P,
    arrival_ns: u64,
) -> (Seen<I, P>, Admit<P>) {
    if seen.has(value) {
        let (winner, winner_arrival_ns) = seen.map[value];
        if winner.id() == publisher.id() {
            (seen, Admit::Dropped)
        } else {
            (seen, Admit::Contest { winner, lead_ns: elapsed(winner_arrival_ns, arrival_ns) })
        }
    } else {
        (seen.push(value, (publisher, arrival_ns)).trim(cap), Admit::Emitted { opened_tick: true })
    }
}

/// The window of `key`: empty until something was offered for it.
pub open spec fn window_at<K, I, P>(windows: Map<K, Seen<I, P>>, key: K) -> Seen<I, P> {
    if windows.contains_key(key) {
        windows[key]
    } else {
        RecentView::empty()
    }
}

/// The decision for one value offered under `key`, and the windows afterwards.
pub open spec fn window_step<K, I, P: Key>(
    windows: Map<K, Seen<I, P>>,
    cap: int,
    key: K,
    value: I,
    publisher: P,
    arrival_ns: u64,
) -> (Map<K, Seen<I, P>>, Admit<P>) {
    let (seen, decision) = seen_step(window_at(windows, key), cap, value, publisher, arrival_ns);
    (windows.insert(key, seen), decision)
}

/// Per-key bounded dedup of recently seen identities: the most recent `capacity` values per key are
/// remembered, so a second publisher's copy, or a reorder within the window, is dropped.
pub struct WindowedDedup<K: Key, V: Key, P> {
    capacity: usize,
    seen: Table<K, Recent<V, (P, u64)>>,
}

impl<K: Key, V: Key, P> View for WindowedDedup<K, V, P> {
    type V = Map<K::Id, Seen<V::Id, P>>;

    closed spec fn view(&self) -> Map<K::Id, Seen<V::Id, P>> {
        Map::new(|k: K::Id| self.seen@.contains_key(k), |k: K::Id| self.seen@[k]@)
    }
}

impl<K: Key, V: Key, P> WindowedDedup<K, V, P> {
    pub closed spec fn wf(&self) -> bool {
        &&& self.seen.wf()
        &&& forall|k: K::Id| #[trigger] self.seen@.contains_key(k) ==> self.seen@[k].wf()
    }

    /// How many values are remembered per key.
    pub closed spec fn cap(&self) -> int {
        self.capacity as int
    }
}

impl<K: Key, V: Key, P: Key + Copy> WindowedDedup<K, V, P> {
    pub fn new(capacity: usize) -> (r: Self)
        ensures
            r.wf(),
            r.cap() == capacity,
            r@ == Map::<K::Id, Seen<V::Id, P>>::empty(),
    {
        let r = WindowedDedup { capacity, seen: Table::new() };
        assert(r@ =~= Map::empty());
        r
    }

    /// [`Admit::Emitted`] if `value` is first seen for `key`; otherwise a duplicate still in the
    /// window: [`Admit::Contest`] when it comes from another publisher than the one that first
    /// delivered it, else [`Admit::Dropped`].
    pub fn offer(&mut self, key: K, value: V, publisher: P, arrival_ns: u64) -> (r: Admit<P>)
        requires
            old(self).wf(),
        ensures
            final(self).wf(),
            final(self).cap() == old(self).cap(),
            (final(self)@, r) == window_step(
                old(self)@,
                old(self).cap(),
                key.id(),
                value.id(),
                publisher,
                arrival_ns,
            ),
    {
        let cap: usize = self.capacity;
        let ghost id = key.id();
        match self.seen.find(&key) {
            Some(i) => {
                let ghost was = self.seen@[id];
                let st = self.seen.value_at_mut(i);
                assert(*st == was);
                let r = Self::step(st, cap, value, publisher, arrival_ns);
                assert(self@ =~= old(self)@.insert(id, self.seen@[id]@));
                r
            },
            None => {
                let mut st: Recent<V, (P, u64)> = Recent::new();
                let r = Self::step(&mut st, cap, value, publisher, arrival_ns);
                self.seen.insert(key, st);
                assert(self@ =~= old(self)@.insert(id, st@));
                r
            },
        }
    }

    fn step(
        st: &mut Recent<V, (P, u64)>,
        cap: usize,
        value: V,
        publisher: P,
        arrival_ns: u64,
    ) -> (r: Admit<P>)
        requires
            old(st).wf(),
        ensures
            final(st).wf(),
            (final(st)@, r) == seen_step(old(st)@, cap as int, value.id(), publisher, arrival_ns),
    {
        match st.get(&value) {
            Some(first) => {
                let (winner, winner_arrival_ns) = *first;
                if winner.same(&publisher) {
                    Admit::Dropped
                } else {
                    Admit::Contest { winner, lead_ns: elapsed_ns(winner_arrival_ns, arrival_ns) }
                }
            },
            None => {
                st.push(value, (publisher, arrival_ns));
                st.trim(cap);
                Admit::Emitted { opened_tick: true }
            },
        }
    }
}

/// One value offered to the window.
pub struct Offered<K, I, P> {
    pub key: K,
    pub value: I,
    pub publisher: P,
    pub arrival_ns: u64,
}

/// The windows after the first `n` of `offers`.
pub open spec fn window_run<K, I, P: Key>(
    windows: Map<K, Seen<I, P>>,
    cap: int,
    offers: Seq<Offered<K, I, P>>,
    n: int,
) -> Map<K, Seen<I, P>>
    decreases n,
{
    if n <= 0 {
        windows
    } else {
        let o = offers[n - 1];
        window_step(
            window_run(windows, cap, offers, n - 1),
            cap,
            o.key,
            o.value,
            o.publisher,
            o.arrival_ns,
        ).0
    }
}

/// The decision on offer number `n`.
pub open spec fn window_decision<K, I, P: Key>(
    windows: Map<K, Seen<I, P>>,
    cap: int,
    offers: Seq<Offered<K, I, P>>,
    n: int,
) -> Admit<P> {
    let o = offers[n];
    window_step(
        window_run(windows, cap, offers, n),
        cap,
        o.key,
        o.value,
        o.publisher,
        o.arrival_ns,
    ).1
}

/// How many of the offers from number `from` up to `to` were forwarded under `key`.
pub open spec fn forwarded<K, I, P: Key>(
    windows: Map<K, Seen<I, P>>,
    cap: int,
    offers: Seq<Offered<K, I, P>>,
    key: K,
    from: int,
    to: int,
) -> int
    decreases to - from,
{
    if to <= from {
        0
    } else {
        forwarded(windows, cap, offers, key, from, to - 1) + if offers[to - 1].key == key
            && window_decision(windows, cap, offers, to - 1) is Emitted {
            1int
        } else {
            0
        }
    }
}

/// Every window is a list of distinct values with one record each, no longer than `cap`.
pub open spec fn windows_wf<K, I, P>(windows: Map<K, Seen<I, P>>, cap: int) -> bool {
    forall|k: K| #[trigger]
        windows.contains_key(k) ==> windows[k].wf() && windows[k].len() <= cap
}

/// The window of every key stays within its capacity, whatever is offered.
pub proof fn law_window_is_bounded<K, I, P: Key>(
    windows: Map<K, Seen<I, P>>,
    cap: int,
    offers: Seq<Offered<K, I, P>>,
    n: int,
)
    requires
        windows_wf(windows, cap),
        0 <= n <= offers.len(),
        cap >= 0,
    ensures
        windows_wf(window_run(windows, cap, offers, n), cap),
    decreases n,
{
    if n > 0 {
        law_window_is_bounded(windows, cap, offers, n - 1);
        let before = window_run(windows, cap, offers, n - 1);
        let o = offers[n - 1];
        let seen = window_at(before, o.key);
        assert(seen.wf());
        if !seen.has(o.value) {
            crate::recent::lemma_push_wf(seen, o.value, (o.publisher, o.arrival_ns));
            crate::recent::lemma_pop_wf(seen.push(o.value, (o.publisher, o.arrival_ns)));
        }
    }
}

/// A value forwarded once is not forwarded again for its key until at least `cap` others have been.
pub proof fn law_window_forwards_once<K, I, P: Key>(
    windows: Map<K, Seen<I, P>>,
    cap: int,
    offers: Seq<Offered<K, I, P>>,
    i: int,
    j: int,
)
    requires
        windows_wf(windows, cap),
        0 <= i < j < offers.len(),
        offers[i].key == offers[j].key,
        offers[i].value == offers[j].value,
        window_decision(windows, cap, offers, i) is Emitted,
        window_decision(windows, cap, offers, j) is Emitted,
        cap >= 0,
    ensures
        forwarded(windows, cap, offers, offers[i].key, i + 1, j) >= cap,
{
    if forwarded(windows, cap, offers, offers[i].key, i + 1, j) < cap {
        lemma_still_seen(windows, cap, offers, i, j);
        let w = window_at(window_run(windows, cap, offers, j), offers[i].key);
        let c = forwarded(windows, cap, offers, offers[i].key, i + 1, j);
        assert(w.order.contains(w.order[w.len() - 1 - c]));
        law_window_is_bounded(windows, cap, offers, j);
        assert(w.has(offers[i].value));
    }
}

/// A forwarded value keeps its place in the window, counted from the youngest, while fewer than `cap` follow.
pub proof fn lemma_still_seen<K, I, P: Key>(
    windows: Map<K, Seen<I, P>>,
    cap: int,
    offers: Seq<Offered<K, I, P>>,
    i: int,
    n: int,
)
    requires
        windows_wf(windows, cap),
        0 <= i < n <= offers.len(),
        window_decision(windows, cap, offers, i) is Emitted,
        forwarded(windows, cap, offers, offers[i].key, i + 1, n) < cap,
        cap >= 0,
    ensures
        ({
            let c = forwarded(windows, cap, offers, offers[i].key, i + 1, n);
            let w = window_at(window_run(windows, cap, offers, n), offers[i].key);
            &&& window_run(windows, cap, offers, n).contains_key(offers[i].key)
            &&& c >= 0
            &&& c < w.len()
            &&& w.order[w.len() - 1 - c] == offers[i].value
        }),
    decreases n,
{
    let key = offers[i].key;
    law_window_is_bounded(windows, cap, offers, n - 1);
    if n == i + 1 {
    } else {
        lemma_still_seen(windows, cap, offers, i, n - 1);
        let before = window_run(windows, cap, offers, n - 1);
        let o = offers[n - 1];
        let w = window_at(before, key);
        if o.key == key && !w.has(o.value) {
            let pushed = w.push(o.value, (o.publisher, o.arrival_ns));
            let c = forwarded(windows, cap, offers, key, i + 1, n - 1);
            assert(pushed.order[w.len() - 1 - c] == offers[i].value);
            assert(pushed.trim(cap).order.len() <= cap || pushed.trim(cap) == pushed);
        }
    }
}

} // verus!
