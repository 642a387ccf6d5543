//! A map that remembers the order in which its keys arrived, so the oldest can be forgotten first.

use crate::table::{Key, Table};
use std::collections::VecDeque;
use vstd::prelude::*;

verus! {

/// What a [`Recent`] holds: its keys, oldest first, and what each is mapped to.
#[verifier::ext_equal]
#[verifier::reject_recursive_types(I)]
pub struct RecentView<I, V> {
    pub order: Seq<I>,
    pub map: Map<I, V>,
}

impl<I, V> RecentView<I, V> {
    pub open spec fn empty() -> Self {
        RecentView { order: Seq::empty(), map: Map::empty() }
    }

    /// Every key is listed once, and only keys are.
    pub open spec fn wf(self) -> bool {
        &&& self.order.no_duplicates()
        &&& forall|i: I| #[trigger] self.map.contains_key(i) <==> self.order.contains(i)
    }

    pub open spec fn has(self, i: I) -> bool {
        self.map.contains_key(i)
    }

    pub open spec fn len(self) -> nat {
        self.order.len()
    }

    /// A new key, as the youngest.
    pub open spec fn push(self, i: I, v: V) -> Self {
        RecentView { order: self.order.push(i), map: self.map.insert(i, v) }
    }

    /// Another value for a key that is held already; its age is unchanged.
    pub open spec fn set(self, i: I, v: V) -> Self {
        RecentView { order: self.order, map: self.map.insert(i, v) }
    }

    /// The oldest key forgotten.
    pub open spec fn pop(self) -> Self {
        RecentView { order: self.order.drop_first(), map: self.map.remove(self.order[0]) }
    }

    /// All of `gone` forgotten.
    pub open spec fn without(self, gone: Set<I>) -> Self {
        RecentView {
            order: self.order.filter(|x: I| !gone.contains(x)),
            map: self.map.remove_keys(gone),
        }
    }

    /// The oldest key forgotten if there are more than `cap`.
    pub open spec fn trim(self, cap: int) -> Self {
        if self.order.len() > cap {
            self.pop()
        } else {
            self
        }
    }
}

/// A map with its keys in order of arrival.
pub struct Recent<K: Key, V> {
    entries: Table<K, V>,
    order: VecDeque<K>,
}

impl<K: Key, V> View for Recent<K, V> {
    type V = RecentView<K::Id, V>;

    closed spec fn view(&self) -> RecentView<K::Id, V> {
        RecentView { order: self.order@.map_values(|k: K| k.id()), map: self.entries@ }
    }
}

impl<K: Key, V> Recent<K, V> {
    pub closed spec fn wf(&self) -> bool {
        &&& self.entries.wf()
        &&& self@.wf()
    }

    pub proof fn lemma_wf(&self)
        requires
            self.wf(),
        ensures
            self@.wf(),
    {
    }

    pub fn new() -> (r: Self)
        ensures
            r.wf(),
            r@ == RecentView::<K::Id, V>::empty(),
    {
        let r = Recent { entries: Table::new(), order: VecDeque::new() };
        assert(r@.order =~= Seq::empty());
        r
    }

    pub fn len(&self) -> (r: usize)
        requires
            self.wf(),
        ensures
            r == self@.len(),
    {
        self.order.len()
    }

    pub fn get(&self, k: &K) -> (r: Option<&V>)
        requires
            self.wf(),
        ensures
            match r {
                Some(v) => self@.has(k.id()) && *v == self@.map[k.id()],
                None => !self@.has(k.id()),
            },
    {
        self.entries.get(k)
    }

    pub fn contains(&self, k: &K) -> (r: bool)
        requires
            self.wf(),
        ensures
            r == self@.has(k.id()),
    {
        self.entries.contains_key(k)
    }

    /// The oldest key and its value.
    pub fn oldest(&self) -> (r: Option<(&K, &V)>)
        requires
            self.wf(),
        ensures
            match r {
                Some(kv) => {
                    &&& self@.len() > 0
                    &&& kv.0.id() == self@.order[0]
                    &&& *kv.1 == self@.map[self@.order[0]]
                },
                None => self@.len() == 0,
            },
    {
        if self.order.len() == 0 {
            None
        } else {
            let k = &self.order[0];
            assert(self@.order[0] == k.id());
            assert(self@.order.contains(k.id()));
            assert(self@.map.contains_key(k.id()));
            match self.entries.get(k) {
                Some(v) => Some((k, v)),
                None => {
                    assert(false);
                    None
                },
            }
        }
    }

    /// Remember a new key.
    pub fn push(&mut self, k: K, v: V)
        requires
            old(self).wf(),
            !old(self)@.has(k.id()),
        ensures
            final(self).wf(),
            final(self)@ == old(self)@.push(k.id(), v),
    {
        let ghost before = self@;
        let twin = k.dup();
        self.entries.insert(twin, v);
        self.order.push_back(k);
        proof {
            assert(self@.order =~= before.order.push(k.id()));
            lemma_push_wf(before, k.id(), v);
        }
    }

    /// Map a held key to another value.
    pub fn set(&mut self, k: K, v: V)
        requires
            old(self).wf(),
            old(self)@.has(k.id()),
        ensures
            final(self).wf(),
            final(self)@ == old(self)@.set(k.id(), v),
    {
        let ghost before = self@;
        self.entries.insert(k, v);
        assert forall|i: K::Id| #[trigger] self@.map.contains_key(i) <==> self@.order.contains(i) by {
            assert(before.map.contains_key(i) <==> before.order.contains(i));
        }
    }

    /// Forget the oldest key.
    pub fn pop(&mut self) -> (r: Option<(K, V)>)
        requires
            old(self).wf(),
        ensures
            final(self).wf(),
            match r {
                Some(kv) => {
                    &&& old(self)@.len() > 0
                    &&& kv.0.id() == old(self)@.order[0]
                    &&& kv.1 == old(self)@.map[old(self)@.order[0]]
                    &&& final(self)@ == old(self)@.pop()
                },
                None => old(self)@.len() == 0 && final(self)@ == old(self)@,
            },
    {
        let ghost before = self@;
        match self.order.pop_front() {
            None => None,
            Some(k) => {
                assert(before.order[0] == k.id());
                assert(before.order.contains(k.id()));
                assert(before.map.contains_key(k.id()));
                let removed = self.entries.remove(&k);
                proof {
                    assert(self@.order =~= before.order.drop_first());
                    lemma_pop_wf(before);
                }
                match removed {
                    Some(v) => Some((k, v)),
                    None => {
                        assert(false);
                        None
                    },
                }
            },
        }
    }

    /// Forget the oldest key if more than `cap` are held.
    pub fn trim(&mut self, cap: usize)
        requires
            old(self).wf(),
        ensures
            final(self).wf(),
            final(self)@ == old(self)@.trim(cap as int),
    {
        if self.order.len() > cap {
            let _forgotten = self.pop();
        }
    }

    /// A mutable borrow of what a key is mapped to.
    pub fn get_mut(&mut self, k: &K) -> (r: Option<&mut V>)
        requires
            old(self).wf(),
        ensures
            final(self).wf(),
            match r {
                Some(v) => {
                    &&& old(self)@.has(k.id())
                    &&& *v == old(self)@.map[k.id()]
                    &&& final(self)@ == old(self)@.set(k.id(), *final(v))
                },
                None => !old(self)@.has(k.id()) && *final(self) == *old(self),
            },
    {
        let ghost before = self@;
        proof {
            assert forall|v: V| before.has(k.id()) implies (#[trigger] before.set(k.id(), v)).wf() by {
                lemma_set_wf(before, k.id(), v);
            }
            assert forall|t: Self|
                t.entries.wf() && t.order == self.order && before.has(k.id()) && (exists|v: V|
                    t.entries@ == #[trigger] before.map.insert(k.id(), v)) implies #[trigger] t.wf() by {
                let v = choose|v: V| t.entries@ == #[trigger] before.map.insert(k.id(), v);
                assert(t@ == before.set(k.id(), v));
            }
        }
        self.entries.get_mut(k)
    }

    /// The key at position `i` in order of arrival.
    pub fn key_at(&self, i: usize) -> (r: &K)
        requires
            self.wf(),
            i < self@.len(),
        ensures
            r.id() == self@.order[i as int],
    {
        &self.order[i]
    }

    /// Forget every one of `keys`.
    pub fn forget(&mut self, keys: &Vec<K>)
        requires
            old(self).wf(),
        ensures
            final(self).wf(),
            final(self)@ == old(self)@.without(ids(keys@)),
    {
        let ghost before = self@;
        let mut i: usize = 0;
        while i < keys.len()
            invariant
                self.entries.wf(),
                self.order == old(self).order,
                before == old(self)@,
                i <= keys@.len(),
                self.entries@ == before.map.remove_keys(ids(keys@.take(i as int))),
            decreases keys@.len() - i,
        {
            let _gone = self.entries.remove(&keys[i]);
            proof {
                let a = ids(keys@.take(i as int));
                let b = ids(keys@.take(i as int + 1));
                assert(b =~= a.insert(keys@[i as int].id())) by {
                    lemma_ids_push(keys@.take(i as int), keys@[i as int]);
                    assert(keys@.take(i as int + 1) =~= keys@.take(i as int).push(keys@[i as int]));
                }
                assert(self.entries@ =~= before.map.remove_keys(b));
            }
            i += 1;
        }
        assert(keys@.take(i as int) =~= keys@);
        let mut kept: VecDeque<K> = VecDeque::new();
        let n: usize = self.order.len();
        let ghost gone = ids(keys@);
        let ghost keep = |x: K::Id| !gone.contains(x);
        let ghost all = before.order;
        let mut j: usize = 0;
        proof {
            assert(all.take(0) =~= Seq::empty());
            assert(kept@.map_values(|k: K| k.id()) =~= all.take(0).filter(keep)) by {
                reveal(Seq::filter);
            }
        }
        while j < n
            invariant
                self.entries.wf(),
                before == old(self)@,
                old(self).wf(),
                self.order == old(self).order,
                n == self.order@.len(),
                j <= n,
                all == before.order,
                all.len() == n,
                keep == (|x: K::Id| !gone.contains(x)),
                self.entries@ == before.map.remove_keys(gone),
                kept@.map_values(|k: K| k.id()) == all.take(j as int).filter(keep),
            decreases n - j,
        {
            let k = &self.order[j];
            let ghost id = k.id();
            let held: bool = self.entries.contains_key(k);
            proof {
                assert(all[j as int] == id);
                assert(all.contains(id));
                assert(before.map.contains_key(id));
                assert(held == keep(id));
                lemma_filter_push(all.take(j as int), id, keep);
                assert(all.take(j as int + 1) =~= all.take(j as int).push(id));
            }
            if held {
                let ghost was = kept@;
                kept.push_back(k.dup());
                assert(kept@.map_values(|k: K| k.id()) =~= was.map_values(|k: K| k.id()).push(id));
            }
            j += 1;
        }
        self.order = kept;
        proof {
            assert(all.take(n as int) =~= all);
            lemma_without_wf(before, gone);
        }
    }
}

/// The ids of a list of keys.
pub open spec fn ids<K: Key>(keys: Seq<K>) -> Set<K::Id> {
    Set::new(|x: K::Id| exists|i: int| 0 <= i < keys.len() && (#[trigger] keys[i]).id() == x)
}

pub proof fn lemma_ids_push<K: Key>(keys: Seq<K>, k: K)
    ensures
        ids(keys.push(k)) == ids(keys).insert(k.id()),
{
    let after = keys.push(k);
    assert forall|x: K::Id| ids(after).contains(x) == ids(keys).insert(k.id()).contains(x) by {
        if ids(keys).contains(x) {
            let i = choose|i: int| 0 <= i < keys.len() && (#[trigger] keys[i]).id() == x;
            assert(after[i].id() == x);
        }
        assert(after[keys.len() as int].id() == k.id());
        if ids(after).contains(x) && x != k.id() {
            let i = choose|i: int| 0 <= i < after.len() && (#[trigger] after[i]).id() == x;
            assert(keys[i].id() == x);
        }
    }
    assert(ids(after) =~= ids(keys).insert(k.id()));
}

proof fn lemma_filter_push<I>(s: Seq<I>, x: I, keep: spec_fn(I) -> bool)
    ensures
        s.push(x).filter(keep) == if keep(x) {
            s.filter(keep).push(x)
        } else {
            s.filter(keep)
        },
{
    reveal(Seq::filter);
    assert(s.push(x).drop_last() =~= s);
}

pub proof fn lemma_set_wf<I, V>(r: RecentView<I, V>, i: I, v: V)
    requires
        r.wf(),
        r.has(i),
    ensures
        r.set(i, v).wf(),
{
    assert forall|x: I| #[trigger] r.set(i, v).map.contains_key(x) <==> r.set(
        i,
        v,
    ).order.contains(x) by {
        assert(r.map.contains_key(x) <==> r.order.contains(x));
    }
}

pub proof fn lemma_without_wf<I, V>(r: RecentView<I, V>, gone: Set<I>)
    requires
        r.wf(),
    ensures
        r.without(gone).wf(),
        r.without(gone).len() <= r.len(),
{
    let keep = |x: I| !gone.contains(x);
    let after = r.without(gone);
    lemma_filter(r.order, keep);
    assert forall|x: I| #[trigger] after.map.contains_key(x) <==> after.order.contains(x) by {
        assert(r.map.contains_key(x) <==> r.order.contains(x));
    }
}

pub proof fn lemma_filter<I>(s: Seq<I>, keep: spec_fn(I) -> bool)
    ensures
        s.filter(keep).len() <= s.len(),
        s.no_duplicates() ==> s.filter(keep).no_duplicates(),
        forall|x: I| #[trigger] s.filter(keep).contains(x) <==> s.contains(x) && keep(x),
    decreases s.len(),
{
    reveal(Seq::filter);
    if s.len() > 0 {
        let t = s.drop_last();
        let x = s.last();
        lemma_filter(t, keep);
        assert forall|y: I| #[trigger] s.filter(keep).contains(y) <==> s.contains(y) && keep(y) by {
            assert(t.filter(keep).contains(y) <==> t.contains(y) && keep(y));
            if t.contains(y) {
                let i = t.index_of(y);
                assert(s[i] == y);
            }
            if s.contains(y) && y != x {
                let i = s.index_of(y);
                assert(t[i] == y);
            }
            if keep(x) {
                let f = t.filter(keep).push(x);
                if t.filter(keep).contains(y) {
                    let i = t.filter(keep).index_of(y);
                    assert(f[i] == y);
                }
                assert(f[f.len() - 1] == x);
                if f.contains(y) && y != x {
                    let i = f.index_of(y);
                    assert(t.filter(keep)[i] == y);
                }
            }
            assert(s[s.len() - 1] == x);
        }
        if s.no_duplicates() && keep(x) {
            assert(!t.contains(x)) by {
                if t.contains(x) {
                    let i = t.index_of(x);
                    assert(s[i] == s[s.len() - 1]);
                }
            }
            assert(!t.filter(keep).contains(x));
        }
    }
}

pub proof fn lemma_push_wf<I, V>(r: RecentView<I, V>, i: I, v: V)
    requires
        r.wf(),
        !r.has(i),
    ensures
        r.push(i, v).wf(),
{
    let after = r.push(i, v);
    assert(!r.order.contains(i));
    assert forall|x: I| #[trigger] after.map.contains_key(x) <==> after.order.contains(x) by {
        assert(r.map.contains_key(x) <==> r.order.contains(x));
        if r.order.contains(x) {
            let p = r.order.index_of(x);
            assert(after.order[p] == x);
        }
        if after.order.contains(x) && x != i {
            let p = after.order.index_of(x);
            assert(r.order[p] == x);
        }
        assert(after.order[r.order.len() as int] == i);
    }
}

pub proof fn lemma_pop_wf<I, V>(r: RecentView<I, V>)
    requires
        r.wf(),
        r.len() > 0,
    ensures
        r.pop().wf(),
{
    let after = r.pop();
    assert forall|x: I| #[trigger] after.map.contains_key(x) <==> after.order.contains(x) by {
        assert(r.map.contains_key(x) <==> r.order.contains(x));
        if r.order.contains(x) && x != r.order[0] {
            let p = r.order.index_of(x);
            assert(after.order[p - 1] == x);
        }
        if after.order.contains(x) {
            let p = after.order.index_of(x);
            assert(r.order[p + 1] == x);
        }
    }
}

} // verus!
