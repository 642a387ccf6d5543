//! Listing an ordered map in order of its keys.

use std::collections::{BTreeMap, HashMap};
use vstd::prelude::*;
use vstd::std_specs::cmp::OrdSpec;
use vstd::std_specs::iter::IteratorSpec;

verus! {

/// `s` lists the entries of `m`, each once, with keys increasing.
pub open spec fn lists_in_order<K, V>(
    m: Map<K, V>,
    s: Seq<(K, V)>,
    less: spec_fn(K, K) -> bool,
) -> bool {
    &&& forall|i: int, j: int|
        0 <= i < j < s.len() ==> less((#[trigger] s[i]).0, (#[trigger] s[j]).0)
    &&& forall|i: int|
        0 <= i < s.len() ==> m.contains_key((#[trigger] s[i]).0) && m[s[i].0] == s[i].1
    &&& forall|k: K| #[trigger]
        m.contains_key(k) ==> exists|i: int| 0 <= i < s.len() && (#[trigger] s[i]).0 == k
}

/// The entries of `m` with keys increasing.
pub open spec fn listing<K, V>(m: Map<K, V>, less: spec_fn(K, K) -> bool) -> Seq<(K, V)> {
    choose|s: Seq<(K, V)>| lists_in_order(m, s, less)
}

/// A strict order on keys.
pub open spec fn strict<K>(less: spec_fn(K, K) -> bool) -> bool {
    &&& forall|a: K| !#[trigger] less(a, a)
    &&& forall|a: K, b: K, c: K| #[trigger] less(a, b) && #[trigger] less(b, c) ==> less(a, c)
}

/// There is only one way to list a map in order.
pub proof fn lemma_listing_is_unique<K, V>(
    m: Map<K, V>,
    a: Seq<(K, V)>,
    b: Seq<(K, V)>,
    less: spec_fn(K, K) -> bool,
)
    requires
        strict(less),
        lists_in_order(m, a, less),
        lists_in_order(m, b, less),
    ensures
        a == b,
    decreases a.len(),
{
    if a.len() == 0 {
        if b.len() > 0 {
            assert(m.contains_key(b[0].0));
        }
    } else if b.len() == 0 {
        assert(m.contains_key(a[0].0));
    } else {
        let la = a.len() - 1;
        let lb = b.len() - 1;
        let ka = a[la].0;
        let kb = b[lb].0;
        assert(m.contains_key(ka) && m.contains_key(kb));
        let i = choose|i: int| 0 <= i < b.len() && (#[trigger] b[i]).0 == ka;
        let j = choose|j: int| 0 <= j < a.len() && (#[trigger] a[j]).0 == kb;
        assert(ka == kb) by {
            if i < lb && j < la {
                assert(less(b[i].0, b[lb].0));
                assert(less(a[j].0, a[la].0));
                assert(less(ka, kb) && less(kb, ka));
                assert(less(ka, ka));
            }
        }
        let n = m.remove(ka);
        assert(lists_in_order(n, a.drop_last(), less)) by {
            lemma_drop_last(m, a, less);
        }
        assert(lists_in_order(n, b.drop_last(), less)) by {
            lemma_drop_last(m, b, less);
        }
        lemma_listing_is_unique(n, a.drop_last(), b.drop_last(), less);
        assert(a =~= a.drop_last().push(a[la]));
        assert(b =~= b.drop_last().push(b[lb]));
    }
}

proof fn lemma_drop_last<K, V>(m: Map<K, V>, s: Seq<(K, V)>, less: spec_fn(K, K) -> bool)
    requires
        strict(less),
        lists_in_order(m, s, less),
        s.len() > 0,
    ensures
        lists_in_order(m.remove(s.last().0), s.drop_last(), less),
{
    let t = s.drop_last();
    let last = s.last().0;
    let n = m.remove(last);
    assert forall|i: int| 0 <= i < t.len() implies n.contains_key((#[trigger] t[i]).0) && n[t[i].0]
        == t[i].1 by {
        assert(t[i] == s[i]);
        assert(less(s[i].0, s[s.len() - 1].0));
        assert(s[i].0 != last);
    }
    assert forall|i: int, j: int| 0 <= i < j < t.len() implies less(
        (#[trigger] t[i]).0,
        (#[trigger] t[j]).0,
    ) by {
        assert(t[i] == s[i] && t[j] == s[j]);
    }
    assert forall|k: K| #[trigger] n.contains_key(k) implies exists|i: int|
        0 <= i < t.len() && (#[trigger] t[i]).0 == k by {
        assert(m.contains_key(k));
        let i = choose|i: int| 0 <= i < s.len() && (#[trigger] s[i]).0 == k;
        assert(i != s.len() - 1);
        assert(t[i].0 == k);
    }
}

/// A list that satisfies the description of [`listing`] is it.
pub proof fn lemma_is_listing<K, V>(m: Map<K, V>, s: Seq<(K, V)>, less: spec_fn(K, K) -> bool)
    requires
        strict(less),
        lists_in_order(m, s, less),
    ensures
        s == listing(m, less),
{
    lemma_listing_is_unique(m, s, listing(m, less), less);
}

/// Any two keys are ordered.
pub open spec fn total<K>(less: spec_fn(K, K) -> bool) -> bool {
    forall|a: K, b: K| #![trigger less(a, b)] a == b || less(a, b) || less(b, a)
}

/// Every finite map can be listed in order.
pub proof fn lemma_listing_exists<K, V>(m: Map<K, V>, less: spec_fn(K, K) -> bool)
    requires
        strict(less),
        total(less),
        m.dom().finite(),
    ensures
        lists_in_order(m, listing(m, less), less),
    decreases m.dom().len(),
{
    if m.dom().len() == 0 {
        assert(m.dom() =~= Set::empty());
        assert forall|k: K| !m.contains_key(k) by {
            assert(!m.dom().contains(k));
        }
        assert(lists_in_order(m, Seq::empty(), less));
    } else {
        let leq = |a: K, b: K| a == b || less(a, b);
        assert(vstd::relations::total_ordering(leq)) by {
            assert(vstd::relations::reflexive(leq));
            assert(vstd::relations::antisymmetric(leq)) by {
                assert forall|a: K, b: K| #[trigger] leq(a, b) && #[trigger] leq(b, a) implies a == b by {
                    if a != b {
                        assert(less(a, b) && less(b, a));
                        assert(less(a, a));
                    }
                }
            }
            assert(vstd::relations::transitive(leq)) by {
                assert forall|a: K, b: K, c: K| #[trigger]
                    leq(a, b) && #[trigger] leq(b, c) implies leq(a, c) by {
                    if a != b && b != c {
                        assert(less(a, b) && less(b, c));
                    }
                }
            }
            assert(vstd::relations::strongly_connected(leq)) by {
                assert forall|a: K, b: K| #[trigger] leq(a, b) || #[trigger] leq(b, a) by {
                    assert(a == b || less(a, b) || less(b, a));
                }
            }
        }
        let top = m.dom().find_unique_maximal(leq);
        m.dom().find_unique_maximal_ensures(leq);
        let rest = m.remove(top);
        lemma_listing_exists(rest, less);
        let below = listing(rest, less);
        let s = below.push((top, m[top]));
        assert(lists_in_order(m, s, less)) by {
            assert forall|i: int, j: int| 0 <= i < j < s.len() implies less(
                (#[trigger] s[i]).0,
                (#[trigger] s[j]).0,
            ) by {
                if j < below.len() {
                    assert(s[i] == below[i] && s[j] == below[j]);
                } else {
                    let k = below[i].0;
                    assert(s[i] == below[i]);
                    assert(rest.contains_key(k));
                    assert(m.dom().contains(k) && k != top);
                    assert(less(top, k) || less(k, top));
                    if less(top, k) {
                        assert(leq(top, k));
                        assert(leq(k, top));
                    }
                }
            }
            assert forall|i: int| 0 <= i < s.len() implies m.contains_key((#[trigger] s[i]).0)
                && m[s[i].0] == s[i].1 by {
                if i < below.len() {
                    assert(s[i] == below[i]);
                    assert(rest.contains_key(below[i].0));
                }
            }
            assert forall|k: K| #[trigger] m.contains_key(k) implies exists|i: int|
                0 <= i < s.len() && (#[trigger] s[i]).0 == k by {
                if k == top {
                    assert(s[below.len() as int].0 == k);
                } else {
                    assert(rest.contains_key(k));
                    let i = choose|i: int| 0 <= i < below.len() && (#[trigger] below[i]).0 == k;
                    assert(s[i].0 == k);
                }
            }
        }
    }
}

pub open spec fn less_i128() -> spec_fn(i128, i128) -> bool {
    |a: i128, b: i128| a < b
}

pub open spec fn less_u64() -> spec_fn(u64, u64) -> bool {
    |a: u64, b: u64| a < b
}

pub open spec fn less_i64() -> spec_fn(i64, i64) -> bool {
    |a: i64, b: i64| a < b
}

/// The entries of a map in the order in which it is walked.
fn entries<K: Ord + Copy, V: Copy>(m: &BTreeMap<K, V>) -> (r: Vec<(K, V)>)
    requires
        vstd::laws_cmp::obeys_cmp::<K>(),
    ensures
        forall|i: int, j: int|
            0 <= i < j < r@.len() ==> (#[trigger] r@[i]).0.cmp_spec(&(#[trigger] r@[j]).0) is Less,
        forall|i: int|
            0 <= i < r@.len() ==> m@.contains_key((#[trigger] r@[i]).0) && m@[r@[i].0] == r@[i].1,
        forall|k: K| #[trigger]
            m@.contains_key(k) ==> exists|i: int| 0 <= i < r@.len() && (#[trigger] r@[i]).0 == k,
{
    let mut out: Vec<(K, V)> = Vec::new();
    assert(vstd::std_specs::btree::key_obeys_cmp_spec::<K>());
    let it = m.iter();
    let ghost all = it.remaining();
    let ghost keys = all.map_values(|kv: (&K, &V)| *kv.0);
    proof {
        assert(vstd::std_specs::btree::increasing_seq(keys));
        let walked = vstd::std_specs::btree::spec_btree_map_iter(m).remaining();
        assert forall|i: int| 0 <= i < all.len() implies m@.contains_key(*(#[trigger] all[i]).0)
            && m@[*all[i].0] == *all[i].1 by {
            assert(walked[i] == all[i]);
            assert(m@.contains_key(*walked[i].0));
        }
    }
    for kv in rest: it
        invariant
            rest.seq() == all,
            out@.len() == rest.index(),
            forall|j: int|
                0 <= j < rest.index() ==> out@[j] == (*(#[trigger] all[j]).0, *all[j].1),
    {
        out.push((*kv.0, *kv.1));
    }
    proof {
        assert forall|i: int, j: int| 0 <= i < j < out@.len() implies (
        #[trigger] out@[i]).0.cmp_spec(&(#[trigger] out@[j]).0) is Less by {
            assert(keys[i] == out@[i].0 && keys[j] == out@[j].0);
        }
        assert forall|i: int| 0 <= i < out@.len() implies m@.contains_key((#[trigger] out@[i]).0)
            && m@[out@[i].0] == out@[i].1 by {
            assert(out@[i] == (*all[i].0, *all[i].1));
        }
        assert forall|k: K| #[trigger] m@.contains_key(k) implies exists|i: int|
            0 <= i < out@.len() && (#[trigger] out@[i]).0 == k by {
            assert(all.contains((&k, &m@[k])));
            let i = all.index_of((&k, &m@[k]));
            assert(out@[i].0 == k);
        }
    }
    out
}

/// The entries of a map, smallest key first.
pub fn list_i128<V: Copy>(m: &BTreeMap<i128, V>) -> (r: Vec<(i128, V)>)
    ensures
        r@ == listing(m@, less_i128()),
        lists_in_order(m@, r@, less_i128()),
{
    broadcast use vstd::laws_cmp::group_laws_cmp;

    let out = entries(m);
    proof {
        assert forall|i: int, j: int| 0 <= i < j < out@.len() implies (less_i128())(
            (#[trigger] out@[i]).0,
            (#[trigger] out@[j]).0,
        ) by {
            assert(out@[i].0.cmp_spec(&out@[j].0) is Less);
        }
        lemma_is_listing(m@, out@, less_i128());
    }
    out
}

/// The entries of a map, smallest key first.
pub fn list_u64<V: Copy>(m: &BTreeMap<u64, V>) -> (r: Vec<(u64, V)>)
    ensures
        r@ == listing(m@, less_u64()),
        lists_in_order(m@, r@, less_u64()),
{
    broadcast use vstd::laws_cmp::group_laws_cmp;

    let out = entries(m);
    proof {
        assert forall|i: int, j: int| 0 <= i < j < out@.len() implies (less_u64())(
            (#[trigger] out@[i]).0,
            (#[trigger] out@[j]).0,
        ) by {
            assert(out@[i].0.cmp_spec(&out@[j].0) is Less);
        }
        lemma_is_listing(m@, out@, less_u64());
    }
    out
}

/// The entries of a map, smallest key first.
pub fn list_i64<V: Copy>(m: &BTreeMap<i64, V>) -> (r: Vec<(i64, V)>)
    ensures
        r@ == listing(m@, less_i64()),
        lists_in_order(m@, r@, less_i64()),
{
    broadcast use vstd::laws_cmp::group_laws_cmp;

    let out = entries(m);
    proof {
        assert forall|i: int, j: int| 0 <= i < j < out@.len() implies (less_i64())(
            (#[trigger] out@[i]).0,
            (#[trigger] out@[j]).0,
        ) by {
            assert(out@[i].0.cmp_spec(&out@[j].0) is Less);
        }
        lemma_is_listing(m@, out@, less_i64());
    }
    out
}

/// One pair is before another: by its first part, then by its second.
pub open spec fn less_pair_u64() -> spec_fn((u64, u64), (u64, u64)) -> bool {
    |a: (u64, u64), b: (u64, u64)| a.0 < b.0 || (a.0 == b.0 && a.1 < b.1)
}

/// The entries of a map, smallest key first.
pub fn list_pair_u64<V: Copy>(m: &BTreeMap<(u64, u64), V>) -> (r: Vec<((u64, u64), V)>)
    ensures
        r@ == listing(m@, less_pair_u64()),
        lists_in_order(m@, r@, less_pair_u64()),
{
    broadcast use vstd::laws_cmp::group_laws_cmp;

    let out = entries(m);
    proof {
        assert forall|i: int, j: int| 0 <= i < j < out@.len() implies (less_pair_u64())(
            (#[trigger] out@[i]).0,
            (#[trigger] out@[j]).0,
        ) by {
            assert(out@[i].0.cmp_spec(&out@[j].0) is Less);
        }
        lemma_is_listing(m@, out@, less_pair_u64());
    }
    out
}

/// One pair is before another: by its first part, then by its second.
pub open spec fn less_pair_i128() -> spec_fn((i128, u64), (i128, u64)) -> bool {
    |a: (i128, u64), b: (i128, u64)| a.0 < b.0 || (a.0 == b.0 && a.1 < b.1)
}

/// The entries of a map, smallest key first.
pub fn list_pair_i128<V: Copy>(m: &BTreeMap<(i128, u64), V>) -> (r: Vec<((i128, u64), V)>)
    ensures
        r@ == listing(m@, less_pair_i128()),
        lists_in_order(m@, r@, less_pair_i128()),
{
    broadcast use vstd::laws_cmp::group_laws_cmp;

    let out = entries(m);
    proof {
        assert forall|i: int, j: int| 0 <= i < j < out@.len() implies (less_pair_i128())(
            (#[trigger] out@[i]).0,
            (#[trigger] out@[j]).0,
        ) by {
            assert(out@[i].0.cmp_spec(&out@[j].0) is Less);
        }
        lemma_is_listing(m@, out@, less_pair_i128());
    }
    out
}

/// The entries of a hashed map, each once, in no particular order.
pub fn hashed_entries<V: Copy>(m: &HashMap<u64, V>) -> (r: Vec<(u64, V)>)
    ensures
        r@.len() == m@.dom().len(),
        forall|i: int|
            0 <= i < r@.len() ==> m@.contains_key((#[trigger] r@[i]).0) && m@[r@[i].0] == r@[i].1,
        forall|k: u64| #[trigger]
            m@.contains_key(k) ==> exists|i: int| 0 <= i < r@.len() && (#[trigger] r@[i]).0 == k,
{
    let mut out: Vec<(u64, V)> = Vec::new();
    let it = m.iter();
    let ghost all = it.remaining();
    proof {
        let walked = vstd::std_specs::hash::spec_hash_map_iter(m).remaining();
        assert forall|i: int| 0 <= i < all.len() implies m@.contains_key(*(#[trigger] all[i]).0)
            && m@[*all[i].0] == *all[i].1 by {
            assert(walked[i] == all[i]);
            assert(m@.contains_key(*walked[i].0));
        }
    }
    for kv in rest: it
        invariant
            rest.seq() == all,
            out@.len() == rest.index(),
            forall|j: int|
                0 <= j < rest.index() ==> out@[j] == (*(#[trigger] all[j]).0, *all[j].1),
    {
        out.push((*kv.0, *kv.1));
    }
    proof {
        assert forall|i: int| 0 <= i < out@.len() implies m@.contains_key((#[trigger] out@[i]).0)
            && m@[out@[i].0] == out@[i].1 by {
            assert(out@[i] == (*all[i].0, *all[i].1));
        }
        assert forall|k: u64| #[trigger] m@.contains_key(k) implies exists|i: int|
            0 <= i < out@.len() && (#[trigger] out@[i]).0 == k by {
            assert(all.contains((&k, &m@[k])));
            let i = all.index_of((&k, &m@[k]));
            assert(out@[i].0 == k);
        }
    }
    out
}

} // verus!
