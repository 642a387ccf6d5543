//! A hash table over any key that has an exact equality and an integer code.
//!
//! Entries sit densely in one `Vec`, so they can be walked by position; an index from a key's code
//! to the positions holding that code makes a lookup constant-time in the number of entries.

use std::collections::HashMap;
use vstd::prelude::*;

verus! {

/// A value that can key a [`Table`].
///
/// `id` is the mathematical identity: two keys are the same key exactly when their ids are equal.
/// `code` spreads ids over `u64`; equal ids have equal codes, distinct ids may share one.
pub trait Key: Sized {
    type Id;

    spec fn id(&self) -> Self::Id;

    spec fn code_of(id: Self::Id) -> u64;

    fn same(&self, other: &Self) -> (r: bool)
        ensures
            r == (self.id() == other.id()),
    ;

    fn code(&self) -> (r: u64)
        ensures
            r == Self::code_of(self.id()),
    ;

    fn dup(&self) -> (r: Self)
        ensures
            r.id() == self.id(),
    ;
}

/// Multiplier of [`mix`].
pub const MIX_PRIME: u64 = 0x0000_0100_0000_01b3;

/// Start value of [`mix`].
pub const MIX_SEED: u64 = 0xcbf2_9ce4_8422_2325;

/// One mixing step: fold `word` into `state`.
pub open spec fn mix_spec(state: u64, word: u64) -> u64 {
    (state ^ word).wrapping_mul(MIX_PRIME)
}

/// One mixing step: fold `word` into `state`.
pub fn mix(state: u64, word: u64) -> (r: u64)
    ensures
        r == mix_spec(state, word),
{
    let x: u64 = state ^ word;
    x.wrapping_mul(MIX_PRIME)
}

/// A sequence of bytes folded into one code.
pub open spec fn bytes_code(bytes: Seq<u8>) -> u64
    decreases bytes.len(),
{
    if bytes.len() == 0 {
        MIX_SEED
    } else {
        mix_spec(bytes_code(bytes.drop_last()), bytes.last() as u64)
    }
}

/// The code of a text: that of its UTF-8 bytes.
pub open spec fn text_code(text: Seq<char>) -> u64 {
    bytes_code(vstd::utf8::encode_utf8(text))
}

/// The code of a text.
pub fn str_code(text: &str) -> (r: u64)
    ensures
        r == text_code(text@),
{
    let bytes = text.as_bytes();
    let mut h: u64 = MIX_SEED;
    let mut i: usize = 0;
    while i < bytes.len()
        invariant
            i <= bytes.len(),
            h == bytes_code(bytes@.take(i as int)),
        decreases bytes.len() - i,
    {
        h = mix(h, bytes[i] as u64);
        assert(bytes@.take(i as int + 1).drop_last() =~= bytes@.take(i as int));
        i += 1;
    }
    assert(bytes@.take(i as int) =~= bytes@);
    h
}

impl Key for u8 {
    type Id = u8;

    open spec fn id(&self) -> u8 {
        *self
    }

    open spec fn code_of(id: u8) -> u64 {
        id as u64
    }

    fn same(&self, other: &Self) -> (r: bool) {
        *self == *other
    }

    fn code(&self) -> (r: u64) {
        *self as u64
    }

    fn dup(&self) -> (r: Self) {
        *self
    }
}

impl Key for u32 {
    type Id = u32;

    open spec fn id(&self) -> u32 {
        *self
    }

    open spec fn code_of(id: u32) -> u64 {
        id as u64
    }

    fn same(&self, other: &Self) -> (r: bool) {
        *self == *other
    }

    fn code(&self) -> (r: u64) {
        *self as u64
    }

    fn dup(&self) -> (r: Self) {
        *self
    }
}

impl Key for u64 {
    type Id = u64;

    open spec fn id(&self) -> u64 {
        *self
    }

    open spec fn code_of(id: u64) -> u64 {
        id
    }

    fn same(&self, other: &Self) -> (r: bool) {
        *self == *other
    }

    fn code(&self) -> (r: u64) {
        *self
    }

    fn dup(&self) -> (r: Self) {
        *self
    }
}

impl<'a> Key for &'a str {
    type Id = Seq<char>;

    open spec fn id(&self) -> Seq<char> {
        self@
    }

    open spec fn code_of(id: Seq<char>) -> u64 {
        text_code(id)
    }

    fn same(&self, other: &Self) -> (r: bool) {
        same_text(self, other)
    }

    fn code(&self) -> (r: u64) {
        str_code(self)
    }

    fn dup(&self) -> (r: Self) {
        *self
    }
}

/// Whether two texts are the same.
pub fn same_text(a: &str, b: &str) -> (r: bool)
    ensures
        r == (a@ == b@),
{
    let x = a.as_bytes();
    let y = b.as_bytes();
    if x.len() != y.len() {
        return false;
    }
    let mut i: usize = 0;
    while i < x.len()
        invariant
            x@.len() == y@.len(),
            x@ == vstd::utf8::encode_utf8(a@),
            y@ == vstd::utf8::encode_utf8(b@),
            i <= x@.len(),
            forall|j: int| 0 <= j < i ==> x@[j] == y@[j],
        decreases x@.len() - i,
    {
        if x[i] != y[i] {
            return false;
        }
        i += 1;
    }
    proof {
        assert(x@ =~= y@);
        vstd::utf8::encode_utf8_decode_utf8(a@);
        vstd::utf8::encode_utf8_decode_utf8(b@);
    }
    true
}

impl Key for String {
    type Id = Seq<char>;

    open spec fn id(&self) -> Seq<char> {
        self@
    }

    open spec fn code_of(id: Seq<char>) -> u64 {
        text_code(id)
    }

    fn same(&self, other: &Self) -> (r: bool) {
        *self == *other
    }

    fn code(&self) -> (r: u64) {
        str_code(self.as_str())
    }

    fn dup(&self) -> (r: Self) {
        self.clone()
    }
}

/// A map from keys to values.
#[derive(Debug, Clone)]
pub struct Table<K: Key, V> {
    entries: Vec<(K, V)>,
    index: HashMap<u64, Vec<usize>>,
}

/// The position of the entry keyed `id` in `items`.
pub open spec fn position_of<K: Key, V>(items: Seq<(K, V)>, id: K::Id) -> int {
    choose|i: int| 0 <= i < items.len() && #[trigger] items[i].0.id() == id
}

/// Some entry of `items` is keyed `id`.
pub open spec fn has_id<K: Key, V>(items: Seq<(K, V)>, id: K::Id) -> bool {
    exists|i: int| 0 <= i < items.len() && #[trigger] items[i].0.id() == id
}

/// No two entries of `items` share a key.
pub open spec fn distinct_ids<K: Key, V>(items: Seq<(K, V)>) -> bool {
    forall|i: int, j: int|
        0 <= i < items.len() && 0 <= j < items.len() && #[trigger] items[i].0.id()
            == #[trigger] items[j].0.id() ==> i == j
}

/// The map that a list of entries stands for.
pub open spec fn map_of<K: Key, V>(items: Seq<(K, V)>) -> Map<K::Id, V> {
    Map::new(|id: K::Id| has_id(items, id), |id: K::Id| items[position_of(items, id)].1)
}

/// The index lists position `i` under code `h`.
spec fn lists(index: Map<u64, Vec<usize>>, h: u64, i: usize) -> bool {
    index.contains_key(h) && index[h]@.contains(i)
}

/// No code lists a position twice.
spec fn no_repeats(index: Map<u64, Vec<usize>>) -> bool {
    forall|h: u64| #[trigger] index.contains_key(h) ==> index[h]@.no_duplicates()
}

/// List position `i` under code `h`.
fn link(index: &mut HashMap<u64, Vec<usize>>, h: u64, i: usize)
    requires
        no_repeats(old(index)@),
        !lists(old(index)@, h, i),
    ensures
        no_repeats(final(index)@),
        forall|g: u64, j: usize| #[trigger]
            lists(final(index)@, g, j) == (lists(old(index)@, g, j) || (g == h && j == i)),
{
    let mut bucket: Vec<usize> = match index.remove(&h) {
        Some(b) => b,
        None => Vec::new(),
    };
    let ghost was = bucket@;
    bucket.push(i);
    index.insert(h, bucket);
    proof {
        assert(bucket@ == was.push(i));
        assert forall|g: u64, j: usize| #[trigger] lists(index@, g, j) == (lists(old(index)@, g, j) || (
        g == h && j == i)) by {
            if g == h {
                if was.contains(j) {
                    let p = choose|p: int| 0 <= p < was.len() && was[p] == j;
                    assert(bucket@[p] == j);
                }
                assert(bucket@[was.len() as int] == i);
            }
        }
    }
}

/// Take position `i` off the list under code `h`.
fn unlink(index: &mut HashMap<u64, Vec<usize>>, h: u64, i: usize)
    requires
        no_repeats(old(index)@),
        lists(old(index)@, h, i),
    ensures
        no_repeats(final(index)@),
        forall|g: u64, j: usize| #[trigger]
            lists(final(index)@, g, j) == (lists(old(index)@, g, j) && !(g == h && j == i)),
{
    match index.remove(&h) {
        None => {},
        Some(mut bucket) => {
            let ghost was = bucket@;
            let mut p: usize = 0;
            while p < bucket.len() && bucket[p] != i
                invariant
                    p <= bucket.len(),
                    bucket@ == was,
                    forall|q: int| 0 <= q < p ==> bucket@[q] != i,
                decreases bucket.len() - p,
            {
                p += 1;
            }
            assert(p < bucket.len());
            bucket.swap_remove(p);
            let ghost now = bucket@;
            proof {
                assert(now.no_duplicates());
                assert forall|j: usize| now.contains(j) == (was.contains(j) && j != i) by {
                    if was.contains(j) && j != i {
                        let q = choose|q: int| 0 <= q < was.len() && was[q] == j;
                        if q == was.len() - 1 {
                            assert(now[p as int] == j);
                        } else {
                            assert(now[q] == j);
                        }
                    }
                    if now.contains(j) {
                        let q = choose|q: int| 0 <= q < now.len() && now[q] == j;
                        if q == p {
                            assert(was[was.len() - 1] == j);
                        } else {
                            assert(was[q] == j);
                        }
                    }
                }
            }
            if bucket.len() > 0 {
                index.insert(h, bucket);
            } else {
                assert forall|j: usize| !now.contains(j) by {}
            }
            proof {
                assert forall|g: u64, j: usize| #[trigger]
                    lists(index@, g, j) == (lists(old(index)@, g, j) && !(g == h && j == i)) by {
                    if g == h {
                        assert(now.contains(j) == (was.contains(j) && j != i));
                    }
                }
            }
        },
    }
}

impl<K: Key, V> View for Table<K, V> {
    type V = Map<K::Id, V>;

    open spec fn view(&self) -> Map<K::Id, V> {
        map_of(self.items())
    }
}

proof fn lemma_map_at<K: Key, V>(items: Seq<(K, V)>, i: int)
    requires
        distinct_ids(items),
        0 <= i < items.len(),
    ensures
        map_of(items).contains_key(items[i].0.id()),
        map_of(items)[items[i].0.id()] == items[i].1,
{
}

impl<K: Key, V> Table<K, V> {
    /// The map holds as many keys as there are entries.
    pub proof fn lemma_len(&self)
        requires
            self.wf(),
        ensures
            self@.dom().finite(),
            self@.dom().len() == self.items().len(),
    {
        let ids = Seq::new(self.items().len(), |i: int| self.items()[i].0.id());
        assert(ids.no_duplicates()) by {
            assert forall|i: int, j: int| 0 <= i < ids.len() && 0 <= j < ids.len() && i != j implies ids[i]
                != ids[j] by {
                assert(self.entries@[i].0.id() == ids[i]);
                assert(self.entries@[j].0.id() == ids[j]);
            }
        }
        ids.unique_seq_to_set();
        assert(self@.dom() =~= ids.to_set()) by {
            assert forall|x: K::Id| self@.dom().contains(x) == ids.to_set().contains(x) by {
                if has_id(self.items(), x) {
                    let i = position_of(self.items(), x);
                    assert(ids[i] == x);
                }
                if ids.contains(x) {
                    let i = ids.index_of(x);
                    assert(self.items()[i].0.id() == x);
                }
            }
        }
        vstd::seq_lib::seq_to_set_is_finite(ids);
    }

    /// Each stored entry is what the map says.
    pub proof fn lemma_item(&self, i: int)
        requires
            self.wf(),
            0 <= i < self.items().len(),
        ensures
            self@.contains_key(self.items()[i].0.id()),
            self@[self.items()[i].0.id()] == self.items()[i].1,
    {
        lemma_map_at(self.entries@, i);
    }

    /// Each key of the map is stored at some position.
    pub proof fn lemma_stored(&self, id: K::Id) -> (i: int)
        requires
            self.wf(),
            self@.contains_key(id),
        ensures
            0 <= i < self.items().len(),
            self.items()[i].0.id() == id,
            self.items()[i].1 == self@[id],
    {
        let i = position_of(self.items(), id);
        lemma_map_at(self.entries@, i);
        i
    }

    /// No two positions hold the same key.
    pub proof fn lemma_distinct(&self, i: int, j: int)
        requires
            self.wf(),
            0 <= i < self.items().len(),
            0 <= j < self.items().len(),
            self.items()[i].0.id() == self.items()[j].0.id(),
        ensures
            i == j,
    {
    }

    /// The entries, in the order in which they are stored.
    pub closed spec fn items(&self) -> Seq<(K, V)> {
        self.entries@
    }

    /// The index lists exactly the position of every entry under its key's code, and no key occurs
    /// twice.
    pub closed spec fn wf(&self) -> bool {
        &&& distinct_ids(self.entries@)
        &&& no_repeats(self.index@)
        &&& forall|h: u64, i: usize| #[trigger]
            lists(self.index@, h, i) <==> (i < self.entries@.len() && K::code_of(
                self.entries@[i as int].0.id(),
            ) == h)
    }

    pub fn new() -> (r: Self)
        ensures
            r.wf(),
            r.items() == Seq::<(K, V)>::empty(),
            r@ == Map::<K::Id, V>::empty(),
    {
        let r = Table { entries: Vec::new(), index: HashMap::new() };
        assert(r@ =~= Map::<K::Id, V>::empty());
        r
    }

    pub fn len(&self) -> (r: usize)
        requires
            self.wf(),
        ensures
            r == self.items().len(),
    {
        self.entries.len()
    }

    /// The position of the entry keyed `k`.
    pub fn find(&self, k: &K) -> (r: Option<usize>)
        requires
            self.wf(),
        ensures
            match r {
                Some(i) => {
                    &&& i < self.items().len()
                    &&& self.items()[i as int].0.id() == k.id()
                    &&& self@.contains_key(k.id())
                    &&& self@[k.id()] == self.items()[i as int].1
                },
                None => !self@.contains_key(k.id()),
            },
    {
        let n: usize = self.entries.len();
        let h: u64 = k.code();
        match self.index.get(&h) {
            None => {
                proof {
                    if has_id(self.entries@, k.id()) {
                        let i = position_of(self.entries@, k.id());
                        assert(lists(self.index@, h, i as usize));
                    }
                }
                None
            },
            Some(bucket) => {
                let mut p: usize = 0;
                while p < bucket.len()
                    invariant
                        self.wf(),
                        n == self.entries@.len(),
                        h == K::code_of(k.id()),
                        self.index@.contains_key(h),
                        bucket == self.index@[h],
                        p <= bucket.len(),
                        forall|q: int|
                            0 <= q < p ==> self.entries@[#[trigger] bucket@[q] as int].0.id()
                                != k.id(),
                    decreases bucket.len() - p,
                {
                    let i: usize = bucket[p];
                    assert(lists(self.index@, h, i));
                    if self.entries[i].0.same(k) {
                        proof {
                            lemma_map_at(self.entries@, i as int);
                        }
                        return Some(i);
                    }
                    p += 1;
                }
                proof {
                    if has_id(self.entries@, k.id()) {
                        let i = position_of(self.entries@, k.id());
                        assert(self.entries@[i].0.id() == k.id());
                        assert(lists(self.index@, h, i as usize));
                        let q = choose|q: int| 0 <= q < bucket@.len() && bucket@[q] == i;
                        assert(bucket@[q] == i);
                    }
                }
                None
            },
        }
    }

    pub fn contains_key(&self, k: &K) -> (r: bool)
        requires
            self.wf(),
        ensures
            r == self@.contains_key(k.id()),
    {
        self.find(k).is_some()
    }

    pub fn get(&self, k: &K) -> (r: Option<&V>)
        requires
            self.wf(),
        ensures
            match r {
                Some(v) => self@.contains_key(k.id()) && *v == self@[k.id()],
                None => !self@.contains_key(k.id()),
            },
    {
        match self.find(k) {
            Some(i) => Some(&self.entries[i].1),
            None => None,
        }
    }

    /// The key stored at position `i`.
    pub fn key_at(&self, i: usize) -> (r: &K)
        requires
            self.wf(),
            i < self.items().len(),
        ensures
            *r == self.items()[i as int].0,
    {
        &self.entries[i].0
    }

    /// The value stored at position `i`.
    pub fn value_at(&self, i: usize) -> (r: &V)
        requires
            self.wf(),
            i < self.items().len(),
        ensures
            *r == self.items()[i as int].1,
            self@.contains_key(self.items()[i as int].0.id()),
            *r == self@[self.items()[i as int].0.id()],
    {
        proof {
            lemma_map_at(self.entries@, i as int);
        }
        &self.entries[i].1
    }

    /// A mutable borrow of the value stored at position `i`.
    pub fn value_at_mut(&mut self, i: usize) -> (r: &mut V)
        requires
            old(self).wf(),
            i < old(self).items().len(),
        ensures
            *r == old(self).items()[i as int].1,
            final(self).wf(),
            final(self).items() == old(self).items().update(
                i as int,
                (old(self).items()[i as int].0, *final(r)),
            ),
            final(self)@ == old(self)@.insert(old(self).items()[i as int].0.id(), *final(r)),
    {
        let ghost before = *self;
        proof {
            assert forall|t: Self|
                t.index == before.index && t.entries@.len() == before.entries@.len() && (forall|j: int|
                    0 <= j < before.entries@.len() ==> #[trigger] before.entries@[j].0
                        == t.entries@[j].0) implies #[trigger] t.wf() by {
                lemma_same_ids(before, t);
            }
        }
        let r = &mut self.entries[i].1;
        proof {
            lemma_update(before.entries@, i as int, *final(r));
        }
        r
    }

    /// Map `k` to `v`, in place of what it was mapped to.
    pub fn insert(&mut self, k: K, v: V)
        requires
            old(self).wf(),
        ensures
            final(self).wf(),
            final(self)@ == old(self)@.insert(k.id(), v),
            final(self).items().len() == old(self).items().len() + (if old(self)@.contains_key(
                k.id(),
            ) {
                0int
            } else {
                1
            }),
            old(self)@.contains_key(k.id()) ==> exists|i: int|
                0 <= i < old(self).items().len() && #[trigger] old(self).items()[i].0.id() == k.id()
                    && final(self).items() == old(self).items().update(
                    i,
                    (old(self).items()[i].0, v),
                ),
            !old(self)@.contains_key(k.id()) ==> final(self).items() == old(self).items().push((k, v)),
    {
        match self.find(&k) {
            Some(i) => {
                let slot = self.value_at_mut(i);
                *slot = v;
            },
            None => {
                self.append(k, v);
            },
        }
    }

    /// Store a key that is not in the table yet.
    fn append(&mut self, k: K, v: V)
        requires
            old(self).wf(),
            !old(self)@.contains_key(k.id()),
        ensures
            final(self).wf(),
            final(self)@ == old(self)@.insert(k.id(), v),
            final(self).items() == old(self).items().push((k, v)),
    {
        let ghost before = *self;
        let h: u64 = k.code();
        let at: usize = self.entries.len();
        link(&mut self.index, h, at);
        self.entries.push((k, v));
        proof {
            lemma_push(before.entries@, k, v);
            assert forall|g: u64, i: usize| #[trigger]
                lists(self.index@, g, i) <==> (i < self.entries@.len() && K::code_of(
                    self.entries@[i as int].0.id(),
                ) == g) by {
                assert(lists(before.index@, g, i) <==> (i < before.entries@.len() && K::code_of(
                    before.entries@[i as int].0.id(),
                ) == g));
            }
        }
    }

    /// Take `k` out of the table.
    pub fn remove(&mut self, k: &K) -> (r: Option<V>)
        requires
            old(self).wf(),
        ensures
            final(self).wf(),
            final(self)@ == old(self)@.remove(k.id()),
            match r {
                Some(v) => old(self)@.contains_key(k.id()) && v == old(self)@[k.id()],
                None => !old(self)@.contains_key(k.id()) && final(self).items() == old(self).items(),
            },
            final(self).items().len() == old(self).items().len() - (if old(self)@.contains_key(
                k.id(),
            ) {
                1int
            } else {
                0
            }),
    {
        match self.find(k) {
            None => {
                assert(self@ =~= old(self)@.remove(k.id()));
                None
            },
            Some(i) => Some(self.remove_at(i)),
        }
    }

    /// Take the entry at position `i` out; the last entry takes its place.
    pub fn remove_at(&mut self, i: usize) -> (r: V)
        requires
            old(self).wf(),
            i < old(self).items().len(),
        ensures
            final(self).wf(),
            final(self)@ == old(self)@.remove(old(self).items()[i as int].0.id()),
            r == old(self).items()[i as int].1,
            final(self).items() == old(self).items().update(
                i as int,
                old(self).items().last(),
            ).drop_last(),
    {
        let ghost before = *self;
        let last: usize = self.entries.len() - 1;
        let h: u64 = self.entries[i].0.code();
        assert(lists(self.index@, h, i));
        unlink(&mut self.index, h, i);
        if i != last {
            let g: u64 = self.entries[last].0.code();
            assert(lists(before.index@, g, last));
            assert(lists(self.index@, g, last));
            unlink(&mut self.index, g, last);
            assert(!lists(self.index@, g, i)) by {
                assert(lists(before.index@, g, i) ==> g == h);
            }
            link(&mut self.index, g, i);
        }
        let ghost mid = self.index@;
        let (_k, v) = self.entries.swap_remove(i);
        proof {
            lemma_swap_remove(before.entries@, i as int);
            assert forall|g: u64, j: usize| #[trigger]
                lists(self.index@, g, j) <==> (j < self.entries@.len() && K::code_of(
                    self.entries@[j as int].0.id(),
                ) == g) by {
                assert(lists(before.index@, g, j) <==> (j < before.entries@.len() && K::code_of(
                    before.entries@[j as int].0.id(),
                ) == g));
            }
        }
        v
    }

    /// Take out every key that `pred` picks, returning how many that were.
    pub fn remove_where(&mut self, pred: impl Fn(&K) -> bool) -> (r: usize)
        requires
            old(self).wf(),
            forall|k: K| call_requires(pred, (&k,)),
        ensures
            final(self).wf(),
            final(self)@.submap_of(old(self)@),
            forall|i: K::Id| #[trigger]
                old(self)@.contains_key(i) ==> answers(pred, i, !final(self)@.contains_key(i)),
            r == old(self).items().len() - final(self).items().len(),
    {
        let before: usize = self.entries.len();
        let ghost start = self@;
        let mut i: usize = self.entries.len();
        while i > 0
            invariant
                i <= self.items().len(),
                self.wf(),
                start == old(self)@,
                self@.submap_of(start),
                self.items().len() <= before,
                forall|k: K| call_requires(pred, (&k,)),
                forall|x: K::Id|
                    start.contains_key(x) && !#[trigger] self@.contains_key(x) ==> answers(
                        pred,
                        x,
                        true,
                    ),
                forall|j: int|
                    i <= j < self.items().len() ==> answers(
                        pred,
                        (#[trigger] self.items()[j]).0.id(),
                        false,
                    ),
            decreases i,
        {
            i -= 1;
            let ghost items = self.items();
            let ghost now = self@;
            let ghost k = items[i as int].0;
            proof {
                self.lemma_item(i as int);
            }
            if pred(self.key_at(i)) {
                assert(call_ensures(pred, (&k,), true));
                let _dropped = self.remove_at(i);
                proof {
                    assert forall|x: K::Id|
                        start.contains_key(x) && !#[trigger] self@.contains_key(x) implies answers(
                        pred,
                        x,
                        true,
                    ) by {
                        if now.contains_key(x) {
                            assert(x == k.id());
                        }
                    }
                    assert forall|j: int| i <= j < self.items().len() implies answers(
                        pred,
                        (#[trigger] self.items()[j]).0.id(),
                        false,
                    ) by {
                        if j == i {
                            assert(self.items()[j] == items[items.len() - 1]);
                        } else {
                            assert(self.items()[j] == items[j]);
                        }
                    }
                }
            } else {
                assert(call_ensures(pred, (&k,), false));
            }
        }
        proof {
            assert forall|x: K::Id| #[trigger] start.contains_key(x) implies answers(
                pred,
                x,
                !self@.contains_key(x),
            ) by {
                if self@.contains_key(x) {
                    let j = self.lemma_stored(x);
                    assert(self.items()[j].0.id() == x);
                }
            }
        }
        before - self.entries.len()
    }

    /// A mutable borrow of the value of `k`.
    pub fn get_mut(&mut self, k: &K) -> (r: Option<&mut V>)
        requires
            old(self).wf(),
        ensures
            final(self).wf(),
            match r {
                Some(v) => {
                    &&& old(self)@.contains_key(k.id())
                    &&& *v == old(self)@[k.id()]
                    &&& final(self)@ == old(self)@.insert(k.id(), *final(v))
                },
                None => !old(self)@.contains_key(k.id()) && *final(self) == *old(self),
            },
    {
        match self.find(k) {
            Some(i) => Some(self.value_at_mut(i)),
            None => None,
        }
    }
}

/// `pred` may answer `yes` for the key identified by `id`.
pub open spec fn answers<K: Key, F: Fn(&K) -> bool>(pred: F, id: K::Id, yes: bool) -> bool {
    exists|k: K| k.id() == id && #[trigger] call_ensures(pred, (&k,), yes)
}

proof fn lemma_swap_remove<K: Key, V>(items: Seq<(K, V)>, i: int)
    requires
        distinct_ids(items),
        0 <= i < items.len(),
    ensures
        distinct_ids(items.update(i, items.last()).drop_last()),
        map_of(items.update(i, items.last()).drop_last()) == map_of(items).remove(items[i].0.id()),
{
    let after = items.update(i, items.last()).drop_last();
    let last = items.len() - 1;
    assert forall|a: int, b: int|
        0 <= a < after.len() && 0 <= b < after.len() && #[trigger] after[a].0.id()
            == #[trigger] after[b].0.id() implies a == b by {
        let x = if a == i {
            last
        } else {
            a
        };
        let y = if b == i {
            last
        } else {
            b
        };
        assert(items[x].0.id() == items[y].0.id());
    }
    let m = map_of(items);
    let n = map_of(after);
    let id = items[i].0.id();
    assert forall|x: K::Id| n.contains_key(x) == m.remove(id).contains_key(x) by {
        if has_id(after, x) {
            let j = position_of(after, x);
            let y = if j == i {
                last
            } else {
                j
            };
            assert(items[y].0.id() == x);
            assert(x != id) by {
                if items[y].0.id() == items[i].0.id() {
                    assert(y == i);
                }
            }
        }
        if has_id(items, x) && x != id {
            let j = position_of(items, x);
            if j == last {
                assert(after[i].0.id() == x);
            } else {
                assert(after[j].0.id() == x);
            }
        }
    }
    assert forall|x: K::Id| n.contains_key(x) implies n[x] == m.remove(id)[x] by {
        let j = position_of(after, x);
        assert(after[j].0.id() == x);
        lemma_map_at(after, j);
        let y = if j == i {
            last
        } else {
            j
        };
        assert(items[y].0.id() == x);
        lemma_map_at(items, y);
    }
    assert(n =~= m.remove(id));
}

/// Well-formedness depends on the keys and the index alone.
proof fn lemma_same_ids<K: Key, V>(a: Table<K, V>, b: Table<K, V>)
    requires
        a.wf(),
        a.index == b.index,
        a.entries@.len() == b.entries@.len(),
        forall|i: int| 0 <= i < a.entries@.len() ==> #[trigger] a.entries@[i].0 == b.entries@[i].0,
    ensures
        b.wf(),
{
    assert forall|i: int, j: int|
        0 <= i < b.entries@.len() && 0 <= j < b.entries@.len() && #[trigger] b.entries@[i].0.id()
            == #[trigger] b.entries@[j].0.id() implies i == j by {
        assert(a.entries@[i].0.id() == a.entries@[j].0.id());
    }
    assert forall|h: u64, i: usize| #[trigger]
        lists(b.index@, h, i) <==> (i < b.entries@.len() && K::code_of(b.entries@[i as int].0.id())
            == h) by {
        assert(lists(a.index@, h, i) <==> (i < a.entries@.len() && K::code_of(
            a.entries@[i as int].0.id(),
        ) == h));
        if i < a.entries@.len() {
            assert(a.entries@[i as int].0 == b.entries@[i as int].0);
        }
    }
}

proof fn lemma_update<K: Key, V>(items: Seq<(K, V)>, i: int, v: V)
    requires
        distinct_ids(items),
        0 <= i < items.len(),
    ensures
        distinct_ids(items.update(i, (items[i].0, v))),
        map_of(items.update(i, (items[i].0, v))) == map_of(items).insert(items[i].0.id(), v),
{
    let after = items.update(i, (items[i].0, v));
    assert forall|a: int, b: int|
        0 <= a < after.len() && 0 <= b < after.len() && #[trigger] after[a].0.id()
            == #[trigger] after[b].0.id() implies a == b by {
        assert(items[a].0.id() == items[b].0.id());
    }
    let m = map_of(items);
    let n = map_of(after);
    let id = items[i].0.id();
    assert forall|x: K::Id| n.contains_key(x) == m.insert(id, v).contains_key(x) by {
        if has_id(after, x) {
            let j = position_of(after, x);
            assert(items[j].0.id() == x);
        }
        if has_id(items, x) {
            let j = position_of(items, x);
            assert(after[j].0.id() == x);
        }
        assert(after[i].0.id() == id);
    }
    assert forall|x: K::Id| n.contains_key(x) implies n[x] == m.insert(id, v)[x] by {
        let j = position_of(after, x);
        assert(after[j].0.id() == x);
        assert(items[j].0.id() == x);
        lemma_map_at(items, j);
        lemma_map_at(after, j);
    }
    assert(n =~= m.insert(id, v));
}

proof fn lemma_push<K: Key, V>(items: Seq<(K, V)>, k: K, v: V)
    requires
        distinct_ids(items),
        !has_id(items, k.id()),
    ensures
        distinct_ids(items.push((k, v))),
        map_of(items.push((k, v))) == map_of(items).insert(k.id(), v),
{
    let after = items.push((k, v));
    assert forall|a: int, b: int|
        0 <= a < after.len() && 0 <= b < after.len() && #[trigger] after[a].0.id()
            == #[trigger] after[b].0.id() implies a == b by {
        if a < items.len() && b < items.len() {
            assert(items[a].0.id() == items[b].0.id());
        } else if a < items.len() {
            assert(items[a].0.id() == k.id());
        } else if b < items.len() {
            assert(items[b].0.id() == k.id());
        }
    }
    let m = map_of(items);
    let n = map_of(after);
    assert forall|x: K::Id| n.contains_key(x) == m.insert(k.id(), v).contains_key(x) by {
        if has_id(after, x) {
            let j = position_of(after, x);
            if j < items.len() {
                assert(items[j].0.id() == x);
            }
        }
        if has_id(items, x) {
            let j = position_of(items, x);
            assert(after[j].0.id() == x);
        }
        assert(after[items.len() as int].0.id() == k.id());
    }
    assert forall|x: K::Id| n.contains_key(x) implies n[x] == m.insert(k.id(), v)[x] by {
        let j = position_of(after, x);
        assert(after[j].0.id() == x);
        lemma_map_at(after, j);
        if j < items.len() {
            assert(items[j].0.id() == x);
            lemma_map_at(items, j);
        }
    }
    assert(n =~= m.insert(k.id(), v));
}

/// A map with every value replaced by its view.
pub open spec fn views<I, V: View>(m: Map<I, V>) -> Map<I, V::V> {
    Map::new(|k: I| m.contains_key(k), |k: I| m[k]@)
}

pub broadcast proof fn lemma_views_empty<I, V: View>()
    ensures
        #[trigger] views(Map::<I, V>::empty()) == Map::<I, V::V>::empty(),
{
    assert(views(Map::<I, V>::empty()) =~= Map::<I, V::V>::empty());
}

pub broadcast proof fn lemma_views_insert<I, V: View>(m: Map<I, V>, k: I, v: V)
    ensures
        #[trigger] views(m.insert(k, v)) == views(m).insert(k, v@),
{
    assert(views(m.insert(k, v)) =~= views(m).insert(k, v@));
}

pub broadcast proof fn lemma_views_remove<I, V: View>(m: Map<I, V>, k: I)
    ensures
        #[trigger] views(m.remove(k)) == views(m).remove(k),
{
    assert(views(m.remove(k)) =~= views(m).remove(k));
}

pub broadcast proof fn lemma_views_remove_keys<I, V: View>(m: Map<I, V>, gone: Set<I>)
    ensures
        #[trigger] views(m.remove_keys(gone)) == views(m).remove_keys(gone),
{
    assert(views(m.remove_keys(gone)) =~= views(m).remove_keys(gone));
}

pub broadcast group group_views {
    lemma_views_remove_keys,
    lemma_views_empty,
    lemma_views_insert,
    lemma_views_remove,
}

} // verus!
