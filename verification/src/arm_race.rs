//! Cross-arm trade matcher: the sampler behind the authority's speed re-election.
//!
//! Two redundant arms of one venue publish the same trades with no shared wire coordinate, so their
//! copies are paired by content and the measurement is the difference between our own two receive
//! times. Identical trades pair in order of arrival: an arm's first copy with the peer's first.

use crate::floor::{elapsed, elapsed_ns};
use crate::model::{Publisher, ScopeId, ScopeKey};
use crate::table::{mix, mix_spec, Key, Table};
use std::collections::VecDeque;
use vstd::prelude::*;

verus! {

/// How long an unmatched trade waits for its peer copy unless told otherwise.
pub const DEFAULT_WINDOW_NS: u64 = 5_000_000_000;

/// Cap on unmatched arrivals held across all signatures; past it the oldest arrival is dropped.
pub const MAX_PENDING: usize = 65_536;

/// What identifies a [`Signature`].
#[verifier::ext_equal]
pub struct SigId<J> {
    pub scope: ScopeId,
    pub instrument: J,
    pub price_raw: i128,
    pub qty_raw: i128,
    pub aggressor: u8,
}

/// A trade's cross-arm identity, in raw fixed-point integers.
struct Signature<I: Key> {
    scope: ScopeKey,
    instrument: I,
    price_raw: i128,
    qty_raw: i128,
    aggressor: u8,
}

impl<I: Key> Key for Signature<I> {
    type Id = SigId<I::Id>;

    closed spec fn id(&self) -> SigId<I::Id> {
        SigId {
            scope: self.scope.id(),
            instrument: self.instrument.id(),
            price_raw: self.price_raw,
            qty_raw: self.qty_raw,
            aggressor: self.aggressor,
        }
    }

    closed spec fn code_of(id: SigId<I::Id>) -> u64 {
        mix_spec(
            mix_spec(
                mix_spec(ScopeKey::code_of(id.scope), I::code_of(id.instrument)),
                id.price_raw as u64,
            ),
            id.qty_raw as u64,
        )
    }

    fn same(&self, other: &Self) -> (r: bool) {
        self.price_raw == other.price_raw && self.qty_raw == other.qty_raw && self.aggressor
            == other.aggressor && self.instrument.same(&other.instrument) && self.scope.same(
            &other.scope,
        )
    }

    fn code(&self) -> (r: u64) {
        mix(
            mix(mix(self.scope.code(), self.instrument.code()), self.price_raw as u64),
            self.qty_raw as u64,
        )
    }

    fn dup(&self) -> (r: Self) {
        Signature {
            scope: self.scope.dup(),
            instrument: self.instrument.dup(),
            price_raw: self.price_raw,
            qty_raw: self.qty_raw,
            aggressor: self.aggressor,
        }
    }
}

/// One arm of one universe.
#[derive(Debug, Clone, PartialEq, Eq, Hash)]
pub struct ScopedArm {
    pub scope: ScopeKey,
    pub arm: Publisher,
}

impl Key for ScopedArm {
    type Id = (ScopeId, Publisher);

    open spec fn id(&self) -> (ScopeId, Publisher) {
        (self.scope.id(), self.arm)
    }

    open spec fn code_of(id: (ScopeId, Publisher)) -> u64 {
        mix_spec(ScopeKey::code_of(id.0), Publisher::code_of(id.1))
    }

    fn same(&self, other: &Self) -> (r: bool) {
        self.arm == other.arm && self.scope.same(&other.scope)
    }

    fn code(&self) -> (r: u64) {
        mix(self.scope.code(), self.arm.code())
    }

    fn dup(&self) -> (r: Self) {
        ScopedArm { scope: self.scope.dup(), arm: self.arm }
    }
}

/// A matched pair: both arms delivered the same trade.
#[derive(Debug, Clone, PartialEq, Eq)]
pub struct Match {
    pub scope: ScopeKey,
    /// The arm that delivered it first.
    pub first: Publisher,
    /// The arm that delivered the same trade second.
    pub second: Publisher,
    /// How far ahead `first` was, on our receive clock.
    pub delta_ns: u64,
}

/// A lead as a signed number, the largest one where it does not fit.
pub open spec fn signed_lead(delta_ns: u64) -> int {
    if delta_ns <= i64::MAX {
        delta_ns as int
    } else {
        i64::MAX as int
    }
}

/// The challenger of a matched pair and its signed lead over `leader`: negative when the challenger
/// came first. `None` when the leader is neither arm of the pair.
pub open spec fn lead_of(
    first: Publisher,
    second: Publisher,
    delta_ns: u64,
    leader: Publisher,
) -> Option<(Publisher, i64)> {
    if leader == second {
        Some((first, -signed_lead(delta_ns) as i64))
    } else if leader == first {
        Some((second, signed_lead(delta_ns) as i64))
    } else {
        None
    }
}

impl Match {
    /// The challenger and its signed lead, given who currently holds authority: negative when the
    /// challenger beat the leader. `None` when the leader was neither arm of the pair.
    pub fn lead_for(&self, leader: Publisher) -> (r: Option<(Publisher, i64)>)
        ensures
            r == lead_of(self.first, self.second, self.delta_ns, leader),
    {
        let delta: i64 = if self.delta_ns <= i64::MAX as u64 {
            self.delta_ns as i64
        } else {
            i64::MAX
        };
        if leader == self.second {
            Some((self.first, -delta))
        } else if leader == self.first {
            Some((self.second, delta))
        } else {
            None
        }
    }
}

/// One arm's unmatched arrival.
#[verifier::ext_equal]
pub struct Waiting<J> {
    pub sig: SigId<J>,
    pub arm: Publisher,
    pub recv_ns: u64,
}

/// What an [`ArmRace`] holds: the unmatched arrivals, oldest first, and per arm how many arrivals were
/// dropped unmatched since they were last drained.
#[verifier::ext_equal]
pub struct RaceView<J> {
    pub waiting: Seq<Waiting<J>>,
    pub unmatched: Map<(ScopeId, Publisher), u64>,
}

/// How many of the oldest arrivals have outwaited the window.
pub open spec fn stale_len<J>(waiting: Seq<Waiting<J>>, now_ns: u64, window_ns: u64) -> nat
    decreases waiting.len(),
{
    if waiting.len() > 0 && elapsed(waiting[0].recv_ns, now_ns) > window_ns {
        1 + stale_len(waiting.drop_first(), now_ns, window_ns)
    } else {
        0
    }
}

/// The count of an arm, zero if it has none.
pub open spec fn count_at(unmatched: Map<(ScopeId, Publisher), u64>, at: (ScopeId, Publisher)) -> u64 {
    if unmatched.contains_key(at) {
        unmatched[at]
    } else {
        0
    }
}

/// One more, up to the largest number there is.
pub open spec fn one_more(n: u64) -> u64 {
    if n < u64::MAX {
        (n + 1) as u64
    } else {
        n
    }
}

/// The counts after `dropped` are added to them.
pub open spec fn tallied<J>(
    unmatched: Map<(ScopeId, Publisher), u64>,
    dropped: Seq<Waiting<J>>,
) -> Map<(ScopeId, Publisher), u64>
    decreases dropped.len(),
{
    if dropped.len() == 0 {
        unmatched
    } else {
        let before = tallied(unmatched, dropped.drop_last());
        let at = (dropped.last().sig.scope, dropped.last().arm);
        before.insert(at, one_more(count_at(before, at)))
    }
}

/// How many of `dropped` came from `arm`.
pub open spec fn arm_count<J>(dropped: Seq<Waiting<J>>, arm: Publisher) -> nat
    decreases dropped.len(),
{
    if dropped.len() == 0 {
        0
    } else {
        arm_count(dropped.drop_last(), arm) + if dropped.last().arm == arm {
            1nat
        } else {
            0
        }
    }
}

/// The position of the oldest arrival, from `from` on, of the same trade by another arm; the length
/// if there is none.
pub open spec fn first_peer<J>(
    waiting: Seq<Waiting<J>>,
    sig: SigId<J>,
    arm: Publisher,
    from: int,
) -> int
    decreases waiting.len() - from,
{
    if from >= waiting.len() {
        waiting.len() as int
    } else if waiting[from].sig == sig && waiting[from].arm != arm {
        from
    } else {
        first_peer(waiting, sig, arm, from + 1)
    }
}

impl<J> RaceView<J> {
    /// The arrivals that have outwaited the window dropped, and counted.
    pub open spec fn evicted(self, now_ns: u64, window_ns: u64) -> Self {
        let n = stale_len(self.waiting, now_ns, window_ns) as int;
        RaceView {
            waiting: self.waiting.skip(n),
            unmatched: tallied(self.unmatched, self.waiting.take(n)),
        }
    }

    /// One trade offered: the state afterwards, and the waiting arrival it was paired with.
    pub open spec fn offered(
        self,
        window_ns: u64,
        sig: SigId<J>,
        arm: Publisher,
        recv_ns: u64,
    ) -> (Self, Option<Waiting<J>>) {
        let now = self.evicted(recv_ns, window_ns);
        let i = first_peer(now.waiting, sig, arm, 0);
        if i < now.waiting.len() {
            (RaceView { waiting: now.waiting.remove(i), ..now }, Some(now.waiting[i]))
        } else {
            let room = if now.waiting.len() >= MAX_PENDING {
                now.waiting.drop_first()
            } else {
                now.waiting
            };
            (RaceView { waiting: room.push(Waiting { sig, arm, recv_ns }), ..now }, None)
        }
    }
}

/// `r` lists each arm that has a count, once, with it.
pub open spec fn reports_unmatched(
    unmatched: Map<(ScopeId, Publisher), u64>,
    r: Seq<(ScopedArm, u64)>,
) -> bool {
    &&& forall|i: int|
        0 <= i < r.len() ==> unmatched.contains_key((#[trigger] r[i]).0.id())
            && unmatched[r[i].0.id()] == r[i].1
    &&& forall|i: int, j: int|
        0 <= i < j < r.len() ==> (#[trigger] r[i]).0.id() != (#[trigger] r[j]).0.id()
    &&& forall|k: (ScopeId, Publisher)| #[trigger]
        unmatched.contains_key(k) ==> exists|i: int|
            0 <= i < r.len() && (#[trigger] r[i]).0.id() == k
}

struct Arrival<I: Key> {
    sig: Signature<I>,
    arm: Publisher,
    recv_ns: u64,
}

impl<I: Key> Arrival<I> {
    spec fn waiting(self) -> Waiting<I::Id> {
        Waiting { sig: self.sig.id(), arm: self.arm, recv_ns: self.recv_ns }
    }
}

/// The matcher. `I` identifies an instrument within its universe.
pub struct ArmRace<I: Key> {
    window_ns: u64,
    order: VecDeque<Arrival<I>>,
    /// How many arrivals wait per signature, so a trade nobody waits for needs no scan.
    held: Table<Signature<I>, usize>,
    unmatched: Table<ScopedArm, u64>,
}

spec fn sigs<I: Key>(order: Seq<Arrival<I>>) -> Seq<SigId<I::Id>> {
    order.map_values(|a: Arrival<I>| a.sig.id())
}

spec fn held_agrees<I: Key>(held: Map<SigId<I::Id>, usize>, order: Seq<Arrival<I>>) -> bool {
    forall|s: SigId<I::Id>|
        #![trigger held.contains_key(s)]
        #![trigger sigs(order).to_multiset().count(s)]
        sigs(order).to_multiset().count(s) == if held.contains_key(s) {
            held[s] as nat
        } else {
            0
        } && (held.contains_key(s) ==> held[s] > 0)
}

impl<I: Key> View for ArmRace<I> {
    type V = RaceView<I::Id>;

    closed spec fn view(&self) -> RaceView<I::Id> {
        RaceView {
            waiting: self.order@.map_values(|a: Arrival<I>| a.waiting()),
            unmatched: self.unmatched@,
        }
    }
}

impl<I: Key> Default for ArmRace<I> {
    fn default() -> (r: Self)
        ensures
            r.wf(),
            r.window() == DEFAULT_WINDOW_NS,
            r@.waiting == Seq::<Waiting<I::Id>>::empty(),
            r@.unmatched == Map::<(ScopeId, Publisher), u64>::empty(),
    {
        ArmRace::new(DEFAULT_WINDOW_NS)
    }
}

impl<I: Key> ArmRace<I> {
    pub closed spec fn wf(&self) -> bool {
        &&& self.held.wf()
        &&& self.unmatched.wf()
        &&& held_agrees(self.held@, self.order@)
        &&& self.order@.len() <= MAX_PENDING
    }

    /// How long an arrival waits for its peer copy.
    pub closed spec fn window(&self) -> u64 {
        self.window_ns
    }

    /// No more than [`MAX_PENDING`] arrivals ever wait.
    pub proof fn law_pending_is_bounded(&self)
        requires
            self.wf(),
        ensures
            self@.waiting.len() <= MAX_PENDING,
    {
    }

    pub fn new(window_ns: u64) -> (r: Self)
        ensures
            r.wf(),
            r.window() == window_ns,
            r@.waiting == Seq::<Waiting<I::Id>>::empty(),
            r@.unmatched == Map::<(ScopeId, Publisher), u64>::empty(),
    {
        let r = ArmRace {
            window_ns,
            order: VecDeque::new(),
            held: Table::new(),
            unmatched: Table::new(),
        };
        proof {
            broadcast use vstd::seq_lib::group_to_multiset_ensures;

            assert(sigs(r.order@).len() == 0);
            assert forall|s: SigId<I::Id>| sigs(r.order@).to_multiset().count(s) == 0 by {
                assert(!sigs(r.order@).contains(s));
            }
            assert(r@.waiting =~= Seq::empty());
        }
        r
    }

    /// Offer one arm's trade. Returns a [`Match`] when another arm already delivered the same trade
    /// and it is still inside the window: the oldest such copy, which then waits no longer.
    /// Otherwise the trade waits in turn, in place of the oldest arrival if there is no room.
    pub fn on_trade(
        &mut self,
        scope: &ScopeKey,
        instrument: &I,
        price_raw: i128,
        qty_raw: i128,
        aggressor: u8,
        arm: Publisher,
        recv_ns: u64,
    ) -> (r: Option<Match>)
        requires
            old(self).wf(),
        ensures
            final(self).wf(),
            final(self).window() == old(self).window(),
            ({
                let sig = SigId {
                    scope: scope.id(),
                    instrument: instrument.id(),
                    price_raw,
                    qty_raw,
                    aggressor,
                };
                let (after, peer) = old(self)@.offered(old(self).window(), sig, arm, recv_ns);
                &&& final(self)@ == after
                &&& match (r, peer) {
                    (Some(m), Some(w)) => {
                        &&& m.scope.id() == scope.id()
                        &&& m.first == w.arm
                        &&& m.second == arm
                        &&& m.delta_ns == elapsed(w.recv_ns, recv_ns)
                    },
                    (None, None) => true,
                    _ => false,
                }
            }),
    {
        let _dropped = self.evict_stale(recv_ns);
        let ghost mid = self@;
        let sig = Signature {
            scope: scope.dup(),
            instrument: instrument.dup(),
            price_raw,
            qty_raw,
            aggressor,
        };
        let ghost id = sig.id();
        let n: usize = self.order.len();
        if self.held.contains_key(&sig) {
            let mut i: usize = 0;
            while i < n
                invariant
                    self.wf(),
                    self@ == mid,
                    self.window_ns == old(self).window_ns,
                    mid == old(self)@.evicted(recv_ns, old(self).window()),
                    id == sig.id(),
                    id == (SigId {
                        scope: scope.id(),
                        instrument: instrument.id(),
                        price_raw,
                        qty_raw,
                        aggressor,
                    }),
                    n == self.order@.len(),
                    i <= n,
                    first_peer(mid.waiting, id, arm, 0) == first_peer(mid.waiting, id, arm, i as int),
                decreases n - i,
            {
                let a = &self.order[i];
                assert(mid.waiting[i as int] == a.waiting());
                if a.arm != arm && a.sig.same(&sig) {
                    let first = a.arm;
                    let at: u64 = a.recv_ns;
                    self.take_at(i);
                    return Some(
                        Match {
                            scope: scope.dup(),
                            first,
                            second: arm,
                            delta_ns: elapsed_ns(at, recv_ns),
                        },
                    );
                }
                i += 1;
            }
        } else {
            proof {
                broadcast use vstd::seq_lib::group_to_multiset_ensures;

                assert(sigs(self.order@).to_multiset().count(id) == 0);
                assert forall|j: int| 0 <= j < mid.waiting.len() implies (#[trigger] mid.waiting[j]).sig
                    != id by {
                    assert(sigs(self.order@)[j] == mid.waiting[j].sig);
                    assert(sigs(self.order@).contains(sigs(self.order@)[j]));
                }
                lemma_no_peer(mid.waiting, id, arm, 0);
            }
        }
        self.push(Arrival { sig, arm, recv_ns });
        None
    }

    /// Unmatched arrivals still waiting.
    pub fn pending_len(&self) -> (r: usize)
        requires
            self.wf(),
        ensures
            r == self@.waiting.len(),
    {
        self.order.len()
    }

    /// How many distinct trades are waited for.
    pub fn signatures_len(&self) -> (r: usize)
        requires
            self.wf(),
        ensures
            r == self.signatures().len(),
    {
        proof {
            self.held.lemma_len();
            self.lemma_signatures();
        }
        self.held.len()
    }

    /// The distinct trades that are waited for.
    pub open spec fn signatures(&self) -> Set<SigId<I::Id>> {
        Set::new(
            |s: SigId<I::Id>|
                exists|i: int|
                    0 <= i < self@.waiting.len() && (#[trigger] self@.waiting[i]).sig == s,
        )
    }

    proof fn lemma_signatures(&self)
        requires
            self.wf(),
        ensures
            self.signatures() == self.held@.dom(),
    {
        broadcast use vstd::seq_lib::group_to_multiset_ensures;

        let all = sigs(self.order@);
        assert forall|s: SigId<I::Id>| self.signatures().contains(s) == self.held@.dom().contains(s) by {
            assert(all.to_multiset().count(s) > 0 <==> self.held@.contains_key(s));
            if self.signatures().contains(s) {
                let i = choose|i: int|
                    0 <= i < self@.waiting.len() && (#[trigger] self@.waiting[i]).sig == s;
                assert(all[i] == s);
                assert(all.contains(s));
            }
            if all.contains(s) {
                let i = all.index_of(s);
                assert(self@.waiting[i].sig == s);
            }
        }
        assert(self.signatures() =~= self.held@.dom());
    }

    /// Drop arrivals older than the window, returning how many were dropped per arm: trades seen only
    /// on that arm.
    pub fn evict_stale(&mut self, now_ns: u64) -> (r: Vec<(Publisher, usize)>)
        requires
            old(self).wf(),
        ensures
            final(self).wf(),
            final(self).window() == old(self).window(),
            final(self)@ == old(self)@.evicted(now_ns, old(self).window()),
            ({
                let dropped = old(self)@.waiting.take(
                    stale_len(old(self)@.waiting, now_ns, old(self).window()) as int,
                );
                &&& forall|i: int|
                    0 <= i < r@.len() ==> (#[trigger] r@[i]).1 == arm_count(dropped, r@[i].0) && r@[i].1
                        > 0
                &&& forall|i: int, j: int|
                    0 <= i < j < r@.len() ==> (#[trigger] r@[i]).0 != (#[trigger] r@[j]).0
                &&& forall|p: Publisher| #[trigger]
                    arm_count(dropped, p) > 0 ==> exists|i: int|
                        0 <= i < r@.len() && (#[trigger] r@[i]).0 == p
            }),
    {
        let ghost start = self@;
        let ghost window = self.window_ns;
        let mut out: Vec<(Publisher, usize)> = Vec::new();
        let ghost mut done: Seq<Waiting<I::Id>> = Seq::empty();
        proof {
            assert(start.waiting =~= done + self@.waiting);
        }
        loop
            invariant
                self.wf(),
                self.window_ns == window,
                start.waiting == done + self@.waiting,
                done.len() <= MAX_PENDING,
                self@.unmatched == tallied(start.unmatched, done),
                stale_len(start.waiting, now_ns, window) == done.len() + stale_len(
                    self@.waiting,
                    now_ns,
                    window,
                ),
                start.waiting.len() <= MAX_PENDING,
                forall|i: int|
                    0 <= i < out@.len() ==> (#[trigger] out@[i]).1 == arm_count(done, out@[i].0)
                        && out@[i].1 > 0,
                forall|i: int, j: int|
                    0 <= i < j < out@.len() ==> (#[trigger] out@[i]).0 != (#[trigger] out@[j]).0,
                forall|p: Publisher| #[trigger]
                    arm_count(done, p) > 0 ==> exists|i: int|
                        0 <= i < out@.len() && (#[trigger] out@[i]).0 == p,
            ensures
                self.wf(),
                self.window_ns == window,
                start.waiting == done + self@.waiting,
                done.len() == stale_len(start.waiting, now_ns, window),
                self@.unmatched == tallied(start.unmatched, done),
                forall|i: int|
                    0 <= i < out@.len() ==> (#[trigger] out@[i]).1 == arm_count(done, out@[i].0)
                        && out@[i].1 > 0,
                forall|i: int, j: int|
                    0 <= i < j < out@.len() ==> (#[trigger] out@[i]).0 != (#[trigger] out@[j]).0,
                forall|p: Publisher| #[trigger]
                    arm_count(done, p) > 0 ==> exists|i: int|
                        0 <= i < out@.len() && (#[trigger] out@[i]).0 == p,
            decreases self@.waiting.len(),
        {
            if self.order.len() == 0 {
                break;
            }
            assert(self@.waiting[0] == self.order@[0].waiting());
            if elapsed_ns(self.order[0].recv_ns, now_ns) <= self.window_ns {
                break;
            }
            let ghost w = self@.waiting[0];
            let ghost before = self@;
            let gone = self.take_at(0);
            let arm = gone.arm;
            self.count_unmatched(gone.sig.scope, arm);
            proof {
                assert(self@.waiting =~= before.waiting.drop_first());
                assert(done.push(w) + self@.waiting =~= start.waiting);
                assert(done.push(w).drop_last() =~= done);
                lemma_arm_count_bound(done.push(w), arm);
            }
            let ghost prev = done;
            proof {
                done = done.push(w);
            }
            Self::count_drop(&mut out, arm, Ghost(prev), Ghost(w));
        }
        proof {
            let n = stale_len(start.waiting, now_ns, window) as int;
            assert(start.waiting.take(n) =~= done);
            assert(start.waiting.skip(n) =~= self@.waiting);
        }
        out
    }

    /// Add one to `arm`'s entry.
    #[verifier::loop_isolation(false)]
    fn count_drop(
        out: &mut Vec<(Publisher, usize)>,
        arm: Publisher,
        Ghost(done): Ghost<Seq<Waiting<I::Id>>>,
        Ghost(w): Ghost<Waiting<I::Id>>,
    )
        requires
            w.arm == arm,
            done.len() < MAX_PENDING,
            forall|i: int|
                0 <= i < old(out)@.len() ==> (#[trigger] old(out)@[i]).1 == arm_count(
                    done,
                    old(out)@[i].0,
                ) && old(out)@[i].1 > 0,
            forall|i: int, j: int|
                0 <= i < j < old(out)@.len() ==> (#[trigger] old(out)@[i]).0 != (
                #[trigger] old(out)@[j]).0,
            forall|p: Publisher| #[trigger]
                arm_count(done, p) > 0 ==> exists|i: int|
                    0 <= i < old(out)@.len() && (#[trigger] old(out)@[i]).0 == p,
        ensures
            forall|i: int|
                0 <= i < final(out)@.len() ==> (#[trigger] final(out)@[i]).1 == arm_count(
                    done.push(w),
                    final(out)@[i].0,
                ) && final(out)@[i].1 > 0,
            forall|i: int, j: int|
                0 <= i < j < final(out)@.len() ==> (#[trigger] final(out)@[i]).0 != (
                #[trigger] final(out)@[j]).0,
            forall|p: Publisher| #[trigger]
                arm_count(done.push(w), p) > 0 ==> exists|i: int|
                    0 <= i < final(out)@.len() && (#[trigger] final(out)@[i]).0 == p,
    {
        let ghost was = out@;
        proof {
            assert(done.push(w).drop_last() =~= done);
            assert forall|p: Publisher| #[trigger]
                arm_count(done.push(w), p) == arm_count(done, p) + if p == arm {
                    1nat
                } else {
                    0
                } by {}
            lemma_arm_count_bound(done, arm);
        }
        let mut i: usize = 0;
        while i < out.len()
            invariant
                out@ == was,
                i <= out@.len(),
                forall|j: int| 0 <= j < i ==> (#[trigger] was[j]).0 != arm,
            decreases out@.len() - i,
        {
            if out[i].0 == arm {
                let n: usize = out[i].1;
                assert(was[i as int].1 == arm_count(done, arm));
                out.set(i, (arm, n + 1));
                proof {
                    assert(out@ =~= was.update(i as int, (arm, (n + 1) as usize)));
                    assert forall|j: int| 0 <= j < out@.len() implies (#[trigger] out@[j]).1
                        == arm_count(done.push(w), out@[j].0) && out@[j].1 > 0 by {
                        assert(was[j].1 == arm_count(done, was[j].0));
                        if j != i {
                            assert(was[j].0 != was[i as int].0);
                        }
                    }
                    assert forall|a: int, b: int| 0 <= a < b < out@.len() implies (#[trigger] out@[a]).0
                        != (#[trigger] out@[b]).0 by {
                        assert(was[a].0 != was[b].0);
                    }
                    assert forall|p: Publisher| #[trigger]
                        arm_count(done.push(w), p) > 0 implies exists|j: int|
                        0 <= j < out@.len() && (#[trigger] out@[j]).0 == p by {
                        if p == arm {
                            assert(out@[i as int].0 == p);
                        } else {
                            assert(arm_count(done, p) > 0);
                            let j = choose|j: int| 0 <= j < was.len() && (#[trigger] was[j]).0 == p;
                            assert(out@[j].0 == p);
                        }
                    }
                }
                return ;
            }
            i += 1;
        }
        proof {
            if arm_count(done, arm) > 0 {
                let j = choose|j: int| 0 <= j < was.len() && (#[trigger] was[j]).0 == arm;
                assert(false);
            }
        }
        out.push((arm, 1));
        proof {
            assert forall|j: int| 0 <= j < out@.len() implies (#[trigger] out@[j]).1 == arm_count(
                done.push(w),
                out@[j].0,
            ) && out@[j].1 > 0 by {
                if j < was.len() {
                    assert(was[j].1 == arm_count(done, was[j].0));
                }
            }
            assert forall|a: int, b: int| 0 <= a < b < out@.len() implies (#[trigger] out@[a]).0 != (
            #[trigger] out@[b]).0 by {
                if b < was.len() {
                    assert(was[a].0 != was[b].0);
                } else {
                    assert(was[a].0 != arm);
                }
            }
            assert forall|p: Publisher| #[trigger] arm_count(done.push(w), p) > 0 implies exists|j: int|
                0 <= j < out@.len() && (#[trigger] out@[j]).0 == p by {
                if p == arm {
                    assert(out@[was.len() as int].0 == p);
                } else {
                    assert(arm_count(done, p) > 0);
                    let j = choose|j: int| 0 <= j < was.len() && (#[trigger] was[j]).0 == p;
                    assert(out@[j].0 == p);
                }
            }
        }
    }

    fn count_unmatched(&mut self, scope: ScopeKey, arm: Publisher)
        requires
            old(self).wf(),
        ensures
            final(self).wf(),
            final(self).window_ns == old(self).window_ns,
            final(self).order == old(self).order,
            final(self).unmatched@ == old(self).unmatched@.insert(
                (scope.id(), arm),
                one_more(count_at(old(self).unmatched@, (scope.id(), arm))),
            ),
    {
        let at = ScopedArm { scope, arm };
        let n: u64 = match self.unmatched.get(&at) {
            Some(n) => *n,
            None => 0,
        };
        self.unmatched.insert(at, n.saturating_add(1));
    }

    /// The arrivals dropped unmatched per arm since the last call.
    pub fn drain_unmatched(&mut self) -> (r: Vec<(ScopedArm, u64)>)
        requires
            old(self).wf(),
        ensures
            final(self).wf(),
            final(self).window() == old(self).window(),
            final(self)@.waiting == old(self)@.waiting,
            final(self)@.unmatched == Map::<(ScopeId, Publisher), u64>::empty(),
            reports_unmatched(old(self)@.unmatched, r@),
    {
        let mut out: Vec<(ScopedArm, u64)> = Vec::new();
        let n: usize = self.unmatched.len();
        let mut i: usize = 0;
        while i < n
            invariant
                self.wf(),
                *self == *old(self),
                n == self.unmatched.items().len(),
                i <= n,
                out@.len() == i,
                forall|j: int|
                    0 <= j < i ==> (#[trigger] out@[j]).0.id() == self.unmatched.items()[j].0.id()
                        && out@[j].1 == self.unmatched.items()[j].1,
            decreases n - i,
        {
            let k = self.unmatched.key_at(i).dup();
            let v: u64 = *self.unmatched.value_at(i);
            out.push((k, v));
            i += 1;
        }
        proof {
            assert forall|j: int| 0 <= j < out@.len() implies old(self)@.unmatched.contains_key(
                (#[trigger] out@[j]).0.id(),
            ) && old(self)@.unmatched[out@[j].0.id()] == out@[j].1 by {
                self.unmatched.lemma_item(j);
            }
            assert forall|a: int, b: int| 0 <= a < b < out@.len() implies (#[trigger] out@[a]).0.id()
                != (#[trigger] out@[b]).0.id() by {
                if out@[a].0.id() == out@[b].0.id() {
                    self.unmatched.lemma_distinct(a, b);
                }
            }
            assert forall|k: (ScopeId, Publisher)| #[trigger]
                old(self)@.unmatched.contains_key(k) implies exists|j: int|
                0 <= j < out@.len() && (#[trigger] out@[j]).0.id() == k by {
                let j = self.unmatched.lemma_stored(k);
                assert(out@[j].0.id() == k);
            }
        }
        self.unmatched = Table::new();
        out
    }

    fn push(&mut self, arrival: Arrival<I>)
        requires
            old(self).wf(),
        ensures
            final(self).wf(),
            final(self).window_ns == old(self).window_ns,
            final(self)@.unmatched == old(self)@.unmatched,
            final(self)@.waiting == (if old(self)@.waiting.len() >= MAX_PENDING {
                old(self)@.waiting.drop_first()
            } else {
                old(self)@.waiting
            }).push(arrival.waiting()),
    {
        if self.order.len() >= MAX_PENDING {
            let _gone = self.take_at(0);
            assert(self@.waiting =~= old(self)@.waiting.drop_first());
        }
        let ghost before = *self;
        let ghost id = arrival.sig.id();
        let count: usize = match self.held.get(&arrival.sig) {
            Some(c) => *c,
            None => 0,
        };
        proof {
            broadcast use vstd::seq_lib::group_to_multiset_ensures;

            let m = sigs(self.order@).to_multiset();
            assert(m.count(id) == count);
            assert(m.len() == self.order@.len());
            lemma_count_le_len(m, id);
        }
        self.held.insert(arrival.sig.dup(), count + 1);
        self.order.push_back(arrival);
        proof {
            broadcast use vstd::seq_lib::group_to_multiset_ensures;
            broadcast use vstd::multiset::group_multiset_axioms;

            assert(sigs(self.order@) =~= sigs(before.order@).push(id));
            assert(self@.waiting =~= before@.waiting.push(arrival.waiting()));
            assert forall|s: SigId<I::Id>| sigs(self.order@).to_multiset().count(s) == (
            if self.held@.contains_key(s) {
                self.held@[s] as nat
            } else {
                0
            }) && (self.held@.contains_key(s) ==> self.held@[s] > 0) by {
                assert(sigs(before.order@).to_multiset().count(s) == if before.held@.contains_key(s) {
                    before.held@[s] as nat
                } else {
                    0
                });
            }
        }
    }

    /// Take the arrival at position `i` out.
    fn take_at(&mut self, i: usize) -> (r: Arrival<I>)
        requires
            old(self).wf(),
            i < old(self).order@.len(),
        ensures
            final(self).wf(),
            final(self).window_ns == old(self).window_ns,
            final(self)@.unmatched == old(self)@.unmatched,
            final(self)@.waiting == old(self)@.waiting.remove(i as int),
            r.waiting() == old(self)@.waiting[i as int],
            final(self).order@ == old(self).order@.remove(i as int),
    {
        let ghost before = *self;
        let ghost id = self.order@[i as int].sig.id();
        proof {
            broadcast use vstd::seq_lib::group_to_multiset_ensures;

            assert(sigs(self.order@)[i as int] == id);
            assert(sigs(self.order@).contains(id));
            assert(sigs(self.order@).to_multiset().count(id) > 0);
        }
        let gone = self.order.remove(i).unwrap();
        let count: usize = match self.held.get(&gone.sig) {
            Some(c) => *c,
            None => 0,
        };
        if count > 1 {
            self.held.insert(gone.sig.dup(), count - 1);
        } else {
            let _c = self.held.remove(&gone.sig);
        }
        proof {
            broadcast use vstd::seq_lib::group_to_multiset_ensures;
            broadcast use vstd::multiset::group_multiset_axioms;

            assert(sigs(self.order@) =~= sigs(before.order@).remove(i as int));
            assert(self@.waiting =~= before@.waiting.remove(i as int));
            assert forall|s: SigId<I::Id>| sigs(self.order@).to_multiset().count(s) == (
            if self.held@.contains_key(s) {
                self.held@[s] as nat
            } else {
                0
            }) && (self.held@.contains_key(s) ==> self.held@[s] > 0) by {
                assert(sigs(before.order@).to_multiset().count(s) == if before.held@.contains_key(s) {
                    before.held@[s] as nat
                } else {
                    0
                });
            }
        }
        gone
    }
}

proof fn lemma_count_le_len<A>(m: vstd::multiset::Multiset<A>, a: A)
    ensures
        m.count(a) <= m.len(),
{
    broadcast use vstd::multiset::group_multiset_axioms;

}

proof fn lemma_no_peer<J>(waiting: Seq<Waiting<J>>, sig: SigId<J>, arm: Publisher, from: int)
    requires
        0 <= from <= waiting.len(),
        forall|j: int| 0 <= j < waiting.len() ==> (#[trigger] waiting[j]).sig != sig,
    ensures
        first_peer(waiting, sig, arm, from) == waiting.len(),
    decreases waiting.len() - from,
{
    if from < waiting.len() {
        lemma_no_peer(waiting, sig, arm, from + 1);
    }
}

proof fn lemma_arm_count_bound<J>(dropped: Seq<Waiting<J>>, arm: Publisher)
    ensures
        arm_count(dropped, arm) <= dropped.len(),
    decreases dropped.len(),
{
    if dropped.len() > 0 {
        lemma_arm_count_bound(dropped.drop_last(), arm);
    }
}

/// All waiting copies of one trade come from one arm.
pub open spec fn one_arm_per_trade<J>(waiting: Seq<Waiting<J>>) -> bool {
    forall|i: int, j: int|
        0 <= i < waiting.len() && 0 <= j < waiting.len() && (#[trigger] waiting[i]).sig == (
        #[trigger] waiting[j]).sig ==> waiting[i].arm == waiting[j].arm
}

/// The arrivals wait in order of their receive times.
pub open spec fn in_order<J>(waiting: Seq<Waiting<J>>) -> bool {
    forall|i: int, j: int|
        0 <= i <= j < waiting.len() ==> (#[trigger] waiting[i]).recv_ns <= (
        #[trigger] waiting[j]).recv_ns
}

/// What is left at the front has not outwaited the window.
pub proof fn lemma_stale_len<J>(waiting: Seq<Waiting<J>>, now_ns: u64, window_ns: u64)
    ensures
        stale_len(waiting, now_ns, window_ns) <= waiting.len(),
        stale_len(waiting, now_ns, window_ns) < waiting.len() ==> elapsed(
            waiting[stale_len(waiting, now_ns, window_ns) as int].recv_ns,
            now_ns,
        ) <= window_ns,
    decreases waiting.len(),
{
    if waiting.len() > 0 && elapsed(waiting[0].recv_ns, now_ns) > window_ns {
        lemma_stale_len(waiting.drop_first(), now_ns, window_ns);
    }
}

/// The first peer is one, and none is before it.
pub proof fn lemma_first_peer<J>(waiting: Seq<Waiting<J>>, sig: SigId<J>, arm: Publisher, from: int)
    requires
        0 <= from <= waiting.len(),
    ensures
        from <= first_peer(waiting, sig, arm, from) <= waiting.len(),
        first_peer(waiting, sig, arm, from) < waiting.len() ==> {
            let w = waiting[first_peer(waiting, sig, arm, from)];
            w.sig == sig && w.arm != arm
        },
        forall|j: int|
            from <= j < first_peer(waiting, sig, arm, from) ==> (#[trigger] waiting[j]).sig != sig
                || waiting[j].arm == arm,
    decreases waiting.len() - from,
{
    if from < waiting.len() && !(waiting[from].sig == sig && waiting[from].arm != arm) {
        lemma_first_peer(waiting, sig, arm, from + 1);
    }
}

/// A trade is paired with a copy of itself by another arm, and with the oldest such copy that waits.
pub proof fn law_a_match_pairs_the_oldest_copy<J>(
    v: RaceView<J>,
    window_ns: u64,
    sig: SigId<J>,
    arm: Publisher,
    recv_ns: u64,
    i: int,
)
    requires
        ({
            let now = v.evicted(recv_ns, window_ns);
            0 <= i < now.waiting.len() && now.waiting[i].sig == sig && now.waiting[i].arm != arm
        }),
    ensures
        ({
            let now = v.evicted(recv_ns, window_ns);
            let (after, peer) = v.offered(window_ns, sig, arm, recv_ns);
            &&& peer is Some
            &&& peer->0.sig == sig
            &&& peer->0.arm != arm
            &&& exists|k: int|
                0 <= k <= i && #[trigger] now.waiting[k] == peer->0 && after.waiting
                    == now.waiting.remove(k)
        }),
{
    let now = v.evicted(recv_ns, window_ns);
    lemma_first_peer(now.waiting, sig, arm, 0);
    let k = first_peer(now.waiting, sig, arm, 0);
    assert(now.waiting[k] == v.offered(window_ns, sig, arm, recv_ns).1->0);
}

/// Only one arm's copies of a trade ever wait: the other arm's would have been paired with them.
pub proof fn law_one_arm_waits_per_trade<J>(
    v: RaceView<J>,
    window_ns: u64,
    sig: SigId<J>,
    arm: Publisher,
    recv_ns: u64,
)
    requires
        one_arm_per_trade(v.waiting),
    ensures
        one_arm_per_trade(v.offered(window_ns, sig, arm, recv_ns).0.waiting),
{
    let n = stale_len(v.waiting, recv_ns, window_ns) as int;
    lemma_stale_len(v.waiting, recv_ns, window_ns);
    let now = v.evicted(recv_ns, window_ns);
    assert forall|i: int, j: int|
        0 <= i < now.waiting.len() && 0 <= j < now.waiting.len() && (#[trigger] now.waiting[i]).sig == (
        #[trigger] now.waiting[j]).sig implies now.waiting[i].arm == now.waiting[j].arm by {
        assert(now.waiting[i] == v.waiting[i + n]);
        assert(now.waiting[j] == v.waiting[j + n]);
    }
    lemma_first_peer(now.waiting, sig, arm, 0);
    let k = first_peer(now.waiting, sig, arm, 0);
    let after = v.offered(window_ns, sig, arm, recv_ns).0;
    if k < now.waiting.len() {
        assert forall|i: int, j: int|
            0 <= i < after.waiting.len() && 0 <= j < after.waiting.len() && (
            #[trigger] after.waiting[i]).sig == (
            #[trigger] after.waiting[j]).sig implies after.waiting[i].arm == after.waiting[j].arm by {
            let a = if i < k {
                i
            } else {
                i + 1
            };
            let b = if j < k {
                j
            } else {
                j + 1
            };
            assert(now.waiting[a].sig == now.waiting[b].sig);
        }
    } else {
        let d = if now.waiting.len() >= MAX_PENDING {
            1int
        } else {
            0
        };
        assert forall|i: int, j: int|
            0 <= i < after.waiting.len() && 0 <= j < after.waiting.len() && (
            #[trigger] after.waiting[i]).sig == (
            #[trigger] after.waiting[j]).sig implies after.waiting[i].arm == after.waiting[j].arm by {
            let last = after.waiting.len() - 1;
            if i < last {
                assert(after.waiting[i] == now.waiting[i + d]);
            }
            if j < last {
                assert(after.waiting[j] == now.waiting[j + d]);
            }
        }
    }
}

/// On a receive clock that does not go backwards, no pair is further apart than the window.
pub proof fn law_a_match_is_inside_the_window<J>(
    v: RaceView<J>,
    window_ns: u64,
    sig: SigId<J>,
    arm: Publisher,
    recv_ns: u64,
)
    requires
        in_order(v.waiting),
        v.offered(window_ns, sig, arm, recv_ns).1 is Some,
    ensures
        elapsed(v.offered(window_ns, sig, arm, recv_ns).1->0.recv_ns, recv_ns) <= window_ns,
{
    let n = stale_len(v.waiting, recv_ns, window_ns) as int;
    lemma_stale_len(v.waiting, recv_ns, window_ns);
    let now = v.evicted(recv_ns, window_ns);
    lemma_first_peer(now.waiting, sig, arm, 0);
    let k = first_peer(now.waiting, sig, arm, 0);
    assert(now.waiting[k] == v.waiting[k + n]);
    assert(v.waiting[n].recv_ns <= v.waiting[k + n].recv_ns);
}

} // verus!
