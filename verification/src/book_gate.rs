//! The book gate, which every incremental `book` batch passes before it is broadcast.
//!
//! A price-aggregated market is served by one arm: two arms' delta series are unrelated, so mixing
//! them corrupts a consumer's book. An order-level market of a coordinated venue is raced event by
//! event instead. Whenever the consumer's state cannot be assumed to continue from the next batch,
//! the whole book is republished first.

use crate::accumulator::{clear_both, clear_both_spec, AccView, BookAccumulator};
use crate::authority::{lemma_forgotten_wf, AuthorityConfig, AuthorityView, StickyAuthority};
use crate::effects::{Clock, Effects, EffectsView, Kind, MessageView, Transfer, What};
use crate::floor::{elapsed, elapsed_ns};
use crate::model::{
    ArbitrationMode, BookAction, BookChange, BookView, FeedMessage, MarketId, MarketKey,
    NormalizedBook, Publisher, ScopeId, ScopeKey,
};
use crate::order_race::{EventVerdict, EventsView, MarketEvents, OrderEvent};
use crate::recent::{ids, Recent, RecentView};
use crate::table::{views, Key, Table};
use vstd::prelude::*;

verus! {

broadcast use crate::table::group_views;

/// Cap on markets whose `book` state is tracked, oldest forgotten first.
pub const MAX_BOOK_MARKETS: usize = 16_384;

/// Cap on batches withheld from one market while waiting for a logical event to close.
pub const MAX_WITHHELD_BATCHES: u32 = 8192;

/// How long a peer's last delivered batch keeps its claim to be serving a market.
pub const PEER_SERVING_NS: u64 = 30_000_000_000;

/// How long a delivered order event is remembered unless told otherwise.
pub const DEFAULT_BOOK_DEDUP_WINDOW_NS: u64 = 250_000_000;

/// One publisher's standing for an order-level market: whether its book is in sync, and when it last
/// delivered a batch (zero until it has).
#[derive(Debug, Clone, Copy)]
pub struct PeerState {
    pub synced: bool,
    pub last_batch_ns: u64,
}

/// One tracked market.
#[verifier::ext_equal]
pub struct BookMarketView {
    /// A batch for this market has named an order.
    pub order_level: bool,
    /// Every eligible arm's accumulated book, not just the serving one's.
    pub arms: Map<Publisher, AccView>,
    /// The market must be re-baselined before it is served again.
    pub rebaseline: bool,
    /// Batches withheld meanwhile.
    pub withheld: u32,
    /// When this market last discharged a forced re-baseline.
    pub rebaselined_ns: u64,
}

impl BookMarketView {
    pub open spec fn new() -> Self {
        BookMarketView {
            order_level: false,
            arms: Map::empty(),
            rebaseline: false,
            withheld: 0,
            rebaselined_ns: 0,
        }
    }
}

/// What a [`BookGate`] holds.
#[verifier::ext_equal]
pub struct GateView {
    /// Who serves each universe.
    pub books: AuthorityView,
    /// The tracked markets, oldest first.
    pub markets: RecentView<MarketId, BookMarketView>,
    /// The book of each market as it was broadcast, for consumers that connect later.
    pub replay: Option<Map<MarketId, AccView>>,
    /// Per order-level market, each publisher's standing.
    pub sync: Map<MarketId, Map<Publisher, PeerState>>,
    /// Per order-level market, the raced order events.
    pub events: Map<MarketId, EventsView>,
    pub dedup_window_ns: u64,
    pub withhold_logged: bool,
}

/// A book emptied: what a consumer gets when there is no whole book to republish.
pub open spec fn clear_only_spec(b: BookView, wall_ns: u64) -> BookView {
    BookView {
        changes: seq![clear_both_spec()],
        snapshot: true,
        last: true,
        recv_ts_ns: wall_ns,
        ..b
    }
}

/// A book emptied.
fn clear_only(b: &NormalizedBook, wall_ns: u64) -> (r: NormalizedBook)
    ensures
        r@ == clear_only_spec(b@, wall_ns),
{
    let mut changes: Vec<BookChange> = Vec::new();
    changes.push(clear_both());
    let mut r = b.with_changes(changes);
    r.snapshot = true;
    r.last = true;
    r.recv_ts_ns = wall_ns;
    assert(r@ =~= clear_only_spec(b@, wall_ns));
    r
}

/// Some change names an order.
pub open spec fn names_order(changes: Seq<BookChange>) -> bool {
    exists|i: int| 0 <= i < changes.len() && (#[trigger] changes[i]).order_id != 0
}

fn any_order(changes: &Vec<BookChange>) -> (r: bool)
    ensures
        r == names_order(changes@),
{
    let mut i: usize = 0;
    while i < changes.len()
        invariant
            i <= changes@.len(),
            forall|j: int| 0 <= j < i ==> (#[trigger] changes@[j]).order_id == 0,
        decreases changes@.len() - i,
    {
        if changes[i].order_id != 0 {
            return true;
        }
        i += 1;
    }
    false
}

/// The batch opens with a `clear`: it is its producer's own re-baseline.
pub open spec fn clear_led(changes: Seq<BookChange>) -> bool {
    changes.len() > 0 && changes[0].action == BookAction::Clear
}

/// Why an admitted batch moved its market, if it did. The leader taking a market back from a health
/// override is not attributable here.
pub open spec fn transfer_reason_spec(
    prev: Option<Publisher>,
    leader_before: Option<Publisher>,
    leader_after: Option<Publisher>,
    publisher: Publisher,
) -> Option<Transfer> {
    if leader_before is None {
        Some(Transfer::Initial)
    } else if leader_before != leader_after {
        Some(Transfer::Silence)
    } else if leader_after != Some(publisher) && prev != Some(publisher) {
        Some(Transfer::Health)
    } else {
        None
    }
}

fn transfer_reason(
    prev: Option<Publisher>,
    leader_before: Option<Publisher>,
    leader_after: Option<Publisher>,
    publisher: Publisher,
) -> (r: Option<Transfer>)
    ensures
        r == transfer_reason_spec(prev, leader_before, leader_after, publisher),
{
    if leader_before.is_none() {
        return Some(Transfer::Initial);
    }
    if leader_before != leader_after {
        return Some(Transfer::Silence);
    }
    if leader_after != Some(publisher) && prev != Some(publisher) {
        return Some(Transfer::Health);
    }
    None
}

/// The outcome of racing a batch change by change.
#[verifier::ext_equal]
pub struct Raced {
    pub events: EventsView,
    /// The changes to publish.
    pub kept: Seq<BookChange>,
    pub deduped: int,
    pub disagreed: int,
    pub resurrected: int,
}

/// The first `n` of `changes` raced in order. A change that names no order cannot be told from
/// another and is always kept.
pub open spec fn raced(
    events: EventsView,
    changes: Seq<BookChange>,
    n: int,
    publisher: Publisher,
    arrival_ns: u64,
    window_ns: u64,
) -> Raced
    decreases n,
{
    if n <= 0 {
        Raced { events, kept: Seq::empty(), deduped: 0, disagreed: 0, resurrected: 0 }
    } else {
        let r = raced(events, changes, n - 1, publisher, arrival_ns, window_ns);
        let c = changes[n - 1];
        if c.order_id == 0 {
            Raced { kept: r.kept.push(c), ..r }
        } else {
            let (events, verdict) = r.events.step(
                OrderEvent::of_spec(c),
                publisher,
                arrival_ns,
                window_ns,
            );
            match verdict {
                EventVerdict::Deliver => Raced { events, kept: r.kept.push(c), ..r },
                EventVerdict::Duplicate => Raced { events, deduped: r.deduped + 1, ..r },
                EventVerdict::Resurrection => Raced { events, resurrected: r.resurrected + 1, ..r },
                EventVerdict::Disagreement => Raced { events, disagreed: r.disagreed + 1, ..r },
            }
        }
    }
}

/// One more, up to the largest number there is.
pub open spec fn one_more_u32(n: u32) -> u32 {
    if n < u32::MAX {
        (n + 1) as u32
    } else {
        n
    }
}

impl GateView {
    /// No more than [`MAX_BOOK_MARKETS`] markets are tracked, and only tracked markets have racing
    /// state.
    pub open spec fn wf(self) -> bool {
        &&& self.books.wf()
        &&& self.markets.wf()
        &&& self.markets.len() <= MAX_BOOK_MARKETS
        &&& forall|k: MarketId| #[trigger] self.sync.contains_key(k) ==> self.markets.has(k)
        &&& forall|k: MarketId| #[trigger]
            self.events.contains_key(k) ==> self.markets.has(k) && self.events[k].wf()
    }

    /// Only tracked markets are replayed.
    pub open spec fn replay_tracked(self) -> bool {
        match self.replay {
            Some(replay) => forall|k: MarketId| #[trigger]
                replay.contains_key(k) ==> self.markets.has(k),
            None => true,
        }
    }

    /// The leader of a universe.
    pub open spec fn leader(self, s: ScopeId) -> Option<Publisher> {
        if self.books.scopes.contains_key(s) {
            Some(self.books.scopes[s].leader)
        } else {
            None
        }
    }

    pub open spec fn with_market(self, k: MarketId, m: BookMarketView) -> Self {
        GateView { markets: self.markets.set(k, m), ..self }
    }

    /// The replayed books without one market's.
    pub open spec fn replay_without(self, gone: Set<MarketId>) -> Option<Map<MarketId, AccView>> {
        match self.replay {
            Some(replay) => Some(replay.remove_keys(gone)),
            None => None,
        }
    }

    /// Every trace of the markets `gone` dropped: their accumulated books, what is replayed of them,
    /// their racing state and the record of who was last published for them, all together.
    pub open spec fn dropped(self, gone: Set<MarketId>) -> Self {
        GateView {
            markets: self.markets.without(gone),
            sync: self.sync.remove_keys(gone),
            events: self.events.remove_keys(gone),
            replay: self.replay_without(gone),
            books: self.books.forgotten(gone),
            ..self
        }
    }

    /// The oldest market dropped.
    pub open spec fn evicted(self) -> Self {
        let k = self.markets.order[0];
        GateView {
            markets: self.markets.pop(),
            sync: self.sync.remove(k),
            events: self.events.remove(k),
            replay: match self.replay {
                Some(replay) => Some(replay.remove(k)),
                None => None,
            },
            books: self.books.forgotten(set![k]),
            ..self
        }
    }

    /// `k` tracked, in place of the oldest market if there is no room.
    pub open spec fn followed(self, fx: EffectsView, k: MarketId) -> (Self, EffectsView) {
        if self.markets.has(k) {
            (self, fx)
        } else {
            let full = self.markets.len() >= MAX_BOOK_MARKETS;
            let room = if full {
                self.evicted()
            } else {
                self
            };
            (
                GateView { markets: room.markets.push(k, BookMarketView::new()), ..room },
                fx.note_if(full, self.markets.order[0].scope.0, What::BookMarketEvicted),
            )
        }
    }

    pub open spec fn events_at(self, k: MarketId) -> EventsView {
        if self.events.contains_key(k) {
            self.events[k]
        } else {
            EventsView::empty()
        }
    }

    pub open spec fn events_rebaselined(
        self,
        k: MarketId,
        changes: Seq<BookChange>,
        p: Publisher,
    ) -> Self {
        GateView {
            events: self.events.insert(k, self.events_at(k).rebaselined(changes, p)),
            ..self
        }
    }

    pub open spec fn peers(self, k: MarketId) -> Map<Publisher, PeerState> {
        if self.sync.contains_key(k) {
            self.sync[k]
        } else {
            Map::empty()
        }
    }

    pub open spec fn peer(self, k: MarketId, p: Publisher) -> PeerState {
        if self.peers(k).contains_key(p) {
            self.peers(k)[p]
        } else {
            PeerState { synced: false, last_batch_ns: 0 }
        }
    }

    pub open spec fn with_peer(self, k: MarketId, p: Publisher, st: PeerState) -> Self {
        GateView { sync: self.sync.insert(k, self.peers(k).insert(p, st)), ..self }
    }

    /// Some other publisher of the market is both in sync and has delivered a batch lately.
    pub open spec fn peer_serving(self, k: MarketId, p: Publisher, mono_ns: u64) -> bool {
        exists|q: Publisher| #[trigger]
            self.peers(k).contains_key(q) && q != p && self.peers(k)[q].synced && self.peers(
                k,
            )[q].last_batch_ns != 0 && elapsed(self.peers(k)[q].last_batch_ns, mono_ns)
                <= PEER_SERVING_NS
    }

    /// One arm's batch folded into that arm's own book.
    pub open spec fn accumulated(self, k: MarketId, p: Publisher, b: BookView) -> Self {
        let m = self.markets.map[k];
        let acc = if m.arms.contains_key(p) {
            m.arms[p]
        } else {
            AccView::empty(b.symbol)
        };
        self.with_market(k, BookMarketView { arms: m.arms.insert(p, acc.applied(b)), ..m })
    }

    /// The replayed book advanced by a broadcast batch.
    pub open spec fn replay_applied(self, k: MarketId, b: BookView) -> Self {
        match self.replay {
            Some(replay) => {
                let acc = if replay.contains_key(k) {
                    replay[k]
                } else {
                    AccView::empty(b.symbol)
                };
                GateView { replay: Some(replay.insert(k, acc.applied(b))), ..self }
            },
            None => self,
        }
    }

    /// The market's book as it was broadcast, if all of it is known.
    pub open spec fn replay_book(self, k: MarketId, wall_ns: u64) -> Option<BookView> {
        match self.replay {
            Some(replay) => if replay.contains_key(k) && replay[k].baselined {
                Some(replay[k].as_book(k, wall_ns))
            } else {
                None
            },
            None => None,
        }
    }

    /// `p` reached the wire with `b`.
    pub open spec fn delivered(self, k: MarketId, b: BookView, p: Publisher, mono_ns: u64) -> Self {
        let m = self.markets.map[k];
        let g = if names_order(b.changes) {
            self.with_market(k, BookMarketView { order_level: true, ..m })
        } else {
            self
        };
        g.with_peer(k, p, PeerState { last_batch_ns: mono_ns, ..g.peer(k, p) })
    }

    /// `b` broadcast, and the replayed book advanced by it.
    pub open spec fn published(self, fx: EffectsView, k: MarketId, b: BookView) -> (Self, EffectsView) {
        (
            self.replay_applied(k, b),
            fx.note(b.venue, What::Emit(Kind::Book)).send(MessageView::Book(b)),
        )
    }

    /// A producer's own re-baseline published.
    pub open spec fn clear_led_published(
        self,
        fx: EffectsView,
        k: MarketId,
        b: BookView,
        p: Publisher,
        now: Clock,
    ) -> (Self, EffectsView) {
        let (g, fx) = self.followed(fx, k);
        let g = g.events_rebaselined(k, b.changes, p);
        let m = g.markets.map[k];
        let g = g.with_market(k, BookMarketView { rebaseline: false, withheld: 0, ..m });
        g.delivered(k, b, p, now.mono_ns).published(fx, k, b)
    }

    /// A forced re-baseline discharged on `p`'s batch, if it is time: the book is republished as it
    /// was broadcast, never as an arm claims it, or emptied if not all of it is known. The flag says
    /// whether the batch itself may follow.
    pub open spec fn forced_served(
        self,
        fx: EffectsView,
        k: MarketId,
        b: BookView,
        p: Publisher,
        now: Clock,
    ) -> (Self, EffectsView, bool) {
        let m = self.markets.map[k];
        let too_soon = m.rebaselined_ns != 0 && elapsed(m.rebaselined_ns, now.mono_ns)
            < self.dedup_window_ns;
        if too_soon || (!b.last && m.withheld < MAX_WITHHELD_BATCHES) {
            (
                self.with_market(k, BookMarketView { withheld: one_more_u32(m.withheld), ..m }),
                fx.note(b.venue, What::BookDropped(p)),
                false,
            )
        } else {
            let g = self.with_market(
                k,
                BookMarketView {
                    rebaseline: false,
                    withheld: 0,
                    rebaselined_ns: now.mono_ns,
                    ..m
                },
            );
            match g.replay_book(k, now.wall_ns) {
                Some(full) => (
                    g.events_rebaselined(k, full.changes, p),
                    fx.note(b.venue, What::Emit(Kind::Book)).send(MessageView::Book(full)),
                    true,
                ),
                None => (
                    GateView {
                        replay: match g.replay {
                            Some(replay) => Some(replay.remove(k)),
                            None => None,
                        },
                        ..g
                    }.events_rebaselined(k, Seq::empty(), p),
                    fx.note(b.venue, What::Emit(Kind::Book)).send(
                        MessageView::Book(clear_only_spec(b, now.wall_ns)),
                    ),
                    true,
                ),
            }
        }
    }

    /// A batch of deltas raced: each event's first arrival is published and every later copy
    /// collapses. A forced cause withholds the whole batch instead.
    pub open spec fn deltas_raced(
        self,
        fx: EffectsView,
        k: MarketId,
        b: BookView,
        p: Publisher,
        now: Clock,
    ) -> (Self, EffectsView) {
        let (g, fx) = self.followed(fx, k);
        let r = raced(
            g.events_at(k),
            b.changes,
            b.changes.len() as int,
            p,
            b.recv_ts_ns,
            g.dedup_window_ns,
        );
        let g = GateView {
            events: g.events.insert(k, EventsView { forced: None, ..r.events }),
            ..g
        };
        let fx = fx.note_if(
            r.deduped > 0,
            b.venue,
            What::BookEventsDeduped(r.deduped as u64),
        ).note_if(
            r.resurrected > 0,
            b.venue,
            What::BookResurrectionsDropped(r.resurrected as u64),
        ).note_if(r.disagreed > 0, b.venue, What::ArmDisagreements(r.disagreed as u64));
        match r.events.forced {
            Some(why) => (
                g.with_market(k, BookMarketView { rebaseline: true, ..g.markets.map[k] }),
                fx.note(b.venue, What::ForcedRebaseline(why)).note(b.venue, What::BookDropped(p)),
            ),
            None => if r.kept.len() == 0 {
                (g, fx)
            } else {
                g.delivered(k, b, p, now.mono_ns).published(
                    fx,
                    k,
                    BookView { changes: r.kept, ..b },
                )
            },
        }
    }

    /// One batch of an order-level market of a coordinated venue. A re-baseline does not race: it is
    /// published only when no peer serves the market.
    pub open spec fn order_level_offered(
        self,
        fx: EffectsView,
        k: MarketId,
        b: BookView,
        p: Publisher,
        now: Clock,
    ) -> (Self, EffectsView) {
        if clear_led(b.changes) {
            if self.peer_serving(k, p, now.mono_ns) {
                (self, fx.note(b.venue, What::BookDropped(p)))
            } else {
                self.clear_led_published(fx, k, b, p, now)
            }
        } else if self.markets.has(k) && self.markets.map[k].rebaseline {
            let (g, fx, go) = self.forced_served(fx, k, b, p, now);
            if go {
                g.deltas_raced(fx, k, b, p, now)
            } else {
                (g, fx)
            }
        } else {
            self.deltas_raced(fx, k, b, p, now)
        }
    }

    /// The serving arm's batch published, behind a re-baseline if the market changed hands. `prev` is
    /// who was published for the market before.
    pub open spec fn served(
        self,
        fx: EffectsView,
        k: MarketId,
        b: BookView,
        p: Publisher,
        prev: Option<Publisher>,
        now: Clock,
    ) -> (Self, EffectsView) {
        let m = self.markets.map[k];
        if !(m.rebaseline || prev != Some(p)) {
            self.published(fx, k, b)
        } else if !b.last && m.withheld < MAX_WITHHELD_BATCHES {
            (
                self.with_market(
                    k,
                    BookMarketView {
                        rebaseline: true,
                        withheld: (m.withheld + 1) as u32,
                        ..m
                    },
                ),
                fx.note(b.venue, What::BookDropped(p)),
            )
        } else {
            let warn = !b.last && !self.withhold_logged;
            let acc = m.arms[p];
            let g = GateView {
                withhold_logged: self.withhold_logged || !b.last,
                replay: match self.replay {
                    Some(replay) => Some(replay.insert(k, acc)),
                    None => None,
                },
                ..self
            }.with_market(k, BookMarketView { rebaseline: false, withheld: 0, ..m });
            let fx = fx.note_if(warn, b.venue, What::BookWithholdWarning).note(
                b.venue,
                What::Emit(Kind::Book),
            );
            if acc.baselined {
                (g, fx.send(MessageView::Book(acc.as_book(k, now.wall_ns))))
            } else {
                (
                    g,
                    fx.send(MessageView::Book(clear_only_spec(b, now.wall_ns))).note(
                        b.venue,
                        What::Emit(Kind::Book),
                    ).send(MessageView::Book(b)),
                )
            }
        }
    }

    /// One batch of a market served by a single arm.
    pub open spec fn single_arm_offered(
        self,
        fx: EffectsView,
        k: MarketId,
        b: BookView,
        p: Publisher,
        now: Clock,
    ) -> (Self, EffectsView) {
        let (g, fx) = self.followed(fx, k);
        let prev = g.books.market_or_new(k).last_admitted;
        let (books, decision) = g.books.offered(k, p, b.recv_ts_ns);
        let after = GateView { books, ..g }.accumulated(k, p, b);
        if !(decision is Emitted) {
            (after, fx.note(b.venue, What::BookDropped(p)))
        } else {
            let fx = match transfer_reason_spec(prev, g.leader(k.scope), after.leader(k.scope), p) {
                Some(reason) => fx.note(b.venue, What::ArmTransfer(reason)),
                None => fx,
            };
            after.served(fx, k, b, p, prev, now)
        }
    }

    /// One batch offered to the book gate. A new arm is reported, and one that holds no ordinal in the
    /// universe enters no state.
    pub open spec fn offered(
        self,
        fx: EffectsView,
        mode: ArbitrationMode,
        k: MarketId,
        b: BookView,
        p: Publisher,
        now: Clock,
    ) -> (Self, EffectsView) {
        let fx = fx.registering(k.scope.0, self.books.next_ordinal(k.scope, p), p);
        let g = GateView { books: self.books.registered(k.scope, p), ..self };
        if g.books.ordinal(k.scope, p) is None {
            (g, fx.note(b.venue, What::BookDropped(p)))
        } else if mode == ArbitrationMode::Coordinated && (names_order(b.changes) || (
        g.markets.has(k) && g.markets.map[k].order_level)) {
            g.order_level_offered(fx, k, b, p, now)
        } else {
            g.single_arm_offered(fx, k, b, p, now)
        }
    }

    /// A publisher's sync state recorded, if it holds an ordinal.
    pub open spec fn synced_set(
        self,
        fx: EffectsView,
        k: MarketId,
        p: Publisher,
        synced: bool,
    ) -> (Self, EffectsView) {
        let fx = fx.registering(k.scope.0, self.books.next_ordinal(k.scope, p), p);
        let g = GateView { books: self.books.registered(k.scope, p), ..self };
        if g.books.ordinal(k.scope, p) is None {
            (g, fx)
        } else {
            let (g, fx) = g.followed(fx, k);
            (g.with_peer(k, p, PeerState { synced, ..g.peer(k, p) }), fx)
        }
    }

    /// A departed publisher's claims in a venue dropped.
    pub open spec fn publisher_forgotten(self, venue: Seq<char>, p: Publisher) -> Self {
        GateView {
            sync: Map::new(
                |k: MarketId| self.sync.contains_key(k),
                |k: MarketId|
                    if k.scope.0 == venue {
                        self.sync[k].remove(p)
                    } else {
                        self.sync[k]
                    },
            ),
            ..self
        }
    }

    /// The tracked markets on one channel of a universe.
    pub open spec fn on_channel(self, s: ScopeId, channel: u32) -> Set<MarketId> {
        Set::new(|k: MarketId| self.markets.has(k) && k.scope == s && k.channel == channel)
    }
}

struct BookMarket {
    order_level: bool,
    arms: Table<Publisher, BookAccumulator>,
    rebaseline: bool,
    withheld: u32,
    rebaselined_ns: u64,
}

impl View for BookMarket {
    type V = BookMarketView;

    closed spec fn view(&self) -> BookMarketView {
        BookMarketView {
            order_level: self.order_level,
            arms: views(self.arms@),
            rebaseline: self.rebaseline,
            withheld: self.withheld,
            rebaselined_ns: self.rebaselined_ns,
        }
    }
}

impl BookMarket {
    fn new() -> (r: Self)
        ensures
            r.arms.wf(),
            r@ == BookMarketView::new(),
    {
        BookMarket {
            order_level: false,
            arms: Table::new(),
            rebaseline: false,
            withheld: 0,
            rebaselined_ns: 0,
        }
    }
}

/// The books of the markets as they were broadcast.
pub type BookReplay = Table<MarketKey, BookAccumulator>;

/// A book gate.
pub struct BookGate {
    books: StickyAuthority,
    markets: Recent<MarketKey, BookMarket>,
    replay: Option<BookReplay>,
    sync: Table<MarketKey, Table<Publisher, PeerState>>,
    events: Table<MarketKey, MarketEvents>,
    dedup_window_ns: u64,
    withhold_logged: bool,
}

spec fn markets_view(r: RecentView<MarketId, BookMarket>) -> RecentView<MarketId, BookMarketView> {
    RecentView { order: r.order, map: views(r.map) }
}

impl View for BookGate {
    type V = GateView;

    closed spec fn view(&self) -> GateView {
        GateView {
            books: self.books@,
            markets: markets_view(self.markets@),
            replay: match self.replay {
                Some(replay) => Some(views(replay@)),
                None => None,
            },
            sync: views(self.sync@),
            events: views(self.events@),
            dedup_window_ns: self.dedup_window_ns,
            withhold_logged: self.withhold_logged,
        }
    }
}

impl BookGate {
    spec fn tables_wf(&self) -> bool {
        &&& self.books.wf()
        &&& self.markets.wf()
        &&& forall|k: MarketId| #[trigger]
            self.markets@.map.contains_key(k) ==> self.markets@.map[k].arms.wf()
        &&& self.replay matches Some(replay) ==> replay.wf()
        &&& self.sync.wf()
        &&& forall|k: MarketId| #[trigger] self.sync@.contains_key(k) ==> self.sync@[k].wf()
        &&& self.events.wf()
        &&& forall|k: MarketId| #[trigger] self.events@.contains_key(k) ==> self.events@[k].wf()
    }

    pub closed spec fn wf(&self) -> bool {
        self.tables_wf() && self@.wf()
    }

    pub proof fn lemma_wf(&self)
        requires
            self.wf(),
        ensures
            self@.wf(),
    {
    }

    pub fn new() -> (r: Self)
        ensures
            r.wf(),
            r@ == (GateView {
                books: AuthorityView::fresh(AuthorityConfig::defaults()),
                markets: RecentView::empty(),
                replay: None,
                sync: Map::empty(),
                events: Map::empty(),
                dedup_window_ns: DEFAULT_BOOK_DEDUP_WINDOW_NS,
                withhold_logged: false,
            }),
    {
        BookGate {
            books: StickyAuthority::new(AuthorityConfig::default()),
            markets: Recent::new(),
            replay: None,
            sync: Table::new(),
            events: Table::new(),
            dedup_window_ns: DEFAULT_BOOK_DEDUP_WINDOW_NS,
            withhold_logged: false,
        }
    }

    /// The authority the book gate elects by.
    pub fn authority(&self) -> (r: &StickyAuthority)
        requires
            self.wf(),
        ensures
            r.wf(),
            r@ == self@.books,
    {
        &self.books
    }

    /// The authority the book gate elects by.
    pub fn authority_mut(&mut self) -> (r: &mut StickyAuthority)
        requires
            old(self).wf(),
        ensures
            r.wf(),
            r@ == old(self)@.books,
            final(self)@ == (GateView { books: final(r)@, ..old(self)@ }),
            final(r).wf() ==> final(self).wf(),
    {
        proof {
            assert forall|t: StickyAuthority| #[trigger] t.wf() implies t@.wf() by {
                t.lemma_wf();
            }
        }
        &mut self.books
    }

    /// Start tracking a market, in place of the oldest if there is no room.
    fn follow(&mut self, fx: &mut Effects, key: &MarketKey)
        requires
            old(self).wf(),
        ensures
            final(self).wf(),
            (final(self)@, final(fx)@) == old(self)@.followed(old(fx)@, key.id()),
            final(self)@.markets.has(key.id()),
    {
        let ghost was = self@;
        let ghost k = key.id();
        if self.markets.contains(key) {
            return ;
        }
        if self.markets.len() >= MAX_BOOK_MARKETS {
            match self.markets.pop() {
                Some((old, _m)) => {
                    let _sync = self.sync.remove(&old);
                    let _events = self.events.remove(&old);
                    match &mut self.replay {
                        Some(replay) => {
                            let _acc = replay.remove(&old);
                        },
                        None => {},
                    }
                    self.books.forget_market(&old);
                    fx.note(&old.scope.venue, What::BookMarketEvicted);
                },
                None => {},
            }
            proof {
                assert(self@ == was.evicted());
                lemma_evicted_wf(was);
                self.markets.lemma_wf();
                assert(!was.evicted().markets.has(k));
            }
        }
        let ghost room = self@;
        self.markets.push(key.dup(), BookMarket::new());
        proof {
            self.markets.lemma_wf();
            lemma_followed_wf(room, k);
        }
    }

    /// The raced events of a market taken out to be changed.
    fn take_events(&mut self, key: &MarketKey) -> (r: MarketEvents)
        requires
            old(self).wf(),
        ensures
            final(self).wf(),
            r.wf(),
            r@ == old(self)@.events_at(key.id()),
            final(self)@ == (GateView { events: old(self)@.events.remove(key.id()), ..old(self)@ }),
    {
        match self.events.remove(key) {
            Some(events) => events,
            None => {
                assert(self@.events =~= old(self)@.events.remove(key.id()));
                MarketEvents::new()
            },
        }
    }

    /// The raced events of a tracked market put back.
    fn put_events(&mut self, key: &MarketKey, events: MarketEvents)
        requires
            old(self).wf(),
            events.wf(),
            old(self)@.markets.has(key.id()),
        ensures
            final(self).wf(),
            final(self)@ == (GateView {
                events: old(self)@.events.insert(key.id(), events@),
                ..old(self)@
            }),
    {
        proof {
            events.lemma_wf();
        }
        self.events.insert(key.dup(), events);
    }

    fn rebaseline_events(&mut self, key: &MarketKey, changes: &Vec<BookChange>, p: Publisher)
        requires
            old(self).wf(),
            old(self)@.markets.has(key.id()),
        ensures
            final(self).wf(),
            final(self)@ == old(self)@.events_rebaselined(key.id(), changes@, p),
    {
        let mut events = self.take_events(key);
        events.rebaselined(changes.as_slice(), p);
        self.put_events(key, events);
        assert(self@.events =~= old(self)@.events.insert(key.id(), events@));
    }

    /// One publisher's standing for a tracked market replaced.
    fn set_peer(&mut self, key: &MarketKey, p: Publisher, st: PeerState)
        requires
            old(self).wf(),
            old(self)@.markets.has(key.id()),
        ensures
            final(self).wf(),
            final(self)@ == old(self)@.with_peer(key.id(), p, st),
    {
        let ghost was = self@;
        let ghost k = key.id();
        match self.sync.find(key) {
            Some(at) => {
                let peers = self.sync.value_at_mut(at);
                peers.insert(p, st);
                assert(self@ == was.with_peer(k, p, st));
            },
            None => {
                let mut peers: Table<Publisher, PeerState> = Table::new();
                peers.insert(p, st);
                self.sync.insert(key.dup(), peers);
                assert(self@ == was.with_peer(k, p, st));
            },
        }
    }

    /// One publisher's standing for a market.
    fn peer(&self, key: &MarketKey, p: Publisher) -> (r: PeerState)
        requires
            self.wf(),
        ensures
            r == self@.peer(key.id(), p),
    {
        match self.sync.get(key) {
            Some(peers) => match peers.get(&p) {
                Some(st) => *st,
                None => PeerState { synced: false, last_batch_ns: 0 },
            },
            None => PeerState { synced: false, last_batch_ns: 0 },
        }
    }

    /// Whether some other publisher of the market serves it.
    fn peer_serving(&self, key: &MarketKey, p: Publisher, mono_ns: u64) -> (r: bool)
        requires
            self.wf(),
        ensures
            r == self@.peer_serving(key.id(), p, mono_ns),
    {
        let ghost k = key.id();
        match self.sync.get(key) {
            None => false,
            Some(peers) => {
                assert(self@.peers(k) == peers@);
                let n: usize = peers.len();
                let mut i: usize = 0;
                while i < n
                    invariant
                        self.wf(),
                        peers.wf(),
                        k == key.id(),
                        self@.peers(k) == peers@,
                        n == peers.items().len(),
                        i <= n,
                        forall|j: int|
                            0 <= j < i ==> {
                                let (q, st) = #[trigger] peers.items()[j];
                                !(q != p && st.synced && st.last_batch_ns != 0 && elapsed(
                                    st.last_batch_ns,
                                    mono_ns,
                                ) <= PEER_SERVING_NS)
                            },
                    decreases n - i,
                {
                    let q = *peers.key_at(i);
                    let st = *peers.value_at(i);
                    if q != p && st.synced && st.last_batch_ns != 0 && elapsed_ns(
                        st.last_batch_ns,
                        mono_ns,
                    ) <= PEER_SERVING_NS {
                        assert(self@.peers(k).contains_key(q));
                        return true;
                    }
                    i += 1;
                }
                proof {
                    assert forall|q: Publisher| #[trigger]
                        self@.peers(k).contains_key(q) implies !(q != p && self@.peers(k)[q].synced
                        && self@.peers(k)[q].last_batch_ns != 0 && elapsed(
                        self@.peers(k)[q].last_batch_ns,
                        mono_ns,
                    ) <= PEER_SERVING_NS) by {
                        let j = peers.lemma_stored(q);
                        assert(peers.items()[j].0 == q);
                    }
                }
                false
            },
        }
    }

    /// Fold one arm's batch into that arm's own book.
    fn accumulate(&mut self, key: &MarketKey, p: Publisher, b: &NormalizedBook)
        requires
            old(self).wf(),
            old(self)@.markets.has(key.id()),
        ensures
            final(self).wf(),
            final(self)@ == old(self)@.accumulated(key.id(), p, b@),
    {
        let ghost was = self@;
        let ghost k = key.id();
        proof {
            assert forall|m: BookMarketView| #[trigger] was.with_market(k, m).wf() by {
                lemma_with_market_wf(was, k, m);
            }
        }
        match self.markets.get_mut(key) {
            Some(m) => {
                match m.arms.find(&p) {
                    Some(at) => {
                        let acc = m.arms.value_at_mut(at);
                        acc.apply(b);
                    },
                    None => {
                        let mut acc = BookAccumulator::new(b.symbol.clone());
                        acc.apply(b);
                        m.arms.insert(p, acc);
                    },
                }
            },
            None => {},
        }
        assert(self@ == was.accumulated(k, p, b@));
    }

    /// Advance the replayed book of a tracked market by a broadcast batch.
    fn apply_replay(&mut self, key: &MarketKey, b: &NormalizedBook)
        requires
            old(self).wf(),
        ensures
            final(self).wf(),
            final(self)@ == old(self)@.replay_applied(key.id(), b@),
    {
        let ghost was = self@;
        let ghost k = key.id();
        match &mut self.replay {
            Some(replay) => {
                match replay.find(key) {
                    Some(at) => {
                        let acc = replay.value_at_mut(at);
                        acc.apply(b);
                    },
                    None => {
                        let mut acc = BookAccumulator::new(b.symbol.clone());
                        acc.apply(b);
                        replay.insert(key.dup(), acc);
                    },
                }
            },
            None => {},
        }
        assert(self@ == was.replay_applied(k, b@));
    }

    /// The market's book as it was broadcast, if all of it is known.
    fn book_from_replay(&self, key: &MarketKey, wall_ns: u64) -> (r: Option<NormalizedBook>)
        requires
            self.wf(),
        ensures
            match (r, self@.replay_book(key.id(), wall_ns)) {
                (Some(book), Some(full)) => book@ == full,
                (None, None) => true,
                _ => false,
            },
    {
        match &self.replay {
            Some(replay) => match replay.get(key) {
                Some(acc) => {
                    if acc.baselined() {
                        Some(acc.to_book(key, wall_ns))
                    } else {
                        None
                    }
                },
                None => None,
            },
            None => None,
        }
    }

    /// Change the plain fields of a tracked market.
    fn set_flags(
        &mut self,
        key: &MarketKey,
        order_level: bool,
        rebaseline: bool,
        withheld: u32,
        rebaselined_ns: u64,
    )
        requires
            old(self).wf(),
            old(self)@.markets.has(key.id()),
        ensures
            final(self).wf(),
            final(self)@ == old(self)@.with_market(
                key.id(),
                BookMarketView {
                    order_level,
                    rebaseline,
                    withheld,
                    rebaselined_ns,
                    ..old(self)@.markets.map[key.id()]
                },
            ),
    {
        let ghost was = self@;
        let ghost k = key.id();
        proof {
            assert forall|m: BookMarketView| #[trigger] was.with_market(k, m).wf() by {
                lemma_with_market_wf(was, k, m);
            }
        }
        match self.markets.get_mut(key) {
            Some(m) => {
                m.order_level = order_level;
                m.rebaseline = rebaseline;
                m.withheld = withheld;
                m.rebaselined_ns = rebaselined_ns;
            },
            None => {},
        }
        assert(self@ == was.with_market(
            k,
            BookMarketView {
                order_level,
                rebaseline,
                withheld,
                rebaselined_ns,
                ..was.markets.map[k]
            },
        ));
    }

    /// The plain fields of a tracked market: order level, re-baseline due, withheld, when re-baselined.
    fn flags(&self, key: &MarketKey) -> (r: Option<(bool, bool, u32, u64)>)
        requires
            self.wf(),
        ensures
            match r {
                Some(f) => {
                    let m = self@.markets.map[key.id()];
                    &&& self@.markets.has(key.id())
                    &&& f == (m.order_level, m.rebaseline, m.withheld, m.rebaselined_ns)
                },
                None => !self@.markets.has(key.id()),
            },
    {
        match self.markets.get(key) {
            Some(m) => Some((m.order_level, m.rebaseline, m.withheld, m.rebaselined_ns)),
            None => None,
        }
    }

    /// Record that `p` reached the wire with `b`.
    fn note_delivery(&mut self, key: &MarketKey, b: &NormalizedBook, p: Publisher, mono_ns: u64)
        requires
            old(self).wf(),
            old(self)@.markets.has(key.id()),
        ensures
            final(self).wf(),
            final(self)@ == old(self)@.delivered(key.id(), b@, p, mono_ns),
            final(self)@.markets.has(key.id()),
    {
        if any_order(&b.changes) {
            match self.flags(key) {
                Some((_, rebaseline, withheld, rebaselined_ns)) => {
                    self.set_flags(key, true, rebaseline, withheld, rebaselined_ns);
                },
                None => {},
            }
        }
        let st = self.peer(key, p);
        self.set_peer(key, p, PeerState { synced: st.synced, last_batch_ns: mono_ns });
    }

    /// Broadcast a batch and advance the replayed book by it.
    fn publish(&mut self, fx: &mut Effects, key: &MarketKey, b: NormalizedBook)
        requires
            old(self).wf(),
        ensures
            final(self).wf(),
            (final(self)@, final(fx)@) == old(self)@.published(old(fx)@, key.id(), b@),
    {
        self.apply_replay(key, &b);
        fx.note(&b.venue, What::Emit(Kind::Book));
        fx.send(FeedMessage::Book(b));
    }

    /// Publish a producer's own re-baseline and re-point the market's race state at it.
    fn clear_led_rebaseline(
        &mut self,
        fx: &mut Effects,
        key: &MarketKey,
        b: NormalizedBook,
        p: Publisher,
        now: Clock,
    )
        requires
            old(self).wf(),
        ensures
            final(self).wf(),
            (final(self)@, final(fx)@) == old(self)@.clear_led_published(
                old(fx)@,
                key.id(),
                b@,
                p,
                now,
            ),
    {
        self.follow(fx, key);
        self.rebaseline_events(key, &b.changes, p);
        match self.flags(key) {
            Some((order_level, _, _, rebaselined_ns)) => {
                self.set_flags(key, order_level, false, 0, rebaselined_ns);
            },
            None => {},
        }
        self.note_delivery(key, &b, p, now.mono_ns);
        self.publish(fx, key, b);
    }

    /// Discharge a forced re-baseline, if it is time; whether the batch itself may follow.
    fn serve_forced_rebaseline(
        &mut self,
        fx: &mut Effects,
        key: &MarketKey,
        b: &NormalizedBook,
        p: Publisher,
        now: Clock,
    ) -> (r: bool)
        requires
            old(self).wf(),
            old(self)@.markets.has(key.id()),
        ensures
            final(self).wf(),
            (final(self)@, final(fx)@, r) == old(self)@.forced_served(
                old(fx)@,
                key.id(),
                b@,
                p,
                now,
            ),
    {
        let ghost was = self@;
        let (order_level, rebaseline, withheld, rebaselined_ns) = match self.flags(key) {
            Some(f) => f,
            None => (false, false, 0, 0),
        };
        let too_soon: bool = rebaselined_ns != 0 && elapsed_ns(rebaselined_ns, now.mono_ns)
            < self.dedup_window_ns;
        if too_soon || (!b.last && withheld < MAX_WITHHELD_BATCHES) {
            self.set_flags(
                key,
                order_level,
                rebaseline,
                withheld.saturating_add(1),
                rebaselined_ns,
            );
            fx.note(&b.venue, What::BookDropped(p));
            return false;
        }
        self.set_flags(key, order_level, false, 0, now.mono_ns);
        fx.note(&b.venue, What::Emit(Kind::Book));
        match self.book_from_replay(key, now.wall_ns) {
            Some(full) => {
                self.rebaseline_events(key, &full.changes, p);
                fx.send(FeedMessage::Book(full));
            },
            None => {
                match &mut self.replay {
                    Some(replay) => {
                        let _acc = replay.remove(key);
                    },
                    None => {},
                }
                let none: Vec<BookChange> = Vec::new();
                self.rebaseline_events(key, &none, p);
                assert(none@ =~= Seq::empty());
                fx.send(FeedMessage::Book(clear_only(b, now.wall_ns)));
            },
        }
        true
    }

    /// Race a batch of deltas change by change.
    fn race_deltas(
        &mut self,
        fx: &mut Effects,
        key: &MarketKey,
        b: NormalizedBook,
        p: Publisher,
        now: Clock,
    )
        requires
            old(self).wf(),
        ensures
            final(self).wf(),
            (final(self)@, final(fx)@) == old(self)@.deltas_raced(
                old(fx)@,
                key.id(),
                b@,
                p,
                now,
            ),
    {
        let ghost k = key.id();
        self.follow(fx, key);
        let ghost g = self@;
        let window: u64 = self.dedup_window_ns;
        let mut events = self.take_events(key);
        let ghost start = events@;
        let mut kept: Vec<BookChange> = Vec::new();
        let mut deduped: u64 = 0;
        let mut disagreed: u64 = 0;
        let mut resurrected: u64 = 0;
        let mut i: usize = 0;
        while i < b.changes.len()
            invariant
                events.wf(),
                i <= b.changes@.len(),
                deduped <= i,
                disagreed <= i,
                resurrected <= i,
                raced(start, b.changes@, i as int, p, b.recv_ts_ns, window) == (Raced {
                    events: events@,
                    kept: kept@,
                    deduped: deduped as int,
                    disagreed: disagreed as int,
                    resurrected: resurrected as int,
                }),
            decreases b.changes@.len() - i,
        {
            let c = b.changes[i];
            if c.order_id == 0 {
                kept.push(c);
            } else {
                match events.offer(OrderEvent::of(&c), p, b.recv_ts_ns, window) {
                    EventVerdict::Deliver => {
                        kept.push(c);
                    },
                    EventVerdict::Duplicate => {
                        deduped += 1;
                    },
                    EventVerdict::Resurrection => {
                        resurrected += 1;
                    },
                    EventVerdict::Disagreement => {
                        disagreed += 1;
                    },
                }
            }
            i += 1;
        }
        let forced = events.take_forced();
        self.put_events(key, events);
        proof {
            assert(self@.events =~= g.events.insert(k, events@));
        }
        fx.note_if(deduped > 0, &b.venue, What::BookEventsDeduped(deduped));
        fx.note_if(resurrected > 0, &b.venue, What::BookResurrectionsDropped(resurrected));
        fx.note_if(disagreed > 0, &b.venue, What::ArmDisagreements(disagreed));
        match forced {
            Some(why) => {
                match self.flags(key) {
                    Some((order_level, _, withheld, rebaselined_ns)) => {
                        self.set_flags(key, order_level, true, withheld, rebaselined_ns);
                    },
                    None => {},
                }
                fx.note(&b.venue, What::ForcedRebaseline(why));
                fx.note(&b.venue, What::BookDropped(p));
            },
            None => {
                if kept.len() > 0 {
                    self.note_delivery(key, &b, p, now.mono_ns);
                    let out = b.with_changes(kept);
                    self.publish(fx, key, out);
                }
            },
        }
    }

    /// Race one batch of an order-level market across a coordinated venue's publishers.
    fn emit_order_level_book(
        &mut self,
        fx: &mut Effects,
        key: &MarketKey,
        b: NormalizedBook,
        p: Publisher,
        now: Clock,
    )
        requires
            old(self).wf(),
        ensures
            final(self).wf(),
            (final(self)@, final(fx)@) == old(self)@.order_level_offered(
                old(fx)@,
                key.id(),
                b@,
                p,
                now,
            ),
    {
        if b.changes.len() > 0 && b.changes[0].action == BookAction::Clear {
            if self.peer_serving(key, p, now.mono_ns) {
                fx.note(&b.venue, What::BookDropped(p));
            } else {
                self.clear_led_rebaseline(fx, key, b, p, now);
            }
            return ;
        }
        let due: bool = match self.flags(key) {
            Some((_, rebaseline, _, _)) => rebaseline,
            None => false,
        };
        if due && !self.serve_forced_rebaseline(fx, key, &b, p, now) {
            return ;
        }
        self.race_deltas(fx, key, b, p, now);
    }

    /// Publish the serving arm's batch, behind a re-baseline if the market changed hands.
    fn serve(
        &mut self,
        fx: &mut Effects,
        key: &MarketKey,
        b: NormalizedBook,
        p: Publisher,
        prev: Option<Publisher>,
        now: Clock,
    )
        requires
            old(self).wf(),
            old(self)@.markets.has(key.id()),
            old(self)@.markets.map[key.id()].arms.contains_key(p),
        ensures
            final(self).wf(),
            (final(self)@, final(fx)@) == old(self)@.served(
                old(fx)@,
                key.id(),
                b@,
                p,
                prev,
                now,
            ),
    {
        let ghost was = self@;
        let ghost k = key.id();
        let (order_level, rebaseline, withheld, rebaselined_ns) = match self.flags(key) {
            Some(f) => f,
            None => (false, false, 0, 0),
        };
        if !rebaseline && prev == Some(p) {
            self.publish(fx, key, b);
            return ;
        }
        if !b.last && withheld < MAX_WITHHELD_BATCHES {
            self.set_flags(key, order_level, true, withheld + 1, rebaselined_ns);
            fx.note(&b.venue, What::BookDropped(p));
            return ;
        }
        self.set_flags(key, order_level, false, 0, rebaselined_ns);
        let warn: bool = !b.last && !self.withhold_logged;
        if !b.last {
            self.withhold_logged = true;
        }
        fx.note_if(warn, &b.venue, What::BookWithholdWarning);
        fx.note(&b.venue, What::Emit(Kind::Book));
        assert(self@.markets.map[k].arms == was.markets.map[k].arms);
        assert(self@.markets.has(k));
        let acc: BookAccumulator = match self.markets.get(key) {
            Some(m) => {
                assert(m@ == self@.markets.map[k]);
                assert(self.markets@.map.contains_key(k));
                match m.arms.get(&p) {
                    Some(acc) => acc.dup(),
                    None => BookAccumulator::new(b.symbol.clone()),
                }
            },
            None => BookAccumulator::new(b.symbol.clone()),
        };
        let full: Option<NormalizedBook> = if acc.baselined() {
            Some(acc.to_book(key, now.wall_ns))
        } else {
            None
        };
        match &mut self.replay {
            Some(replay) => {
                replay.insert(key.dup(), acc);
            },
            None => {},
        }
        proof {
            let m = was.markets.map[k];
            assert(acc@ == m.arms[p]);
            assert(self@ == (GateView {
                withhold_logged: was.withhold_logged || !b.last,
                replay: match was.replay {
                    Some(replay) => Some(replay.insert(k, m.arms[p])),
                    None => None,
                },
                ..was
            }.with_market(k, BookMarketView { rebaseline: false, withheld: 0, ..m })));
        }
        match full {
            Some(full) => {
                fx.send(FeedMessage::Book(full));
            },
            None => {
                fx.send(FeedMessage::Book(clear_only(&b, now.wall_ns)));
                fx.note(&b.venue, What::Emit(Kind::Book));
                fx.send(FeedMessage::Book(b));
            },
        }
    }

    /// Offer one batch of a market served by a single arm.
    fn emit_single_arm_book(
        &mut self,
        fx: &mut Effects,
        key: &MarketKey,
        b: NormalizedBook,
        p: Publisher,
        now: Clock,
    )
        requires
            old(self).wf(),
        ensures
            final(self).wf(),
            (final(self)@, final(fx)@) == old(self)@.single_arm_offered(
                old(fx)@,
                key.id(),
                b@,
                p,
                now,
            ),
    {
        self.follow(fx, key);
        let prev = self.books.last_admitted(key);
        let leader_before = self.books.venue_leader(&key.scope);
        let decision = self.books.offer(key, p, b.recv_ts_ns);
        proof {
            self.books.lemma_wf();
        }
        self.accumulate(key, p, &b);
        if !decision.emitted() {
            fx.note(&b.venue, What::BookDropped(p));
            return ;
        }
        let leader_after = self.books.venue_leader(&key.scope);
        match transfer_reason(prev, leader_before, leader_after, p) {
            Some(reason) => {
                fx.note(&b.venue, What::ArmTransfer(reason));
            },
            None => {},
        }
        self.serve(fx, key, b, p, prev, now);
    }

    /// Offer one batch to the book gate.
    pub fn offer(
        &mut self,
        fx: &mut Effects,
        mode: ArbitrationMode,
        key: &MarketKey,
        b: NormalizedBook,
        p: Publisher,
        now: Clock,
    )
        requires
            old(self).wf(),
        ensures
            final(self).wf(),
            (final(self)@, final(fx)@) == old(self)@.offered(
                old(fx)@,
                mode,
                key.id(),
                b@,
                p,
                now,
            ),
    {
        let ghost before = *self;
        fx.registering(&key.scope.venue, self.books.next_ordinal(&key.scope, p), p);
        let ordinal = self.books.register(&key.scope, p);
        proof {
            self.books.lemma_wf();
            assert(self@ == (GateView {
                books: before@.books.registered(key.id().scope, p),
                ..before@
            }));
            assert(self@.wf());
            assert(self.tables_wf());
        }
        if ordinal.is_none() {
            fx.note(&b.venue, What::BookDropped(p));
            return ;
        }
        let known: bool = match self.flags(key) {
            Some((order_level, _, _, _)) => order_level,
            None => false,
        };
        if mode == ArbitrationMode::Coordinated && (any_order(&b.changes) || known) {
            self.emit_order_level_book(fx, key, b, p, now);
        } else {
            self.emit_single_arm_book(fx, key, b, p, now);
        }
    }

    /// Record whether a publisher's order-level book for a market is in sync.
    ///
    /// A publisher reports itself in sync before it emits the re-baseline that follows a snapshot,
    /// or two that recover together would both conclude they are alone.
    pub fn set_synced(&mut self, fx: &mut Effects, key: &MarketKey, p: Publisher, synced: bool)
        requires
            old(self).wf(),
        ensures
            final(self).wf(),
            (final(self)@, final(fx)@) == old(self)@.synced_set(old(fx)@, key.id(), p, synced),
    {
        let ghost before = *self;
        fx.registering(&key.scope.venue, self.books.next_ordinal(&key.scope, p), p);
        let ordinal = self.books.register(&key.scope, p);
        proof {
            self.books.lemma_wf();
            assert(self@ == (GateView {
                books: before@.books.registered(key.id().scope, p),
                ..before@
            }));
            assert(self@.wf());
            assert(self.tables_wf());
        }
        if ordinal.is_none() {
            return ;
        }
        self.follow(fx, key);
        let st = self.peer(key, p);
        self.set_peer(key, p, PeerState { synced, last_batch_ns: st.last_batch_ns });
    }

    /// Drop a departed publisher's claims to be serving the venue's markets.
    pub fn forget_publisher(&mut self, venue: &String, p: Publisher)
        requires
            old(self).wf(),
        ensures
            final(self).wf(),
            final(self)@ == old(self)@.publisher_forgotten(venue@, p),
    {
        let ghost was = self@;
        let n: usize = self.sync.len();
        let mut i: usize = 0;
        while i < n
            invariant
                self.wf(),
                was == old(self)@,
                n == self.sync.items().len(),
                i <= n,
                self@ == (GateView { sync: self@.sync, ..was }),
                self@.sync.dom() == was.sync.dom(),
                forall|j: int|
                    0 <= j < i ==> self@.sync[(#[trigger] self.sync.items()[j]).0.id()]
                        == was.publisher_forgotten(venue@, p).sync[self.sync.items()[j].0.id()],
                forall|j: int|
                    i <= j < n ==> self@.sync[(#[trigger] self.sync.items()[j]).0.id()]
                        == was.sync[self.sync.items()[j].0.id()],
            decreases n - i,
        {
            let ghost before = *self;
            let ghost items = self.sync.items();
            let ghost id = items[i as int].0.id();
            proof {
                self.sync.lemma_item(i as int);
                assert(self@.sync.dom().contains(id));
                assert(was.sync.dom().contains(id));
                assert(self@.sync[id] == was.sync[id]);
            }
            if self.sync.key_at(i).scope.venue == *venue {
                let peers = self.sync.value_at_mut(i);
                let _st = peers.remove(&p);
                assert(self@.sync == before@.sync.insert(id, was.sync[id].remove(p)));
                assert(self.tables_wf());
                assert forall|k: MarketId| #[trigger] self@.sync.contains_key(k) implies self@.markets.has(
                    k,
                ) by {
                    assert(before@.sync.contains_key(k));
                }
                assert(self@ == (GateView { sync: self@.sync, ..before@ }));
                assert(self@.wf());
            }
            proof {
                assert(self@.sync.dom() =~= was.sync.dom());
                assert forall|j: int| 0 <= j < n && j != i implies (
                #[trigger] self.sync.items()[j]).0.id() != id by {
                    if items[j].0.id() == id {
                        before.sync.lemma_distinct(j, i as int);
                    }
                }
                assert forall|j: int| 0 <= j < n implies (#[trigger] self.sync.items()[j]).0
                    == items[j].0 by {}
            }
            i += 1;
        }
        proof {
            assert forall|k: MarketId| #[trigger] self@.sync.contains_key(k) implies self@.sync[k]
                == was.publisher_forgotten(venue@, p).sync[k] by {
                let j = self.sync.lemma_stored(k);
                assert(self.sync.items()[j].0.id() == k);
            }
            assert forall|k: MarketId| #[trigger] self@.sync.contains_key(k) <==> was.sync.contains_key(
                k,
            ) by {
                assert(self@.sync.dom().contains(k) <==> was.sync.dom().contains(k));
            }
            assert(self@.sync =~= was.publisher_forgotten(venue@, p).sync);
        }
    }

    /// Drop the raced events of one market.
    pub fn reset_events(&mut self, key: &MarketKey)
        requires
            old(self).wf(),
        ensures
            final(self).wf(),
            final(self)@ == (GateView { events: old(self)@.events.remove(key.id()), ..old(self)@ }),
    {
        let _events = self.take_events(key);
    }

    /// Drop every trace of `keys`.
    pub fn reset_markets(&mut self, keys: &Vec<MarketKey>)
        requires
            old(self).wf(),
        ensures
            final(self).wf(),
            final(self)@ == old(self)@.dropped(ids(keys@)),
    {
        let ghost was = self@;
        let ghost m0 = self.markets@;
        self.markets.forget(keys);
        self.books.forget_markets(keys);
        proof {
            assert(keys@.take(0) =~= Seq::empty());
            assert(ids(keys@.take(0)) =~= Set::empty());
            assert(was.sync.remove_keys(Set::empty()) =~= was.sync);
            assert(was.events.remove_keys(Set::empty()) =~= was.events);
            if was.replay is Some {
                assert((was.replay->0).remove_keys(Set::empty()) =~= was.replay->0);
            }
        }
        let mut i: usize = 0;
        while i < keys.len()
            invariant
                self.tables_wf(),
                was == old(self)@,
                i <= keys@.len(),
                self.markets@ == m0.without(ids(keys@)),
                self@ == (GateView {
                    markets: self@.markets,
                    sync: was.sync.remove_keys(ids(keys@.take(i as int))),
                    events: was.events.remove_keys(ids(keys@.take(i as int))),
                    replay: was.replay_without(ids(keys@.take(i as int))),
                    books: was.books.forgotten(ids(keys@)),
                    ..was
                }),
            decreases keys@.len() - i,
        {
            let key = &keys[i];
            let ghost a = ids(keys@.take(i as int));
            let ghost b = ids(keys@.take(i as int + 1));
            let ghost before = *self;
            let _sync = self.sync.remove(key);
            let _events = self.events.remove(key);
            match &mut self.replay {
                Some(replay) => {
                    let _acc = replay.remove(key);
                },
                None => {},
            }
            proof {
                let id = key.id();
                assert(b == a.insert(id)) by {
                    crate::recent::lemma_ids_push(keys@.take(i as int), keys@[i as int]);
                    assert(keys@.take(i as int + 1) =~= keys@.take(i as int).push(keys@[i as int]));
                }
                assert(was.sync.remove_keys(a).remove(id) =~= was.sync.remove_keys(b));
                assert(was.events.remove_keys(a).remove(id) =~= was.events.remove_keys(b));
                if was.replay is Some {
                    assert((was.replay->0).remove_keys(a).remove(id)
                        =~= (was.replay->0).remove_keys(b));
                }
            }
            i += 1;
        }
        proof {
            assert(keys@.take(i as int) =~= keys@);
            assert(self@ == was.dropped(ids(keys@)));
            lemma_dropped_wf(was, ids(keys@));
        }
    }

    /// Drop every market on one channel of a universe, returning how many that were.
    pub fn forget_channel(&mut self, scope: &ScopeKey, channel: u32) -> (r: usize)
        requires
            old(self).wf(),
        ensures
            final(self).wf(),
            final(self)@ == old(self)@.dropped(old(self)@.on_channel(scope.id(), channel)),
            r == old(self)@.on_channel(scope.id(), channel).len(),
    {
        let ghost was = self@;
        let ghost s = scope.id();
        let mut doomed: Vec<MarketKey> = Vec::new();
        let n: usize = self.markets.len();
        let mut i: usize = 0;
        while i < n
            invariant
                self.wf(),
                self@ == was,
                s == scope.id(),
                n == self@.markets.len(),
                i <= n,
                forall|j: int|
                    0 <= j < doomed@.len() ==> exists|o: int|
                        0 <= o < i && (#[trigger] doomed@[j]).id() == #[trigger] was.markets.order[o],
                forall|j: int|
                    0 <= j < doomed@.len() ==> (#[trigger] doomed@[j]).id().scope == s
                        && doomed@[j].id().channel == channel,
                forall|a: int, b: int|
                    0 <= a < b < doomed@.len() ==> (#[trigger] doomed@[a]).id() != (
                    #[trigger] doomed@[b]).id(),
                forall|o: int|
                    0 <= o < i && (#[trigger] was.markets.order[o]).scope == s
                        && was.markets.order[o].channel == channel ==> exists|j: int|
                        0 <= j < doomed@.len() && (#[trigger] doomed@[j]).id()
                            == was.markets.order[o],
            decreases n - i,
        {
            let key = self.markets.key_at(i);
            let ghost before = doomed@;
            assert(key.id() == was.markets.order[i as int]);
            if key.channel == channel && key.scope.same(scope) {
                doomed.push(key.dup());
                proof {
                    assert forall|j: int| 0 <= j < doomed@.len() implies exists|o: int|
                        0 <= o < i + 1 && (#[trigger] doomed@[j]).id()
                            == #[trigger] was.markets.order[o] by {
                        if j < before.len() {
                            let o = choose|o: int|
                                0 <= o < i && before[j].id() == #[trigger] was.markets.order[o];
                            assert(doomed@[j].id() == was.markets.order[o]);
                        } else {
                            assert(doomed@[j].id() == was.markets.order[i as int]);
                        }
                    }
                    assert forall|a: int, b: int| 0 <= a < b < doomed@.len() implies (
                    #[trigger] doomed@[a]).id() != (#[trigger] doomed@[b]).id() by {
                        if b < before.len() {
                            assert(before[a].id() != before[b].id());
                        } else {
                            let o = choose|o: int|
                                0 <= o < i && before[a].id() == #[trigger] was.markets.order[o];
                            assert(was.markets.order[o] != was.markets.order[i as int]);
                        }
                    }
                    assert forall|o: int|
                        0 <= o < i + 1 && (#[trigger] was.markets.order[o]).scope == s
                            && was.markets.order[o].channel == channel implies exists|j: int|
                        0 <= j < doomed@.len() && (#[trigger] doomed@[j]).id()
                            == was.markets.order[o] by {
                        if o < i {
                            let j = choose|j: int|
                                0 <= j < before.len() && (#[trigger] before[j]).id()
                                    == was.markets.order[o];
                            assert(doomed@[j].id() == was.markets.order[o]);
                        } else {
                            assert(doomed@[before.len() as int].id() == was.markets.order[o]);
                        }
                    }
                }
            }
            i += 1;
        }
        proof {
            let gone = was.on_channel(s, channel);
            let names = Seq::new(doomed@.len(), |j: int| doomed@[j].id());
            assert forall|k: MarketId| ids(doomed@).contains(k) == gone.contains(k) by {
                assert(was.markets.map.contains_key(k) <==> was.markets.order.contains(k));
                if ids(doomed@).contains(k) {
                    let j = choose|j: int| 0 <= j < doomed@.len() && (#[trigger] doomed@[j]).id() == k;
                    let o = choose|o: int|
                        0 <= o < n && doomed@[j].id() == #[trigger] was.markets.order[o];
                    assert(was.markets.order[o] == k);
                }
                if gone.contains(k) {
                    let o = was.markets.order.index_of(k);
                    assert(was.markets.order[o] == k);
                }
            }
            assert(ids(doomed@) =~= gone);
            assert(names.no_duplicates());
            names.unique_seq_to_set();
            assert forall|k: MarketId| names.to_set().contains(k) == gone.contains(k) by {
                if ids(doomed@).contains(k) {
                    let j = choose|j: int| 0 <= j < doomed@.len() && (#[trigger] doomed@[j]).id() == k;
                    assert(names[j] == k);
                }
                if names.contains(k) {
                    let j = names.index_of(k);
                    assert(doomed@[j].id() == k);
                }
                assert(ids(doomed@).contains(k) == gone.contains(k));
            }
            assert(names.to_set() =~= gone);
        }
        let count: usize = doomed.len();
        self.reset_markets(&doomed);
        count
    }

    /// How long a delivered order event is remembered.
    pub fn set_dedup_window(&mut self, window_ns: u64)
        requires
            old(self).wf(),
        ensures
            final(self).wf(),
            final(self)@ == (GateView { dedup_window_ns: window_ns, ..old(self)@ }),
    {
        self.dedup_window_ns = window_ns;
    }

    /// Keep the books as they are broadcast in `replay`.
    pub fn set_replay(&mut self, replay: BookReplay)
        requires
            old(self).wf(),
            replay.wf(),
        ensures
            final(self).wf(),
            final(self)@ == (GateView { replay: Some(views(replay@)), ..old(self)@ }),
    {
        self.replay = Some(replay);
    }

    /// The books as they were broadcast.
    pub fn replay(&self) -> (r: Option<&BookReplay>)
        requires
            self.wf(),
        ensures
            match (r, self@.replay) {
                (Some(t), Some(m)) => t.wf() && views(t@) == m,
                (None, None) => true,
                _ => false,
            },
    {
        match &self.replay {
            Some(replay) => Some(replay),
            None => None,
        }
    }

    /// How many markets are tracked.
    pub fn markets_len(&self) -> (r: usize)
        requires
            self.wf(),
        ensures
            r == self@.markets.len(),
    {
        self.markets.len()
    }

    /// The tracked market at position `i`, oldest first.
    pub fn market_at(&self, i: usize) -> (r: &MarketKey)
        requires
            self.wf(),
            i < self@.markets.len(),
        ensures
            r.id() == self@.markets.order[i as int],
    {
        self.markets.key_at(i)
    }

    /// Whether a market is tracked.
    pub fn tracks(&self, key: &MarketKey) -> (r: bool)
        requires
            self.wf(),
        ensures
            r == self@.markets.has(key.id()),
    {
        self.markets.contains(key)
    }

    /// Whether a market must be re-baselined before it is served again.
    pub fn rebaseline_due(&self, key: &MarketKey) -> (r: bool)
        requires
            self.wf(),
        ensures
            r == (self@.markets.has(key.id()) && self@.markets.map[key.id()].rebaseline),
    {
        match self.flags(key) {
            Some((_, rebaseline, _, _)) => rebaseline,
            None => false,
        }
    }

    /// Whether one arm claims a synced book for a market.
    pub fn arm_synced(&self, key: &MarketKey, p: Publisher) -> (r: bool)
        requires
            self.wf(),
        ensures
            r == self@.peer(key.id(), p).synced,
    {
        self.peer(key, p).synced
    }

    /// The raced events of a market.
    pub fn events(&self, key: &MarketKey) -> (r: Option<&MarketEvents>)
        requires
            self.wf(),
        ensures
            match r {
                Some(e) => self@.events.contains_key(key.id()) && e.wf() && e@
                    == self@.events[key.id()],
                None => !self@.events.contains_key(key.id()),
            },
    {
        self.events.get(key)
    }

    /// How many markets have sync claims, and how many have raced events.
    pub fn racing_len(&self) -> (r: (usize, usize))
        requires
            self.wf(),
        ensures
            r.0 == self@.sync.dom().len(),
            r.1 == self@.events.dom().len(),
    {
        proof {
            self.sync.lemma_len();
            self.events.lemma_len();
            assert(self@.sync.dom() =~= self.sync@.dom());
            assert(self@.events.dom() =~= self.events@.dom());
        }
        (self.sync.len(), self.events.len())
    }
}

proof fn lemma_dropped_wf(g: GateView, gone: Set<MarketId>)
    requires
        g.wf(),
    ensures
        g.dropped(gone).wf(),
{
    crate::recent::lemma_without_wf(g.markets, gone);
    let w = g.dropped(gone);
    lemma_forgotten_wf(g.books, gone);
}

proof fn lemma_with_market_wf(g: GateView, k: MarketId, m: BookMarketView)
    requires
        g.wf(),
        g.markets.has(k),
    ensures
        g.with_market(k, m).wf(),
{
    crate::recent::lemma_set_wf(g.markets, k, m);
}

pub proof fn lemma_evicted_wf(g: GateView)
    requires
        g.wf(),
        g.markets.len() > 0,
    ensures
        g.evicted().wf(),
{
    let w = g.evicted();
    let k = g.markets.order[0];
    crate::recent::lemma_pop_wf(g.markets);
    lemma_forgotten_wf(g.books, set![k]);
}

proof fn lemma_followed_wf(g: GateView, k: MarketId)
    requires
        g.wf(),
        !g.markets.has(k),
        g.markets.len() < MAX_BOOK_MARKETS,
    ensures
        (GateView { markets: g.markets.push(k, BookMarketView::new()), ..g }).wf(),
{
    crate::recent::lemma_push_wf(g.markets, k, BookMarketView::new());
}

} // verus!
