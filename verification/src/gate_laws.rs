//! What holds of the book gate as a whole.

use crate::accumulator::{clear_both_spec, AccView};
use crate::authority::law_only_the_serving_arm_is_published;
use crate::book_gate::{
    clear_led, raced, BookMarketView, GateView, PeerState, MAX_BOOK_MARKETS, MAX_WITHHELD_BATCHES,
    PEER_SERVING_NS,
};
use crate::effects::{Clock, EffectsView, MessageView, What};
use crate::floor::elapsed;
use crate::model::{ArbitrationMode, BookChange, BookView, MarketId, Publisher};
use crate::order_race::EventsView;
use vstd::prelude::*;

verus! {

/// `m` is a whole book as one closed event: it opens by clearing what the consumer holds.
pub open spec fn is_rebaseline(m: MessageView) -> bool {
    match m {
        MessageView::Book(b) => b.snapshot && b.last && b.changes.len() > 0 && b.changes[0]
            == clear_both_spec(),
        _ => false,
    }
}

/// A price-aggregated market reaches the wire from one arm: whatever is broadcast for it comes from
/// the arm that then serves it.
pub proof fn law_one_arm_reaches_the_wire(
    g: GateView,
    fx: EffectsView,
    k: MarketId,
    b: BookView,
    p: Publisher,
    now: Clock,
)
    ensures
        ({
            let (after, out) = g.single_arm_offered(fx, k, b, p, now);
            out.sent != fx.sent ==> {
                &&& after.books.market_or_new(k).last_admitted == Some(p)
                &&& after.books.serving(k) == Some(p)
            }
        }),
{
    let (t, _) = g.followed(fx, k);
    law_only_the_serving_arm_is_published(t.books, k, p, b.recv_ts_ns);
}

proof fn lemma_followed(g: GateView, fx: EffectsView, k: MarketId)
    requires
        g.wf(),
    ensures
        g.followed(fx, k).0.wf(),
        g.followed(fx, k).0.markets.has(k),
        g.followed(fx, k).1.sent == fx.sent,
        g.followed(fx, k).0.books.scopes == g.books.scopes,
        g.followed(fx, k).0.books.ordinals == g.books.ordinals,
        g.followed(fx, k).0.replay is Some == g.replay is Some,
        g.replay_tracked() ==> g.followed(fx, k).0.replay_tracked(),
{
    if !g.markets.has(k) {
        if g.markets.len() >= MAX_BOOK_MARKETS {
            lemma_evicted(g);
            lemma_push(g.evicted(), k);
            assert(!g.evicted().markets.has(k));
        } else {
            lemma_push(g, k);
        }
    }
}

proof fn lemma_push(g: GateView, k: MarketId)
    requires
        g.wf(),
        !g.markets.has(k),
        g.markets.len() < MAX_BOOK_MARKETS,
    ensures
        ({
            let w = GateView { markets: g.markets.push(k, BookMarketView::new()), ..g };
            w.wf() && (g.replay_tracked() ==> w.replay_tracked())
        }),
{
    crate::recent::lemma_push_wf(g.markets, k, BookMarketView::new());
}

proof fn lemma_evicted(g: GateView)
    requires
        g.wf(),
        g.markets.len() > 0,
    ensures
        g.evicted().wf(),
        g.replay_tracked() ==> g.evicted().replay_tracked(),
{
    crate::recent::lemma_pop_wf(g.markets);
    crate::book_gate::lemma_evicted_wf(g);
}

/// A market that changes hands, or that is still due a re-baseline, is re-baselined before anything
/// else of it is broadcast: the first message clears what the consumer holds.
pub proof fn law_a_change_of_hands_rebaselines(
    g: GateView,
    fx: EffectsView,
    k: MarketId,
    b: BookView,
    p: Publisher,
    now: Clock,
)
    requires
        g.followed(fx, k).0.books.market_or_new(k).last_admitted != Some(p) || (g.markets.has(k)
            && g.markets.map[k].rebaseline),
    ensures
        ({
            let out = g.single_arm_offered(fx, k, b, p, now).1;
            out.sent == fx.sent || is_rebaseline(out.sent[fx.sent.len() as int])
        }),
{
    let (t, fx1) = g.followed(fx, k);
    let (books, decision) = t.books.offered(k, p, b.recv_ts_ns);
    let after = GateView { books, ..t }.accumulated(k, p, b);
    let acc = after.markets.map[k].arms[p];
    assert(acc.rebuild()[0] == clear_both_spec());
}

/// Nothing of a market that is due a re-baseline is broadcast before the arm closes a logical event,
/// until so many batches were withheld that it is taken not to close any.
pub proof fn law_a_rebaseline_waits_for_the_event_to_close(
    g: GateView,
    fx: EffectsView,
    k: MarketId,
    b: BookView,
    p: Publisher,
    prev: Option<Publisher>,
    now: Clock,
)
    requires
        g.markets.map[k].rebaseline || prev != Some(p),
        !b.last,
        g.markets.map[k].withheld < MAX_WITHHELD_BATCHES,
    ensures
        g.served(fx, k, b, p, prev, now).1.sent == fx.sent,
        g.served(fx, k, b, p, prev, now).0.markets.map[k].rebaseline,
        g.served(fx, k, b, p, prev, now).0.markets.map[k].withheld == g.markets.map[k].withheld + 1,
{
}

/// What is replayed of a market whose serving arm is published is what the wire carried: the book
/// that was republished, or the replayed book advanced by the batch that was broadcast.
pub proof fn law_the_replay_follows_the_wire(
    g: GateView,
    fx: EffectsView,
    k: MarketId,
    b: BookView,
    p: Publisher,
    prev: Option<Publisher>,
    now: Clock,
)
    requires
        g.replay is Some,
    ensures
        ({
            let (after, out) = g.served(fx, k, b, p, prev, now);
            let old_replay = g.replay->0;
            let new_replay = after.replay->0;
            if out.sent == fx.sent {
                after.replay == g.replay
            } else if g.markets.map[k].rebaseline || prev != Some(p) {
                &&& new_replay == old_replay.insert(k, g.markets.map[k].arms[p])
                &&& new_replay[k].baselined ==> out.sent == fx.sent.push(
                    MessageView::Book(new_replay[k].as_book(k, now.wall_ns)),
                )
            } else {
                &&& out.sent == fx.sent.push(MessageView::Book(b))
                &&& new_replay == old_replay.insert(
                    k,
                    (if old_replay.contains_key(k) {
                        old_replay[k]
                    } else {
                        AccView::empty(b.symbol)
                    }).applied(b),
                )
            }
        }),
{
    let sent = g.served(fx, k, b, p, prev, now).1.sent;
    assert(sent == fx.sent || sent.len() > fx.sent.len());
}

/// A dropped market leaves nothing behind: no accumulated book, nothing to replay, no racing state
/// and no record of who was published, so its next batch re-baselines the consumer.
pub proof fn law_a_dropped_market_leaves_no_trace(g: GateView, gone: Set<MarketId>, k: MarketId)
    requires
        g.wf(),
    ensures
        gone.contains(k) ==> {
            let after = g.dropped(gone);
            &&& !after.markets.has(k)
            &&& !after.sync.contains_key(k)
            &&& !after.events.contains_key(k)
            &&& after.replay matches Some(replay) ==> !replay.contains_key(k)
            &&& after.books.market_or_new(k).last_admitted is None
        },
        !gone.contains(k) ==> {
            let after = g.dropped(gone);
            &&& after.markets.has(k) == g.markets.has(k)
            &&& g.markets.has(k) ==> after.markets.map[k] == g.markets.map[k]
            &&& after.sync.contains_key(k) == g.sync.contains_key(k)
            &&& after.events_at(k) == g.events_at(k)
            &&& (after.replay, g.replay) matches (Some(r), Some(o)) ==> r.contains_key(k)
                == o.contains_key(k) && (o.contains_key(k) ==> r[k] == o[k])
            &&& after.books.market_or_new(k) == g.books.market_or_new(k)
        },
{
}

/// To drop one market and then another is to drop both: dropping is the same one by one and all at
/// once.
pub proof fn law_dropping_is_cumulative(g: GateView, a: Set<MarketId>, b: Set<MarketId>)
    ensures
        g.dropped(a).dropped(b) == g.dropped(a.union(b)),
{
    let one = g.dropped(a).dropped(b);
    let all = g.dropped(a.union(b));
    lemma_filter_twice(g.markets.order, a, b);
    assert(one.markets.map =~= all.markets.map);
    assert(one.sync =~= all.sync);
    assert(one.events =~= all.events);
    assert(one.books.markets =~= all.books.markets);
    assert(one.books.market_order =~= all.books.market_order);
    if g.replay is Some {
        assert((one.replay->0) =~= (all.replay->0));
    }
}

proof fn lemma_filter_twice(s: Seq<MarketId>, a: Set<MarketId>, b: Set<MarketId>)
    ensures
        s.filter(|x: MarketId| !a.contains(x)).filter(|x: MarketId| !b.contains(x)) == s.filter(
            |x: MarketId| !a.union(b).contains(x),
        ),
    decreases s.len(),
{
    let fa = |x: MarketId| !a.contains(x);
    let fb = |x: MarketId| !b.contains(x);
    let fab = |x: MarketId| !a.union(b).contains(x);
    reveal(Seq::filter);
    if s.len() > 0 {
        let t = s.drop_last();
        let x = s.last();
        lemma_filter_twice(t, a, b);
        if fa(x) {
            let ft = t.filter(fa);
            assert(ft.push(x).drop_last() =~= ft);
            assert(ft.push(x).filter(fb) == if fb(x) {
                ft.filter(fb).push(x)
            } else {
                ft.filter(fb)
            });
        }
    }
}

/// The tracked markets, and with them everything that is kept per market, stay within the cap.
pub proof fn law_per_market_state_is_bounded(g: GateView)
    requires
        g.wf(),
        g.replay_tracked(),
    ensures
        g.markets.len() <= MAX_BOOK_MARKETS,
        g.sync.dom().finite() && g.sync.dom().len() <= MAX_BOOK_MARKETS,
        g.events.dom().finite() && g.events.dom().len() <= MAX_BOOK_MARKETS,
        g.replay matches Some(replay) ==> replay.dom().finite() && replay.dom().len()
            <= MAX_BOOK_MARKETS,
{
    let all = g.markets.order.to_set();
    g.markets.order.lemma_cardinality_of_set();
    vstd::seq_lib::seq_to_set_is_finite(g.markets.order);
    assert forall|k: MarketId| g.markets.has(k) implies #[trigger] all.contains(k) by {
        assert(g.markets.map.contains_key(k));
    }
    assert(g.sync.dom().subset_of(all)) by {
        assert forall|k: MarketId| g.sync.dom().contains(k) implies all.contains(k) by {
            assert(g.sync.contains_key(k));
        }
    }
    vstd::set_lib::lemma_len_subset(g.sync.dom(), all);
    assert(g.events.dom().subset_of(all)) by {
        assert forall|k: MarketId| g.events.dom().contains(k) implies all.contains(k) by {
            assert(g.events.contains_key(k));
        }
    }
    vstd::set_lib::lemma_len_subset(g.events.dom(), all);
    if g.replay is Some {
        let replay = g.replay->0;
        assert(replay.dom().subset_of(all)) by {
            assert forall|k: MarketId| replay.dom().contains(k) implies all.contains(k) by {
                assert(replay.contains_key(k));
            }
        }
        vstd::set_lib::lemma_len_subset(replay.dom(), all);
    }
}

/// No batch makes the book gate replay a market that is not tracked.
pub proof fn law_only_tracked_markets_are_replayed(
    g: GateView,
    fx: EffectsView,
    mode: ArbitrationMode,
    k: MarketId,
    b: BookView,
    p: Publisher,
    now: Clock,
)
    requires
        g.wf(),
        g.replay_tracked(),
    ensures
        g.offered(fx, mode, k, b, p, now).0.replay_tracked(),
{
    let known = GateView { books: g.books.registered(k.scope, p), ..g };
    let fx = fx.registering(k.scope.0, g.books.next_ordinal(k.scope, p), p);
    if known.books.ordinal(k.scope, p) is Some {
        crate::authority::lemma_registered_wf(g.books, k.scope, p);
        assert(known.wf());
        lemma_order_level_replay(known, fx, k, b, p, now);
        lemma_single_arm_replay(known, fx, k, b, p, now);
    }
}

proof fn lemma_single_arm_replay(
    g: GateView,
    fx: EffectsView,
    k: MarketId,
    b: BookView,
    p: Publisher,
    now: Clock,
)
    requires
        g.wf(),
        g.replay_tracked(),
    ensures
        g.single_arm_offered(fx, k, b, p, now).0.replay_tracked(),
{
    lemma_followed(g, fx, k);
}

proof fn lemma_deltas_replay(
    g: GateView,
    fx: EffectsView,
    k: MarketId,
    b: BookView,
    p: Publisher,
    now: Clock,
)
    requires
        g.wf(),
        g.replay_tracked(),
    ensures
        g.deltas_raced(fx, k, b, p, now).0.replay_tracked(),
{
    lemma_followed(g, fx, k);
}

proof fn lemma_order_level_replay(
    g: GateView,
    fx: EffectsView,
    k: MarketId,
    b: BookView,
    p: Publisher,
    now: Clock,
)
    requires
        g.wf(),
        g.replay_tracked(),
    ensures
        g.order_level_offered(fx, k, b, p, now).0.replay_tracked(),
{
    lemma_followed(g, fx, k);
    if !clear_led(b.changes) {
        if g.markets.has(k) && g.markets.map[k].rebaseline {
            let (f, fx1, go) = g.forced_served(fx, k, b, p, now);
            if go {
                assert(f.markets.has(k));
                assert(f.replay_tracked());
                assert(f.followed(fx1, k) == (f, fx1));
            }
        } else {
            lemma_deltas_replay(g, fx, k, b, p, now);
        }
    }
}

/// From `g` to `after`, the state of the market `other` is unchanged.
pub open spec fn untouched(g: GateView, after: GateView, other: MarketId) -> bool {
    &&& after.markets.has(other)
    &&& after.markets.map[other] == g.markets.map[other]
    &&& after.events_at(other) == g.events_at(other)
    &&& after.peers(other) == g.peers(other)
    &&& (after.replay, g.replay) matches (Some(r), Some(o)) ==> r.contains_key(other)
        == o.contains_key(other) && (o.contains_key(other) ==> r[other] == o[other])
    &&& after.replay is Some == g.replay is Some
}

/// There is room for `k`, or `other` is not the market that makes it.
pub open spec fn spares(g: GateView, k: MarketId, other: MarketId) -> bool {
    &&& other != k
    &&& g.markets.has(other)
    &&& g.markets.has(k) || g.markets.len() < MAX_BOOK_MARKETS || g.markets.order[0] != other
}

proof fn lemma_followed_spares(g: GateView, fx: EffectsView, k: MarketId, other: MarketId)
    requires
        spares(g, k, other),
    ensures
        untouched(g, g.followed(fx, k).0, other),
{
}

proof fn lemma_deltas_spare(
    g: GateView,
    fx: EffectsView,
    k: MarketId,
    b: BookView,
    p: Publisher,
    now: Clock,
    other: MarketId,
)
    requires
        spares(g, k, other),
    ensures
        untouched(g, g.deltas_raced(fx, k, b, p, now).0, other),
{
    lemma_followed_spares(g, fx, k, other);
}

proof fn lemma_clear_led_spares(
    g: GateView,
    fx: EffectsView,
    k: MarketId,
    b: BookView,
    p: Publisher,
    now: Clock,
    other: MarketId,
)
    requires
        spares(g, k, other),
    ensures
        untouched(g, g.clear_led_published(fx, k, b, p, now).0, other),
{
    lemma_followed_spares(g, fx, k, other);
}

proof fn lemma_forced_spares(
    g: GateView,
    fx: EffectsView,
    k: MarketId,
    b: BookView,
    p: Publisher,
    now: Clock,
    other: MarketId,
)
    requires
        spares(g, k, other),
        g.markets.has(k),
    ensures
        untouched(g, g.forced_served(fx, k, b, p, now).0, other),
        g.forced_served(fx, k, b, p, now).0.markets.has(k),
{
}

proof fn lemma_order_level_spares(
    g: GateView,
    fx: EffectsView,
    k: MarketId,
    b: BookView,
    p: Publisher,
    now: Clock,
    other: MarketId,
)
    requires
        spares(g, k, other),
    ensures
        untouched(g, g.order_level_offered(fx, k, b, p, now).0, other),
{
    if clear_led(b.changes) {
        lemma_clear_led_spares(g, fx, k, b, p, now, other);
    } else if g.markets.has(k) && g.markets.map[k].rebaseline {
        lemma_forced_spares(g, fx, k, b, p, now, other);
        let (f, fx1, _) = g.forced_served(fx, k, b, p, now);
        lemma_deltas_spare(f, fx1, k, b, p, now, other);
    } else {
        lemma_deltas_spare(g, fx, k, b, p, now, other);
    }
}

proof fn lemma_served_spares(
    g: GateView,
    fx: EffectsView,
    k: MarketId,
    b: BookView,
    p: Publisher,
    prev: Option<Publisher>,
    now: Clock,
    other: MarketId,
)
    requires
        spares(g, k, other),
        g.markets.has(k),
    ensures
        untouched(g, g.served(fx, k, b, p, prev, now).0, other),
{
}

proof fn lemma_single_arm_spares(
    g: GateView,
    fx: EffectsView,
    k: MarketId,
    b: BookView,
    p: Publisher,
    now: Clock,
    other: MarketId,
)
    requires
        spares(g, k, other),
    ensures
        untouched(g, g.single_arm_offered(fx, k, b, p, now).0, other),
{
    lemma_followed_spares(g, fx, k, other);
    let (t, fx1) = g.followed(fx, k);
    let prev = t.books.market_or_new(k).last_admitted;
    let (books, decision) = t.books.offered(k, p, b.recv_ts_ns);
    let after = GateView { books, ..t }.accumulated(k, p, b);
    assert(t.markets.has(k));
    assert(untouched(t, after, other));
    assert forall|fx2: EffectsView|
        untouched(after, (#[trigger] after.served(fx2, k, b, p, prev, now)).0, other) by {
        lemma_served_spares(after, fx2, k, b, p, prev, now, other);
    }
}

/// A batch leaves every other market as it was, but for the oldest, which goes if there is no room.
pub proof fn law_a_batch_leaves_other_markets_alone(
    g: GateView,
    fx: EffectsView,
    mode: ArbitrationMode,
    k: MarketId,
    b: BookView,
    p: Publisher,
    now: Clock,
    other: MarketId,
)
    requires
        spares(g, k, other),
    ensures
        untouched(g, g.offered(fx, mode, k, b, p, now).0, other),
{
    let known = GateView { books: g.books.registered(k.scope, p), ..g };
    let fx = fx.registering(k.scope.0, g.books.next_ordinal(k.scope, p), p);
    assert(untouched(g, known, other));
    lemma_order_level_spares(known, fx, k, b, p, now, other);
    lemma_single_arm_spares(known, fx, k, b, p, now, other);
}

/// Raced deltas that two publishers disagree about are not published, nor is the rest of their
/// batch: the market is re-baselined first.
pub proof fn law_a_disagreement_publishes_nothing(
    g: GateView,
    fx: EffectsView,
    k: MarketId,
    b: BookView,
    p: Publisher,
    now: Clock,
)
    requires
        g.wf(),
        ({
            let t = g.followed(fx, k).0;
            raced(
                t.events_at(k),
                b.changes,
                b.changes.len() as int,
                p,
                b.recv_ts_ns,
                t.dedup_window_ns,
            ).disagreed > 0
        }),
    ensures
        g.deltas_raced(fx, k, b, p, now).1.sent == fx.sent,
        g.deltas_raced(fx, k, b, p, now).0.markets.map[k].rebaseline,
{
    lemma_followed(g, fx, k);
    let t = g.followed(fx, k).0;
    lemma_disagreed_is_forced(
        t.events_at(k),
        b.changes,
        b.changes.len() as int,
        p,
        b.recv_ts_ns,
        t.dedup_window_ns,
    );
}

proof fn lemma_disagreed_is_forced(
    events: EventsView,
    changes: Seq<BookChange>,
    n: int,
    p: Publisher,
    arrival_ns: u64,
    window_ns: u64,
)
    ensures
        raced(events, changes, n, p, arrival_ns, window_ns).disagreed >= 0,
        raced(events, changes, n, p, arrival_ns, window_ns).disagreed > 0 ==> raced(
            events,
            changes,
            n,
            p,
            arrival_ns,
            window_ns,
        ).events.forced is Some,
    decreases n,
{
    if n > 0 {
        lemma_disagreed_is_forced(events, changes, n - 1, p, arrival_ns, window_ns);
    }
}

/// A forced re-baseline republishes what the wire agreed on, never an arm's own claim: what is sent
/// is the replayed book, or an empty one if not all of it is known.
pub proof fn law_a_forced_rebaseline_republishes_the_wire(
    g: GateView,
    fx: EffectsView,
    k: MarketId,
    b: BookView,
    p: Publisher,
    now: Clock,
)
    requires
        g.markets.has(k),
    ensures
        ({
            let (after, out, go) = g.forced_served(fx, k, b, p, now);
            if go {
                &&& out.sent.len() == fx.sent.len() + 1
                &&& is_rebaseline(out.sent.last())
                &&& match g.replay_book(k, now.wall_ns) {
                    Some(full) => out.sent.last() == MessageView::Book(full),
                    None => out.sent.last() matches MessageView::Book(book) && book.changes
                        == seq![clear_both_spec()],
                }
                &&& !after.markets.map[k].rebaseline
            } else {
                &&& out.sent == fx.sent
                &&& after.markets.map[k].rebaseline == g.markets.map[k].rebaseline
            }
        }),
{
    if g.replay is Some && (g.replay->0).contains_key(k) {
        assert((g.replay->0)[k].rebuild()[0] == clear_both_spec());
    }
}

/// A publisher in sync that has just published its re-baseline protects the market: another
/// publisher's re-baseline is dropped while that claim lasts.
pub proof fn law_recoveries_produce_one_rebaseline(
    g: GateView,
    fx: EffectsView,
    k: MarketId,
    b: BookView,
    p: Publisher,
    now: Clock,
    fx2: EffectsView,
    c: BookView,
    q: Publisher,
    later: Clock,
)
    requires
        g.wf(),
        g.markets.has(k),
        g.peer(k, p).synced,
        clear_led(b.changes),
        !g.peer_serving(k, p, now.mono_ns),
        clear_led(c.changes),
        q != p,
        now.mono_ns != 0,
        elapsed(now.mono_ns, later.mono_ns) <= PEER_SERVING_NS,
    ensures
        ({
            let (after, out) = g.order_level_offered(fx, k, b, p, now);
            &&& out.sent == fx.sent.push(MessageView::Book(b))
            &&& after.order_level_offered(fx2, k, c, q, later).1.sent == fx2.sent
        }),
{
    let after = g.order_level_offered(fx, k, b, p, now).0;
    assert(after.peers(k).contains_key(p));
    assert(after.peers(k)[p] == (PeerState { synced: true, last_batch_ns: now.mono_ns }));
}

/// A claim lapses: once every other publisher is out of sync, departed or has been quiet for longer
/// than the claim lasts, a re-baseline goes out.
pub proof fn law_a_rebaseline_is_never_held_for_good(
    g: GateView,
    fx: EffectsView,
    k: MarketId,
    b: BookView,
    p: Publisher,
    now: Clock,
)
    requires
        g.wf(),
        clear_led(b.changes),
        forall|q: Publisher| #[trigger]
            g.peers(k).contains_key(q) && q != p ==> !g.peers(k)[q].synced || g.peers(
                k,
            )[q].last_batch_ns == 0 || elapsed(g.peers(k)[q].last_batch_ns, now.mono_ns)
                > PEER_SERVING_NS,
    ensures
        g.order_level_offered(fx, k, b, p, now).1.sent == fx.sent.push(MessageView::Book(b)),
{
    lemma_followed(g, fx, k);
}

/// A departed publisher's claims end at once, in its venue and there alone.
pub proof fn law_a_departed_publisher_claims_nothing(
    g: GateView,
    venue: Seq<char>,
    p: Publisher,
    k: MarketId,
    q: Publisher,
)
    ensures
        k.scope.0 == venue ==> !g.publisher_forgotten(venue, p).peers(k).contains_key(p),
        k.scope.0 != venue || q != p ==> g.publisher_forgotten(venue, p).peer(k, q) == g.peer(k, q),
{
}

} // verus!
