//! What the book gate broadcasts and keeps of one batch.

use crate::accumulator::AccView;
use crate::book_gate::{raced, transfer_reason_spec, GateView, PeerState};
use crate::effects::{Clock, EffectsView, MessageView, NoteView, Transfer, What};
use crate::floor::Admit;
use crate::model::{
    ArbitrationMode, BookAction, BookChange, BookSide, BookView, MarketId, Publisher, ScopeId,
};
use crate::order_race::{EventVerdict, EventsView, OrderEvent};
use vstd::prelude::*;

verus! {

/// A batch by an arm that no ordinal of the universe is left for changes nothing and is not
/// broadcast. One of a coordinated venue that names an order, or whose market has seen one that
/// did, is raced order by order; any other is served by one arm.
pub proof fn law_which_way_a_batch_goes(
    g: GateView,
    fx: EffectsView,
    mode: ArbitrationMode,
    k: MarketId,
    b: BookView,
    p: Publisher,
    now: Clock,
)
    requires
        g.wf(),
    ensures
        ({
            let had = g.books.eligible_arms(k.scope);
            let fx1 = if had.contains(p) || had.len() >= 8 {
                fx
            } else {
                fx.note(
                    k.scope.0,
                    What::ArmRegistered { ordinal: had.len() as usize, publisher: p },
                )
            };
            let known = GateView { books: g.books.registered(k.scope, p), ..g };
            let orders = (exists|i: int|
                0 <= i < b.changes.len() && (#[trigger] b.changes[i]).order_id != 0) || (g.markets.has(
                k,
            ) && g.markets.map[k].order_level);
            let out = g.offered(fx, mode, k, b, p, now);
            if !had.contains(p) && had.len() >= 8 {
                out.0 == g && out.1.sent == fx.sent
            } else if mode == ArbitrationMode::Coordinated && orders {
                out == known.order_level_offered(fx1, k, b, p, now)
            } else {
                out == known.single_arm_offered(fx1, k, b, p, now)
            }
        }),
{
    crate::authority_laws::law_ordinals_are_given_in_order(g.books, k.scope, p);
    let had = g.books.eligible_arms(k.scope);
    let now_has = g.books.registered(k.scope, p).eligible_arms(k.scope);
    if had.contains(p) {
        let i = had.index_of(p);
        assert(had[i] == p);
        assert(now_has[i] == p);
        assert(now_has.contains(p));
    } else if had.len() < 8 {
        assert(now_has[had.len() as int] == p);
        assert(now_has.contains(p));
    }
}

/// A book emptied, told in the name of the batch `b`.
pub open spec fn empties_book(m: MessageView, b: BookView, wall_ns: u64) -> bool {
    match m {
        MessageView::Book(c) => {
            &&& c.changes.len() == 1
            &&& c.changes[0].action == BookAction::Clear && c.changes[0].side == BookSide::Both
            &&& c.snapshot && c.last
            &&& c.recv_ts_ns == wall_ns
            &&& c.venue == b.venue && c.category == b.category && c.channel == b.channel
                && c.instrument_id == b.instrument_id && c.symbol == b.symbol && c.source == b.source
                && c.source_id == b.source_id && c.source_ts_ns == b.source_ts_ns
        },
        _ => false,
    }
}

/// A batch of a tracked market that one arm serves is added to its own arm's book, whoever serves.
/// It is broadcast as it is if the authority publishes its arm, the same arm was published before,
/// and no re-baseline is due. If one is due, or the market changes hands, nothing is broadcast
/// while the event is open, for up to 8,192 batches; then the arm's whole book is, or the book
/// emptied and the batch behind it where the arm's book is not known whole.
pub proof fn law_a_single_arm_is_broadcast(
    g: GateView,
    fx: EffectsView,
    k: MarketId,
    b: BookView,
    p: Publisher,
    now: Clock,
)
    requires
        g.wf(),
        g.markets.has(k),
    ensures
        ({
            let m = g.markets.map[k];
            let prev = if g.books.markets.contains_key(k) {
                g.books.markets[k].last_admitted
            } else {
                None
            };
            let (books, decision) = g.books.offered(k, p, b.recv_ts_ns);
            let (w, out) = g.single_arm_offered(fx, k, b, p, now);
            let n = w.markets.map[k];
            let mine = (if m.arms.contains_key(p) {
                m.arms[p]
            } else {
                AccView::empty(b.symbol)
            }).applied(b);
            let due = m.rebaseline || prev != Some(p);
            let open = !b.last && m.withheld < 8192;
            &&& w.books == books
            &&& w.markets.order == g.markets.order
            &&& n.arms == m.arms.insert(p, mine)
            &&& n.order_level == m.order_level && n.rebaselined_ns == m.rebaselined_ns
            &&& !(decision is Emitted) ==> out.sent == fx.sent && w.replay == g.replay && n.rebaseline
                == m.rebaseline && n.withheld == m.withheld
            &&& decision is Emitted && !due ==> out.sent == fx.sent.push(MessageView::Book(b))
                && !n.rebaseline && n.withheld == m.withheld
            &&& decision is Emitted && due && open ==> out.sent == fx.sent && w.replay == g.replay
                && n.rebaseline && n.withheld == m.withheld + 1
            &&& decision is Emitted && due && !open ==> {
                &&& !n.rebaseline && n.withheld == 0
                &&& w.replay == (match g.replay {
                    Some(r) => Some(r.insert(k, mine)),
                    None => None,
                })
                &&& mine.baselined ==> out.sent == fx.sent.push(
                    MessageView::Book(mine.as_book(k, now.wall_ns)),
                )
                &&& !mine.baselined ==> out.sent.len() == fx.sent.len() + 2 && out.sent.take(
                    fx.sent.len() as int,
                ) == fx.sent && empties_book(out.sent[fx.sent.len() as int], b, now.wall_ns)
                    && out.sent.last() == MessageView::Book(b)
            }
        }),
{
    let (w, out) = g.single_arm_offered(fx, k, b, p, now);
    assert(g.followed(fx, k) == (g, fx));
    assert(out.sent.take(fx.sent.len() as int) =~= fx.sent);
}

/// Why a market moved: the universe had no leader, its leader changed, or an arm that does not lead
/// is published that was not before. Otherwise it did not, or to the leader back from an override.
pub proof fn law_why_a_market_moved(
    prev: Option<Publisher>,
    before: Option<Publisher>,
    after: Option<Publisher>,
    p: Publisher,
)
    ensures
        ({
            let why = transfer_reason_spec(prev, before, after, p);
            &&& why == Some(Transfer::Initial) <==> before is None
            &&& why == Some(Transfer::Silence) <==> before is Some && after != before
            &&& why == Some(Transfer::Health) <==> before is Some && after == before && after != Some(p)
                && prev != Some(p)
        }),
{
}

/// A market that is tracked stays where it is; one that is not is tracked behind the others, with
/// nothing known of it, and past 16,384 of them the oldest is dropped with all that is kept of it,
/// and told.
pub proof fn law_the_oldest_market_makes_room(g: GateView, fx: EffectsView, k: MarketId)
    requires
        g.wf(),
    ensures
        ({
            let (w, out) = g.followed(fx, k);
            let full = g.markets.len() == 16_384;
            let old = g.markets.order[0];
            &&& out.sent == fx.sent
            &&& g.markets.has(k) ==> w == g && out == fx
            &&& !g.markets.has(k) ==> {
                let m = w.markets.map[k];
                &&& w.markets.has(k)
                &&& w.markets.order.last() == k
                &&& !m.order_level && !m.rebaseline && m.withheld == 0 && m.rebaselined_ns == 0
                    && m.arms.dom().is_empty()
                &&& !full ==> w.markets.len() == g.markets.len() + 1 && w.sync == g.sync && w.events
                    == g.events && w.replay == g.replay && w.books == g.books && out == fx
                &&& full ==> {
                    &&& w.markets.len() == 16_384
                    &&& !w.markets.has(old)
                    &&& !w.sync.contains_key(old) && !w.events.contains_key(old)
                    &&& w.replay matches Some(r) ==> !r.contains_key(old)
                    &&& !w.books.markets.contains_key(old)
                    &&& out.notes == fx.notes.push(
                        NoteView { venue: old.scope.0, what: What::BookMarketEvicted },
                    )
                }
                &&& forall|o: MarketId|
                    o != k && !(full && o == old) ==> (#[trigger] w.markets.has(o) <==> g.markets.has(o))
                &&& forall|o: MarketId|
                    o != k && #[trigger] w.markets.has(o) ==> w.markets.map[o] == g.markets.map[o]
            }
        }),
{
    let w = g.followed(fx, k).0;
    if !g.markets.has(k) {
        assert(w.markets.map[k].arms.dom() =~= Set::empty());
        if g.markets.len() == 16_384 {
            let old = g.markets.order[0];
            assert(g.markets.order.contains(old));
            assert(g.markets.map.contains_key(old));
        }
    }
}

/// Another publisher of the market is in sync and delivered a batch no more than thirty seconds ago.
pub open spec fn is_served(g: GateView, k: MarketId, p: Publisher, mono_ns: u64) -> bool {
    g.sync.contains_key(k) && exists|q: Publisher| #[trigger]
        g.sync[k].contains_key(q) && q != p && g.sync[k][q].synced && g.sync[k][q].last_batch_ns != 0
            && mono_ns <= g.sync[k][q].last_batch_ns + 30_000_000_000
}

/// A batch of an order-level market that opens with a clear is broadcast exactly if no other
/// publisher serves the market; broadcast, it discharges a re-baseline that was due, it is the
/// publisher's latest, and the race starts over from its book. Otherwise it changes nothing.
pub proof fn law_a_rebaseline_is_broadcast_where_nobody_serves(
    g: GateView,
    fx: EffectsView,
    k: MarketId,
    b: BookView,
    p: Publisher,
    now: Clock,
)
    requires
        g.wf(),
        g.markets.has(k),
        b.changes.len() > 0,
        b.changes[0].action == BookAction::Clear,
    ensures
        ({
            let (w, out) = g.order_level_offered(fx, k, b, p, now);
            let m = g.markets.map[k];
            let n = w.markets.map[k];
            let names = exists|i: int|
                0 <= i < b.changes.len() && (#[trigger] b.changes[i]).order_id != 0;
            if is_served(g, k, p, now.mono_ns) {
                w == g && out.sent == fx.sent
            } else {
                &&& out.sent == fx.sent.push(MessageView::Book(b))
                &&& !n.rebaseline && n.withheld == 0 && n.arms == m.arms
                &&& n.order_level == (m.order_level || names)
                &&& w.events[k] == g.events_at(k).rebaselined(b.changes, p)
                &&& w.sync[k][p].last_batch_ns == now.mono_ns
                &&& w.sync[k][p].synced == g.peer(k, p).synced
                &&& w.replay == g.replay_applied(k, b).replay
            }
        }),
{
    assert(g.followed(fx, k) == (g, fx));
    if g.peer_serving(k, p, now.mono_ns) {
        let q = choose|q: Publisher| #[trigger]
            g.peers(k).contains_key(q) && q != p && g.peers(k)[q].synced && g.peers(
                k,
            )[q].last_batch_ns != 0 && crate::floor::elapsed(
                g.peers(k)[q].last_batch_ns,
                now.mono_ns,
            ) <= crate::book_gate::PEER_SERVING_NS;
        assert(g.sync.contains_key(k) && g.sync[k].contains_key(q));
    }
    if is_served(g, k, p, now.mono_ns) {
        let q = choose|q: Publisher| #[trigger]
            g.sync[k].contains_key(q) && q != p && g.sync[k][q].synced && g.sync[k][q].last_batch_ns
                != 0 && now.mono_ns <= g.sync[k][q].last_batch_ns + 30_000_000_000;
        assert(g.peers(k).contains_key(q));
    }
}

/// What became of change number `i` of a raced batch.
pub open spec fn verdict_at(
    events: EventsView,
    changes: Seq<BookChange>,
    i: int,
    p: Publisher,
    arrival_ns: u64,
    window_ns: u64,
) -> EventVerdict {
    raced(events, changes, i, p, arrival_ns, window_ns).events.step(
        OrderEvent::of_spec(changes[i]),
        p,
        arrival_ns,
        window_ns,
    ).1
}

/// The places of the changes that are published: those that name no order, and those that are
/// delivered.
pub open spec fn published_places(
    events: EventsView,
    changes: Seq<BookChange>,
    n: int,
    p: Publisher,
    arrival_ns: u64,
    window_ns: u64,
) -> Seq<int> {
    Seq::new(n as nat, |i: int| i).filter(
        |i: int|
            changes[i].order_id == 0 || verdict_at(events, changes, i, p, arrival_ns, window_ns)
                == EventVerdict::Deliver,
    )
}

/// A raced batch is published without the changes that are not delivered, the others in order; each
/// of those is counted for what it was. A change that names no order changes nothing in the race.
pub proof fn law_a_raced_batch_keeps_what_is_delivered(
    events: EventsView,
    changes: Seq<BookChange>,
    n: int,
    p: Publisher,
    arrival_ns: u64,
    window_ns: u64,
)
    requires
        0 <= n <= changes.len(),
    ensures
        ({
            let r = raced(events, changes, n, p, arrival_ns, window_ns);
            let at = published_places(events, changes, n, p, arrival_ns, window_ns);
            let of = |v: EventVerdict| Seq::new(n as nat, |i: int| i).filter(
                |i: int|
                    changes[i].order_id != 0 && verdict_at(
                        events,
                        changes,
                        i,
                        p,
                        arrival_ns,
                        window_ns,
                    ) == v,
            ).len() as int;
            &&& r.kept.len() == at.len()
            &&& forall|x: int| 0 <= x < at.len() ==> #[trigger] r.kept[x] == changes[at[x]]
            &&& r.deduped == of(EventVerdict::Duplicate)
            &&& r.resurrected == of(EventVerdict::Resurrection)
            &&& r.disagreed == of(EventVerdict::Disagreement)
            &&& n > 0 ==> r.events == (if changes[n - 1].order_id == 0 {
                raced(events, changes, n - 1, p, arrival_ns, window_ns).events
            } else {
                raced(events, changes, n - 1, p, arrival_ns, window_ns).events.step(
                    OrderEvent::of_spec(changes[n - 1]),
                    p,
                    arrival_ns,
                    window_ns,
                ).0
            })
        }),
    decreases n,
{
    reveal(Seq::filter);
    if n > 0 {
        law_a_raced_batch_keeps_what_is_delivered(events, changes, n - 1, p, arrival_ns, window_ns);
        let all = Seq::new(n as nat, |i: int| i);
        assert(all.drop_last() =~= Seq::new((n - 1) as nat, |i: int| i));
        assert(all.last() == n - 1);
    }
}

/// Raced deltas of a tracked market that no re-baseline is due for: if nothing forces one, what is
/// kept of them is broadcast as one batch, otherwise like the one that came, or nothing if nothing
/// is kept; if something does, nothing is broadcast and a re-baseline is due.
pub proof fn law_raced_deltas_are_broadcast(
    g: GateView,
    fx: EffectsView,
    k: MarketId,
    b: BookView,
    p: Publisher,
    now: Clock,
)
    requires
        g.wf(),
        g.markets.has(k),
        !g.markets.map[k].rebaseline,
        b.changes.len() == 0 || b.changes[0].action != BookAction::Clear,
    ensures
        ({
            let r = raced(
                g.events_at(k),
                b.changes,
                b.changes.len() as int,
                p,
                b.recv_ts_ns,
                g.dedup_window_ns,
            );
            let (w, out) = g.order_level_offered(fx, k, b, p, now);
            let names = exists|i: int|
                0 <= i < b.changes.len() && (#[trigger] b.changes[i]).order_id != 0;
            &&& w.events[k].seen == r.events.seen && w.events[k].resting == r.events.resting
                && w.events[k].forced is None
            &&& w.books == g.books
            &&& r.events.forced is Some ==> out.sent == fx.sent && w.markets.map[k].rebaseline
                && w.replay == g.replay && w.sync == g.sync && out.notes.contains(
                NoteView { venue: b.venue, what: What::ForcedRebaseline(r.events.forced->0) },
            )
            &&& r.events.forced is None && r.kept.len() == 0 ==> out.sent == fx.sent && w.replay
                == g.replay && w.sync == g.sync && w.markets == g.markets
            &&& r.events.forced is None && r.kept.len() > 0 ==> {
                let sent = BookView { changes: r.kept, ..b };
                &&& out.sent == fx.sent.push(MessageView::Book(sent))
                &&& !w.markets.map[k].rebaseline
                &&& w.markets.map[k].order_level == (g.markets.map[k].order_level || names)
                &&& w.sync[k][p].last_batch_ns == now.mono_ns
                &&& w.sync[k][p].synced == g.peer(k, p).synced
                &&& w.replay == g.replay_applied(k, sent).replay
            }
        }),
{
    assert(g.followed(fx, k) == (g, fx));
    let r = raced(
        g.events_at(k),
        b.changes,
        b.changes.len() as int,
        p,
        b.recv_ts_ns,
        g.dedup_window_ns,
    );
    let (w, out) = g.order_level_offered(fx, k, b, p, now);
    if r.events.forced is Some {
        assert(out.notes[out.notes.len() - 2] == NoteView {
            venue: b.venue,
            what: What::ForcedRebaseline(r.events.forced->0),
        });
    }
}

/// A re-baseline that is due is held back, and the batch with it, while the last one is younger
/// than the dedup window, and while the event is open for up to 8,192 batches; then the book as it
/// was broadcast is, if it is known whole, else the book emptied, and it is due no longer.
pub proof fn law_a_due_rebaseline_waits_its_turn(
    g: GateView,
    fx: EffectsView,
    k: MarketId,
    b: BookView,
    p: Publisher,
    now: Clock,
)
    requires
        g.markets.has(k),
    ensures
        ({
            let m = g.markets.map[k];
            let (w, out, go) = g.forced_served(fx, k, b, p, now);
            let n = w.markets.map[k];
            let soon = m.rebaselined_ns != 0 && now.mono_ns < m.rebaselined_ns + g.dedup_window_ns
                && g.dedup_window_ns > 0;
            let whole = g.replay is Some && (g.replay->0).contains_key(k) && (g.replay->0)[k].baselined;
            &&& go <==> !soon && (b.last || m.withheld >= 8192)
            &&& !go ==> out.sent == fx.sent && n.rebaseline == m.rebaseline && n.rebaselined_ns
                == m.rebaselined_ns && (n.withheld == m.withheld + 1 || m.withheld == u32::MAX
                && n.withheld == u32::MAX) && w.events == g.events && w.replay == g.replay
            &&& go ==> !n.rebaseline && n.withheld == 0 && n.rebaselined_ns == now.mono_ns
            &&& go && whole ==> {
                let full = (g.replay->0)[k].as_book(k, now.wall_ns);
                &&& out.sent == fx.sent.push(MessageView::Book(full))
                &&& w.replay == g.replay
                &&& w.events[k] == g.events_at(k).rebaselined(full.changes, p)
            }
            &&& go && !whole ==> {
                &&& out.sent.len() == fx.sent.len() + 1
                &&& out.sent.drop_last() == fx.sent
                &&& empties_book(out.sent.last(), b, now.wall_ns)
                &&& w.replay matches Some(r) ==> !r.contains_key(k)
                &&& w.events[k] == g.events_at(k).rebaselined(Seq::empty(), p)
            }
        }),
{
    let (w, out, go) = g.forced_served(fx, k, b, p, now);
    if go {
        assert(out.sent.drop_last() =~= fx.sent);
    }
}

/// After a re-baseline that was due is broadcast the batch itself is raced; held back, it is not.
pub proof fn law_a_due_rebaseline_goes_first(
    g: GateView,
    fx: EffectsView,
    k: MarketId,
    b: BookView,
    p: Publisher,
    now: Clock,
)
    requires
        g.markets.has(k),
        g.markets.map[k].rebaseline,
        b.changes.len() == 0 || b.changes[0].action != BookAction::Clear,
    ensures
        ({
            let (w, out, go) = g.forced_served(fx, k, b, p, now);
            g.order_level_offered(fx, k, b, p, now) == (if go {
                w.order_level_offered(out, k, b, p, now)
            } else {
                (w, out)
            })
        }),
{
    let (w, out, go) = g.forced_served(fx, k, b, p, now);
    if go {
        assert(!w.markets.map[k].rebaseline);
    }
}

/// A publisher's sync is what it last said, of that market alone; when it last delivered stays.
pub proof fn law_sync_is_what_was_last_said(
    g: GateView,
    fx: EffectsView,
    k: MarketId,
    p: Publisher,
    synced: bool,
    q: Publisher,
)
    requires
        g.wf(),
        g.markets.has(k),
        g.books.eligible_arms(k.scope).contains(p) || g.books.eligible_arms(k.scope).len() < 8,
    ensures
        ({
            let (w, out) = g.synced_set(fx, k, p, synced);
            &&& out.sent == fx.sent
            &&& w.sync[k][p] == (PeerState { synced, last_batch_ns: g.peer(k, p).last_batch_ns })
            &&& q != p ==> w.peer(k, q) == g.peer(k, q)
            &&& w.markets == g.markets && w.events == g.events && w.replay == g.replay
        }),
{
    crate::authority_laws::law_ordinals_are_given_in_order(g.books, k.scope, p);
    let had = g.books.eligible_arms(k.scope);
    let has_now = g.books.registered(k.scope, p).eligible_arms(k.scope);
    if had.contains(p) {
        let i = had.index_of(p);
        assert(had[i] == p);
        assert(has_now[i] == p);
    } else {
        assert(has_now[had.len() as int] == p);
    }
    assert(has_now.contains(p));
}

/// The markets of a channel are those tracked in the universe on that channel.
pub proof fn law_a_channels_markets_are_its_own(g: GateView, s: ScopeId, channel: u32, k: MarketId)
    ensures
        g.on_channel(s, channel).contains(k) <==> g.markets.map.contains_key(k) && k.scope == s
            && k.channel == channel,
{
}

/// What a broadcast batch adds to the replayed book of its market is the batch, and to no other's.
pub proof fn law_the_replay_takes_what_is_broadcast(
    g: GateView,
    fx: EffectsView,
    k: MarketId,
    b: BookView,
    o: MarketId,
)
    requires
        g.replay is Some,
    ensures
        ({
            let (w, out) = g.published(fx, k, b);
            let was = g.replay->0;
            &&& out.sent == fx.sent.push(MessageView::Book(b))
            &&& w.replay is Some
            &&& (w.replay->0).contains_key(k)
            &&& (w.replay->0)[k] == (if was.contains_key(k) {
                was[k].applied(b)
            } else {
                AccView::empty(b.symbol).applied(b)
            })
            &&& o != k ==> ((w.replay->0).contains_key(o) <==> was.contains_key(o))
            &&& o != k && was.contains_key(o) ==> (w.replay->0)[o] == was[o]
        }),
{
}

/// The authority decides who is published: whatever is broadcast of a market that one arm serves,
/// the authority published that arm.
pub proof fn law_the_authority_publishes(
    g: GateView,
    fx: EffectsView,
    k: MarketId,
    b: BookView,
    p: Publisher,
    now: Clock,
)
    requires
        g.wf(),
        g.markets.has(k),
        g.single_arm_offered(fx, k, b, p, now).1.sent != fx.sent,
    ensures
        g.books.offered(k, p, b.recv_ts_ns).1 is Emitted,
        g.books.offered(k, p, b.recv_ts_ns).1 != Admit::<Publisher>::Dropped,
{
    law_a_single_arm_is_broadcast(g, fx, k, b, p, now);
}

/// A new emit stage has heard of nothing: matched leads are looked for within five seconds, order
/// events are remembered for a quarter of a second, and the authority has its own defaults.
pub proof fn law_a_new_stage_has_heard_nothing(trade_window: int)
    ensures
        ({
            let a = crate::arbiter::ArbiterView::fresh(trade_window);
            &&& a.trade_window == trade_window
            &&& a.quotes.dom().is_empty() && a.trades.dom().is_empty() && a.depths.dom().is_empty()
            &&& a.depth_replay is None && a.gate.replay is None
            &&& a.instruments.dom().is_empty() && a.modes.dom().is_empty()
            &&& a.owners.dom().is_empty() && a.leads.dom().is_empty()
            &&& a.race.waiting.len() == 0 && a.race_window_ns == 5_000_000_000
            &&& a.gate.markets.len() == 0 && a.gate.dedup_window_ns == 250_000_000
            &&& a.gate.books.scopes.dom().is_empty() && a.gate.books.markets.dom().is_empty()
            &&& a.gate.books.cfg.leader_timeout_ns == 2_000_000_000
            &&& a.gate.books.cfg.sample_interval_ns == 300_000_000_000
            &&& a.gate.books.cfg.transfer_margin_ns == 1_000_000
            &&& a.gate.books.cfg.transfer_win_rate_ppm == 800_000
            &&& a.gate.books.cfg.min_window_samples == 32
        }),
{
    let a = crate::arbiter::ArbiterView::fresh(trade_window);
    assert(a.quotes.dom() =~= Set::empty());
    assert(a.trades.dom() =~= Set::empty());
    assert(a.depths.dom() =~= Set::empty());
    assert(a.instruments.dom() =~= Set::empty());
    assert(a.modes.dom() =~= Set::empty());
    assert(a.owners.dom() =~= Set::empty());
    assert(a.leads.dom() =~= Set::empty());
    assert(a.gate.books.scopes.dom() =~= Set::empty());
    assert(a.gate.books.markets.dom() =~= Set::empty());
}

} // verus!
