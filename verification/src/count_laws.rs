//! What is counted of what the emit stage does.

use crate::arbiter::ArbiterView;
use crate::book_gate::{raced, transfer_reason_spec, GateView};
use crate::effects::{Clock, EffectsView, Kind, MessageView, NoteView, What};
use crate::floor::elapsed;
use crate::model::{
    ArbitrationMode, BookView, DepthView, MarketId, NormalizedInstrument, NormalizedQuote,
    NormalizedTrade, Publisher,
};
use crate::window::window_at;
use vstd::prelude::*;

verus! {

/// The kind of a message.
pub open spec fn kind_of(msg: MessageView) -> Kind {
    match msg {
        MessageView::Quote(_) => Kind::Quote,
        MessageView::Trade(_) => Kind::Trade,
        MessageView::Instrument(_) => Kind::Instrument,
        MessageView::Midpoint(_) => Kind::Midpoint,
        MessageView::Depth(_) => Kind::Depth,
        MessageView::Book(_) => Kind::Book,
        MessageView::Status(_) => Kind::Status,
    }
}

/// How many broadcasts of this kind are counted.
pub open spec fn counted(notes: Seq<NoteView>, kind: Kind) -> nat
    decreases notes.len(),
{
    if notes.len() == 0 {
        0
    } else {
        counted(notes.drop_last(), kind) + if notes.last().what == What::Emit(kind) {
            1nat
        } else {
            0
        }
    }
}

proof fn lemma_counted_push()
    ensures
        forall|s: Seq<NoteView>, n: NoteView, kind: Kind| #[trigger]
            counted(s.push(n), kind) == counted(s, kind) + if n.what == What::Emit(kind) {
                1nat
            } else {
                0
            },
{
    assert forall|s: Seq<NoteView>, n: NoteView, kind: Kind| #[trigger]
        counted(s.push(n), kind) == counted(s, kind) + if n.what == What::Emit(kind) {
            1nat
        } else {
            0
        } by {
        assert(s.push(n).drop_last() =~= s);
    }
}

/// As many broadcasts were counted from `fx` to `out` as were made, each as a book.
spec fn keeps_count(fx: EffectsView, out: EffectsView) -> bool {
    counted(out.notes, Kind::Book) - counted(fx.notes, Kind::Book) == out.sent.len() - fx.sent.len()
}

proof fn lemma_followed_counts(g: GateView, fx: EffectsView, k: MarketId)
    ensures
        keeps_count(fx, g.followed(fx, k).1),
{
    lemma_counted_push();
}

proof fn lemma_raced_counts(
    g: GateView,
    fx: EffectsView,
    k: MarketId,
    b: BookView,
    p: Publisher,
    now: Clock,
)
    ensures
        keeps_count(fx, g.deltas_raced(fx, k, b, p, now).1),
{
    lemma_counted_push();
    lemma_followed_counts(g, fx, k);
    let (t, f) = g.followed(fx, k);
    let r = raced(
        t.events_at(k),
        b.changes,
        b.changes.len() as int,
        p,
        b.recv_ts_ns,
        t.dedup_window_ns,
    );
    let f1 = f.note_if(r.deduped > 0, b.venue, What::BookEventsDeduped(r.deduped as u64));
    assert(keeps_count(fx, f1));
    let f2 = f1.note_if(
        r.resurrected > 0,
        b.venue,
        What::BookResurrectionsDropped(r.resurrected as u64),
    );
    assert(keeps_count(fx, f2));
    let f3 = f2.note_if(r.disagreed > 0, b.venue, What::ArmDisagreements(r.disagreed as u64));
    assert(keeps_count(fx, f3));
}

proof fn lemma_gate_counts(
    g: GateView,
    fx: EffectsView,
    mode: ArbitrationMode,
    k: MarketId,
    b: BookView,
    p: Publisher,
    now: Clock,
)
    ensures
        keeps_count(fx, g.offered(fx, mode, k, b, p, now).1),
{
    lemma_counted_push();
    let fx1 = fx.registering(k.scope.0, g.books.next_ordinal(k.scope, p), p);
    assert(keeps_count(fx, fx1));
    let t = GateView { books: g.books.registered(k.scope, p), ..g };
    lemma_raced_counts(t, fx1, k, b, p, now);
    let (w, fx2, go) = t.forced_served(fx1, k, b, p, now);
    assert(keeps_count(fx1, fx2));
    lemma_raced_counts(w, fx2, k, b, p, now);
    lemma_followed_counts(t, fx1, k);
    assert(keeps_count(fx1, t.clear_led_published(fx1, k, b, p, now).1));
    assert(keeps_count(fx1, t.single_arm_offered(fx1, k, b, p, now).1));
}

/// Whatever is offered, each message that is broadcast is counted once, as the kind that was offered.
pub proof fn law_every_broadcast_is_counted_once(
    a: ArbiterView,
    msg: MessageView,
    p: Publisher,
    category: Seq<char>,
    now: Clock,
)
    ensures
        ({
            let fx = a.emitted(msg, p, category, now).1;
            counted(fx.notes, kind_of(msg)) == fx.sent.len()
        }),
{
    lemma_counted_push();
    let none = EffectsView::none();
    assert(counted(none.notes, kind_of(msg)) == 0);
    match msg {
        MessageView::Book(b) => {
            let k = MarketId {
                scope: (b.venue, category),
                channel: b.channel,
                instrument_id: b.instrument_id,
            };
            lemma_gate_counts(a.gate, none, a.mode_of(b.venue), k, b, p, now);
        },
        _ => {},
    }
}

/// What is counted of a quote, beside its broadcast: that it had no source time, or one too far
/// ahead; else that it was taken in, and that it won its tick if it opened it; or that it was
/// dropped, and by how much it was behind if it is the first to follow.
pub proof fn law_what_is_counted_of_a_quote(
    a: ArbiterView,
    q: NormalizedQuote,
    p: Publisher,
    now: Clock,
)
    ensures
        ({
            let fx = a.quote_offered(q, p, now).1;
            let at = if q.recv_ts_ns != 0 {
                q.recv_ts_ns
            } else {
                now.wall_ns
            };
            let key = (q.venue@, q.symbol@);
            let note = |what: What| NoteView { venue: q.venue@, what };
            let known = a.quotes.contains_key(key);
            let tick = a.quotes[key];
            if q.source_ts_ns == 0 {
                fx.notes == seq![note(What::QuoteNoSourceTs), note(What::Emit(Kind::Quote))]
            } else if q.source_ts_ns > at + 5_000_000_000 {
                fx.notes == seq![note(What::QuoteFutureRejected)] && fx.sent.len() == 0
            } else if !known || q.source_ts_ns > tick.high_water {
                fx.notes == seq![
                    note(What::Emit(Kind::Quote)),
                    note(What::QuoteAdmitted(p)),
                    note(What::QuoteTickWon(p)),
                ]
            } else if q.source_ts_ns < tick.high_water {
                fx.notes == seq![note(What::QuoteDropped)]
            } else if tick.leader != p && !tick.follower_recorded {
                fx.notes == seq![
                    note(What::QuoteDropped),
                    note(
                        What::QuoteLead {
                            winner: tick.leader,
                            loser: p,
                            lead_ns: elapsed(tick.leader_arrival_ns, q.recv_ts_ns),
                        },
                    ),
                ]
            } else {
                fx.notes == seq![note(What::QuoteDropped)] || (tick.leader == p && fx.notes == seq![
                    note(What::Emit(Kind::Quote)),
                    note(What::QuoteAdmitted(p)),
                ])
            }
        }),
{
    let fx = a.quote_offered(q, p, now).1;
    let note = |what: What| NoteView { venue: q.venue@, what };
    let n = fx.notes;
    assert(n =~= seq![n[0]] || n =~= seq![n[0], n[1]] || n =~= seq![n[0], n[1], n[2]]);
}

/// What is counted of a depth snapshot, beside its broadcast: as of a quote, and whose it was.
pub proof fn law_what_is_counted_of_a_depth(a: ArbiterView, d: DepthView, p: Publisher, now: Clock)
    ensures
        ({
            let fx = a.depth_offered(d, p, now).1;
            let key = (d.venue, d.symbol);
            let note = |what: What| NoteView { venue: d.venue, what };
            let known = a.depths.contains_key(key);
            let tick = a.depths[key];
            if d.source_ts_ns > now.wall_ns + 5_000_000_000 {
                fx.notes == seq![note(What::DepthFutureRejected)] && fx.sent.len() == 0
            } else if !known || d.source_ts_ns > tick.high_water {
                fx.notes == seq![
                    note(What::Emit(Kind::Depth)),
                    note(What::DepthAdmitted(p)),
                    note(What::DepthTickWon(p)),
                ]
            } else if d.source_ts_ns < tick.high_water {
                fx.notes == seq![note(What::DepthDropped(p))]
            } else if tick.leader != p && !tick.follower_recorded {
                fx.notes == seq![
                    note(What::DepthDropped(p)),
                    note(
                        What::DepthLead {
                            winner: tick.leader,
                            loser: p,
                            lead_ns: elapsed(tick.leader_arrival_ns, d.recv_ts_ns),
                        },
                    ),
                ]
            } else {
                fx.notes == seq![note(What::DepthDropped(p))] || (tick.leader == p && fx.notes == seq![
                    note(What::Emit(Kind::Depth)),
                    note(What::DepthAdmitted(p)),
                ])
            }
        }),
{
    let fx = a.depth_offered(d, p, now).1;
    let note = |what: What| NoteView { venue: d.venue, what };
    let n = fx.notes;
    assert(n =~= seq![n[0]] || n =~= seq![n[0], n[1]] || n =~= seq![n[0], n[1], n[2]]);
}

/// What is counted of a print, beside what came before it: that it had no id, or that it was taken
/// in; or that it was dropped, and by how much it was behind if another publisher's came first.
pub proof fn law_what_is_counted_of_a_print(
    a: ArbiterView,
    fx: EffectsView,
    t: NormalizedTrade,
    p: Publisher,
    sticky: bool,
)
    requires
        t.trade_id != 0,
    ensures
        ({
            let out = a.print_offered(fx, t, p, sticky).1;
            let note = |what: What| NoteView { venue: t.venue@, what };
            let seen = window_at(a.trades, (t.venue@, t.symbol@));
            if !seen.has(t.trade_id) {
                out.notes == fx.notes.push(note(What::Emit(Kind::Trade))).push(
                    note(What::TradeAdmitted(p)),
                )
            } else if seen.map[t.trade_id].0 == p {
                out.notes == fx.notes.push(note(What::TradeDropped))
            } else {
                out.notes == fx.notes.push(note(What::TradeDropped)).push(
                    note(
                        What::TradeLead {
                            winner: seen.map[t.trade_id].0,
                            loser: p,
                            lead_ns: elapsed(seen.map[t.trade_id].1, t.recv_ts_ns),
                        },
                    ),
                )
            }
        }),
{
}

/// A definition that is not broadcast is counted as dropped.
pub proof fn law_what_is_counted_of_a_definition(a: ArbiterView, i: NormalizedInstrument, now: Clock)
    ensures
        ({
            let fx = a.instrument_offered(i, now).1;
            if fx.sent.len() == 0 {
                fx.notes == seq![NoteView { venue: i.venue@, what: What::InstrumentDropped }]
            } else {
                fx.notes == seq![NoteView { venue: i.venue@, what: What::Emit(Kind::Instrument) }]
            }
        }),
{
    let n = a.instrument_offered(i, now).1.notes;
    assert(n =~= seq![n[0]]);
}

/// A batch of a market that one arm serves and of which nothing is broadcast is counted as dropped,
/// for its arm.
pub proof fn law_a_batch_held_back_is_counted(
    g: GateView,
    fx: EffectsView,
    k: MarketId,
    b: BookView,
    p: Publisher,
    now: Clock,
)
    requires
        g.single_arm_offered(fx, k, b, p, now).1.sent == fx.sent,
    ensures
        g.single_arm_offered(fx, k, b, p, now).1.notes.len() > 0,
        g.single_arm_offered(fx, k, b, p, now).1.notes.last() == (NoteView {
            venue: b.venue,
            what: What::BookDropped(p),
        }),
{
    let out = g.single_arm_offered(fx, k, b, p, now).1;
    if out.notes.len() == 0 || out.notes.last() != (NoteView {
        venue: b.venue,
        what: What::BookDropped(p),
    }) {
        assert(out.sent.len() > fx.sent.len());
    }
}

/// A batch that is published of a market that moved is counted as a move, and why; one of a market
/// that did not is not.
pub proof fn law_a_move_is_counted(
    g: GateView,
    fx: EffectsView,
    k: MarketId,
    b: BookView,
    p: Publisher,
    now: Clock,
)
    requires
        g.markets.has(k),
        g.books.offered(k, p, b.recv_ts_ns).1 is Emitted,
    ensures
        ({
            let books = g.books.offered(k, p, b.recv_ts_ns).0;
            let prev = if g.books.markets.contains_key(k) {
                g.books.markets[k].last_admitted
            } else {
                None
            };
            let was = if g.books.scopes.contains_key(k.scope) {
                Some(g.books.scopes[k.scope].leader)
            } else {
                None
            };
            let leads = if books.scopes.contains_key(k.scope) {
                Some(books.scopes[k.scope].leader)
            } else {
                None
            };
            let out = g.single_arm_offered(fx, k, b, p, now).1;
            let n = fx.notes.len() as int;
            match transfer_reason_spec(prev, was, leads, p) {
                Some(why) => out.notes[n] == (NoteView { venue: b.venue, what: What::ArmTransfer(why) }),
                None => !(out.notes[n].what is ArmTransfer),
            }
        }),
{
    assert(g.followed(fx, k) == (g, fx));
}

/// The first batch of any market whose re-baseline goes out on an event that never closed is told,
/// and none after it.
pub proof fn law_an_event_that_never_closes_is_told_once(
    g: GateView,
    fx: EffectsView,
    k: MarketId,
    b: BookView,
    p: Publisher,
    prev: Option<Publisher>,
    now: Clock,
)
    requires
        g.markets.map[k].rebaseline || prev != Some(p),
        b.last || g.markets.map[k].withheld >= 8192,
    ensures
        ({
            let (w, out) = g.served(fx, k, b, p, prev, now);
            &&& w.withhold_logged == (g.withhold_logged || !b.last)
            &&& (out.notes[fx.notes.len() as int].what == What::BookWithholdWarning) == (!b.last
                && !g.withhold_logged)
        }),
{
}

/// What a raced batch lost is counted: its duplicates, its resurrections and its disagreements,
/// each if there are any.
pub proof fn law_what_a_raced_batch_lost_is_counted(
    g: GateView,
    fx: EffectsView,
    k: MarketId,
    b: BookView,
    p: Publisher,
    now: Clock,
)
    requires
        g.markets.has(k),
    ensures
        ({
            let r = raced(
                g.events_at(k),
                b.changes,
                b.changes.len() as int,
                p,
                b.recv_ts_ns,
                g.dedup_window_ns,
            );
            let out = g.deltas_raced(fx, k, b, p, now).1;
            let note = |what: What| NoteView { venue: b.venue, what };
            let n = fx.notes.len() as int;
            let x = n + if r.deduped > 0 {
                1int
            } else {
                0
            };
            let y = x + if r.resurrected > 0 {
                1int
            } else {
                0
            };
            &&& r.deduped > 0 ==> out.notes[n] == note(What::BookEventsDeduped(r.deduped as u64))
            &&& r.resurrected > 0 ==> out.notes[x] == note(
                What::BookResurrectionsDropped(r.resurrected as u64),
            )
            &&& r.disagreed > 0 ==> out.notes[y] == note(What::ArmDisagreements(r.disagreed as u64))
        }),
{
    assert(g.followed(fx, k) == (g, fx));
}

} // verus!
