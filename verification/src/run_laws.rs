//! What holds of the emit stage over whole runs of messages.

use crate::arbiter::{too_far_ahead, ArbiterView, ListingId, QUOTE_TICK_CAP};
use crate::authority::{law_only_the_serving_arm_is_published, AuthorityView};
use crate::book_gate::{clear_only_spec, names_order, GateView};
use crate::effects::{Clock, EffectsView, MessageView, NoteView, What};
use crate::floor::{
    floor_decision, floor_run, floor_step, law_floor_forwards_the_opener,
    law_floor_never_repeats_within_the_cap, law_floor_output_in_order, opens, Admit, Sample, Tick,
};
use crate::gate_laws::{
    is_rebaseline, law_a_batch_leaves_other_markets_alone, law_a_change_of_hands_rebaselines,
    law_one_arm_reaches_the_wire, spares,
};
use crate::identity::QuoteId;
use crate::model::{ArbitrationMode, BookView, MarketId, NormalizedQuote, Publisher};
use vstd::prelude::*;

verus! {

/// One message offered to the emit stage.
pub struct Offer {
    pub msg: MessageView,
    pub publisher: Publisher,
    pub category: Seq<char>,
    pub now: Clock,
}

impl ArbiterView {
    /// One offer taken: the state afterwards, and what is broadcast and counted.
    pub open spec fn takes(self, o: Offer) -> (Self, EffectsView) {
        self.emitted(o.msg, o.publisher, o.category, o.now)
    }

    /// The state after the first `n` offers of a run.
    pub open spec fn after_run(self, run: Seq<Offer>, n: int) -> Self
        decreases n,
    {
        if n <= 0 {
            self
        } else {
            self.after_run(run, n - 1).takes(run[n - 1]).0
        }
    }

    /// What offer number `i` of a run has broadcast and counted.
    pub open spec fn effects_of(self, run: Seq<Offer>, i: int) -> EffectsView {
        self.after_run(run, i).takes(run[i]).1
    }
}

/// The offer is a quote of `key` that carries a source time.
pub open spec fn timed_quote(o: Offer, key: ListingId) -> bool {
    match o.msg {
        MessageView::Quote(q) => (q.venue@, q.symbol@) == key && q.source_ts_ns != 0,
        _ => false,
    }
}

/// The quote of an offer.
pub open spec fn quote_in(o: Offer) -> NormalizedQuote {
    o.msg->Quote_0
}

/// Offer number `i` is a quote of `key` that carries a source time, and it was broadcast.
pub open spec fn sends_quote(a: ArbiterView, run: Seq<Offer>, i: int, key: ListingId) -> bool {
    timed_quote(run[i], key) && a.effects_of(run, i).sent == seq![run[i].msg]
}

/// The offer comes before the quote floor: it is a quote that carries a source time that can be
/// believed.
pub open spec fn floored(o: Offer) -> bool {
    match o.msg {
        MessageView::Quote(q) => q.source_ts_ns != 0 && !too_far_ahead(
            q.source_ts_ns,
            if q.recv_ts_ns != 0 {
                q.recv_ts_ns
            } else {
                o.now.wall_ns
            },
        ),
        _ => false,
    }
}

/// An offer as the quote floor sees it.
pub open spec fn as_sample(o: Offer) -> Sample<ListingId, QuoteId, Publisher> {
    let q = quote_in(o);
    Sample {
        key: (q.venue@, q.symbol@),
        source_ts: q.source_ts_ns,
        content: QuoteId::of_spec(q),
        publisher: o.publisher,
        arrival_ns: q.recv_ts_ns,
    }
}

/// What the quote floor sees of the first `n` offers.
pub open spec fn floor_view(run: Seq<Offer>, n: int) -> Seq<Sample<ListingId, QuoteId, Publisher>>
    decreases n,
{
    if n <= 0 {
        Seq::empty()
    } else if floored(run[n - 1]) {
        floor_view(run, n - 1).push(as_sample(run[n - 1]))
    } else {
        floor_view(run, n - 1)
    }
}

/// More offers only add to what the floor has seen, and an offer that comes before it is the next.
proof fn lemma_floor_view(run: Seq<Offer>, i: int, n: int)
    requires
        0 <= i <= n <= run.len(),
    ensures
        floor_view(run, i).is_prefix_of(floor_view(run, n)),
        i < n && floored(run[i]) ==> floor_view(run, i).len() < floor_view(run, n).len()
            && floor_view(run, n)[floor_view(run, i).len() as int] == as_sample(run[i]),
    decreases n,
{
    if i < n {
        lemma_floor_view(run, i, n - 1);
        let was = floor_view(run, n - 1);
        let now = floor_view(run, n);
        assert(was.is_prefix_of(now));
        assert(floor_view(run, i) =~= now.subrange(0, floor_view(run, i).len() as int));
    } else {
        assert(floor_view(run, i) =~= floor_view(run, n).subrange(
            0,
            floor_view(run, i).len() as int,
        ));
    }
}

/// A floor's state depends on what it has seen so far alone.
proof fn lemma_floor_prefix(
    ticks: Map<ListingId, Tick<QuoteId, Publisher>>,
    some: Seq<Sample<ListingId, QuoteId, Publisher>>,
    all: Seq<Sample<ListingId, QuoteId, Publisher>>,
    n: int,
)
    requires
        some.is_prefix_of(all),
        0 <= n <= some.len(),
    ensures
        floor_run(ticks, QUOTE_TICK_CAP as int, some, n) == floor_run(
            ticks,
            QUOTE_TICK_CAP as int,
            all,
            n,
        ),
    decreases n,
{
    if n > 0 {
        lemma_floor_prefix(ticks, some, all, n - 1);
        assert(some[n - 1] == all.subrange(0, some.len() as int)[n - 1]);
    }
}

/// One offer moves the quote floor as its sample does, and a quote before it is broadcast exactly if
/// the floor forwards it.
proof fn lemma_floored_step(a: ArbiterView, o: Offer)
    ensures
        ({
            let s = as_sample(o);
            let (ticks, decision) = floor_step(
                a.quotes,
                QUOTE_TICK_CAP as int,
                s.key,
                s.source_ts,
                s.content,
                s.publisher,
                s.arrival_ns,
            );
            let (after, fx) = a.takes(o);
            if floored(o) {
                &&& after.quotes == ticks
                &&& fx.sent == seq![o.msg] <==> decision is Emitted
                &&& decision == (Admit::<Publisher>::Emitted { opened_tick: true })
                    ==> fx.notes.contains(
                    NoteView { venue: s.key.0, what: What::QuoteTickWon(o.publisher) },
                )
            } else {
                &&& after.quotes == a.quotes
                &&& o.msg is Quote && quote_in(o).source_ts_ns != 0 ==> fx.sent != seq![o.msg]
            }
        }),
{
    let (after, fx) = a.takes(o);
    if floored(o) {
        let venue = as_sample(o).key.0;
        let decision = floor_step(
            a.quotes,
            QUOTE_TICK_CAP as int,
            as_sample(o).key,
            as_sample(o).source_ts,
            as_sample(o).content,
            as_sample(o).publisher,
            as_sample(o).arrival_ns,
        ).1;
        if decision is Emitted {
            assert(fx.sent =~= seq![o.msg]);
            if decision == (Admit::<Publisher>::Emitted { opened_tick: true }) {
                assert(fx.notes.last() == NoteView {
                    venue,
                    what: What::QuoteTickWon(o.publisher),
                });
            }
        } else {
            assert(fx.sent.len() == 0);
        }
    } else if o.msg is Quote && quote_in(o).source_ts_ns != 0 {
        assert(fx.sent.len() == 0);
    }
}

proof fn lemma_quotes_are_a_floor_run(a: ArbiterView, run: Seq<Offer>, n: int)
    requires
        0 <= n <= run.len(),
    ensures
        ({
            let seen = floor_view(run, n);
            a.after_run(run, n).quotes == floor_run(
                a.quotes,
                QUOTE_TICK_CAP as int,
                seen,
                seen.len() as int,
            )
        }),
    decreases n,
{
    if n > 0 {
        lemma_quotes_are_a_floor_run(a, run, n - 1);
        let was = floor_view(run, n - 1);
        let now = floor_view(run, n);
        lemma_floored_step(a.after_run(run, n - 1), run[n - 1]);
        lemma_floor_view(run, n - 1, n);
        lemma_floor_prefix(a.quotes, was, now, was.len() as int);
    }
}

/// A broadcast quote is one that the floor forwards.
proof fn lemma_sent_is_forwarded(a: ArbiterView, run: Seq<Offer>, i: int, key: ListingId)
    requires
        0 <= i < run.len(),
        sends_quote(a, run, i, key),
    ensures
        ({
            let seen = floor_view(run, run.len() as int);
            let x = floor_view(run, i).len() as int;
            &&& floored(run[i])
            &&& 0 <= x < seen.len()
            &&& seen[x] == as_sample(run[i])
            &&& floor_decision(a.quotes, QUOTE_TICK_CAP as int, seen, x) is Emitted
        }),
{
    let n = run.len() as int;
    let seen = floor_view(run, n);
    lemma_floored_step(a.after_run(run, i), run[i]);
    lemma_quotes_are_a_floor_run(a, run, i);
    lemma_floor_view(run, i, n);
    lemma_floor_prefix(a.quotes, floor_view(run, i), seen, floor_view(run, i).len() as int);
}

/// Along a run, the quotes of one instrument leave in order of their source time, and all that leave
/// at one source time come from one publisher.
pub proof fn law_quotes_leave_in_order(
    a: ArbiterView,
    run: Seq<Offer>,
    key: ListingId,
    i: int,
    j: int,
)
    requires
        0 <= i < j < run.len(),
        sends_quote(a, run, i, key),
        sends_quote(a, run, j, key),
    ensures
        quote_in(run[i]).source_ts_ns <= quote_in(run[j]).source_ts_ns,
        quote_in(run[i]).source_ts_ns == quote_in(run[j]).source_ts_ns ==> run[i].publisher
            == run[j].publisher,
{
    lemma_sent_is_forwarded(a, run, i, key);
    lemma_sent_is_forwarded(a, run, j, key);
    lemma_floor_view(run, i, j);
    lemma_floor_view(run, i + 1, j);
    law_floor_output_in_order(
        a.quotes,
        QUOTE_TICK_CAP as int,
        floor_view(run, run.len() as int),
        floor_view(run, i).len() as int,
        floor_view(run, j).len() as int,
    );
}

/// Along a run, no two quotes of one instrument that leave at one source time have the same content,
/// where no more than [`QUOTE_TICK_CAP`] distinct contents are offered there.
pub proof fn law_no_quote_leaves_twice(
    a: ArbiterView,
    run: Seq<Offer>,
    key: ListingId,
    ids: Set<QuoteId>,
    i: int,
    j: int,
)
    requires
        a.quotes == Map::<ListingId, Tick<QuoteId, Publisher>>::empty(),
        0 <= i < j < run.len(),
        sends_quote(a, run, i, key),
        sends_quote(a, run, j, key),
        quote_in(run[i]).source_ts_ns == quote_in(run[j]).source_ts_ns,
        ids.finite(),
        ids.len() <= QUOTE_TICK_CAP,
        forall|x: int|
            0 <= x < run.len() && timed_quote(#[trigger] run[x], key) && quote_in(
                run[x],
            ).source_ts_ns == quote_in(run[i]).source_ts_ns ==> ids.contains(
                QuoteId::of_spec(quote_in(run[x])),
            ),
    ensures
        QuoteId::of_spec(quote_in(run[i])) != QuoteId::of_spec(quote_in(run[j])),
{
    let n = run.len() as int;
    let seen = floor_view(run, n);
    lemma_sent_is_forwarded(a, run, i, key);
    lemma_sent_is_forwarded(a, run, j, key);
    lemma_floor_view(run, i, j);
    lemma_floor_view(run, i + 1, j);
    assert forall|x: int|
        0 <= x < seen.len() && (#[trigger] seen[x]).key == key && seen[x].source_ts == quote_in(
            run[i],
        ).source_ts_ns implies ids.contains(seen[x].content) by {
        lemma_seen_was_offered(run, n, x);
        let y = choose|y: int|
            0 <= y < n && floored(#[trigger] run[y]) && seen[x] == as_sample(run[y]);
        assert(timed_quote(run[y], key));
    }
    law_floor_never_repeats_within_the_cap(
        a.quotes,
        QUOTE_TICK_CAP as int,
        seen,
        ids,
        floor_view(run, i).len() as int,
        floor_view(run, j).len() as int,
    );
}

proof fn lemma_seen_was_offered(run: Seq<Offer>, n: int, x: int)
    requires
        0 <= n <= run.len(),
        0 <= x < floor_view(run, n).len(),
    ensures
        exists|y: int|
            0 <= y < n && floored(#[trigger] run[y]) && floor_view(run, n)[x] == as_sample(run[y])
                && floor_view(run, y).len() == x,
    decreases n,
{
    if x < floor_view(run, n - 1).len() {
        lemma_seen_was_offered(run, n - 1, x);
        let y = choose|y: int|
            0 <= y < n - 1 && floored(#[trigger] run[y]) && floor_view(run, n - 1)[x] == as_sample(
                run[y],
            ) && floor_view(run, y).len() == x;
        assert(floored(run[y]));
    } else {
        assert(floored(run[n - 1]));
    }
}

/// Along a run, what leaves at a source time is from the publisher whose copy opened it: that copy
/// left too, and was counted as the one that won the tick.
pub proof fn law_a_tick_is_its_openers(a: ArbiterView, run: Seq<Offer>, key: ListingId, i: int)
    requires
        a.quotes == Map::<ListingId, Tick<QuoteId, Publisher>>::empty(),
        0 <= i < run.len(),
        sends_quote(a, run, i, key),
    ensures
        exists|y: int|
            0 <= y <= i && #[trigger] sends_quote(a, run, y, key) && quote_in(run[y]).source_ts_ns
                == quote_in(run[i]).source_ts_ns && run[y].publisher == run[i].publisher
                && a.effects_of(run, y).notes.contains(
                NoteView { venue: key.0, what: What::QuoteTickWon(run[i].publisher) },
            ),
{
    let n = run.len() as int;
    let seen = floor_view(run, n);
    let cap = QUOTE_TICK_CAP as int;
    let at = floor_view(run, i).len() as int;
    lemma_sent_is_forwarded(a, run, i, key);
    law_floor_forwards_the_opener(a.quotes, cap, seen, at);
    let ts = seen[at].source_ts;
    let who = run[i].publisher;
    let x = choose|x: int| 0 <= x <= at && #[trigger] opens(a.quotes, cap, seen, x, key, ts, who);
    lemma_seen_was_offered(run, n, x);
    let y = choose|y: int|
        0 <= y < n && floored(#[trigger] run[y]) && seen[x] == as_sample(run[y]) && floor_view(
            run,
            y,
        ).len() == x;
    if y > i {
        lemma_floor_view(run, i, y);
        lemma_floor_view(run, i + 1, y);
        assert(floor_view(run, i + 1).len() == at + 1);
    }
    lemma_floored_step(a.after_run(run, y), run[y]);
    lemma_quotes_are_a_floor_run(a, run, y);
    lemma_floor_view(run, y, n);
    lemma_floor_prefix(a.quotes, floor_view(run, y), seen, x);
    assert(sends_quote(a, run, y, key));
}

/// The market that a book offer is about.
pub open spec fn about(o: Offer, k: MarketId) -> bool {
    match o.msg {
        MessageView::Book(b) => k == (MarketId {
            scope: (b.venue, o.category),
            channel: b.channel,
            instrument_id: b.instrument_id,
        }),
        _ => false,
    }
}

/// Every batch that the run offers for `k` names no order.
pub open spec fn price_aggregated(run: Seq<Offer>, k: MarketId) -> bool {
    forall|i: int|
        0 <= i < run.len() && about(#[trigger] run[i], k) ==> !names_order(
            (run[i].msg->Book_0).changes,
        )
}

/// Offer number `i` had something broadcast for `k`.
pub open spec fn sends_book(a: ArbiterView, run: Seq<Offer>, i: int, k: MarketId) -> bool {
    about(run[i], k) && a.effects_of(run, i).sent.len() > 0
}

/// The publisher of the last of the first `n` offers that had something broadcast for `k`.
pub open spec fn last_sender(a: ArbiterView, run: Seq<Offer>, k: MarketId, n: int) -> Option<
    Publisher,
>
    decreases n,
{
    if n <= 0 {
        None
    } else if sends_book(a, run, n - 1, k) {
        Some(run[n - 1].publisher)
    } else {
        last_sender(a, run, k, n - 1)
    }
}

/// Nothing is held of the market.
pub open spec fn unknown(g: GateView, k: MarketId) -> bool {
    !g.markets.has(k) && g.books.market_or_new(k).last_admitted is None
}

/// Who was last published for `k` is also who last reached the wire, or a re-baseline is due; and no
/// order of it was ever named.
spec fn hands(g: GateView, k: MarketId, last: Option<Publisher>) -> bool {
    &&& g.books.market_or_new(k).last_admitted matches Some(q) ==> g.markets.has(k) && (
    g.markets.map[k].rebaseline || last == Some(q))
    &&& g.markets.has(k) ==> !g.markets.map[k].order_level
}

/// From `g` to `after`, the record of who was last published for `k` is as it was, or gone.
spec fn kept_or_gone(g: AuthorityView, after: AuthorityView, k: MarketId) -> bool {
    ||| after.market_or_new(k).last_admitted == g.market_or_new(k).last_admitted
    ||| after.market_or_new(k).last_admitted is None
}

proof fn lemma_books_offered(v: AuthorityView, k: MarketId, p: Publisher, at: u64, other: MarketId)
    requires
        other != k,
    ensures
        kept_or_gone(v, v.offered(k, p, at).0, other),
{
}

proof fn lemma_followed_hands(
    g: GateView,
    fx: EffectsView,
    k: MarketId,
    other: MarketId,
    last: Option<Publisher>,
)
    requires
        hands(g, other, last),
    ensures
        hands(g.followed(fx, k).0, other, last),
{
    assert forall|v: AuthorityView, gone: MarketId|
        kept_or_gone(v, #[trigger] v.forgotten(set![gone]), other) by {}
}

/// A batch of another market leaves the hands of `other` right.
proof fn lemma_other_batch(
    g: GateView,
    fx: EffectsView,
    mode: ArbitrationMode,
    k: MarketId,
    b: BookView,
    p: Publisher,
    now: Clock,
    other: MarketId,
    last: Option<Publisher>,
)
    requires
        other != k,
        hands(g, other, last),
    ensures
        hands(g.offered(fx, mode, k, b, p, now).0, other, last),
{
    let known = GateView { books: g.books.registered(k.scope, p), ..g };
    assert(known.books.market_or_new(other) == g.books.market_or_new(other));
    let after = g.offered(fx, mode, k, b, p, now).0;
    let fx0 = fx.registering(k.scope.0, g.books.next_ordinal(k.scope, p), p);
    let (t, fx1) = known.followed(fx0, k);
    lemma_followed_hands(known, fx0, k, other, last);
    lemma_books_offered(t.books, k, p, b.recv_ts_ns, other);
    if spares(g, k, other) {
        law_a_batch_leaves_other_markets_alone(g, fx, mode, k, b, p, now, other);
    }
}
/// What is broadcast stems from `p` and its batch: the batch as it came, `p`'s whole accumulated book,
/// or the consumer's book emptied and the batch behind that.
pub open spec fn stems_from(
    sent: Seq<MessageView>,
    after: GateView,
    k: MarketId,
    p: Publisher,
    msg: MessageView,
    now: Clock,
) -> bool {
    ||| sent == seq![msg]
    ||| sent == seq![
        MessageView::Book(after.markets.map[k].arms[p].as_book(k, now.wall_ns)),
    ]
    ||| sent == seq![
        MessageView::Book(clear_only_spec(msg->Book_0, now.wall_ns)),
        msg,
    ]
}

/// A batch of `k` that names no order is published by the arm that serves, behind a re-baseline if
/// another arm was on the wire, and leaves the hands right.
proof fn lemma_own_batch(
    g: GateView,
    mode: ArbitrationMode,
    k: MarketId,
    b: BookView,
    p: Publisher,
    now: Clock,
    last: Option<Publisher>,
)
    requires
        hands(g, k, last),
        !names_order(b.changes),
    ensures
        ({
            let (after, fx) = g.offered(EffectsView::none(), mode, k, b, p, now);
            if fx.sent.len() > 0 {
                &&& hands(after, k, Some(p))
                &&& after.books.serving(k) == Some(p)
                &&& stems_from(fx.sent, after, k, p, MessageView::Book(b), now)
                &&& last != Some(p) ==> is_rebaseline(fx.sent[0])
            } else {
                hands(after, k, last)
            }
        }),
{
    let none = EffectsView::none().registering(k.scope.0, g.books.next_ordinal(k.scope, p), p);
    let known = GateView { books: g.books.registered(k.scope, p), ..g };
    assert(known.books.market_or_new(k) == g.books.market_or_new(k));
    assert(hands(known, k, last));
    if known.books.ordinal(k.scope, p) is Some {
        let (t, fx1) = known.followed(none, k);
        lemma_followed_hands(known, none, k, k, last);
        law_only_the_serving_arm_is_published(t.books, k, p, b.recv_ts_ns);
        law_one_arm_reaches_the_wire(known, none, k, b, p, now);
        if t.books.market_or_new(k).last_admitted != Some(p) || (known.markets.has(k)
            && known.markets.map[k].rebaseline) {
            law_a_change_of_hands_rebaselines(known, none, k, b, p, now);
        }
        let (after, fx) = known.single_arm_offered(none, k, b, p, now);
        let msg = MessageView::Book(b);
        let whole = MessageView::Book(after.markets.map[k].arms[p].as_book(k, now.wall_ns));
        let emptied = MessageView::Book(clear_only_spec(b, now.wall_ns));
        assert(fx.sent =~= seq![msg] || fx.sent =~= seq![whole] || fx.sent =~= seq![emptied, msg]
            || fx.sent.len() == 0);
    }
}

proof fn lemma_hands_over_a_run(a: ArbiterView, run: Seq<Offer>, k: MarketId, n: int)
    requires
        0 <= n <= run.len(),
        unknown(a.gate, k),
        price_aggregated(run, k),
    ensures
        hands(a.after_run(run, n).gate, k, last_sender(a, run, k, n)),
    decreases n,
{
    if n > 0 {
        lemma_hands_over_a_run(a, run, k, n - 1);
        let was = a.after_run(run, n - 1);
        let o = run[n - 1];
        let last = last_sender(a, run, k, n - 1);
        match o.msg {
            MessageView::Book(b) => {
                let at = MarketId {
                    scope: (b.venue, o.category),
                    channel: b.channel,
                    instrument_id: b.instrument_id,
                };
                let mode = was.mode_of(b.venue);
                if at == k {
                    assert(about(run[n - 1], k));
                    lemma_own_batch(was.gate, mode, k, b, o.publisher, o.now, last);
                } else {
                    lemma_other_batch(
                        was.gate,
                        EffectsView::none(),
                        mode,
                        at,
                        b,
                        o.publisher,
                        o.now,
                        k,
                        last,
                    );
                }
            },
            _ => {
                assert(was.takes(o).0.gate.books.markets == was.gate.books.markets);
                assert(was.takes(o).0.gate.markets == was.gate.markets);
            },
        }
    }
}

/// Along a run, whatever is broadcast for a price-aggregated market comes from the arm that then serves
/// it; and where that is not the arm that was broadcast for it before, or it is the first, what is
/// broadcast opens by clearing the consumer's book. Two arms' deltas are never mixed.
pub proof fn law_arms_are_never_mixed(a: ArbiterView, run: Seq<Offer>, k: MarketId, i: int)
    requires
        0 <= i < run.len(),
        unknown(a.gate, k),
        price_aggregated(run, k),
        sends_book(a, run, i, k),
    ensures
        a.after_run(run, i + 1).gate.books.serving(k) == Some(run[i].publisher),
        stems_from(
            a.effects_of(run, i).sent,
            a.after_run(run, i + 1).gate,
            k,
            run[i].publisher,
            run[i].msg,
            run[i].now,
        ),
        last_sender(a, run, k, i) != Some(run[i].publisher) ==> is_rebaseline(
            a.effects_of(run, i).sent[0],
        ),
{
    lemma_hands_over_a_run(a, run, k, i);
    let was = a.after_run(run, i);
    let b = run[i].msg->Book_0;
    lemma_own_batch(
        was.gate,
        was.mode_of(b.venue),
        k,
        b,
        run[i].publisher,
        run[i].now,
        last_sender(a, run, k, i),
    );
}

} // verus!
