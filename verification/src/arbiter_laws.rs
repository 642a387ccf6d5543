//! What holds of the emit stage as a whole.

use crate::arbiter::{too_far_ahead, ArbiterView, INSTRUMENT_REANNOUNCE_NS};
use crate::effects::{Clock, MessageView};
use crate::floor::elapsed;
use crate::model::{
    ArbitrationMode, DepthView, NormalizedInstrument, NormalizedQuote, NormalizedTrade, Publisher,
};
use crate::tape::tracks;
use vstd::prelude::*;

verus! {

/// A message is broadcast at most once per step unless it is a book, which a re-baseline may precede;
/// and nothing but the message itself is ever broadcast in its place.
pub proof fn law_nothing_is_made_up(
    a: ArbiterView,
    msg: MessageView,
    p: Publisher,
    category: Seq<char>,
    now: Clock,
)
    requires
        !(msg is Book),
    ensures
        a.emitted(msg, p, category, now).1.sent == Seq::<MessageView>::empty() || a.emitted(
            msg,
            p,
            category,
            now,
        ).1.sent == seq![msg],
{
    let sent = a.emitted(msg, p, category, now).1.sent;
    assert(sent =~= Seq::<MessageView>::empty() || sent =~= seq![msg]);
}

/// A quote or a depth snapshot from the far future changes nothing and is not broadcast, so it cannot
/// make the floor drop what follows.
pub proof fn law_the_far_future_is_refused(
    a: ArbiterView,
    q: NormalizedQuote,
    d: DepthView,
    p: Publisher,
    now: Clock,
)
    ensures
        ({
            let at = if q.recv_ts_ns != 0 {
                q.recv_ts_ns
            } else {
                now.wall_ns
            };
            q.source_ts_ns != 0 && too_far_ahead(q.source_ts_ns, at) ==> {
                &&& a.quote_offered(q, p, now).0 == a
                &&& a.quote_offered(q, p, now).1.sent == Seq::<MessageView>::empty()
            }
        }),
        too_far_ahead(d.source_ts_ns, now.wall_ns) ==> {
            &&& a.depth_offered(d, p, now).0 == a
            &&& a.depth_offered(d, p, now).1.sent == Seq::<MessageView>::empty()
        },
{
}

/// A quote without a source time is always broadcast and never latched.
pub proof fn law_a_quote_without_a_time_bypasses_the_floor(
    a: ArbiterView,
    q: NormalizedQuote,
    p: Publisher,
    now: Clock,
)
    requires
        q.source_ts_ns == 0,
    ensures
        a.quote_offered(q, p, now).0 == a,
        a.quote_offered(q, p, now).1.sent == seq![MessageView::Quote(q)],
{
    assert(a.quote_offered(q, p, now).1.sent =~= seq![MessageView::Quote(q)]);
}

/// What is replayed of an instrument's depth is what was last broadcast of it: a dropped snapshot
/// never reaches the replay, and a broadcast one always does.
pub proof fn law_the_depth_replay_is_what_was_broadcast(
    a: ArbiterView,
    d: DepthView,
    p: Publisher,
    now: Clock,
)
    requires
        a.depth_replay is Some,
    ensures
        ({
            let (after, out) = a.depth_offered(d, p, now);
            if out.sent.len() == 0 {
                after.depth_replay == a.depth_replay
            } else {
                &&& out.sent == seq![MessageView::Depth(d)]
                &&& after.depth_replay == Some((a.depth_replay->0).insert((d.venue, d.symbol), d))
            }
        }),
{
    let out = a.depth_offered(d, p, now).1;
    assert(out.sent.len() == 0 || out.sent =~= seq![MessageView::Depth(d)]);
}

/// Unchanged instrument content is broadcast once per interval, and again once the interval has
/// passed; changed content is broadcast at once.
pub proof fn law_definitions_are_rate_limited_not_latched(
    a: ArbiterView,
    i: NormalizedInstrument,
    j: NormalizedInstrument,
    now: Clock,
    later: Clock,
)
    requires
        i.venue@ == j.venue@,
        i.channel == j.channel,
        i.instrument_id == j.instrument_id,
        a.instrument_offered(i, now).1.sent.len() > 0,
    ensures
        ({
            let after = a.instrument_offered(i, now).0;
            let same = i.price_exponent == j.price_exponent && i.qty_exponent == j.qty_exponent;
            if same && elapsed(now.mono_ns, later.mono_ns) < INSTRUMENT_REANNOUNCE_NS {
                after.instrument_offered(j, later).1.sent == Seq::<MessageView>::empty()
            } else {
                after.instrument_offered(j, later).1.sent == seq![MessageView::Instrument(j)]
            }
        }),
{
    let after = a.instrument_offered(i, now).0;
    let sent = after.instrument_offered(j, later).1.sent;
    assert(sent =~= Seq::<MessageView>::empty() || sent =~= seq![MessageView::Instrument(j)]);
}

/// A trade by the public feed, or by a publisher the authority does not track, is no evidence: it
/// changes neither the matcher nor the authority.
pub proof fn law_only_tracked_arms_are_evidence(
    a: ArbiterView,
    t: NormalizedTrade,
    p: Publisher,
    category: Seq<char>,
)
    requires
        p is PublicWs || !tracks(a.gate.books, (t.venue@, category), p),
    ensures
        a.trade_offered(t, p, category).0.race == a.race,
        a.trade_offered(t, p, category).0.gate == a.gate,
{
}

/// On a sticky venue what is printed for a universe comes from the arm that then holds its tape.
pub proof fn law_a_sticky_tape_has_one_arm(
    a: ArbiterView,
    t: NormalizedTrade,
    p: Publisher,
    category: Seq<char>,
)
    requires
        a.mode_of(t.venue@) == ArbitrationMode::Sticky,
        a.trade_offered(t, p, category).1.sent.len() > 0,
    ensures
        a.trade_offered(t, p, category).0.leads[(t.venue@, category)].arm == p,
{
}

/// On a coordinated venue a print without a trade id is always broadcast.
pub proof fn law_a_print_without_an_id_is_forwarded(
    a: ArbiterView,
    t: NormalizedTrade,
    p: Publisher,
    category: Seq<char>,
)
    requires
        a.mode_of(t.venue@) == ArbitrationMode::Coordinated,
        t.trade_id == 0,
    ensures
        a.trade_offered(t, p, category).1.sent == seq![MessageView::Trade(t)],
{
    assert(a.trade_offered(t, p, category).1.sent =~= seq![MessageView::Trade(t)]);
}

/// After its depth state is reset, an instrument's next snapshot is broadcast whatever its time,
/// unless that is in the far future, and nothing of the ended session is replayed meanwhile.
pub proof fn law_a_depth_reset_readmits_lower_ticks(
    a: ArbiterView,
    gone: Set<(Seq<char>, Seq<char>)>,
    d: DepthView,
    p: Publisher,
    now: Clock,
)
    requires
        gone.contains((d.venue, d.symbol)),
        !too_far_ahead(d.source_ts_ns, now.wall_ns),
    ensures
        a.depth_reset(gone).depth_offered(d, p, now).1.sent == seq![MessageView::Depth(d)],
        a.depth_reset(gone).depth_replay matches Some(replay) ==> !replay.contains_key(
            (d.venue, d.symbol),
        ),
{
    assert(a.depth_reset(gone).depth_offered(d, p, now).1.sent =~= seq![MessageView::Depth(d)]);
}

} // verus!
