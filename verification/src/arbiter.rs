//! The single emit stage every ingest source funnels through.
//!
//! Quotes and depth pass a latch-to-leader floor, trades a windowed dedup behind the tape gate,
//! instrument definitions a rate limit, and books the book gate. Each step updates the arbiter's
//! state and says what is to be broadcast and counted; it performs neither.

use crate::arm_race::{
    lead_of, reports_unmatched, ArmRace, RaceView, ScopedArm, SigId, DEFAULT_WINDOW_NS,
};
use crate::authority::{
    label_text, labels_in_venue, reports_held, reports_moves, AuthorityConfig, AuthorityView,
    StickyAuthority,
};
use crate::book_gate::{BookGate, BookReplay, GateView, DEFAULT_BOOK_DEDUP_WINDOW_NS};
use crate::effects::{Clock, Effects, EffectsView, Kind, MessageView, What};
use crate::floor::{elapsed, elapsed_ns, floor_step, Admit, StalenessFloor, Tick};
use crate::identity::{canonical_levels, Announced, DepthId, InstrumentKey, QuoteId};
use crate::model::{
    ArbitrationMode, DepthView, FeedMessage, Listing, MarketId, MarketKey, NormalizedDepth,
    NormalizedInstrument, NormalizedQuote, NormalizedTrade, Publisher, ScopeId, ScopeKey, Side,
};
use crate::recent::{ids, RecentView};
use crate::table::{answers, same_text, views, Key, Table};
use crate::tape::{
    claim_no_id_tape, claim_step, elected, offer_print, tape_step, tracks, Owners, TapeLead,
    TapeVerdict,
};
use crate::window::{window_step, Seen, WindowedDedup};
use vstd::prelude::*;

verus! {

broadcast use crate::table::group_views;

/// How many recent trade ids are remembered per instrument unless told otherwise.
pub const TRADE_DEDUP_WINDOW: usize = 8192;

/// Cap on distinct leader quotes remembered per tick.
pub const QUOTE_TICK_CAP: usize = 8192;

/// Cap on distinct leader depth snapshots remembered per tick.
pub const DEPTH_TICK_CAP: usize = 1024;

/// An update stamped further than this ahead of our clock is rejected before it can advance a floor.
pub const MAX_FUTURE_SKEW_NS: u64 = 5_000_000_000;

/// How long unchanged instrument content is suppressed before it is broadcast again.
pub const INSTRUMENT_REANNOUNCE_NS: u64 = 15_000_000_000;

/// What identifies a [`Listing`].
pub type ListingId = (Seq<char>, Seq<char>);

/// The content identity of a depth snapshot.
pub type DepthContent = (Seq<(i128, i128)>, Seq<(i128, i128)>);

/// What an [`Arbiter`] holds.
#[verifier::ext_equal]
pub struct ArbiterView {
    pub quotes: Map<ListingId, Tick<QuoteId, Publisher>>,
    pub trades: Map<ListingId, Seen<u64, Publisher>>,
    pub trade_window: int,
    pub depths: Map<ListingId, Tick<DepthContent, Publisher>>,
    /// The latest broadcast depth of each instrument, for consumers that connect later.
    pub depth_replay: Option<Map<ListingId, DepthView>>,
    /// The last broadcast content of each instrument definition.
    pub instruments: Map<(Seq<char>, u32, u32), Announced>,
    pub modes: Map<Seq<char>, ArbitrationMode>,
    /// Who prints each tape that carries no trade ids.
    pub owners: Owners,
    /// Which arm serves the tape of each sticky universe.
    pub leads: Map<ScopeId, TapeLead>,
    pub no_id_conflict_logged: bool,
    pub race: RaceView<Seq<char>>,
    pub race_window_ns: u64,
    pub gate: GateView,
}

/// `source_ts` is too far ahead of `now` to be believed.
pub open spec fn too_far_ahead(source_ts: u64, now: u64) -> bool {
    source_ts > now + MAX_FUTURE_SKEW_NS && now + MAX_FUTURE_SKEW_NS <= u64::MAX
}

fn is_too_far_ahead(source_ts: u64, now: u64) -> (r: bool)
    ensures
        r == too_far_ahead(source_ts, now),
{
    source_ts > now.saturating_add(MAX_FUTURE_SKEW_NS)
}

/// A side as a number.
pub open spec fn side_code_spec(side: Side) -> u8 {
    match side {
        Side::Buy => 1,
        Side::Sell => 2,
        Side::Unknown => 0,
    }
}

fn side_code(side: Side) -> (r: u8)
    ensures
        r == side_code_spec(side),
{
    match side {
        Side::Buy => 1,
        Side::Sell => 2,
        Side::Unknown => 0,
    }
}

impl ArbiterView {
    /// An arbiter that has been offered nothing yet.
    pub open spec fn fresh(trade_window: int) -> Self {
        ArbiterView {
            quotes: Map::empty(),
            trades: Map::empty(),
            trade_window,
            depths: Map::empty(),
            depth_replay: None,
            instruments: Map::empty(),
            modes: Map::empty(),
            owners: Map::empty(),
            leads: Map::empty(),
            no_id_conflict_logged: false,
            race: RaceView { waiting: Seq::empty(), unmatched: Map::empty() },
            race_window_ns: DEFAULT_WINDOW_NS,
            gate: GateView {
                books: AuthorityView::fresh(AuthorityConfig::defaults()),
                markets: RecentView::empty(),
                replay: None,
                sync: Map::empty(),
                events: Map::empty(),
                dedup_window_ns: DEFAULT_BOOK_DEDUP_WINDOW_NS,
                withhold_logged: false,
            },
        }
    }

    /// A venue's arbitration mode; one that was not declared is coordinated.
    pub open spec fn mode_of(self, venue: Seq<char>) -> ArbitrationMode {
        if self.modes.contains_key(venue) {
            self.modes[venue]
        } else {
            ArbitrationMode::Coordinated
        }
    }

    /// One quote. A quote without a source time bypasses the floor, one from the far future is
    /// rejected before it, any other is forwarded as the floor decides.
    pub open spec fn quote_offered(self, q: NormalizedQuote, p: Publisher, now: Clock) -> (
        Self,
        EffectsView,
    ) {
        let fx = EffectsView::none();
        let venue = q.venue@;
        let at = if q.recv_ts_ns != 0 {
            q.recv_ts_ns
        } else {
            now.wall_ns
        };
        if q.source_ts_ns == 0 {
            (
                self,
                fx.note(venue, What::QuoteNoSourceTs).note(venue, What::Emit(Kind::Quote)).send(
                    MessageView::Quote(q),
                ),
            )
        } else if too_far_ahead(q.source_ts_ns, at) {
            (self, fx.note(venue, What::QuoteFutureRejected))
        } else {
            let (quotes, decision) = floor_step(
                self.quotes,
                QUOTE_TICK_CAP as int,
                (venue, q.symbol@),
                q.source_ts_ns,
                QuoteId::of_spec(q),
                p,
                q.recv_ts_ns,
            );
            (
                ArbiterView { quotes, ..self },
                match decision {
                    Admit::Emitted { opened_tick } => fx.note(venue, What::Emit(Kind::Quote)).note(
                        venue,
                        What::QuoteAdmitted(p),
                    ).note_if(opened_tick, venue, What::QuoteTickWon(p)).send(
                        MessageView::Quote(q),
                    ),
                    Admit::Contest { winner, lead_ns } => fx.note(venue, What::QuoteDropped).note(
                        venue,
                        What::QuoteLead { winner, loser: p, lead_ns },
                    ),
                    Admit::Dropped => fx.note(venue, What::QuoteDropped),
                },
            )
        }
    }

    /// One depth snapshot. Unlike a quote, one without a source time passes the floor like any other:
    /// two publishers' empty books at time zero collapse to one.
    pub open spec fn depth_offered(self, d: DepthView, p: Publisher, now: Clock) -> (
        Self,
        EffectsView,
    ) {
        let fx = EffectsView::none();
        let venue = d.venue;
        if too_far_ahead(d.source_ts_ns, now.wall_ns) {
            (self, fx.note(venue, What::DepthFutureRejected))
        } else {
            let at = (venue, d.symbol);
            let (depths, decision) = floor_step(
                self.depths,
                DEPTH_TICK_CAP as int,
                at,
                d.source_ts_ns,
                (canonical_levels(d.bids), canonical_levels(d.asks)),
                p,
                d.recv_ts_ns,
            );
            let after = ArbiterView { depths, ..self };
            match decision {
                Admit::Emitted { opened_tick } => (
                    ArbiterView {
                        depth_replay: match self.depth_replay {
                            Some(replay) => Some(replay.insert(at, d)),
                            None => None,
                        },
                        ..after
                    },
                    fx.note(venue, What::Emit(Kind::Depth)).note(
                        venue,
                        What::DepthAdmitted(p),
                    ).note_if(opened_tick, venue, What::DepthTickWon(p)).send(
                        MessageView::Depth(d),
                    ),
                ),
                Admit::Contest { winner, lead_ns } => (
                    after,
                    fx.note(venue, What::DepthDropped(p)).note(
                        venue,
                        What::DepthLead { winner, loser: p, lead_ns },
                    ),
                ),
                Admit::Dropped => (after, fx.note(venue, What::DepthDropped(p))),
            }
        }
    }

    /// One instrument definition: broadcast if its content changed, or if it was last broadcast long
    /// enough ago.
    pub open spec fn instrument_offered(self, i: NormalizedInstrument, now: Clock) -> (
        Self,
        EffectsView,
    ) {
        let fx = EffectsView::none();
        let at = (i.venue@, i.channel, i.instrument_id);
        let said = self.instruments[at];
        if self.instruments.contains_key(at) && said.price_exponent == i.price_exponent
            && said.qty_exponent == i.qty_exponent && elapsed(said.at_ns, now.mono_ns)
            < INSTRUMENT_REANNOUNCE_NS {
            (self, fx.note(i.venue@, What::InstrumentDropped))
        } else {
            (
                ArbiterView {
                    instruments: self.instruments.insert(
                        at,
                        Announced {
                            price_exponent: i.price_exponent,
                            qty_exponent: i.qty_exponent,
                            at_ns: now.mono_ns,
                        },
                    ),
                    ..self
                },
                fx.note(i.venue@, What::Emit(Kind::Instrument)).send(MessageView::Instrument(i)),
            )
        }
    }

    /// A trade is evidence about a book-serving arm: it comes from an edge publisher that the
    /// authority tracks.
    pub open spec fn race_eligible(self, s: ScopeId, p: Publisher) -> bool {
        p is Edge && tracks(self.gate.books, s, p)
    }

    /// A trade paired with another arm's copy of it, and the lead handed to the authority.
    pub open spec fn race_observed(
        self,
        fx: EffectsView,
        s: ScopeId,
        t: NormalizedTrade,
        p: Publisher,
    ) -> (Self, EffectsView) {
        let sig = SigId {
            scope: s,
            instrument: t.symbol@,
            price_raw: t.price,
            qty_raw: t.size,
            aggressor: side_code_spec(t.aggressor_side),
        };
        let (race, peer) = self.race.offered(self.race_window_ns, sig, p, t.recv_ts_ns);
        let after = ArbiterView { race, ..self };
        match (peer, elected(self.gate.books, s)) {
            (Some(w), Some(leader)) => match lead_of(
                w.arm,
                p,
                elapsed(w.recv_ns, t.recv_ts_ns),
                leader,
            ) {
                Some((challenger, lead_ns)) => (
                    ArbiterView {
                        gate: GateView {
                            books: self.gate.books.lead_observed(s, challenger, lead_ns),
                            ..self.gate
                        },
                        ..after
                    },
                    fx.registering(
                        s.0,
                        self.gate.books.next_ordinal(s, challenger),
                        challenger,
                    ).note(t.venue@, What::ArmLead { lead_ns }),
                ),
                None => (after, fx),
            },
            _ => (after, fx),
        }
    }

    /// A print that passed the tape gate: forwarded if it carries no id, else as the window decides.
    pub open spec fn print_offered(
        self,
        fx: EffectsView,
        t: NormalizedTrade,
        p: Publisher,
        sticky: bool,
    ) -> (Self, EffectsView) {
        let venue = t.venue@;
        let at = (venue, t.symbol@);
        if t.trade_id == 0 {
            let (owners, conflict) = if sticky {
                (self.owners, false)
            } else {
                claim_step(self.owners, at, p, t.recv_ts_ns)
            };
            (
                ArbiterView {
                    owners,
                    no_id_conflict_logged: self.no_id_conflict_logged || conflict,
                    ..self
                },
                fx.note(venue, What::TradeNoId).note(venue, What::Emit(Kind::Trade)).note_if(
                    conflict,
                    venue,
                    What::TradeNoIdConflict,
                ).note_if(
                    conflict && !self.no_id_conflict_logged,
                    venue,
                    What::TradeNoIdConflictWarning,
                ).send(MessageView::Trade(t)),
            )
        } else {
            let (trades, decision) = window_step(
                self.trades,
                self.trade_window,
                at,
                t.trade_id,
                p,
                t.recv_ts_ns,
            );
            (
                ArbiterView { trades, ..self },
                match decision {
                    Admit::Emitted { .. } => fx.note(venue, What::Emit(Kind::Trade)).note(
                        venue,
                        What::TradeAdmitted(p),
                    ).send(MessageView::Trade(t)),
                    Admit::Contest { winner, lead_ns } => fx.note(venue, What::TradeDropped).note(
                        venue,
                        What::TradeLead { winner, loser: p, lead_ns },
                    ),
                    Admit::Dropped => fx.note(venue, What::TradeDropped),
                },
            )
        }
    }

    /// One trade. It feeds the matcher whether or not it is published; a sticky venue then publishes
    /// one arm's prints per universe.
    pub open spec fn trade_offered(self, t: NormalizedTrade, p: Publisher, category: Seq<char>) -> (
        Self,
        EffectsView,
    ) {
        let s = (t.venue@, category);
        let (a, fx) = if self.race_eligible(s, p) {
            self.race_observed(EffectsView::none(), s, t, p)
        } else {
            (self, EffectsView::none())
        };
        if a.mode_of(t.venue@) == ArbitrationMode::Sticky {
            let (leads, verdict) = tape_step(a.leads, a.gate.books, s, p, t.recv_ts_ns);
            let b = ArbiterView { leads, ..a };
            match verdict {
                TapeVerdict::Refused => (b, fx.note(t.venue@, What::TapeArmDropped)),
                TapeVerdict::Takeover => b.print_offered(
                    fx.note(t.venue@, What::TapeArmTransfer),
                    t,
                    p,
                    true,
                ),
                TapeVerdict::Serving => b.print_offered(fx, t, p, true),
            }
        } else {
            a.print_offered(fx, t, p, false)
        }
    }

    /// One message offered by `p` for a universe: the state afterwards, and what is broadcast and
    /// counted.
    pub open spec fn emitted(
        self,
        msg: MessageView,
        p: Publisher,
        category: Seq<char>,
        now: Clock,
    ) -> (Self, EffectsView) {
        let fx = EffectsView::none();
        match msg {
            MessageView::Quote(q) => self.quote_offered(q, p, now),
            MessageView::Trade(t) => self.trade_offered(t, p, category),
            MessageView::Instrument(i) => self.instrument_offered(i, now),
            MessageView::Midpoint(m) => (
                self,
                fx.note(m.venue@, What::Emit(Kind::Midpoint)).send(msg),
            ),
            MessageView::Depth(d) => self.depth_offered(d, p, now),
            MessageView::Book(b) => {
                let k = MarketId {
                    scope: (b.venue, category),
                    channel: b.channel,
                    instrument_id: b.instrument_id,
                };
                let (gate, fx) = self.gate.offered(fx, self.mode_of(b.venue), k, b, p, now);
                (ArbiterView { gate, ..self }, fx)
            },
            MessageView::Status(s) => (self, fx.note(s.venue@, What::Emit(Kind::Status)).send(msg)),
        }
    }

    /// The depth state of the instruments that `gone` holds forgotten.
    pub open spec fn depth_reset(self, gone: Set<ListingId>) -> Self {
        ArbiterView {
            depths: self.depths.remove_keys(gone),
            depth_replay: match self.depth_replay {
                Some(replay) => Some(replay.remove_keys(gone)),
                None => None,
            },
            ..self
        }
    }
}

/// The latest broadcast depth per instrument.
pub type DepthReplay = Table<Listing, NormalizedDepth>;

/// The emit stage.
pub struct Arbiter {
    quotes: StalenessFloor<Listing, QuoteId, Publisher>,
    trades: WindowedDedup<Listing, u64, Publisher>,
    depths: StalenessFloor<Listing, DepthId, Publisher>,
    depth_replay: Option<DepthReplay>,
    instruments: Table<InstrumentKey, Announced>,
    modes: Table<String, ArbitrationMode>,
    owners: Table<Listing, (Publisher, u64)>,
    leads: Table<ScopeKey, TapeLead>,
    no_id_conflict_logged: bool,
    race: ArmRace<String>,
    gate: BookGate,
}

impl View for Arbiter {
    type V = ArbiterView;

    closed spec fn view(&self) -> ArbiterView {
        ArbiterView {
            quotes: self.quotes@,
            trades: self.trades@,
            trade_window: self.trades.cap(),
            depths: self.depths@,
            depth_replay: match self.depth_replay {
                Some(replay) => Some(views(replay@)),
                None => None,
            },
            instruments: self.instruments@,
            modes: self.modes@,
            owners: self.owners@,
            leads: self.leads@,
            no_id_conflict_logged: self.no_id_conflict_logged,
            race: self.race@,
            race_window_ns: self.race.window(),
            gate: self.gate@,
        }
    }
}

impl Arbiter {
    pub closed spec fn wf(&self) -> bool {
        &&& self.quotes.wf()
        &&& self.quotes.cap() == QUOTE_TICK_CAP
        &&& self.trades.wf()
        &&& self.depths.wf()
        &&& self.depths.cap() == DEPTH_TICK_CAP
        &&& self.depth_replay matches Some(replay) ==> replay.wf()
        &&& self.instruments.wf()
        &&& self.modes.wf()
        &&& self.owners.wf()
        &&& self.leads.wf()
        &&& self.race.wf()
        &&& self.gate.wf()
    }

    /// The book gate's own invariant holds of a well-formed arbiter.
    pub proof fn lemma_wf(&self)
        requires
            self.wf(),
        ensures
            self@.gate.wf(),
            self@.race.waiting.len() <= crate::arm_race::MAX_PENDING,
    {
        self.gate.lemma_wf();
        self.race.law_pending_is_bounded();
    }

    pub fn new(trade_window: usize) -> (r: Self)
        ensures
            r.wf(),
            r@ == ArbiterView::fresh(trade_window as int),
    {
        Arbiter {
            quotes: StalenessFloor::new(QUOTE_TICK_CAP),
            trades: WindowedDedup::new(trade_window),
            depths: StalenessFloor::new(DEPTH_TICK_CAP),
            depth_replay: None,
            instruments: Table::new(),
            modes: Table::new(),
            owners: Table::new(),
            leads: Table::new(),
            no_id_conflict_logged: false,
            race: ArmRace::new(DEFAULT_WINDOW_NS),
            gate: BookGate::new(),
        }
    }

    fn mode_for(&self, venue: &String) -> (r: ArbitrationMode)
        requires
            self.wf(),
        ensures
            r == self@.mode_of(venue@),
    {
        match self.modes.get(venue) {
            Some(mode) => *mode,
            None => ArbitrationMode::Coordinated,
        }
    }

    fn offer_quote(&mut self, q: NormalizedQuote, p: Publisher, now: Clock) -> (r: Effects)
        requires
            old(self).wf(),
        ensures
            final(self).wf(),
            (final(self)@, r@) == old(self)@.quote_offered(q, p, now),
    {
        let mut fx = Effects::none();
        if q.source_ts_ns == 0 {
            fx.note(&q.venue, What::QuoteNoSourceTs);
            fx.note(&q.venue, What::Emit(Kind::Quote));
            fx.send(FeedMessage::Quote(q));
            return fx;
        }
        let at: u64 = if q.recv_ts_ns != 0 {
            q.recv_ts_ns
        } else {
            now.wall_ns
        };
        if is_too_far_ahead(q.source_ts_ns, at) {
            fx.note(&q.venue, What::QuoteFutureRejected);
            return fx;
        }
        let key = Listing { venue: q.venue.clone(), symbol: q.symbol.clone() };
        let decision = self.quotes.offer(
            key,
            q.source_ts_ns,
            QuoteId::of(&q),
            p,
            q.recv_ts_ns,
        );
        match decision {
            Admit::Emitted { opened_tick } => {
                fx.note(&q.venue, What::Emit(Kind::Quote));
                fx.note(&q.venue, What::QuoteAdmitted(p));
                fx.note_if(opened_tick, &q.venue, What::QuoteTickWon(p));
                fx.send(FeedMessage::Quote(q));
            },
            Admit::Contest { winner, lead_ns } => {
                fx.note(&q.venue, What::QuoteDropped);
                fx.note(&q.venue, What::QuoteLead { winner, loser: p, lead_ns });
            },
            Admit::Dropped => {
                fx.note(&q.venue, What::QuoteDropped);
            },
        }
        fx
    }

    fn offer_depth(&mut self, d: NormalizedDepth, p: Publisher, now: Clock) -> (r: Effects)
        requires
            old(self).wf(),
        ensures
            final(self).wf(),
            (final(self)@, r@) == old(self)@.depth_offered(d@, p, now),
    {
        let mut fx = Effects::none();
        if is_too_far_ahead(d.source_ts_ns, now.wall_ns) {
            fx.note(&d.venue, What::DepthFutureRejected);
            return fx;
        }
        let key = Listing { venue: d.venue.clone(), symbol: d.symbol.clone() };
        let decision = self.depths.offer(key, d.source_ts_ns, DepthId::of(&d), p, d.recv_ts_ns);
        match decision {
            Admit::Emitted { opened_tick } => {
                fx.note(&d.venue, What::Emit(Kind::Depth));
                fx.note(&d.venue, What::DepthAdmitted(p));
                fx.note_if(opened_tick, &d.venue, What::DepthTickWon(p));
                match &mut self.depth_replay {
                    Some(replay) => {
                        replay.insert(
                            Listing { venue: d.venue.clone(), symbol: d.symbol.clone() },
                            d.dup(),
                        );
                    },
                    None => {},
                }
                fx.send(FeedMessage::Depth(d));
            },
            Admit::Contest { winner, lead_ns } => {
                fx.note(&d.venue, What::DepthDropped(p));
                fx.note(&d.venue, What::DepthLead { winner, loser: p, lead_ns });
            },
            Admit::Dropped => {
                fx.note(&d.venue, What::DepthDropped(p));
            },
        }
        fx
    }

    fn offer_instrument(&mut self, i: NormalizedInstrument, now: Clock) -> (r: Effects)
        requires
            old(self).wf(),
        ensures
            final(self).wf(),
            (final(self)@, r@) == old(self)@.instrument_offered(i, now),
    {
        let mut fx = Effects::none();
        let key = InstrumentKey {
            venue: i.venue.clone(),
            channel: i.channel,
            instrument_id: i.instrument_id,
        };
        let repeat: bool = match self.instruments.get(&key) {
            Some(said) => said.price_exponent == i.price_exponent && said.qty_exponent
                == i.qty_exponent && elapsed_ns(said.at_ns, now.mono_ns)
                < INSTRUMENT_REANNOUNCE_NS,
            None => false,
        };
        if repeat {
            fx.note(&i.venue, What::InstrumentDropped);
        } else {
            self.instruments.insert(
                key,
                Announced {
                    price_exponent: i.price_exponent,
                    qty_exponent: i.qty_exponent,
                    at_ns: now.mono_ns,
                },
            );
            fx.note(&i.venue, What::Emit(Kind::Instrument));
            fx.send(FeedMessage::Instrument(i));
        }
        fx
    }

    /// Pair this trade with another arm's copy and hand the signed lead to the authority.
    fn observe_trade_race(
        &mut self,
        fx: &mut Effects,
        scope: &ScopeKey,
        t: &NormalizedTrade,
        p: Publisher,
    )
        requires
            old(self).wf(),
        ensures
            final(self).wf(),
            (final(self)@, final(fx)@) == old(self)@.race_observed(old(fx)@, scope.id(), *t, p),
    {
        let found = self.race.on_trade(
            scope,
            &t.symbol,
            t.price,
            t.size,
            side_code(t.aggressor_side),
            p,
            t.recv_ts_ns,
        );
        match found {
            Some(m) => match self.gate.authority().venue_leader(scope) {
                Some(leader) => match m.lead_for(leader) {
                    Some((challenger, lead_ns)) => {
                        let at = self.gate.authority().next_ordinal(scope, challenger);
                        fx.registering(&scope.venue, at, challenger);
                        let books = self.gate.authority_mut();
                        books.observe_matched_lead(scope, challenger, lead_ns);
                        fx.note(&t.venue, What::ArmLead { lead_ns });
                    },
                    None => {},
                },
                None => {},
            },
            None => {},
        }
    }

    fn offer_print(&mut self, fx: &mut Effects, t: NormalizedTrade, p: Publisher, sticky: bool)
        requires
            old(self).wf(),
        ensures
            final(self).wf(),
            (final(self)@, final(fx)@) == old(self)@.print_offered(old(fx)@, t, p, sticky),
    {
        let key = Listing { venue: t.venue.clone(), symbol: t.symbol.clone() };
        if t.trade_id == 0 {
            let conflict: bool = !sticky && claim_no_id_tape(
                &mut self.owners,
                &key,
                p,
                t.recv_ts_ns,
            );
            let warn: bool = conflict && !self.no_id_conflict_logged;
            fx.note(&t.venue, What::TradeNoId);
            fx.note(&t.venue, What::Emit(Kind::Trade));
            fx.note_if(conflict, &t.venue, What::TradeNoIdConflict);
            fx.note_if(warn, &t.venue, What::TradeNoIdConflictWarning);
            if conflict {
                self.no_id_conflict_logged = true;
            }
            fx.send(FeedMessage::Trade(t));
            return ;
        }
        match self.trades.offer(key, t.trade_id, p, t.recv_ts_ns) {
            Admit::Emitted { .. } => {
                fx.note(&t.venue, What::Emit(Kind::Trade));
                fx.note(&t.venue, What::TradeAdmitted(p));
                fx.send(FeedMessage::Trade(t));
            },
            Admit::Contest { winner, lead_ns } => {
                fx.note(&t.venue, What::TradeDropped);
                fx.note(&t.venue, What::TradeLead { winner, loser: p, lead_ns });
            },
            Admit::Dropped => {
                fx.note(&t.venue, What::TradeDropped);
            },
        }
    }

    fn offer_trade(&mut self, t: NormalizedTrade, p: Publisher, category: &str) -> (r: Effects)
        requires
            old(self).wf(),
        ensures
            final(self).wf(),
            (final(self)@, r@) == old(self)@.trade_offered(t, p, category@),
    {
        let mut fx = Effects::none();
        let scope = ScopeKey { venue: t.venue.clone(), category: category.to_owned() };
        let edge: bool = match p {
            Publisher::Edge(_) => true,
            Publisher::PublicWs => false,
        };
        if edge && self.gate.authority().tracks_arm(&scope, p) {
            self.observe_trade_race(&mut fx, &scope, &t, p);
        }
        if self.mode_for(&t.venue) == ArbitrationMode::Sticky {
            let verdict = offer_print(
                &mut self.leads,
                self.gate.authority(),
                &scope,
                p,
                t.recv_ts_ns,
            );
            match verdict {
                TapeVerdict::Refused => {
                    fx.note(&t.venue, What::TapeArmDropped);
                },
                TapeVerdict::Takeover => {
                    fx.note(&t.venue, What::TapeArmTransfer);
                    self.offer_print(&mut fx, t, p, true);
                },
                TapeVerdict::Serving => {
                    self.offer_print(&mut fx, t, p, true);
                },
            }
        } else {
            self.offer_print(&mut fx, t, p, false);
        }
        fx
    }

    /// Apply the dedup its kind calls for to one message, and say what is to be broadcast and
    /// counted. `publisher` is the source it came from, `category` that source's instrument universe
    /// and `now` a reading of the clocks.
    pub fn emit(
        &mut self,
        msg: FeedMessage,
        publisher: Publisher,
        category: &str,
        now: Clock,
    ) -> (r: Effects)
        requires
            old(self).wf(),
        ensures
            final(self).wf(),
            (final(self)@, r@) == old(self)@.emitted(msg@, publisher, category@, now),
    {
        match msg {
            FeedMessage::Quote(q) => self.offer_quote(q, publisher, now),
            FeedMessage::Trade(t) => self.offer_trade(t, publisher, category),
            FeedMessage::Instrument(i) => self.offer_instrument(i, now),
            FeedMessage::Midpoint(m) => {
                let mut fx = Effects::none();
                fx.note(&m.venue, What::Emit(Kind::Midpoint));
                fx.send(FeedMessage::Midpoint(m));
                fx
            },
            FeedMessage::Depth(d) => self.offer_depth(d, publisher, now),
            FeedMessage::Book(b) => {
                let mut fx = Effects::none();
                let mode = self.mode_for(&b.venue);
                let key = MarketKey {
                    scope: ScopeKey { venue: b.venue.clone(), category: category.to_owned() },
                    channel: b.channel,
                    instrument_id: b.instrument_id,
                };
                self.gate.offer(&mut fx, mode, &key, b, publisher, now);
                fx
            },
            FeedMessage::Status(s) => {
                let mut fx = Effects::none();
                fx.note(&s.venue, What::Emit(Kind::Status));
                fx.send(FeedMessage::Status(s));
                fx
            },
        }
    }

    /// How long a delivered order event is remembered.
    pub fn set_book_dedup_window(&mut self, window_ns: u64)
        requires
            old(self).wf(),
        ensures
            final(self).wf(),
            final(self)@ == (ArbiterView {
                gate: GateView { dedup_window_ns: window_ns, ..old(self)@.gate },
                ..old(self)@
            }),
    {
        self.gate.set_dedup_window(window_ns);
    }

    /// Report whether one publisher's order-level book for a market is in sync. Publishers that hold
    /// no ordinal are ignored.
    pub fn set_book_synced(&mut self, key: &MarketKey, publisher: Publisher, synced: bool) -> (r:
        Effects)
        requires
            old(self).wf(),
        ensures
            final(self).wf(),
            ({
                let (gate, fx) = old(self)@.gate.synced_set(
                    EffectsView::none(),
                    key.id(),
                    publisher,
                    synced,
                );
                final(self)@ == (ArbiterView { gate, ..old(self)@ }) && r@ == fx
            }),
    {
        let mut fx = Effects::none();
        self.gate.set_synced(&mut fx, key, publisher, synced);
        fx
    }

    /// Drop a departed publisher's claims to be serving the venue's order-level markets. Claims in
    /// other venues, and everything else, stay.
    pub fn forget_publisher_books(&mut self, venue: &str, publisher: Publisher)
        requires
            old(self).wf(),
        ensures
            final(self).wf(),
            final(self)@ == (ArbiterView {
                gate: old(self)@.gate.publisher_forgotten(venue@, publisher),
                ..old(self)@
            }),
    {
        self.gate.forget_publisher(&venue.to_owned(), publisher);
    }

    /// Install the arbitration tunables: the authority's config, keeping what it has elected, and the
    /// matcher's pairing window, starting it afresh.
    pub fn set_authority(&mut self, cfg: AuthorityConfig, match_window_ns: u64)
        requires
            old(self).wf(),
        ensures
            final(self).wf(),
            final(self)@ == (ArbiterView {
                gate: GateView {
                    books: AuthorityView { cfg, ..old(self)@.gate.books },
                    ..old(self)@.gate
                },
                race: RaceView { waiting: Seq::empty(), unmatched: Map::empty() },
                race_window_ns: match_window_ns,
                ..old(self)@
            }),
    {
        let books = self.gate.authority_mut();
        books.set_config(cfg);
        self.race = ArmRace::new(match_window_ns);
    }

    /// Keep the books as they are broadcast in `books`, for consumers that connect later.
    pub fn set_book_replay(&mut self, books: BookReplay)
        requires
            old(self).wf(),
            books.wf(),
        ensures
            final(self).wf(),
            final(self)@ == (ArbiterView {
                gate: GateView { replay: Some(views(books@)), ..old(self)@.gate },
                ..old(self)@
            }),
    {
        self.gate.set_replay(books);
    }

    /// The books as they were broadcast.
    pub fn book_replay(&self) -> (r: Option<&BookReplay>)
        requires
            self.wf(),
        ensures
            match (r, self@.gate.replay) {
                (Some(t), Some(m)) => t.wf() && views(t@) == m,
                (None, None) => true,
                _ => false,
            },
    {
        self.gate.replay()
    }

    /// Keep the latest broadcast depth of each instrument in `depth`.
    pub fn set_depth_replay(&mut self, depth: DepthReplay)
        requires
            old(self).wf(),
            depth.wf(),
        ensures
            final(self).wf(),
            final(self)@ == (ArbiterView { depth_replay: Some(views(depth@)), ..old(self)@ }),
    {
        self.depth_replay = Some(depth);
    }

    /// The latest broadcast depth of each instrument.
    pub fn depth_replay(&self) -> (r: Option<&DepthReplay>)
        requires
            self.wf(),
        ensures
            match (r, self@.depth_replay) {
                (Some(t), Some(m)) => t.wf() && views(t@) == m,
                (None, None) => true,
                _ => false,
            },
    {
        match &self.depth_replay {
            Some(replay) => Some(replay),
            None => None,
        }
    }

    /// Report one arm's book health for a market. Health overrides the universe's authority for that
    /// market alone. A new arm is reported.
    pub fn set_book_health(&mut self, key: &MarketKey, publisher: Publisher, healthy: bool) -> (r:
        Effects)
        requires
            old(self).wf(),
        ensures
            final(self).wf(),
            r@ == EffectsView::none().registering(
                key.scope.venue@,
                old(self)@.gate.books.next_ordinal(key.id().scope, publisher),
                publisher,
            ),
            final(self)@ == (ArbiterView {
                gate: GateView {
                    books: old(self)@.gate.books.health_set(key.id(), publisher, healthy),
                    ..old(self)@.gate
                },
                ..old(self)@
            }),
    {
        let mut fx = Effects::none();
        let at = self.gate.authority().next_ordinal(&key.scope, publisher);
        fx.registering(&key.scope.venue, at, publisher);
        let books = self.gate.authority_mut();
        books.set_health(key, publisher, healthy);
        fx
    }

    /// Declare a venue's arbitration mode.
    pub fn set_mode(&mut self, venue: &str, mode: ArbitrationMode)
        requires
            old(self).wf(),
        ensures
            final(self).wf(),
            final(self)@ == (ArbiterView {
                modes: old(self)@.modes.insert(venue@, mode),
                ..old(self)@
            }),
    {
        self.modes.insert(venue.to_owned(), mode);
    }

    /// Forget the depth state of a whole venue, as a session boundary asks: the venue may restart its
    /// event clock below the latched tick. What is replayed of it goes too. Returns how many latched
    /// ticks were dropped.
    pub fn reset_depth_floor_for_venue(&mut self, venue: &str) -> (r: usize)
        requires
            old(self).wf(),
        ensures
            final(self).wf(),
            final(self)@ == old(self)@.depth_reset(Set::new(|l: ListingId| l.0 == venue@)),
            r == old(self)@.depths.dom().filter(|l: ListingId| l.0 == venue@).len(),
    {
        let ghost was = self@;
        let ghost hit = |l: ListingId| l.0 == venue@;
        let pred = |l: &Listing| -> (r: bool)
            ensures
                r == (l.venue@ == venue@),
            { same_text(l.venue.as_str(), venue) };
        let cleared: usize = self.depths.reset_where(pred);
        match &mut self.depth_replay {
            Some(replay) => {
                let _purged = replay.remove_where(pred);
            },
            None => {},
        }
        proof {
            let gone = Set::new(hit);
            lemma_reset_map(was.depths, self@.depths, pred, hit);
            match was.depth_replay {
                Some(before) => {
                    lemma_reset_map(
                        (old(self).depth_replay->0)@,
                        (self.depth_replay->0)@,
                        pred,
                        hit,
                    );
                },
                None => {},
            }
            lemma_filter_len(was.depths, hit);
        }
        cleared
    }

    /// Forget the depth state of one instrument, as its reset asks.
    pub fn reset_depth_floor_for_symbol(&mut self, venue: &str, symbol: &str) -> (r: usize)
        requires
            old(self).wf(),
        ensures
            final(self).wf(),
            final(self)@ == old(self)@.depth_reset(set![(venue@, symbol@)]),
            r == (if old(self)@.depths.contains_key((venue@, symbol@)) {
                1usize
            } else {
                0
            }),
    {
        let ghost was = self@;
        let ghost hit = |l: ListingId| l == (venue@, symbol@);
        let pred = |l: &Listing| -> (r: bool)
            ensures
                r == (l.venue@ == venue@ && l.symbol@ == symbol@),
            { same_text(l.venue.as_str(), venue) && same_text(l.symbol.as_str(), symbol) };
        let cleared: usize = self.depths.reset_where(pred);
        match &mut self.depth_replay {
            Some(replay) => {
                let _purged = replay.remove_where(pred);
            },
            None => {},
        }
        proof {
            let at = (venue@, symbol@);
            let gone = Set::new(hit);
            assert(gone =~= set![at]);
            lemma_reset_map(was.depths, self@.depths, pred, hit);
            match was.depth_replay {
                Some(before) => {
                    lemma_reset_map(
                        (old(self).depth_replay->0)@,
                        (self.depth_replay->0)@,
                        pred,
                        hit,
                    );
                },
                None => {},
            }
            if was.depths.contains_key(at) {
                assert(was.depths.dom().remove(at) =~= self@.depths.dom());
            } else {
                assert(was.depths.dom() =~= self@.depths.dom());
            }
        }
        cleared
    }

    /// Drop one market's raced order events, as a session boundary asks: order ids start afresh.
    pub fn reset_book_events_for_market(&mut self, key: &MarketKey)
        requires
            old(self).wf(),
        ensures
            final(self).wf(),
            final(self)@ == (ArbiterView {
                gate: GateView {
                    events: old(self)@.gate.events.remove(key.id()),
                    ..old(self)@.gate
                },
                ..old(self)@
            }),
    {
        self.gate.reset_events(key);
    }

    /// Drop every trace of one market's book, so that its next batch re-baselines the consumer.
    pub fn reset_book_for_market(&mut self, key: &MarketKey)
        requires
            old(self).wf(),
        ensures
            final(self).wf(),
            final(self)@ == (ArbiterView {
                gate: old(self)@.gate.dropped(set![key.id()]),
                ..old(self)@
            }),
    {
        let mut keys: Vec<MarketKey> = Vec::new();
        keys.push(key.dup());
        proof {
            assert(keys@[0].id() == key.id());
            assert(ids(keys@) =~= set![key.id()]);
        }
        self.gate.reset_markets(&keys);
    }

    /// Drop every trace of many markets' books.
    pub fn reset_books_for_markets(&mut self, keys: &Vec<MarketKey>)
        requires
            old(self).wf(),
        ensures
            final(self).wf(),
            final(self)@ == (ArbiterView {
                gate: old(self)@.gate.dropped(ids(keys@)),
                ..old(self)@
            }),
    {
        self.gate.reset_markets(keys);
    }

    /// Drop every market on one channel of a universe, returning how many that were.
    pub fn forget_channel_books(&mut self, venue: &str, category: &str, channel: u32) -> (r: usize)
        requires
            old(self).wf(),
        ensures
            final(self).wf(),
            ({
                let gone = old(self)@.gate.on_channel((venue@, category@), channel);
                &&& final(self)@ == (ArbiterView {
                    gate: old(self)@.gate.dropped(gone),
                    ..old(self)@
                })
                &&& r == gone.len()
            }),
    {
        let scope = ScopeKey { venue: venue.to_owned(), category: category.to_owned() };
        self.gate.forget_channel(&scope, channel)
    }

    /// Close every elapsed sampling window, and report what moved, what each arm serves and what it
    /// printed unmatched.
    pub fn close_authority_windows(&mut self, now_ns: u64) -> (r: WindowReport)
        requires
            old(self).wf(),
        ensures
            final(self).wf(),
            final(self)@ == (ArbiterView {
                gate: GateView {
                    books: old(self)@.gate.books.windows_closed(now_ns),
                    ..old(self)@.gate
                },
                race: RaceView { unmatched: Map::empty(), ..old(self)@.race },
                ..old(self)@
            }),
            reports_moves(old(self)@.gate.books, now_ns, r.moved@),
            reports_held(final(self)@.gate.books, r.held@),
            r.held_labels@.len() == r.held@.len(),
            forall|i: int|
                0 <= i < r.held@.len() ==> labels_in_venue(
                    final(self)@.gate.books,
                    r.held@[i].0@,
                    r.held@[i].1,
                    (#[trigger] r.held_labels@[i])@,
                ),
            reports_unmatched(old(self)@.race.unmatched, r.unmatched@),
            r.unmatched_labels@.len() == r.unmatched@.len(),
            forall|i: int|
                0 <= i < r.unmatched@.len() ==> (#[trigger] r.unmatched_labels@[i])@ == label_text(
                    final(self)@.gate.books.ordinal(
                        r.unmatched@[i].0.scope.id(),
                        r.unmatched@[i].0.arm,
                    ),
                ),
    {
        let books = self.gate.authority_mut();
        let moved = books.close_window(now_ns);
        let unmatched = self.race.drain_unmatched();
        let auth = self.gate.authority();
        let held = auth.markets_held_all();
        let mut held_labels: Vec<&'static str> = Vec::new();
        let mut i: usize = 0;
        while i < held.len()
            invariant
                auth.wf(),
                i <= held@.len(),
                held_labels@.len() == i,
                forall|j: int|
                    0 <= j < i ==> labels_in_venue(
                        auth@,
                        held@[j].0@,
                        held@[j].1,
                        (#[trigger] held_labels@[j])@,
                    ),
            decreases held@.len() - i,
        {
            held_labels.push(auth.arm_label_in_venue(&held[i].0, held[i].1));
            i += 1;
        }
        let mut unmatched_labels: Vec<&'static str> = Vec::new();
        let mut j: usize = 0;
        while j < unmatched.len()
            invariant
                auth.wf(),
                j <= unmatched@.len(),
                unmatched_labels@.len() == j,
                forall|k: int|
                    0 <= k < j ==> (#[trigger] unmatched_labels@[k])@ == label_text(
                        auth@.ordinal(unmatched@[k].0.scope.id(), unmatched@[k].0.arm),
                    ),
            decreases unmatched@.len() - j,
        {
            let at = &unmatched[j].0;
            unmatched_labels.push(auth.arm_label(&at.scope, at.arm));
            j += 1;
        }
        WindowReport { moved, held, held_labels, unmatched, unmatched_labels }
    }

    /// The authority that elects who serves.
    pub fn authority(&self) -> (r: &StickyAuthority)
        requires
            self.wf(),
        ensures
            r.wf(),
            r@ == self@.gate.books,
    {
        self.gate.authority()
    }

    /// The book gate that books pass.
    pub fn gate(&self) -> (r: &BookGate)
        requires
            self.wf(),
        ensures
            r.wf(),
            r@ == self@.gate,
    {
        &self.gate
    }

    /// Register an arm of a universe, returning its label; a new arm is reported.
    pub fn arm_ordinal(&mut self, scope: &ScopeKey, publisher: Publisher) -> (r: (
        &'static str,
        Effects,
    ))
        requires
            old(self).wf(),
        ensures
            final(self).wf(),
            final(self)@ == (ArbiterView {
                gate: GateView {
                    books: old(self)@.gate.books.registered(scope.id(), publisher),
                    ..old(self)@.gate
                },
                ..old(self)@
            }),
            r.0@ == label_text(final(self)@.gate.books.ordinal(scope.id(), publisher)),
            r.1@ == EffectsView::none().registering(
                scope.venue@,
                old(self)@.gate.books.next_ordinal(scope.id(), publisher),
                publisher,
            ),
    {
        let mut fx = Effects::none();
        let at = self.gate.authority().next_ordinal(scope, publisher);
        fx.registering(&scope.venue, at, publisher);
        let books = self.gate.authority_mut();
        (books.arm_ordinal(scope, publisher), fx)
    }
}

/// What closing the sampling windows found.
pub struct WindowReport {
    /// The universes that changed hands on speed, and to whom.
    pub moved: Vec<(ScopeKey, Publisher)>,
    /// The known arms of each venue with how many markets each serves, and their labels.
    pub held: Vec<(String, Publisher, usize)>,
    pub held_labels: Vec<&'static str>,
    /// The trades that only one arm printed, per arm, and their labels.
    pub unmatched: Vec<(ScopedArm, u64)>,
    pub unmatched_labels: Vec<&'static str>,
}

/// A predicate that answers exactly as `hit` says leaves the rest of a map.
proof fn lemma_reset_map<V, F: Fn(&Listing) -> bool>(
    before: Map<ListingId, V>,
    after: Map<ListingId, V>,
    pred: F,
    hit: spec_fn(ListingId) -> bool,
)
    requires
        after.submap_of(before),
        forall|i: ListingId| #[trigger]
            before.contains_key(i) ==> answers(pred, i, !after.contains_key(i)),
        forall|l: Listing, r: bool| #[trigger] call_ensures(pred, (&l,), r) ==> r == hit(l.id()),
    ensures
        after == before.remove_keys(Set::new(hit)),
{
    assert forall|i: ListingId| after.contains_key(i) == before.remove_keys(
        Set::new(hit),
    ).contains_key(i) by {
        if before.contains_key(i) {
            let yes = !after.contains_key(i);
            let l = choose|l: Listing| l.id() == i && #[trigger] call_ensures(pred, (&l,), yes);
            assert(call_ensures(pred, (&l,), yes));
        }
        if after.contains_key(i) {
            assert(after.dom().contains(i));
            assert(before.dom().contains(i));
        }
    }
    assert forall|i: ListingId| after.contains_key(i) implies after[i] == before[i] by {
        assert(after.dom().contains(i));
    }
    assert(after =~= before.remove_keys(Set::new(hit)));
}

proof fn lemma_filter_len<V>(m: Map<ListingId, V>, hit: spec_fn(ListingId) -> bool)
    requires
        m.dom().finite(),
    ensures
        m.dom().filter(hit).len() == m.dom().len() - m.remove_keys(Set::new(hit)).dom().len(),
{
    let d = m.dom();
    let kept = m.remove_keys(Set::new(hit)).dom();
    assert(kept =~= d.difference(d.filter(hit)));
    vstd::set_lib::lemma_set_disjoint_lens(d.filter(hit), kept);
    assert(d.filter(hit) + kept =~= d);
}

} // verus!
