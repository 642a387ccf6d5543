//! What one step of the arbiter asks its caller to do: messages to broadcast, and things to count or
//! log.

use crate::model::{
    BookView, DepthView, FeedMessage, NormalizedInstrument, NormalizedMidpoint, NormalizedQuote,
    NormalizedStatus, NormalizedTrade, Publisher,
};
use crate::order_race::Forced;
use vstd::prelude::*;

verus! {

/// One reading of the host's two clocks.
#[derive(Debug, Clone, Copy, PartialEq, Eq, Structural)]
pub struct Clock {
    /// Nanoseconds of wall time.
    pub wall_ns: u64,
    /// Nanoseconds of a clock that never goes backwards.
    pub mono_ns: u64,
}

/// The kinds of message that are broadcast.
#[derive(Debug, Clone, Copy, PartialEq, Eq, Structural)]
pub enum Kind {
    Quote,
    Trade,
    Instrument,
    Midpoint,
    Depth,
    Status,
    Book,
}

/// Why a market or a universe changed hands.
#[derive(Debug, Clone, Copy, PartialEq, Eq, Structural)]
pub enum Transfer {
    /// The universe's first eligible arm.
    Initial,
    /// The leader fell silent.
    Silence,
    /// The per-market health override took the market.
    Health,
}

/// Something to count.
#[derive(Debug, Clone, Copy, PartialEq, Eq, Structural)]
pub enum What {
    /// A message of this kind was broadcast.
    Emit(Kind),
    QuoteNoSourceTs,
    QuoteFutureRejected,
    QuoteAdmitted(Publisher),
    QuoteTickWon(Publisher),
    QuoteDropped,
    QuoteLead { winner: Publisher, loser: Publisher, lead_ns: u64 },
    TapeArmDropped,
    TapeArmTransfer,
    TradeNoId,
    TradeNoIdConflict,
    /// The first double-printed tape: to be logged once.
    TradeNoIdConflictWarning,
    TradeAdmitted(Publisher),
    TradeDropped,
    TradeLead { winner: Publisher, loser: Publisher, lead_ns: u64 },
    /// A matched cross-arm trade pair; negative when the challenger beat the leader.
    ArmLead { lead_ns: i64 },
    InstrumentDropped,
    DepthFutureRejected,
    DepthAdmitted(Publisher),
    DepthTickWon(Publisher),
    DepthDropped(Publisher),
    DepthLead { winner: Publisher, loser: Publisher, lead_ns: u64 },
    BookDropped(Publisher),
    BookMarketEvicted,
    ArmTransfer(Transfer),
    /// The first re-baseline on an event that was never closed: to be logged once.
    BookWithholdWarning,
    BookEventsDeduped(u64),
    BookResurrectionsDropped(u64),
    ArmDisagreements(u64),
    ForcedRebaseline(Forced),
    /// A publisher was given the next ordinal of a universe: to be logged.
    ArmRegistered { ordinal: usize, publisher: Publisher },
}

/// Something to count, and the venue to count it for.
#[derive(Debug, Clone, PartialEq, Eq)]
pub struct Note {
    pub venue: String,
    pub what: What,
}

/// A [`Note`] as a mathematical value.
#[verifier::ext_equal]
pub struct NoteView {
    pub venue: Seq<char>,
    pub what: What,
}

impl View for Note {
    type V = NoteView;

    open spec fn view(&self) -> NoteView {
        NoteView { venue: self.venue@, what: self.what }
    }
}

/// A [`FeedMessage`] as a mathematical value.
#[verifier::ext_equal]
pub enum MessageView {
    Quote(NormalizedQuote),
    Trade(NormalizedTrade),
    Instrument(NormalizedInstrument),
    Midpoint(NormalizedMidpoint),
    Depth(DepthView),
    Book(BookView),
    Status(NormalizedStatus),
}

impl View for FeedMessage {
    type V = MessageView;

    open spec fn view(&self) -> MessageView {
        match *self {
            FeedMessage::Quote(q) => MessageView::Quote(q),
            FeedMessage::Trade(t) => MessageView::Trade(t),
            FeedMessage::Instrument(i) => MessageView::Instrument(i),
            FeedMessage::Midpoint(m) => MessageView::Midpoint(m),
            FeedMessage::Depth(d) => MessageView::Depth(d@),
            FeedMessage::Book(b) => MessageView::Book(b@),
            FeedMessage::Status(s) => MessageView::Status(s),
        }
    }
}

/// The messages to broadcast, in order, and the things to count, in order.
#[derive(Debug, Clone, PartialEq, Eq)]
pub struct Effects {
    pub sent: Vec<FeedMessage>,
    pub notes: Vec<Note>,
}

/// [`Effects`] as a mathematical value.
#[verifier::ext_equal]
pub struct EffectsView {
    pub sent: Seq<MessageView>,
    pub notes: Seq<NoteView>,
}

impl View for Effects {
    type V = EffectsView;

    open spec fn view(&self) -> EffectsView {
        EffectsView {
            sent: Seq::new(self.sent@.len(), |i: int| self.sent@[i]@),
            notes: Seq::new(self.notes@.len(), |i: int| self.notes@[i]@),
        }
    }
}

impl EffectsView {
    pub open spec fn none() -> Self {
        EffectsView { sent: Seq::empty(), notes: Seq::empty() }
    }

    /// One more message to broadcast.
    pub open spec fn send(self, m: MessageView) -> Self {
        EffectsView { sent: self.sent.push(m), ..self }
    }

    /// One more thing to count.
    pub open spec fn note(self, venue: Seq<char>, what: What) -> Self {
        EffectsView { notes: self.notes.push(NoteView { venue, what }), ..self }
    }

    /// One more thing to count, if `yes`.
    pub open spec fn note_if(self, yes: bool, venue: Seq<char>, what: What) -> Self {
        if yes {
            self.note(venue, what)
        } else {
            self
        }
    }

    /// `p` given the ordinal `at`, if it is new.
    pub open spec fn registering(self, venue: Seq<char>, at: Option<usize>, p: Publisher) -> Self {
        match at {
            Some(ordinal) => self.note(venue, What::ArmRegistered { ordinal, publisher: p }),
            None => self,
        }
    }
}

impl Effects {
    pub fn none() -> (r: Self)
        ensures
            r@ == EffectsView::none(),
    {
        let r = Effects { sent: Vec::new(), notes: Vec::new() };
        assert(r@ =~= EffectsView::none());
        r
    }

    /// Broadcast one more message.
    pub fn send(&mut self, m: FeedMessage)
        ensures
            final(self)@ == old(self)@.send(m@),
    {
        self.sent.push(m);
        assert(self@ =~= old(self)@.send(m@));
    }

    /// Count one more thing.
    pub fn note(&mut self, venue: &String, what: What)
        ensures
            final(self)@ == old(self)@.note(venue@, what),
    {
        self.notes.push(Note { venue: venue.clone(), what });
        assert(self@ =~= old(self)@.note(venue@, what));
    }

    /// Count one more thing, if `yes`.
    pub fn note_if(&mut self, yes: bool, venue: &String, what: What)
        ensures
            final(self)@ == old(self)@.note_if(yes, venue@, what),
    {
        if yes {
            self.note(venue, what);
        }
    }

    /// Report that `p` was given the ordinal `at`, if it is new.
    pub fn registering(&mut self, venue: &String, at: Option<usize>, p: Publisher)
        ensures
            final(self)@ == old(self)@.registering(venue@, at, p),
    {
        match at {
            Some(ordinal) => {
                self.note(venue, What::ArmRegistered { ordinal, publisher: p });
            },
            None => {},
        }
    }
}

} // verus!
