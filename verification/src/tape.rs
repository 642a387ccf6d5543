//! Which publisher's trades make up a tape.

use crate::authority::{is_arm, AuthorityView, StickyAuthority};
use crate::floor::{elapsed, elapsed_ns};
use crate::model::{Listing, Publisher, ScopeId, ScopeKey};
use crate::table::{Key, Table};
use vstd::prelude::*;

verus! {

/// How long a tape's owner may go silent before a challenger takes the tape over.
pub const NO_ID_TAPE_HANDOVER_NS: u64 = 5_000_000_000;

/// Who serves one universe's tape.
#[derive(Debug, Clone, Copy, PartialEq, Eq, Structural)]
pub struct TapeLead {
    pub arm: Publisher,
    /// That arm's last admitted print.
    pub last_ns: u64,
    /// The election this tape has already deferred to.
    pub honored_election: Option<Publisher>,
}

/// The authority has recorded `p` in the universe.
pub open spec fn tracks(books: AuthorityView, s: ScopeId, p: Publisher) -> bool {
    books.scopes.contains_key(s) && is_arm(books.scopes[s].arms, p)
}

/// The leader the authority has elected for the universe.
pub open spec fn elected(books: AuthorityView, s: ScopeId) -> Option<Publisher> {
    if books.scopes.contains_key(s) {
        Some(books.scopes[s].leader)
    } else {
        None
    }
}

/// Whether `p` may take the tape from `lead`: it is known to the authority and the incumbent is not,
/// it has been elected since the tape last changed hands, or the incumbent has fallen silent.
pub open spec fn displaces(
    books: AuthorityView,
    s: ScopeId,
    lead: TapeLead,
    p: Publisher,
    recv_ns: u64,
) -> bool {
    ||| tracks(books, s, p) && !tracks(books, s, lead.arm)
    ||| elected(books, s) == Some(p) && lead.honored_election != elected(books, s)
    ||| elapsed(lead.last_ns, recv_ns) > NO_ID_TAPE_HANDOVER_NS
}

/// What becomes of one print.
#[derive(Debug, Clone, Copy, PartialEq, Eq, Structural)]
pub enum TapeVerdict {
    /// The serving arm's own print, or the tape's first.
    Serving,
    /// A challenger's print, which takes the tape over.
    Takeover,
    /// A challenger's print that is dropped.
    Refused,
}

/// The tape gate's decision for one print of a universe, and the tapes afterwards.
pub open spec fn tape_step(
    leads: Map<ScopeId, TapeLead>,
    books: AuthorityView,
    s: ScopeId,
    p: Publisher,
    recv_ns: u64,
) -> (Map<ScopeId, TapeLead>, TapeVerdict) {
    if !leads.contains_key(s) {
        (
            leads.insert(s, TapeLead { arm: p, last_ns: recv_ns, honored_election: None }),
            TapeVerdict::Serving,
        )
    } else {
        let lead = leads[s];
        if lead.arm == p {
            (leads.insert(s, TapeLead { last_ns: recv_ns, ..lead }), TapeVerdict::Serving)
        } else if displaces(books, s, lead, p, recv_ns) {
            (
                leads.insert(
                    s,
                    TapeLead { arm: p, last_ns: recv_ns, honored_election: elected(books, s) },
                ),
                TapeVerdict::Takeover,
            )
        } else {
            (leads, TapeVerdict::Refused)
        }
    }
}

/// Whether this arm serves the universe's tape, recording that it does.
pub fn offer_print(
    leads: &mut Table<ScopeKey, TapeLead>,
    books: &StickyAuthority,
    scope: &ScopeKey,
    p: Publisher,
    recv_ns: u64,
) -> (r: TapeVerdict)
    requires
        old(leads).wf(),
        books.wf(),
    ensures
        final(leads).wf(),
        (final(leads)@, r) == tape_step(old(leads)@, books@, scope.id(), p, recv_ns),
{
    match leads.find(scope) {
        None => {
            leads.insert(
                scope.dup(),
                TapeLead { arm: p, last_ns: recv_ns, honored_election: None },
            );
            TapeVerdict::Serving
        },
        Some(at) => {
            let lead = *leads.value_at(at);
            if lead.arm == p {
                let slot = leads.value_at_mut(at);
                *slot = TapeLead {
                    arm: p,
                    last_ns: recv_ns,
                    honored_election: lead.honored_election,
                };
                return TapeVerdict::Serving;
            }
            let choice = books.venue_leader(scope);
            let uncorroborated: bool = books.tracks_arm(scope, p) && !books.tracks_arm(
                scope,
                lead.arm,
            );
            let new_election: bool = choice == Some(p) && lead.honored_election != choice;
            let silent: bool = elapsed_ns(lead.last_ns, recv_ns) > NO_ID_TAPE_HANDOVER_NS;
            if !(uncorroborated || new_election || silent) {
                return TapeVerdict::Refused;
            }
            let slot = leads.value_at_mut(at);
            *slot = TapeLead { arm: p, last_ns: recv_ns, honored_election: choice };
            TapeVerdict::Takeover
        },
    }
}

/// Who prints one instrument's tape without trade ids, and when they last did.
pub type Owners = Map<(Seq<char>, Seq<char>), (Publisher, u64)>;

/// A print without a trade id claims the tape for its publisher, unless another publisher printed
/// within the handover window; whether that is a conflict, and the owners afterwards.
pub open spec fn claim_step(
    owners: Owners,
    at: (Seq<char>, Seq<char>),
    p: Publisher,
    recv_ns: u64,
) -> (Owners, bool) {
    if owners.contains_key(at) && owners[at].0 != p && elapsed(owners[at].1, recv_ns)
        <= NO_ID_TAPE_HANDOVER_NS {
        (owners, true)
    } else {
        (owners.insert(at, (p, recv_ns)), false)
    }
}

/// Claim the tape of one instrument for `p`, returning whether another emitter is live.
pub fn claim_no_id_tape(
    owners: &mut Table<Listing, (Publisher, u64)>,
    at: &Listing,
    p: Publisher,
    recv_ns: u64,
) -> (r: bool)
    requires
        old(owners).wf(),
    ensures
        final(owners).wf(),
        (final(owners)@, r) == claim_step(old(owners)@, at.id(), p, recv_ns),
{
    let concurrent: bool = match owners.get(at) {
        Some((owner, last_ns)) => *owner != p && elapsed_ns(*last_ns, recv_ns)
            <= NO_ID_TAPE_HANDOVER_NS,
        None => false,
    };
    if !concurrent {
        owners.insert(at.dup(), (p, recv_ns));
    }
    concurrent
}

/// A tape is never dark: the first print of a universe is always published.
pub proof fn law_the_tape_starts_with_the_first_print(
    leads: Map<ScopeId, TapeLead>,
    books: AuthorityView,
    s: ScopeId,
    p: Publisher,
    recv_ns: u64,
)
    requires
        !leads.contains_key(s),
    ensures
        tape_step(leads, books, s, p, recv_ns).1 != TapeVerdict::Refused,
        tape_step(leads, books, s, p, recv_ns).0[s].arm == p,
{
}

/// After any print the tape's arm is the one last published, and a refused print leaves the tape's
/// clock alone: challengers cannot hold a tape open for a silent incumbent.
pub proof fn law_a_refused_print_changes_nothing(
    leads: Map<ScopeId, TapeLead>,
    books: AuthorityView,
    s: ScopeId,
    p: Publisher,
    recv_ns: u64,
)
    ensures
        ({
            let (after, verdict) = tape_step(leads, books, s, p, recv_ns);
            if verdict == TapeVerdict::Refused {
                after == leads
            } else {
                after[s].arm == p && after[s].last_ns == recv_ns
            }
        }),
{
}

/// The prints of one universe leave every other universe's tape as it was.
pub proof fn law_tapes_are_independent(
    leads: Map<ScopeId, TapeLead>,
    books: AuthorityView,
    s: ScopeId,
    p: Publisher,
    recv_ns: u64,
    other: ScopeId,
)
    requires
        other != s,
    ensures
        ({
            let after = tape_step(leads, books, s, p, recv_ns).0;
            &&& after.contains_key(other) == leads.contains_key(other)
            &&& leads.contains_key(other) ==> after[other] == leads[other]
        }),
{
}

/// An incumbent the authority tracks that is not silent loses its tape only to the elected arm, and
/// that arm takes it once per election: an election in force when the tape last changed hands does
/// not move it again.
pub proof fn law_an_election_moves_the_tape_once(
    leads: Map<ScopeId, TapeLead>,
    books: AuthorityView,
    s: ScopeId,
    p: Publisher,
    recv_ns: u64,
)
    requires
        leads.contains_key(s),
        leads[s].arm != p,
        tracks(books, s, leads[s].arm),
        elapsed(leads[s].last_ns, recv_ns) <= NO_ID_TAPE_HANDOVER_NS,
    ensures
        tape_step(leads, books, s, p, recv_ns).1 == TapeVerdict::Takeover <==> (elected(books, s)
            == Some(p) && leads[s].honored_election != Some(p)),
        tape_step(leads, books, s, p, recv_ns).1 == TapeVerdict::Takeover ==> tape_step(
            leads,
            books,
            s,
            p,
            recv_ns,
        ).0[s].honored_election == elected(books, s),
{
}

/// A tape whose incumbent has been silent for longer than the handover window goes to the next arm
/// that prints.
pub proof fn law_a_silent_tape_hands_over(
    leads: Map<ScopeId, TapeLead>,
    books: AuthorityView,
    s: ScopeId,
    p: Publisher,
    recv_ns: u64,
)
    requires
        leads.contains_key(s),
        leads[s].arm != p,
        elapsed(leads[s].last_ns, recv_ns) > NO_ID_TAPE_HANDOVER_NS,
    ensures
        tape_step(leads, books, s, p, recv_ns).1 == TapeVerdict::Takeover,
{
}

} // verus!
