//! Destination fallback for one inbound connection.
//!
//! The destinations of a route are dialled strictly one after another, in
//! list order. The first one that accepts the connection is kept and no later
//! one is dialled; when every one refuses, the inbound connection is closed.
//! The dialling itself happens outside: the owner of the connection asks the
//! selector what to do, does it, and reports how the dial went.
use vstd::prelude::*;

verus! {

/// Where a selection pass stands.
#[derive(Clone, Copy, Debug, PartialEq, Eq, Structural)]
pub enum Selection {
    /// The destination at this index is the one to dial now; all before it refused.
    Trying(usize),
    /// The destination at this index accepted; the pass is over.
    Connected(usize),
    /// Every destination refused; the pass is over.
    Exhausted,
}

/// What the owner of the inbound connection does next.
#[derive(Clone, Copy, Debug, PartialEq, Eq, Structural)]
pub enum Action {
    /// Open an outbound connection to this port and report the outcome.
    Dial(u16),
    /// Relay between the inbound connection and the one opened to this port.
    Relay(u16),
    /// Close the inbound connection without relaying anything.
    Close,
}

/// The abstract state of a selector: the candidate ports and the pass's state.
pub struct SelectorView {
    pub destinations: Seq<u16>,
    pub state: Selection,
}

/// The state in which a pass over `destinations` begins.
pub open spec fn start(destinations: Seq<u16>) -> Selection {
    if destinations.len() == 0 {
        Selection::Exhausted
    } else {
        Selection::Trying(0)
    }
}

/// Every index that a state names lies inside the destination list.
pub open spec fn valid(destinations: Seq<u16>, s: Selection) -> bool {
    match s {
        Selection::Trying(i) => i < destinations.len(),
        Selection::Connected(i) => i < destinations.len(),
        Selection::Exhausted => true,
    }
}

/// The state after the dial that `s` calls for has been accepted or refused.
/// A finished pass stays as it is.
pub open spec fn step(destinations: Seq<u16>, s: Selection, accepted: bool) -> Selection {
    match s {
        Selection::Trying(i) => {
            if accepted {
                Selection::Connected(i)
            } else if i + 1 < destinations.len() {
                Selection::Trying((i + 1) as usize)
            } else {
                Selection::Exhausted
            }
        },
        _ => s,
    }
}

/// What a state asks of the owner of the inbound connection.
pub open spec fn action_of(destinations: Seq<u16>, s: Selection) -> Action {
    match s {
        Selection::Trying(i) => Action::Dial(destinations[i as int]),
        Selection::Connected(i) => Action::Relay(destinations[i as int]),
        Selection::Exhausted => Action::Close,
    }
}

/// The ports dialled so far, in the order in which they were dialled, when a
/// pass that began in `start(destinations)` has reached `s`.
pub open spec fn dialled(destinations: Seq<u16>, s: Selection) -> Seq<u16> {
    match s {
        Selection::Trying(i) => destinations.take(i as int),
        Selection::Connected(i) => destinations.take(i + 1),
        Selection::Exhausted => destinations,
    }
}

/// How many dials a pass in state `s` may still make.
pub open spec fn pending(destinations: Seq<u16>, s: Selection) -> nat {
    match s {
        Selection::Trying(i) => {
            if i < destinations.len() {
                (destinations.len() - i) as nat
            } else {
                0
            }
        },
        _ => 0,
    }
}

/// The state that a pass reaches from `s` when the destination at each index
/// `j` accepts exactly when `reachable[j]` holds (for a list of a length that
/// a `Vec` can have).
pub open spec fn drive(destinations: Seq<u16>, s: Selection, reachable: Seq<bool>) -> Selection
    decreases pending(destinations, s),
{
    match s {
        Selection::Trying(i) => {
            if i < destinations.len() <= usize::MAX {
                drive(destinations, step(destinations, s, reachable[i as int]), reachable)
            } else {
                s
            }
        },
        _ => s,
    }
}

proof fn lemma_drive_reaches(destinations: Seq<u16>, i: usize, reachable: Seq<bool>, k: int)
    requires
        destinations.len() <= usize::MAX,
        i <= k < destinations.len(),
        reachable[k],
        forall|j: int| i <= j < k ==> !reachable[j],
    ensures
        drive(destinations, Selection::Trying(i), reachable) == Selection::Connected(k as usize),
    decreases k - i,
{
    if i < k {
        lemma_drive_reaches(destinations, (i + 1) as usize, reachable, k);
    } else {
        assert(drive(destinations, Selection::Connected(i), reachable) == Selection::Connected(i));
    }
}

proof fn lemma_drive_runs_out(destinations: Seq<u16>, i: usize, reachable: Seq<bool>)
    requires
        destinations.len() <= usize::MAX,
        i < destinations.len(),
        forall|j: int| i <= j < destinations.len() ==> !reachable[j],
    ensures
        drive(destinations, Selection::Trying(i), reachable) == Selection::Exhausted,
    decreases destinations.len() - i,
{
    if i + 1 < destinations.len() {
        lemma_drive_runs_out(destinations, (i + 1) as usize, reachable);
    } else {
        assert(drive(destinations, Selection::Exhausted, reachable) == Selection::Exhausted);
    }
}

/// Fallback order: when the destinations before index `k` all refuse and the
/// one at `k` accepts, the pass keeps the destination at `k`, the inbound
/// connection is relayed to it, and the ports dialled are exactly those up to
/// and including it, in list order: nothing after it is dialled.
pub proof fn lemma_fallback_order(destinations: Seq<u16>, reachable: Seq<bool>, k: int)
    requires
        destinations.len() <= usize::MAX,
        reachable.len() == destinations.len(),
        0 <= k < destinations.len(),
        reachable[k],
        forall|j: int| 0 <= j < k ==> !reachable[j],
    ensures
        drive(destinations, start(destinations), reachable) == Selection::Connected(k as usize),
        action_of(destinations, drive(destinations, start(destinations), reachable))
            == Action::Relay(destinations[k]),
        dialled(destinations, drive(destinations, start(destinations), reachable))
            == destinations.take(k + 1),
{
    lemma_drive_reaches(destinations, 0, reachable, k);
}

/// First success wins: when the first destination accepts, the connection is
/// relayed to it and it is the only port dialled, whatever the others would do.
pub proof fn lemma_first_success_wins(destinations: Seq<u16>, reachable: Seq<bool>)
    requires
        destinations.len() <= usize::MAX,
        reachable.len() == destinations.len(),
        destinations.len() > 0,
        reachable[0],
    ensures
        drive(destinations, start(destinations), reachable) == Selection::Connected(0),
        action_of(destinations, drive(destinations, start(destinations), reachable))
            == Action::Relay(destinations[0]),
        dialled(destinations, drive(destinations, start(destinations), reachable))
            == seq![destinations[0]],
{
    lemma_fallback_order(destinations, reachable, 0);
    assert(destinations.take(1) =~= seq![destinations[0]]);
}

/// Exhaustion: when every destination refuses, each is dialled once, in list
/// order, and the inbound connection is closed without any relay.
pub proof fn lemma_exhaustion(destinations: Seq<u16>, reachable: Seq<bool>)
    requires
        destinations.len() <= usize::MAX,
        reachable.len() == destinations.len(),
        forall|j: int| 0 <= j < destinations.len() ==> !reachable[j],
    ensures
        drive(destinations, start(destinations), reachable) == Selection::Exhausted,
        action_of(destinations, drive(destinations, start(destinations), reachable))
            == Action::Close,
        dialled(destinations, drive(destinations, start(destinations), reachable))
            == destinations,
{
    if destinations.len() > 0 {
        lemma_drive_runs_out(destinations, 0, reachable);
    }
}

/// Dials are strictly sequential: each report on a pass that is still trying
/// adds exactly the port that was being dialled to those dialled before, and
/// the state stays valid.
pub proof fn lemma_one_dial_per_report(destinations: Seq<u16>, s: Selection, accepted: bool)
    requires
        destinations.len() <= usize::MAX,
        valid(destinations, s),
        s is Trying,
    ensures
        valid(destinations, step(destinations, s, accepted)),
        dialled(destinations, step(destinations, s, accepted))
            == dialled(destinations, s).push(destinations[s->Trying_0 as int]),
{
    let i = s->Trying_0 as int;
    if !accepted && i + 1 >= destinations.len() {
        assert(destinations.take(i).push(destinations[i]) =~= destinations);
    } else {
        assert(destinations.take(i).push(destinations[i]) =~= destinations.take(i + 1));
    }
}

/// The selection state of one inbound connection.
pub struct Selector {
    destinations: Vec<u16>,
    state: Selection,
}

impl View for Selector {
    type V = SelectorView;

    closed spec fn view(&self) -> SelectorView {
        SelectorView { destinations: self.destinations@, state: self.state }
    }
}

impl Selector {
    /// Well-formed: the state names an index inside the destination list.
    pub open spec fn wf(&self) -> bool {
        valid(self@.destinations, self@.state)
    }

    /// A fresh pass over `destinations`, in their order. With no destination
    /// the pass is exhausted from the start.
    pub fn new(destinations: Vec<u16>) -> (r: Selector)
        ensures
            r.wf(),
            r@.destinations == destinations@,
            r@.state == start(destinations@),
    {
        let state = if destinations.len() == 0 {
            Selection::Exhausted
        } else {
            Selection::Trying(0)
        };
        Selector { destinations, state }
    }

    /// The candidate ports, in the order in which they are dialled.
    pub fn destinations(&self) -> (r: &Vec<u16>)
        ensures
            r@ == self@.destinations,
    {
        &self.destinations
    }

    /// Where the pass stands.
    pub fn state(&self) -> (r: Selection)
        ensures
            r == self@.state,
    {
        self.state
    }

    /// What the owner of the inbound connection is to do now.
    pub fn next_action(&self) -> (r: Action)
        requires
            self.wf(),
        ensures
            r == action_of(self@.destinations, self@.state),
    {
        match self.state {
            Selection::Trying(i) => Action::Dial(self.destinations[i]),
            Selection::Connected(i) => Action::Relay(self.destinations[i]),
            Selection::Exhausted => Action::Close,
        }
    }

    /// Records whether the dial that `next_action` asked for was accepted.
    /// On acceptance the pass ends there; on refusal it moves to the next
    /// destination, or is exhausted after the last. A finished pass is left
    /// as it is.
    pub fn report(&mut self, accepted: bool)
        requires
            old(self).wf(),
        ensures
            final(self).wf(),
            final(self)@.destinations == old(self)@.destinations,
            final(self)@.state == step(old(self)@.destinations, old(self)@.state, accepted),
    {
        if let Selection::Trying(i) = self.state {
            let n = self.destinations.len();
            if accepted {
                self.state = Selection::Connected(i);
            } else if i + 1 < n {
                self.state = Selection::Trying(i + 1);
            } else {
                self.state = Selection::Exhausted;
            }
        }
    }

    /// Whether the pass is over: a destination was kept or none is left.
    pub fn is_finished(&self) -> (r: bool)
        ensures
            r == !(self@.state is Trying),
    {
        !matches!(self.state, Selection::Trying(_))
    }
}

} // verus!
