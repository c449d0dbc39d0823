//! The life of a URL in the store as a state machine: absent, secondary
//! (only the target of relations) or primary (a bookmark of its own).
use vstd::prelude::*;

verus! {

/// Where a URL stands.
#[derive(Debug, Clone, Copy, PartialEq, Eq, Structural)]
pub enum LinkState {
    Absent,
    Secondary,
    Primary,
}

/// What the user asks for a URL.
#[derive(Debug, Clone, Copy, PartialEq, Eq, Structural)]
pub enum LinkEvent {
    Add,
    Remove,
}

/// What the store has to do.
#[derive(Debug, Clone, Copy, PartialEq, Eq, Structural)]
pub enum LinkAction {
    /// Insert a new primary link.
    Insert,
    /// Make the secondary link primary, with the new title, description
    /// and content, keeping its identifier.
    Promote,
    /// Refuse: the URL is a primary link already.
    Reject,
    /// Delete the link with everything it owns.
    Delete,
    /// Make the link secondary: drop its content, its tags and the
    /// relations that start at it, keep those that end at it.
    Demote,
    /// Nothing to do.
    Keep,
}

/// The next state and the action, given the state, the number of relations
/// that end at the link, and the event.
pub open spec fn transition_spec(state: LinkState, inbound: nat, event: LinkEvent) -> (LinkState, LinkAction) {
    match (state, event) {
        (LinkState::Absent, LinkEvent::Add) => (LinkState::Primary, LinkAction::Insert),
        (LinkState::Secondary, LinkEvent::Add) => (LinkState::Primary, LinkAction::Promote),
        (LinkState::Primary, LinkEvent::Add) => (LinkState::Primary, LinkAction::Reject),
        (LinkState::Primary, LinkEvent::Remove) => if inbound == 0 {
            (LinkState::Absent, LinkAction::Delete)
        } else {
            (LinkState::Secondary, LinkAction::Demote)
        },
        (s, LinkEvent::Remove) => (s, LinkAction::Keep),
    }
}

/// The next state and the action for a URL (see `transition_spec`).
pub fn transition(state: LinkState, inbound: usize, event: LinkEvent) -> (r: (LinkState, LinkAction))
    ensures
        r == transition_spec(state, inbound as nat, event),
{
    match event {
        LinkEvent::Add => match state {
            LinkState::Absent => (LinkState::Primary, LinkAction::Insert),
            LinkState::Secondary => (LinkState::Primary, LinkAction::Promote),
            LinkState::Primary => (LinkState::Primary, LinkAction::Reject),
        },
        LinkEvent::Remove => match state {
            LinkState::Primary => {
                if inbound == 0 {
                    (LinkState::Absent, LinkAction::Delete)
                } else {
                    (LinkState::Secondary, LinkAction::Demote)
                }
            },
            LinkState::Secondary => (LinkState::Secondary, LinkAction::Keep),
            LinkState::Absent => (LinkState::Absent, LinkAction::Keep),
        },
    }
}

} // verus!
