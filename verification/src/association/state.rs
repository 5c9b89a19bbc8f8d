//! The states that an association goes through.

use vstd::prelude::*;

verus! {

/// Where an association stands between set-up and shutdown.
#[derive(Debug, Clone, Copy, PartialEq, Eq, Structural)]
pub enum AssociationState {
    Closed,
    CookieWait,
    CookieEchoed,
    Established,
    ShutdownPending,
    ShutdownSent,
    ShutdownReceived,
    ShutdownAckSent,
}

impl AssociationState {
    /// Whether the association is on its way down, but not closed yet.
    pub open spec fn shutting_down(self) -> bool {
        self is ShutdownPending || self is ShutdownSent || self is ShutdownReceived
            || self is ShutdownAckSent
    }
}

impl Default for AssociationState {
    fn default() -> (r: Self)
        ensures
            r == AssociationState::Closed,
    {
        AssociationState::Closed
    }
}

/// What is due to the peer by way of acknowledgements.
#[derive(Debug, Clone, Copy, PartialEq, Eq, Structural)]
pub enum AckState {
    /// Nothing.
    Idle,
    /// An acknowledgement, at once.
    Immediate,
    /// An acknowledgement, once the timer expires.
    Delay,
}

impl Default for AckState {
    fn default() -> (r: Self)
        ensures
            r == AckState::Idle,
    {
        AckState::Idle
    }
}

/// How acknowledgements are held back.
#[derive(Debug, Clone, Copy, PartialEq, Eq, Structural)]
pub enum AckMode {
    /// As the protocol asks for.
    Normal,
    /// Never.
    NoDelay,
    /// Always.
    AlwaysDelay,
}

impl Default for AckMode {
    fn default() -> (r: Self)
        ensures
            r == AckMode::Normal,
    {
        AckMode::Normal
    }
}

} // verus!
