//! The atomic unit of a request's timeline.

use vstd::prelude::*;

verus! {

/// Which role performed an activity. Every activity on a timeline belongs to
/// exactly one of the two roles; activity by anyone else never becomes an
/// `Event`.
#[derive(Clone, Copy, Debug, PartialEq, Eq, Structural)]
pub enum Actor {
    Author,
    Editor,
}

/// One classified activity: who acted and when (an absolute UTC timestamp,
/// in fixed units such as seconds or microseconds since the epoch; the
/// library only compares these values).
#[derive(Clone, Copy, Debug, PartialEq, Eq, Structural)]
pub struct Event {
    pub actor: Actor,
    pub when: i64,
}

/// The outcome of the ball state machine for one request: either nothing is
/// owed by the editors, or they owe a response and have owed one since the
/// given time.
#[derive(Clone, Copy, Debug, PartialEq, Eq, Structural)]
pub enum BallState {
    NoActionNeeded,
    AwaitingEditor(i64),
}

} // verus!
