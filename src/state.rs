//! The run's state machine: not started, running, ended.

use vstd::prelude::*;

verus! {

/// `started` is set by the first flap, `ended` by a fall or a collision.
/// Neither is ever cleared: a run goes NotStarted, Running, Ended.
#[derive(Clone, Copy, Debug, PartialEq, Eq, Structural)]
pub struct GameState {
    pub started: bool,
    pub ended: bool,
}

impl GameState {
    pub open spec fn running(self) -> bool {
        self.started && !self.ended
    }

    /// Only reachable combinations: an ended run has started.
    pub open spec fn wf(self) -> bool {
        self.ended ==> self.started
    }

    pub fn new() -> (r: GameState)
        ensures
            !r.started,
            !r.ended,
    {
        GameState { started: false, ended: false }
    }

    pub fn is_running(&self) -> (r: bool)
        ensures
            r == self.running(),
    {
        self.started && !self.ended
    }
}

} // verus!
