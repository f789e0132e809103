//! The actions a rule evaluation yields.

use vstd::prelude::*;

use crate::broker::EventExpiry;
use crate::json::Json;

verus! {

/// A request to re-check at a later instant.
#[derive(Debug, Clone, Copy, PartialEq, Eq, Structural)]
pub struct DelayedCheck {
    pub until: i64,
}

/// A payload to submit to a named target.
#[derive(Debug)]
pub struct EmitAction {
    pub target: String,
    pub payload: Json,
}

impl EmitAction {
    /// An emission of `event` towards `target`.
    pub fn new(target: String, event: Json) -> (r: Self)
        ensures
            r.target@ == target@,
            r.payload@ == event@,
    {
        Self { target, payload: event }
    }

    /// The rendered payload to deliver.
    pub fn payload(self) -> (r: Json)
        ensures
            r@ == self.payload@,
    {
        self.payload
    }
}

/// What the engine asks the driver to do.
#[derive(Debug)]
pub enum EventAction {
    /// Submit a rendered payload to a target.
    Emit(EmitAction),
    /// Schedule a future re-evaluation.
    ScheduleWakeup(EventExpiry),
}

} // verus!
