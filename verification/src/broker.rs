//! Identifiers shared across the engine's components.

use vstd::prelude::*;

verus! {

/// Identifies one registered handler.
#[derive(Clone, Copy, Debug, PartialEq, Eq, Structural)]
pub struct HandlerId(pub u32);

/// Identifies one event inside the engine.
#[derive(Clone, Copy, Debug, PartialEq, Eq, Structural)]
pub struct EventId(pub u64);

/// The string value that groups related events.
pub type CorrelationId = String;

/// A scheduled future re-evaluation: at `expires_at` (whole seconds since
/// the Unix epoch) the named rule is to be re-checked for the correlation
/// key.
#[derive(Debug)]
pub struct EventExpiry {
    pub expires_at: i64,
    pub correlation_id: CorrelationId,
    pub event_rule: String,
}

impl EventExpiry {
    /// An expiry for the given instant, key and rule.
    pub fn new(recheck_at: i64, correlation_id: CorrelationId, event_rule: String) -> (r: Self)
        ensures
            r.expires_at == recheck_at,
            r.correlation_id@ == correlation_id@,
            r.event_rule@ == event_rule@,
    {
        EventExpiry { expires_at: recheck_at, correlation_id, event_rule }
    }
}

impl Clone for EventExpiry {
    /// An equal copy of the expiry.
    fn clone(&self) -> (r: Self)
        ensures
            r == *self,
    {
        EventExpiry {
            expires_at: self.expires_at,
            correlation_id: self.correlation_id.clone(),
            event_rule: self.event_rule.clone(),
        }
    }
}

impl PartialEq for EventExpiry {
    /// Two expiries are equal when all three fields agree.
    fn eq(&self, other: &Self) -> (r: bool) {
        self.expires_at == other.expires_at && self.correlation_id == other.correlation_id
            && self.event_rule == other.event_rule
    }
}

impl vstd::std_specs::cmp::PartialEqSpecImpl for EventExpiry {
    open spec fn obeys_eq_spec() -> bool {
        true
    }

    open spec fn eq_spec(&self, other: &Self) -> bool {
        self.expires_at == other.expires_at && self.correlation_id@ == other.correlation_id@
            && self.event_rule@ == other.event_rule@
    }
}

} // verus!
