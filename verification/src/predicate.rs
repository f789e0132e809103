//! The predicate engine interface, and the default predicate used by
//! rules that declare none.

use vstd::prelude::*;

use crate::context::{EventContext, default_payload_jsonv, default_payload_json};
use crate::errors::LaikaResult;
use crate::event::Trigger;
use crate::json::Json;

verus! {

/// The predicate source installed for a rule that declares none.
/// Engines map it to the built-in behaviour of `default_evaluate`.
pub const DEFAULT_PREDICATE: &'static str = "default";

/// A handle to one stored predicate.
#[derive(Debug, Clone, PartialEq, Eq)]
pub struct JsonPredicate {
    pub id: String,
}

/// What evaluates stored predicates: it installs a predicate source
/// under a stable handle, and evaluates a handle against a trigger and
/// its context, yielding the extraction payload or nothing.
pub trait PredicateEngine {
    /// Install a predicate and hand back its handle.
    fn store_predicate(&mut self, js_code: &str) -> JsonPredicate;

    /// Evaluate a stored predicate: `None` means not satisfied, any
    /// payload is the extraction the action renders.
    fn evaluate(
        &mut self,
        predicate: &JsonPredicate,
        trigger: &Trigger,
        context: &EventContext,
    ) -> LaikaResult<Option<Json>>;
}

/// The built-in predicate: satisfied exactly when the evaluation sees
/// any event (the context holds one, or the trigger carries one), with
/// the default payload as its extraction.
pub fn default_evaluate(trigger: &Trigger, context: &EventContext) -> (r: Option<Json>)
    ensures
        match r {
            Some(j) => (context.sequence@.len() > 0 || trigger is ReceivedEvent) && j@
                == default_payload_jsonv(*trigger, context.sequence@),
            None => context.sequence@.len() == 0 && trigger is TimerExpired,
        },
{
    let has_events = context.sequence.len() > 0 || matches!(trigger, Trigger::ReceivedEvent(_));
    if has_events {
        Some(default_payload_json(trigger, &context.sequence))
    } else {
        None
    }
}

/// An engine with no script runtime: every stored predicate behaves as
/// the built-in default predicate.
#[derive(Debug)]
pub struct DefaultPredicateEngine {
    pub predicate_count: usize,
}

impl DefaultPredicateEngine {
    /// An engine holding no predicates yet.
    pub fn new() -> (r: Self)
        ensures
            r.predicate_count == 0,
    {
        DefaultPredicateEngine { predicate_count: 0 }
    }
}

impl PredicateEngine for DefaultPredicateEngine {
    fn store_predicate(&mut self, js_code: &str) -> JsonPredicate {
        if self.predicate_count < usize::MAX {
            self.predicate_count = self.predicate_count + 1;
        }
        JsonPredicate { id: crate::numtext::u64_to_string(self.predicate_count as u64) }
    }

    /// Every stored predicate behaves as `default_evaluate`: the call
    /// never fails, and its verdict is the built-in one.
    fn evaluate(
        &mut self,
        predicate: &JsonPredicate,
        trigger: &Trigger,
        context: &EventContext,
    ) -> (r: LaikaResult<Option<Json>>)
        ensures
            r matches Ok(v) && match v {
                Some(j) => (context.sequence@.len() > 0 || trigger is ReceivedEvent) && j@
                    == default_payload_jsonv(*trigger, context.sequence@),
                None => context.sequence@.len() == 0 && trigger is TimerExpired,
            },
    {
        Ok(default_evaluate(trigger, context))
    }
}

} // verus!
