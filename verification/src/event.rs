//! Raw and classified events, and the triggers that drive rule evaluation.
//!
//! All instants are whole seconds since the Unix epoch.

use vstd::prelude::*;

use crate::broker::{CorrelationId, EventExpiry};
use crate::json::{Json, JsonV, JsonEntry, entries_view};
use crate::numtext::{i64_to_string, int_text};

verus! {

/// A message as it arrived from a transport, before classification.
#[derive(Debug)]
pub struct RawEvent {
    pub received: i64,
    pub data: Json,
}

impl RawEvent {
    /// A raw event received now.
    pub fn new(data: Json) -> (r: RawEvent)
        ensures
            r.data@ == data@,
    {
        RawEvent { received: crate::clock::now_unix_seconds(), data }
    }

    /// A raw event received at the given instant.
    pub fn at(received: i64, data: Json) -> (r: RawEvent)
        ensures
            r.received == received,
            r.data@ == data@,
    {
        RawEvent { received, data }
    }

    /// Classify this raw event under an event type: with a correlation
    /// key it becomes a correlated event, without one it becomes a
    /// non-correlated event under a fresh identifier.
    pub fn parse(self, event_type: String, correlation_id: Option<CorrelationId>) -> (r: Event)
        ensures
            r.spec_received() == self.received,
            r.spec_type() == event_type@,
            r.spec_data() == self.data@,
            match correlation_id {
                Some(key) => r matches Event::Correlated(c) && c.correlation_id@ == key@,
                None => r is NonCorrelated,
            },
    {
        match correlation_id {
            Some(key) => Event::Correlated(
                CorrelatedEvent {
                    received: self.received,
                    correlation_id: key,
                    event_type,
                    data: self.data,
                },
            ),
            None => Event::NonCorrelated(
                NonCorrelatedEvent {
                    received: self.received,
                    event_id: fresh_event_id(),
                    event_type,
                    data: self.data,
                },
            ),
        }
    }
}

impl Clone for RawEvent {
    /// An equal copy of the raw event.
    fn clone(&self) -> (r: RawEvent)
        ensures
            r.received == self.received,
            r.data@ == self.data@,
    {
        RawEvent { received: self.received, data: self.data.duplicate() }
    }
}

/// Relies on `uuid::Uuid::new_v4` and its text form: a fresh random
/// identifier.  Nothing is assumed of which identifier comes back.
#[verifier::external_body]
fn fresh_event_id() -> String {
    uuid::Uuid::new_v4().to_string()
}

/// An event that carries a correlation key and is grouped with the other
/// events sharing it.
#[derive(Debug)]
pub struct CorrelatedEvent {
    pub received: i64,
    pub correlation_id: CorrelationId,
    pub event_type: String,
    pub data: Json,
}

/// An event without a correlation key: it is evaluated alone, under a
/// process-unique identifier.
#[derive(Debug)]
pub struct NonCorrelatedEvent {
    pub received: i64,
    pub event_id: String,
    pub event_type: String,
    pub data: Json,
}

/// A classified event.
#[derive(Debug)]
pub enum Event {
    Correlated(CorrelatedEvent),
    NonCorrelated(NonCorrelatedEvent),
}

impl Clone for CorrelatedEvent {
    /// An equal copy of the event.
    fn clone(&self) -> (r: Self)
        ensures
            r.received == self.received,
            r.correlation_id@ == self.correlation_id@,
            r.event_type@ == self.event_type@,
            r.data@ == self.data@,
    {
        CorrelatedEvent {
            received: self.received,
            correlation_id: self.correlation_id.clone(),
            event_type: self.event_type.clone(),
            data: self.data.duplicate(),
        }
    }
}

impl Clone for NonCorrelatedEvent {
    /// An equal copy of the event.
    fn clone(&self) -> (r: Self)
        ensures
            r.received == self.received,
            r.event_id@ == self.event_id@,
            r.event_type@ == self.event_type@,
            r.data@ == self.data@,
    {
        NonCorrelatedEvent {
            received: self.received,
            event_id: self.event_id.clone(),
            event_type: self.event_type.clone(),
            data: self.data.duplicate(),
        }
    }
}

impl Event {
    /// The instant the event was received.
    pub open spec fn spec_received(&self) -> i64 {
        match self {
            Event::Correlated(e) => e.received,
            Event::NonCorrelated(e) => e.received,
        }
    }

    /// The event's type label.
    pub open spec fn spec_type(&self) -> Seq<char> {
        match self {
            Event::Correlated(e) => e.event_type@,
            Event::NonCorrelated(e) => e.event_type@,
        }
    }

    /// The event's payload.
    pub open spec fn spec_data(&self) -> JsonV {
        match self {
            Event::Correlated(e) => e.data@,
            Event::NonCorrelated(e) => e.data@,
        }
    }

    /// The key the event is grouped by: the correlation key of a
    /// correlated event, the unique identifier of a non-correlated one.
    pub open spec fn spec_key(&self) -> Seq<char> {
        match self {
            Event::Correlated(e) => e.correlation_id@,
            Event::NonCorrelated(e) => e.event_id@,
        }
    }

    /// The instant the event was received.
    pub fn received(&self) -> (r: i64)
        ensures
            r == self.spec_received(),
    {
        match self {
            Event::Correlated(e) => e.received,
            Event::NonCorrelated(e) => e.received,
        }
    }

    /// The event's type label.  Every event carries one.
    pub fn event_type(&self) -> (r: Option<String>)
        ensures
            r matches Some(t) && t@ == self.spec_type(),
    {
        match self {
            Event::Correlated(e) => Some(e.event_type.clone()),
            Event::NonCorrelated(e) => Some(e.event_type.clone()),
        }
    }

    /// The event's payload.
    pub fn get_data(&self) -> (r: &Json)
        ensures
            r@ == self.spec_data(),
    {
        match self {
            Event::Correlated(e) => &e.data,
            Event::NonCorrelated(e) => &e.data,
        }
    }

    /// Overwrite the instant the event was received.
    pub fn set_received(&mut self, received: i64)
        ensures
            final(self).spec_received() == received,
            final(self).spec_type() == old(self).spec_type(),
            final(self).spec_data() == old(self).spec_data(),
            final(self).spec_key() == old(self).spec_key(),
            (*final(self)) is Correlated <==> (*old(self)) is Correlated,
    {
        match self {
            Event::Correlated(e) => {
                e.received = received;
            }
            Event::NonCorrelated(e) => {
                e.received = received;
            }
        }
    }
}

impl Clone for Event {
    /// An equal copy of the event.
    fn clone(&self) -> (r: Self)
        ensures
            r.spec_received() == self.spec_received(),
            r.spec_type() == self.spec_type(),
            r.spec_data() == self.spec_data(),
            r.spec_key() == self.spec_key(),
            r is Correlated <==> self is Correlated,
    {
        match self {
            Event::Correlated(e) => Event::Correlated(e.clone()),
            Event::NonCorrelated(e) => Event::NonCorrelated(e.clone()),
        }
    }
}

/// What caused a rule evaluation: an event that just arrived, or a timer
/// that just fired.
#[derive(Debug)]
pub enum Trigger {
    ReceivedEvent(Event),
    TimerExpired(EventExpiry),
}

/// The document handed to a predicate for an arrived event:
/// `{type: "received_event", timestamp: <seconds>, event: <payload>}`.
pub open spec fn received_trigger_jsonv(timestamp: i64, data: JsonV) -> JsonV {
    JsonV::Obj(
        seq![
            ("type"@, JsonV::Str("received_event"@)),
            ("timestamp"@, JsonV::Num(int_text(timestamp as int))),
            ("event"@, data),
        ],
    )
}

/// The document handed to a predicate for a fired timer:
/// `{type: "timer_expired", timestamp: <seconds>}`.
pub open spec fn timer_trigger_jsonv(timestamp: i64) -> JsonV {
    JsonV::Obj(
        seq![
            ("type"@, JsonV::Str("timer_expired"@)),
            ("timestamp"@, JsonV::Num(int_text(timestamp as int))),
        ],
    )
}

/// The document a trigger shows to a predicate.
pub open spec fn trigger_jsonv(t: Trigger) -> JsonV {
    match t {
        Trigger::ReceivedEvent(e) => received_trigger_jsonv(e.spec_received(), e.spec_data()),
        Trigger::TimerExpired(exp) => timer_trigger_jsonv(exp.expires_at),
    }
}

impl Trigger {
    /// Render the trigger as the document a predicate sees.
    pub fn to_json(&self) -> (r: Json)
        ensures
            r@ == trigger_jsonv(*self),
    {
        match self {
            Trigger::ReceivedEvent(e) => {
                let mut entries: Vec<JsonEntry> = Vec::new();
                entries.push(
                    JsonEntry { key: "type".to_owned(), value: Json::Str("received_event".to_owned()) },
                );
                entries.push(
                    JsonEntry {
                        key: "timestamp".to_owned(),
                        value: Json::Num(i64_to_string(e.received())),
                    },
                );
                entries.push(JsonEntry { key: "event".to_owned(), value: e.get_data().duplicate() });
                let r = Json::Obj(entries);
                proof {
                    assert(entries_view(entries@) =~~= received_trigger_jsonv(
                        e.spec_received(),
                        e.spec_data(),
                    )->Obj_0);
                    assert(r@ =~~= trigger_jsonv(*self));
                }
                r
            }
            Trigger::TimerExpired(exp) => {
                let mut entries: Vec<JsonEntry> = Vec::new();
                entries.push(
                    JsonEntry { key: "type".to_owned(), value: Json::Str("timer_expired".to_owned()) },
                );
                entries.push(
                    JsonEntry {
                        key: "timestamp".to_owned(),
                        value: Json::Num(i64_to_string(exp.expires_at)),
                    },
                );
                let r = Json::Obj(entries);
                proof {
                    assert(entries_view(entries@) =~~= timer_trigger_jsonv(exp.expires_at)->Obj_0);
                    assert(r@ =~~= trigger_jsonv(*self));
                }
                r
            }
        }
    }
}

} // verus!
