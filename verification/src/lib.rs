//! A stateful stream-correlation engine.
//!
//! Raw messages arriving from named sources are classified into event
//! types, grouped by a correlation key extracted from their payload,
//! persisted as ordered batches, and evaluated against configured rules.
//! A rule whose requirement and predicate are both satisfied emits a
//! rendered payload towards a named target; one whose predicate is not
//! yet satisfied may schedule a future re-evaluation through a durable
//! expiry queue.

pub mod action;
pub mod broker;
pub mod clock;
pub mod codec;
pub mod config;
pub mod context;
pub mod errors;
pub mod event;
pub mod event_serde;
pub mod flow_definition;
pub mod json;
pub mod matcher;
pub mod numtext;
pub mod predicate;
pub mod processor;
pub mod render;
pub mod rules;
pub mod storage;
pub mod strutil;
pub mod template;
pub mod timing;
pub mod utils;
