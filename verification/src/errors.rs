//! The error values that the engine's operations report.

use vstd::prelude::*;

verus! {

/// Errors raised while classifying, storing or evaluating events.
#[derive(Clone, Debug, PartialEq, Eq)]
pub enum LaikaError {
    /// A failure described only by a message.
    Generic(String),
    /// A failure of the storage or persistence layer.
    IO(String),
    /// An event definition referenced something that was never declared.
    MissingEvent(String),
    /// A correlation path was configured for the event type but the
    /// payload did not yield a key.
    EventMatchError,
    /// A field was missing while descending a payload path: the field
    /// name first, the whole path second.
    FieldNotFound(String, String),
    /// A correlation key was neither provided nor available in the payload.
    MissingCorrelationKey,
    /// A non-correlated event was grouped together with other events.
    InvalidEventGroup,
    /// The configured pattern was not a valid regular expression.
    RegexError(String),
    /// The predicate engine failed while evaluating a rule.
    RuleEvaluationError(String),
    /// A template could not be compiled or rendered.
    TemplateError(String),
}

impl LaikaError {
    /// A human-readable description of the error.
    pub fn message(&self) -> String {
        match self {
            LaikaError::Generic(m) => m.clone(),
            LaikaError::IO(m) => m.clone(),
            LaikaError::MissingEvent(m) => m.clone(),
            LaikaError::EventMatchError => String::new(),
            LaikaError::FieldNotFound(f, _) => f.clone(),
            LaikaError::MissingCorrelationKey => String::new(),
            LaikaError::InvalidEventGroup => String::new(),
            LaikaError::RegexError(m) => m.clone(),
            LaikaError::RuleEvaluationError(m) => m.clone(),
            LaikaError::TemplateError(m) => m.clone(),
        }
    }
}

/// The usual result type of the engine's fallible operations.
pub type LaikaResult<T> = Result<T, LaikaError>;

} // verus!
