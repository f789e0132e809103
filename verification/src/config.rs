//! Configuration: correlation keys, rule timing, and the plain shapes
//! the configuration document is built from.

use vstd::prelude::*;

use crate::errors::{LaikaError, LaikaResult};
use crate::event::RawEvent;
use crate::json::lookup_path;
use crate::matcher::EventType;
use crate::render::{format_json_value, json_text};
use crate::template::Template;
use crate::utils::parse_time::{parse_time_spec, parse_time_str};

verus! {

broadcast use vstd::std_specs::vec::group_vec_axioms, vstd::seq::group_seq_axioms;

/// When a rule re-checks its predicate, all measured in whole seconds
/// from the instant its requirement was met.
#[derive(Debug, Clone, Copy)]
pub struct TimingConfig {
    pub from: i64,
    pub check_every: Option<i64>,
    pub until: Option<i64>,
}

/// Durations are non-negative.
pub open spec fn timing_wf(t: TimingConfig) -> bool {
    &&& t.from >= 0
    &&& (t.check_every matches Some(c) ==> c >= 0)
    &&& (t.until matches Some(u) ==> u >= 0)
}

/// Durations and instants small enough that no sum or product of the
/// schedule computation leaves the signed 64-bit range.
pub open spec fn timing_bounded(t: TimingConfig) -> bool {
    &&& t.from <= 0x1000_0000_0000_0000
    &&& (t.check_every matches Some(c) ==> c <= 0x1000_0000_0000_0000)
    &&& (t.until matches Some(u) ==> u <= 0x1000_0000_0000_0000)
}

/// An instant within the range the schedule computation supports.
pub open spec fn instant_in_range(x: int) -> bool {
    -0x1000_0000_0000_0000 <= x <= 0x1000_0000_0000_0000
}

/// The next instant to re-check a rule whose requirement was met at
/// `met_at`, seen from `now`:
/// - none once `met_at + until` has passed;
/// - `met_at + from` while that start has not been reached;
/// - else the next multiple of `check_every` from the start, unless it
///   would land at or past the end, or no interval is set.
pub open spec fn next_check_spec(t: TimingConfig, met_at: int, now: int) -> Option<int> {
    let start = met_at + t.from;
    if t.until matches Some(u) && now >= met_at + u {
        None
    } else if now < start {
        Some(start)
    } else {
        match t.check_every {
            None => None,
            Some(iv) => {
                if iv <= 0 {
                    None
                } else {
                    let k = (now - start + iv - 1) / (iv as int);
                    let cand = start + k * iv;
                    if t.until matches Some(u) && cand >= met_at + u {
                        None
                    } else {
                        Some(cand)
                    }
                }
            },
        }
    }
}

impl TimingConfig {
    /// The next re-check instant, judged at `now`.  Once `until` has
    /// elapsed from `met_at`, no re-check is ever scheduled.
    pub fn next_check_at(&self, met_at: i64, now: i64) -> (r: Option<i64>)
        requires
            timing_wf(*self),
        ensures
            (self.until matches Some(u) && now >= met_at + u ==> r is None),
            (instant_in_range(met_at as int) && instant_in_range(now as int) && timing_bounded(
                *self,
            ) ==> match r {
                Some(v) => next_check_spec(*self, met_at as int, now as int) == Some(v as int),
                None => next_check_spec(*self, met_at as int, now as int) is None,
            }),
    {
        let end: Option<i64> = match self.until {
            Some(u) => match met_at.checked_add(u) {
                Some(e) => Some(e),
                None => {
                    return None;
                },
            },
            None => None,
        };
        match end {
            Some(e) => {
                if now >= e {
                    return None;
                }
            }
            None => {}
        }
        let start: i64 = match met_at.checked_add(self.from) {
            Some(s) => s,
            None => {
                return None;
            },
        };
        if now < start {
            return Some(start);
        }
        match self.check_every {
            None => None,
            Some(iv) => {
                if iv <= 0 {
                    return None;
                }
                let elapsed: i64 = match now.checked_sub(start) {
                    Some(e) => e,
                    None => {
                        return None;
                    },
                };
                let num: i64 = match elapsed.checked_add(iv - 1) {
                    Some(n) => n,
                    None => {
                        return None;
                    },
                };
                let k: i64 = ((num as u64) / (iv as u64)) as i64;
                proof {
                    assert(k as int == (now - start as int + iv - 1) / (iv as int));
                }
                let stride: i64 = match k.checked_mul(iv) {
                    Some(s) => s,
                    None => {
                        proof {
                            vstd::arithmetic::div_mod::lemma_fundamental_div_mod(
                                num as int,
                                iv as int,
                            );
                            vstd::arithmetic::div_mod::lemma_mod_bound(num as int, iv as int);
                        }
                        return None;
                    },
                };
                proof {
                    vstd::arithmetic::div_mod::lemma_fundamental_div_mod(num as int, iv as int);
                    vstd::arithmetic::div_mod::lemma_mod_bound(num as int, iv as int);
                    assert(stride <= num);
                }
                let cand: i64 = match start.checked_add(stride) {
                    Some(c) => c,
                    None => {
                        return None;
                    },
                };
                match end {
                    Some(e) => {
                        if cand >= e {
                            None
                        } else {
                            Some(cand)
                        }
                    }
                    None => Some(cand),
                }
            },
        }
    }

    /// The next re-check instant, judged against the wall clock.
    pub fn next_check(&self, when_requirements_were_met: i64) -> (r: Option<i64>)
        requires
            timing_wf(*self),
        ensures
            exists|now: int|
                {
                    &&& -400_000_000_000 <= now <= 400_000_000_000
                    &&& (self.until matches Some(u) && now >= when_requirements_were_met + u
                        ==> r is None)
                    &&& (instant_in_range(when_requirements_were_met as int) && timing_bounded(
                        *self,
                    ) ==> match r {
                        Some(v) => next_check_spec(
                            *self,
                            when_requirements_were_met as int,
                            now,
                        ) == Some(v as int),
                        None => next_check_spec(
                            *self,
                            when_requirements_were_met as int,
                            now,
                        ) is None,
                    })
                },
    {
        let now = crate::clock::now_unix_seconds();
        let r = self.next_check_at(when_requirements_were_met, now);
        proof {
            assert(instant_in_range(now as int));
        }
        r
    }
}

/// The unparsed timing section of a rule: durations as text.
#[derive(Debug, Clone, PartialEq, Eq)]
pub struct TimingConfigBuilder {
    pub from: Option<String>,
    pub check_every: Option<String>,
    pub until: Option<String>,
}

impl TimingConfigBuilder {
    /// Parse the three durations; a missing `from` means zero.
    pub fn parse(&self) -> (r: LaikaResult<TimingConfig>)
        ensures
            r matches Ok(t) ==> {
                &&& timing_wf(t)
                &&& match self.from {
                    Some(s) => parse_time_spec(s@) == Some(t.from as int),
                    None => t.from == 0,
                }
                &&& match self.check_every {
                    Some(s) => t.check_every matches Some(c) && parse_time_spec(s@) == Some(
                        c as int,
                    ),
                    None => t.check_every is None,
                }
                &&& match self.until {
                    Some(s) => t.until matches Some(u) && parse_time_spec(s@) == Some(u as int),
                    None => t.until is None,
                }
            },
    {
        let from: i64 = match &self.from {
            Some(s) => match parse_time_str(s.as_str()) {
                Ok(v) => v,
                Err(e) => {
                    return Err(e);
                },
            },
            None => 0,
        };
        let check_every: Option<i64> = match &self.check_every {
            Some(s) => match parse_time_str(s.as_str()) {
                Ok(v) => Some(v),
                Err(e) => {
                    return Err(e);
                },
            },
            None => None,
        };
        let until: Option<i64> = match &self.until {
            Some(s) => match parse_time_str(s.as_str()) {
                Ok(v) => Some(v),
                Err(e) => {
                    return Err(e);
                },
            },
            None => None,
        };
        Ok(TimingConfig { from, check_every, until })
    }
}

/// Holds, for each event type, the payload path its correlation key is
/// extracted from.
#[derive(Debug)]
pub struct EventCorrelation {
    pub event_rules: Vec<(EventType, String)>,
}

/// The path registered for an event type: the first entry that names it.
pub open spec fn correlation_path(rules: Seq<(EventType, String)>, event_type: Seq<char>) -> Option<
    Seq<char>,
>
    decreases rules.len(),
{
    if rules.len() == 0 {
        None
    } else if rules[0].0@ == event_type {
        Some(rules[0].1@)
    } else {
        correlation_path(rules.drop_first(), event_type)
    }
}

impl EventCorrelation {
    /// The given `event type -> key path` table.
    pub fn new(event_rules: Vec<(EventType, String)>) -> (r: Self)
        ensures
            r.event_rules@ == event_rules@,
    {
        Self { event_rules }
    }

    /// The correlation key of a raw event under an event type: none when
    /// no path is registered for the type; the canonical text of the
    /// value at the registered path; or a failure when the path names a
    /// field the payload lacks.
    #[verifier::loop_isolation(false)]
    pub fn correlation_id(&self, event_type: &EventType, event: &RawEvent) -> (r: LaikaResult<
        Option<crate::broker::CorrelationId>,
    >)
        ensures
            match r {
                Ok(Some(key)) => {
                    &&& correlation_path(self.event_rules@, event_type@) matches Some(path)
                    &&& lookup_path(event.data@, path) matches Ok(v) && key@ == json_text(v)
                },
                Ok(None) => correlation_path(self.event_rules@, event_type@) is None,
                Err(e) => {
                    &&& e == LaikaError::EventMatchError
                    &&& correlation_path(self.event_rules@, event_type@) matches Some(path)
                        && lookup_path(event.data@, path) is Err
                },
            },
    {
        let rules = &self.event_rules;
        let mut k: usize = 0;
        proof {
            assert(rules@.subrange(0, rules@.len() as int) =~= rules@);
        }
        while k < rules.len()
            invariant
                k <= rules@.len(),
                correlation_path(rules@, event_type@) == correlation_path(
                    rules@.subrange(k as int, rules@.len() as int),
                    event_type@,
                ),
            decreases rules@.len() - k,
        {
            proof {
                assert(rules@.subrange(k as int, rules@.len() as int).drop_first() =~= rules@
                    .subrange(k + 1, rules@.len() as int));
            }
            if rules[k].0 == *event_type {
                match crate::json::extract_json_field(&event.data, rules[k].1.as_str()) {
                    Ok(v) => {
                        return Ok(Some(format_json_value(v)));
                    }
                    Err(_) => {
                        return Err(LaikaError::EventMatchError);
                    }
                }
            }
            k = k + 1;
        }
        Ok(None)
    }
}

/// The set-based requirement of a rule, as configured.
#[derive(Debug, Clone, PartialEq, Eq)]
pub enum RequirementConfig {
    Exact { exact: Vec<String> },
    AtLeast { at_least: Vec<String> },
}

/// What a rule does when it fires: the target to submit to and the
/// payload template to render.
#[derive(Debug)]
pub struct ActionConfig {
    pub target: String,
    pub emit_template: Template,
}

/// The `key` entry of one correlation rule.
#[derive(Debug, Clone, PartialEq, Eq)]
pub struct EventCorrelationBuilder {
    pub key: String,
}

/// The correlation section of the configuration document.
#[derive(Debug, Clone, PartialEq, Eq)]
pub struct CorrelationConfig {
    pub events: Vec<(String, EventCorrelationBuilder)>,
}

/// A correlation table: event name to key path.
#[derive(Debug, Clone, PartialEq, Eq)]
pub struct Correlation {
    pub key: Vec<(String, String)>,
}

/// A static output payload entry.
#[derive(Debug, Clone, PartialEq, Eq)]
pub struct ContentConfig {
    pub output: String,
}

/// Where a submitted payload is routed within its target.
#[derive(Debug, Clone, PartialEq, Eq)]
pub struct RoutingConfig {
    pub topic: String,
}

/// A named transport, by kind.
#[derive(Debug, Clone, PartialEq, Eq)]
pub enum ConnectionConfig {
    RabbitMQ {
        host: String,
        port: u16,
        username: Option<String>,
        password: Option<String>,
        vhost: Option<String>,
    },
    Stdout,
    File { path: String },
}

/// How an event definition matches payloads, as configured.
#[derive(Debug, Clone, PartialEq, Eq)]
pub enum EventMatchType {
    MatchAll,
    MatchKey(Vec<(String, MatchPattern)>),
}

/// One configured pattern: an exact string or a regular expression.
#[derive(Debug, Clone, PartialEq, Eq)]
pub enum MatchPattern {
    Exact(String),
    Regex(String),
}

} // verus!
