//! The classifier: maps a raw payload and its source to the event types
//! whose configured patterns it satisfies.

use vstd::prelude::*;

use crate::errors::{LaikaError, LaikaResult};
use crate::json::{Json, JsonV, lookup_path};

verus! {

broadcast use vstd::std_specs::vec::group_vec_axioms, vstd::seq::group_seq_axioms;

/// An event type label, or none.
pub type MaybeEventType = Option<String>;

/// An event type label.
pub type EventType = String;

/// Whether `regex::Regex::new` accepts the pattern.
pub uninterp spec fn regex_valid(pattern: Seq<char>) -> bool;

/// Whether the compiled pattern matches anywhere in the text.
pub uninterp spec fn regex_match(pattern: Seq<char>, text: Seq<char>) -> bool;

/// Relies on `regex::Regex::new`: whether the pattern is a valid regular
/// expression (within the crate's default size limit).
#[verifier::external_body]
fn regex_is_valid(pattern: &str) -> (r: bool)
    ensures
        r == regex_valid(pattern@),
{
    regex::Regex::new(pattern).is_ok()
}

/// Relies on `regex::Regex::new` and `regex::Regex::is_match`: whether
/// the pattern, which must be valid, matches anywhere in the text.  The
/// result depends on the pattern and the text alone.
#[verifier::external_body]
fn regex_search(pattern: &str, text: &str) -> (r: bool)
    requires
        regex_valid(pattern@),
    ensures
        r == regex_match(pattern@, text@),
{
    match regex::Regex::new(pattern) {
        Ok(re) => re.is_match(text),
        Err(_) => false,
    }
}

/// How one field must match: exact equality, or a regular expression
/// searched anywhere in the value.
#[derive(Debug)]
pub enum MatchOn {
    Exactly(String),
    Regex(String),
}

impl MatchOn {
    /// A regular-expression matcher only carries a valid pattern.
    pub open spec fn wf(&self) -> bool {
        match self {
            MatchOn::Exactly(_) => true,
            MatchOn::Regex(p) => regex_valid(p@),
        }
    }

    /// Build a matcher from one configured pattern, rejecting an invalid
    /// regular expression.
    pub fn from_builder(value: MatchPatternBuilder) -> (r: LaikaResult<MatchOn>)
        ensures
            match r {
                Ok(m) => m.wf() && match value {
                    MatchPatternBuilder::Exact(s) => m matches MatchOn::Exactly(t) && t@ == s@,
                    MatchPatternBuilder::Regex(p) => m matches MatchOn::Regex(q) && q@ == p@,
                },
                Err(e) => value matches MatchPatternBuilder::Regex(p) && !regex_valid(p@) && e
                    is RegexError,
            },
    {
        match value {
            MatchPatternBuilder::Exact(s) => Ok(MatchOn::Exactly(s)),
            MatchPatternBuilder::Regex(p) => {
                if regex_is_valid(p.as_str()) {
                    Ok(MatchOn::Regex(p))
                } else {
                    Err(LaikaError::RegexError(p))
                }
            }
        }
    }
}

/// A configured pattern before compilation: an exact string, or the
/// source text of a regular expression.
#[derive(Debug, Clone, PartialEq, Eq)]
pub enum MatchPatternBuilder {
    Exact(String),
    Regex(String),
}

/// One field a definition inspects: the path to it and the matcher its
/// value must satisfy.
#[derive(Debug)]
pub struct MatchRule {
    pub path: String,
    pub matcher: MatchOn,
}

/// What payloads a definition accepts: everything, or those whose
/// fields satisfy every rule.
#[derive(Debug)]
pub enum EventMatchPattern {
    /// All events match this.
    All,
    /// Events that satisfy all of these rules match this.
    MatchRules(Vec<MatchRule>),
}

impl EventMatchPattern {
    /// Every regular expression of the pattern is valid.
    pub open spec fn wf(&self) -> bool {
        match self {
            EventMatchPattern::All => true,
            EventMatchPattern::MatchRules(rules) => forall|i: int|
                0 <= i < rules@.len() ==> (#[trigger] rules@[i]).matcher.wf(),
        }
    }
}

/// One classification: payloads from `source` that satisfy
/// `match_pattern` carry the type `event_type`.
#[derive(Debug)]
pub struct EventTypeDefinition {
    pub source: String,
    pub match_pattern: EventMatchPattern,
    pub event_type: EventType,
}

impl EventTypeDefinition {
    /// A definition over the given source, pattern and type.
    pub fn new(source: String, match_pattern: EventMatchPattern, event_type: EventType) -> (r:
        Self)
        ensures
            r.source@ == source@,
            r.match_pattern == match_pattern,
            r.event_type@ == event_type@,
    {
        Self { source, match_pattern, event_type }
    }
}

/// Whether one matcher accepts a field's text.
pub open spec fn match_on_spec(m: MatchOn, value: Seq<char>) -> bool {
    match m {
        MatchOn::Exactly(s) => s@ == value,
        MatchOn::Regex(p) => regex_match(p@, value),
    }
}

/// Whether a payload satisfies one rule: the value at the rule's path
/// exists, is a string, and satisfies the matcher.
pub open spec fn rule_matches(data: JsonV, rule: MatchRule) -> bool {
    match lookup_path(data, rule.path@) {
        Ok(v) => v matches JsonV::Str(s) && match_on_spec(rule.matcher, s),
        Err(_) => false,
    }
}

/// Whether a definition classifies a payload from the given source.
pub open spec fn def_matches(def: EventTypeDefinition, source: Seq<char>, data: JsonV) -> bool {
    def.source@ == source && match def.match_pattern {
        EventMatchPattern::All => true,
        EventMatchPattern::MatchRules(rules) => forall|i: int|
            0 <= i < rules@.len() ==> rule_matches(data, #[trigger] rules@[i]),
    }
}

/// The event types of the definitions a payload satisfies, in
/// configuration order.  The result depends only on the definitions, the
/// source and the payload.
pub open spec fn classify_spec(
    defs: Seq<EventTypeDefinition>,
    source: Seq<char>,
    data: JsonV,
) -> Seq<Seq<char>>
    decreases defs.len(),
{
    if defs.len() == 0 {
        Seq::empty()
    } else {
        let rest = classify_spec(defs.drop_last(), source, data);
        if def_matches(defs.last(), source, data) {
            rest.push(defs.last().event_type@)
        } else {
            rest
        }
    }
}

/// The sources the definitions draw from, in order of first appearance.
pub open spec fn distinct_sources(defs: Seq<EventTypeDefinition>) -> Seq<Seq<char>>
    decreases defs.len(),
{
    if defs.len() == 0 {
        Seq::empty()
    } else {
        let rest = distinct_sources(defs.drop_last());
        if rest.contains(defs.last().source@) {
            rest
        } else {
            rest.push(defs.last().source@)
        }
    }
}

/// The configured classifications: event types defined by the patterns
/// payloads must meet.
#[derive(Debug)]
pub struct EventTypeDefinitions {
    pub type_definitions: Vec<EventTypeDefinition>,
}

impl EventTypeDefinitions {
    /// Every regular expression among the definitions is valid.
    pub open spec fn wf(&self) -> bool {
        forall|i: int|
            0 <= i < self.type_definitions@.len() ==> (#[trigger] self.type_definitions@[i]).match_pattern.wf()
    }

    /// The given classifications, as configured.
    pub fn new(event_match_rules: Vec<EventTypeDefinition>) -> (r: Self)
        ensures
            r.type_definitions@ == event_match_rules@,
    {
        Self { type_definitions: event_match_rules }
    }

    /// All unique connection sources used in the definitions, in order
    /// of first appearance.
    #[verifier::loop_isolation(false)]
    pub fn receivers(&self) -> (r: Vec<String>)
        ensures
            r@.len() == distinct_sources(self.type_definitions@).len(),
            forall|j: int|
                0 <= j < r@.len() ==> (#[trigger] r@[j])@ == distinct_sources(
                    self.type_definitions@,
                )[j],
    {
        let defs = &self.type_definitions;
        let mut seen: Vec<String> = Vec::new();
        let mut i: usize = 0;
        proof {
            assert(defs@.subrange(0, 0) =~= Seq::<EventTypeDefinition>::empty());
        }
        while i < defs.len()
            invariant
                i <= defs@.len(),
                seen@.len() == distinct_sources(defs@.subrange(0, i as int)).len(),
                forall|j: int|
                    0 <= j < seen@.len() ==> (#[trigger] seen@[j])@ == distinct_sources(
                        defs@.subrange(0, i as int),
                    )[j],
            decreases defs@.len() - i,
        {
            let ghost prefix = defs@.subrange(0, i as int);
            let ghost next_prefix = defs@.subrange(0, i + 1);
            proof {
                assert(next_prefix.drop_last() =~= prefix);
                assert(next_prefix.last() == defs@[i as int]);
            }
            let mut present = false;
            let mut k: usize = 0;
            while k < seen.len()
                invariant
                    k <= seen@.len(),
                    present ==> distinct_sources(defs@.subrange(0, i as int)).contains(
                        defs@[i as int].source@,
                    ),
                    !present ==> forall|m: int|
                        0 <= m < k ==> (#[trigger] seen@[m])@ != defs@[i as int].source@,
                    seen@.len() == distinct_sources(defs@.subrange(0, i as int)).len(),
                    forall|j: int|
                        0 <= j < seen@.len() ==> (#[trigger] seen@[j])@ == distinct_sources(
                            defs@.subrange(0, i as int),
                        )[j],
                    i < defs@.len(),
                decreases seen@.len() - k,
            {
                if seen[k] == defs[i].source {
                    present = true;
                    proof {
                        assert(distinct_sources(prefix)[k as int] == seen@[k as int]@);
                    }
                    break ;
                }
                k = k + 1;
            }
            proof {
                if !present {
                    if distinct_sources(prefix).contains(defs@[i as int].source@) {
                        let w = choose|w: int|
                            0 <= w < distinct_sources(prefix).len() && distinct_sources(prefix)[w]
                                == defs@[i as int].source@;
                        assert(seen@[w]@ == defs@[i as int].source@);
                        assert(false);
                    }
                }
            }
            if !present {
                seen.push(defs[i].source.clone());
            }
            i = i + 1;
        }
        proof {
            assert(defs@.subrange(0, defs@.len() as int) =~= defs@);
        }
        seen
    }

    /// Attempt to match a payload from `event_source` against the
    /// configured definitions, returning every matching event type in
    /// configuration order.  The outcome depends only on the
    /// definitions, the source name and the payload.
    #[verifier::loop_isolation(false)]
    pub fn match_message(&self, event_source: &str, message: &Json) -> (r: LaikaResult<
        Vec<EventType>,
    >)
        requires
            self.wf(),
        ensures
            r matches Ok(types) && types@.len() == classify_spec(
                self.type_definitions@,
                event_source@,
                message@,
            ).len() && (forall|j: int|
                0 <= j < types@.len() ==> (#[trigger] types@[j])@ == classify_spec(
                    self.type_definitions@,
                    event_source@,
                    message@,
                )[j]),
    {
        let defs = &self.type_definitions;
        let mut out: Vec<EventType> = Vec::new();
        let mut i: usize = 0;
        proof {
            assert(defs@.subrange(0, 0) =~= Seq::<EventTypeDefinition>::empty());
        }
        while i < defs.len()
            invariant
                i <= defs@.len(),
                self.wf(),
                defs@ == self.type_definitions@,
                out@.len() == classify_spec(
                    defs@.subrange(0, i as int),
                    event_source@,
                    message@,
                ).len(),
                forall|j: int|
                    0 <= j < out@.len() ==> (#[trigger] out@[j])@ == classify_spec(
                        defs@.subrange(0, i as int),
                        event_source@,
                        message@,
                    )[j],
            decreases defs@.len() - i,
        {
            let ghost prefix = defs@.subrange(0, i as int);
            let ghost next_prefix = defs@.subrange(0, i + 1);
            proof {
                assert(next_prefix.drop_last() =~= prefix);
                assert(next_prefix.last() == defs@[i as int]);
                assert(defs@[i as int].match_pattern.wf());
            }
            let matched = def_matches_exec(&defs[i], event_source, message);
            if matched {
                out.push(defs[i].event_type.clone());
            }
            i = i + 1;
        }
        proof {
            assert(defs@.subrange(0, defs@.len() as int) =~= defs@);
        }
        Ok(out)
    }
}

/// Whether one definition classifies the payload.
#[verifier::loop_isolation(false)]
fn def_matches_exec(def: &EventTypeDefinition, event_source: &str, message: &Json) -> (r: bool)
    requires
        def.match_pattern.wf(),
    ensures
        r == def_matches(*def, event_source@, message@),
{
    if !(def.source == event_source.to_owned()) {
        return false;
    }
    match &def.match_pattern {
        EventMatchPattern::All => true,
        EventMatchPattern::MatchRules(rules) => {
            let mut k: usize = 0;
            while k < rules.len()
                invariant
                    k <= rules@.len(),
                    def.match_pattern == EventMatchPattern::MatchRules(*rules),
                    def.match_pattern.wf(),
                    forall|m: int| 0 <= m < k ==> rule_matches(message@, #[trigger] rules@[m]),
                decreases rules@.len() - k,
            {
                proof {
                    assert(rules@[k as int].matcher.wf());
                }
                let rule = &rules[k];
                let holds = match crate::json::extract_json_field(message, rule.path.as_str()) {
                    Ok(v) => match v {
                        Json::Str(text) => match &rule.matcher {
                            MatchOn::Exactly(s) => *s == *text,
                            MatchOn::Regex(p) => regex_search(p.as_str(), text.as_str()),
                        },
                        _ => false,
                    },
                    Err(_) => false,
                };
                if !holds {
                    proof {
                        assert(!rule_matches(message@, rules@[k as int]));
                    }
                    return false;
                }
                k = k + 1;
            }
            true
        }
    }
}

} // verus!
