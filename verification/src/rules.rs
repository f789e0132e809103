//! Rules: a requirement over the observed event types, a predicate, an
//! optional re-check schedule, and the action taken when a rule fires.

use vstd::prelude::*;

use crate::config::{ActionConfig, RequirementConfig, TimingConfig};
use crate::context::{EventContext, group_valid};
use crate::errors::{LaikaError, LaikaResult};
use crate::event::{Event, Trigger};
use crate::json::Json;
use crate::predicate::{DEFAULT_PREDICATE, JsonPredicate, PredicateEngine};

verus! {

broadcast use vstd::std_specs::vec::group_vec_axioms, vstd::seq::group_seq_axioms;

/// A rule's precondition on the observed event types.
#[derive(Debug, Clone, PartialEq, Eq)]
pub enum Requirement {
    /// At least these types, in any multiplicity.
    AtLeast(Vec<String>),
    /// Exactly these types: set equality and matching cardinality.
    Exactly(Vec<String>),
}

impl Requirement {
    /// How many type labels the requirement lists.
    pub fn len(&self) -> (r: usize)
        ensures
            r == req_targets(*self).len(),
    {
        let r = match self {
            Requirement::Exactly(exact) => exact.len(),
            Requirement::AtLeast(at_least) => at_least.len(),
        };
        proof {
            assert(req_targets(*self).len() == r);
        }
        r
    }

    /// Whether the requirement lists no type at all.
    pub fn is_empty(&self) -> (r: bool)
        ensures
            r == (req_targets(*self).len() == 0),
    {
        self.len() == 0
    }

    /// The requirement a configuration entry stands for.
    pub fn from(value: RequirementConfig) -> (r: Self)
        ensures
            match value {
                RequirementConfig::Exact { exact } => r matches Requirement::Exactly(ts) && ts@
                    == exact@,
                RequirementConfig::AtLeast { at_least } => r matches Requirement::AtLeast(ts) && ts@
                    == at_least@,
            },
    {
        match value {
            RequirementConfig::Exact { exact } => Requirement::Exactly(exact),
            RequirementConfig::AtLeast { at_least } => Requirement::AtLeast(at_least),
        }
    }
}

/// The type labels a requirement lists.
pub open spec fn req_targets(r: Requirement) -> Seq<Seq<char>> {
    let ts = match r {
        Requirement::Exactly(ts) => ts,
        Requirement::AtLeast(ts) => ts,
    };
    Seq::new(
        ts@.len(),
        |i: int|
            if 0 <= i < ts@.len() {
                ts@[i]@
            } else {
                Seq::empty()
            },
    )
}

/// How many types a rule's requirement demands; none demands none.
pub open spec fn required_count(req: Option<Requirement>) -> int {
    match req {
        Some(r) => req_targets(r).len() as int,
        None => 0,
    }
}

/// The candidate events of an evaluation: the context, then the
/// trigger's event if it carries one.
pub open spec fn candidates(t: Trigger, ctx: Seq<Event>) -> Seq<Event> {
    match t {
        Trigger::ReceivedEvent(e) => ctx.push(e),
        Trigger::TimerExpired(_) => ctx,
    }
}

/// A valid evaluation group: no non-correlated event beside another
/// event, and a non-correlated trigger only against an empty context
/// and a requirement of at most one type.
pub open spec fn valid_correlation_spec(
    t: Trigger,
    ctx: Seq<Event>,
    req: Option<Requirement>,
) -> bool {
    &&& group_valid(candidates(t, ctx))
    &&& ((t matches Trigger::ReceivedEvent(e) && e is NonCorrelated) ==> (ctx.len() == 0
        && required_count(req) <= 1))
}

/// Scan candidates in order, collecting the distinct target types seen,
/// until enough are gathered: the instant of the event that completes
/// the set.
pub open spec fn at_least_scan(
    cands: Seq<Event>,
    targets: Seq<Seq<char>>,
    i: int,
    seen: Seq<Seq<char>>,
) -> Option<i64>
    decreases cands.len() - i,
{
    if i < 0 || i >= cands.len() {
        None
    } else {
        let ty = cands[i].spec_type();
        let seen2 = if targets.contains(ty) && !seen.contains(ty) {
            seen.push(ty)
        } else {
            seen
        };
        if seen2.len() >= targets.len() {
            Some(cands[i].spec_received())
        } else {
            at_least_scan(cands, targets, i + 1, seen2)
        }
    }
}

/// Whether the candidate types equal the targets as sets, with matching
/// cardinality.
pub open spec fn exactly_met(cands: Seq<Event>, targets: Seq<Seq<char>>) -> bool {
    &&& cands.len() == targets.len()
    &&& (forall|i: int| 0 <= i < cands.len() ==> targets.contains(#[trigger] cands[i].spec_type()))
    &&& (forall|j: int|
        0 <= j < targets.len() ==> exists|i: int|
            0 <= i < cands.len() && (#[trigger] cands[i].spec_type()) == #[trigger] targets[j])
}

/// When the requirement became satisfied over the candidates, if ever:
/// - no requirement: the last candidate's instant, none when empty;
/// - at least: the instant of the candidate that completes the set;
/// - exactly: the last candidate's instant, when the types equal the
///   targets as a set and the counts agree.
pub open spec fn met_at_spec(req: Option<Requirement>, cands: Seq<Event>) -> Option<i64> {
    match req {
        None => if cands.len() == 0 {
            None
        } else {
            Some(cands.last().spec_received())
        },
        Some(Requirement::AtLeast(_)) => at_least_scan(
            cands,
            req_targets(req->Some_0),
            0,
            Seq::empty(),
        ),
        Some(Requirement::Exactly(_)) => if cands.len() > 0 && exactly_met(
            cands,
            req_targets(req->Some_0),
        ) {
            Some(cands.last().spec_received())
        } else {
            None
        },
    }
}

/// An `Exactly` requirement is satisfied exactly by a non-empty
/// candidate list whose length matches the target count and whose set
/// of event types equals the targets as a set; the instant it is met is
/// the last candidate's.
pub proof fn lemma_exactly_met_iff(req: Requirement, cands: Seq<Event>)
    requires
        req is Exactly,
    ensures
        met_at_spec(Some(req), cands) is Some <==> (cands.len() > 0 && cands.len()
            == req_targets(req).len() && exactly_met(cands, req_targets(req))),
        met_at_spec(Some(req), cands) matches Some(m) ==> m == cands.last().spec_received(),
{
}

/// A candidate list larger than the target list never satisfies an
/// `Exactly` requirement: a strict superset of events cannot fire it.
pub proof fn lemma_exactly_rejects_superset(cands: Seq<Event>, targets: Seq<Seq<char>>)
    requires
        cands.len() > targets.len(),
    ensures
        !exactly_met(cands, targets),
{
}

/// A rule with no requirement is satisfied by any non-empty candidate
/// list, and the default predicate then yields an extraction: together,
/// such a rule fires whenever an evaluation sees any event.
pub proof fn lemma_conditionless_rule_fires(t: Trigger, ctx: Seq<Event>)
    requires
        candidates(t, ctx).len() > 0,
    ensures
        met_at_spec(None, candidates(t, ctx)) is Some,
        ctx.len() > 0 || t is ReceivedEvent,
{
    match t {
        Trigger::ReceivedEvent(_) => {}
        Trigger::TimerExpired(_) => {
            assert(candidates(t, ctx) == ctx);
        }
    }
}

/// How one evaluation ended.
#[derive(Debug)]
pub enum RuleResult {
    /// The requirement was met and the predicate yielded an extraction.
    ConditionSatisfied { met_at: i64, action_config: ActionConfig, condition_result: Json },
    /// The requirement was met but the predicate yielded nothing; a
    /// re-check may be scheduled.
    ConditionNotSatisfied { met_at: i64, recheck: Option<TimingConfig> },
    /// The requirement was not met; the predicate was never consulted.
    RequirementNotMet,
}

/// One configured rule, with its predicate installed.
#[derive(Debug)]
pub struct EventRule {
    pub name: String,
    pub filter_and_extract: JsonPredicate,
    pub timing: Option<TimingConfig>,
    pub requirement: Option<Requirement>,
    pub action: ActionConfig,
}

/// A rule before its predicate is installed.
#[derive(Debug)]
pub struct EventRuleDefinition {
    pub name: String,
    pub filter_and_extract: Option<String>,
    pub timing: Option<TimingConfig>,
    pub requirement: Option<Requirement>,
    pub action: ActionConfig,
}

impl EventRuleDefinition {
    /// Install the rule's predicate — or the default one — and hand
    /// back the rule ready for evaluation.
    pub fn register_to_engine<E: PredicateEngine>(self, engine: &mut E) -> (r: EventRule)
        ensures
            r.name@ == self.name@,
            r.timing == self.timing,
            r.requirement == self.requirement,
            r.action.target@ == self.action.target@,
            r.action.emit_template.root@ == self.action.emit_template.root@,
    {
        let predicate: JsonPredicate = match &self.filter_and_extract {
            Some(provided) => engine.store_predicate(provided.as_str()),
            None => engine.store_predicate(DEFAULT_PREDICATE),
        };
        EventRule {
            name: self.name,
            filter_and_extract: predicate,
            timing: self.timing,
            requirement: self.requirement,
            action: self.action,
        }
    }
}

impl EventRule {
    #[verifier::loop_isolation(false)]
    fn valid_correlation(&self, trigger: &Trigger, context: &EventContext) -> (r: bool)
        ensures
            r == valid_correlation_spec(*trigger, context.sequence@, self.requirement),
    {
        let minimum_events: usize = match &self.requirement {
            Some(req) => req.len(),
            None => 0,
        };
        let group_ok: bool = if context.sequence.len() == 0 {
            true
        } else {
            let mut any_nc = false;
            let mut i: usize = 0;
            while i < context.sequence.len()
                invariant
                    i <= context.sequence@.len(),
                    any_nc == exists|k: int|
                        0 <= k < i && (#[trigger] context.sequence@[k]) is NonCorrelated,
                decreases context.sequence@.len() - i,
            {
                match &context.sequence[i] {
                    Event::NonCorrelated(_) => {
                        proof {
                            assert(context.sequence@[i as int] is NonCorrelated);
                        }
                        any_nc = true;
                    }
                    _ => {}
                }
                i = i + 1;
            }
            let trigger_nc = match trigger {
                Trigger::ReceivedEvent(e) => matches!(e, Event::NonCorrelated(_)),
                Trigger::TimerExpired(_) => false,
            };
            let single: bool = match trigger {
                Trigger::ReceivedEvent(_) => false,
                Trigger::TimerExpired(_) => context.sequence.len() <= 1,
            };
            proof {
                let cands = candidates(*trigger, context.sequence@);
                assert(single ==> cands.len() <= 1);
                if any_nc {
                    let w = choose|k: int|
                        0 <= k < context.sequence@.len() && (#[trigger] context.sequence@[k])
                            is NonCorrelated;
                    assert(cands[w] is NonCorrelated);
                    assert(crate::context::has_non_correlated(cands));
                }
                match trigger {
                    Trigger::ReceivedEvent(e) => {
                        if e is NonCorrelated {
                            assert(cands.last() is NonCorrelated);
                            assert(crate::context::has_non_correlated(cands));
                        } else {
                            if !any_nc && crate::context::has_non_correlated(cands) {
                                let w = choose|k: int|
                                    0 <= k < cands.len() && (#[trigger] cands[k]) is NonCorrelated;
                                if w < context.sequence@.len() {
                                    assert(context.sequence@[w] is NonCorrelated);
                                }
                                assert(false);
                            }
                        }
                    }
                    Trigger::TimerExpired(_) => {
                        if !any_nc && crate::context::has_non_correlated(cands) {
                            let w = choose|k: int|
                                0 <= k < cands.len() && (#[trigger] cands[k]) is NonCorrelated;
                            assert(context.sequence@[w] is NonCorrelated);
                            assert(false);
                        }
                    }
                }
            }
            if single {
                true
            } else {
                !any_nc && !trigger_nc
            }
        };
        let trigger_is_nc = match trigger {
            Trigger::ReceivedEvent(e) => matches!(e, Event::NonCorrelated(_)),
            Trigger::TimerExpired(_) => false,
        };
        let nc_ok: bool = if trigger_is_nc {
            context.sequence.len() == 0 && minimum_events <= 1
        } else {
            true
        };
        proof {
            let cands = candidates(*trigger, context.sequence@);
            if context.sequence@.len() == 0 {
                assert(cands.len() <= 1);
                assert(group_valid(cands));
            }
        }
        group_ok && nc_ok
    }

    /// Evaluate the rule once the predicate's verdict is known: rejects
    /// an invalid group; reports an unmet requirement; and otherwise
    /// fires or schedules according to the verdict.
    pub fn evaluate_with(&self, trigger: &Trigger, context: &EventContext, verdict: Option<Json>)
        -> (r: LaikaResult<RuleResult>)
        ensures
            match r {
                Err(e) => e == LaikaError::InvalidEventGroup && !valid_correlation_spec(
                    *trigger,
                    context.sequence@,
                    self.requirement,
                ),
                Ok(outcome) => {
                    &&& valid_correlation_spec(*trigger, context.sequence@, self.requirement)
                    &&& match outcome {
                        RuleResult::RequirementNotMet => met_at_spec(
                            self.requirement,
                            candidates(*trigger, context.sequence@),
                        ) is None,
                        RuleResult::ConditionSatisfied { met_at, action_config, condition_result } => {
                            &&& met_at_spec(
                                self.requirement,
                                candidates(*trigger, context.sequence@),
                            ) == Some(met_at)
                            &&& verdict matches Some(v) && condition_result@ == v@
                            &&& action_config.target@ == self.action.target@
                            &&& action_config.emit_template.root@
                                == self.action.emit_template.root@
                        },
                        RuleResult::ConditionNotSatisfied { met_at, recheck } => {
                            &&& met_at_spec(
                                self.requirement,
                                candidates(*trigger, context.sequence@),
                            ) == Some(met_at)
                            &&& verdict is None
                            &&& recheck == self.timing
                        },
                    }
                },
            },
    {
        if !self.valid_correlation(trigger, context) {
            return Err(LaikaError::InvalidEventGroup);
        }
        match self.when_met_requirements(trigger, context) {
            Some(met_at) => match verdict {
                Some(condition_result) => Ok(
                    RuleResult::ConditionSatisfied {
                        met_at,
                        action_config: ActionConfig {
                            target: self.action.target.clone(),
                            emit_template: self.action.emit_template.clone(),
                        },
                        condition_result,
                    },
                ),
                None => Ok(RuleResult::ConditionNotSatisfied { met_at, recheck: self.timing }),
            },
            None => Ok(RuleResult::RequirementNotMet),
        }
    }

    /// When the rule's requirement became satisfied, if it did.
    #[verifier::loop_isolation(false)]
    pub fn when_met_requirements(&self, trigger: &Trigger, context: &EventContext) -> (r: Option<
        i64,
    >)
        ensures
            r == met_at_spec(self.requirement, candidates(*trigger, context.sequence@)),
    {
        let ghost cands = candidates(*trigger, context.sequence@);
        let mut events: Vec<&Event> = Vec::new();
        let mut i: usize = 0;
        while i < context.sequence.len()
            invariant
                i <= context.sequence@.len(),
                events@.len() == i,
                forall|k: int| 0 <= k < i ==> *(#[trigger] events@[k]) == context.sequence@[k],
            decreases context.sequence@.len() - i,
        {
            events.push(&context.sequence[i]);
            i = i + 1;
        }
        match trigger {
            Trigger::ReceivedEvent(e) => {
                events.push(e);
            }
            Trigger::TimerExpired(_) => {}
        }
        proof {
            assert(events@.len() == cands.len());
            assert forall|k: int| 0 <= k < events@.len() implies *(#[trigger] events@[k])
                == cands[k] by {
                if k < context.sequence@.len() {
                    assert(cands[k] == context.sequence@[k]);
                }
            }
        }
        match &self.requirement {
            None => {
                if events.len() == 0 {
                    None
                } else {
                    Some(events[events.len() - 1].received())
                }
            }
            Some(Requirement::AtLeast(targets)) => {
                let ghost tv = req_targets(Requirement::AtLeast(*targets));
                let mut seen: Vec<String> = Vec::new();
                let mut k: usize = 0;
                let r = at_least_loop(&events, targets, &mut seen, Ghost(cands), Ghost(tv));
                r
            }
            Some(Requirement::Exactly(targets)) => {
                let ghost tv = req_targets(Requirement::Exactly(*targets));
                if events.len() != targets.len() {
                    proof {
                        assert(tv.len() == targets@.len());
                    }
                    return None;
                }
                if events.len() == 0 {
                    return None;
                }
                let mut ci: usize = 0;
                while ci < events.len()
                    invariant
                        ci <= events@.len(),
                        events@.len() == cands.len(),
                        forall|k: int| 0 <= k < events@.len() ==> *(#[trigger] events@[k])
                            == cands[k],
                        tv == req_targets(Requirement::Exactly(*targets)),
                        self.requirement == Some(Requirement::Exactly(*targets)),
                        forall|k: int|
                            0 <= k < ci ==> tv.contains(#[trigger] cands[k].spec_type()),
                    decreases events@.len() - ci,
                {
                    let et = match events[ci].event_type() {
                        Some(t) => t,
                        None => String::new(),
                    };
                    let mut found = false;
                    let mut tj: usize = 0;
                    while tj < targets.len()
                        invariant
                            tj <= targets@.len(),
                            tv == req_targets(Requirement::Exactly(*targets)),
                            et@ == cands[ci as int].spec_type(),
                            ci < events@.len(),
                            events@.len() == cands.len(),
                            found ==> tv.contains(cands[ci as int].spec_type()),
                            !found ==> forall|m: int| 0 <= m < tj ==> tv[m] != et@,
                        decreases targets@.len() - tj,
                    {
                        if targets[tj] == et {
                            proof {
                                assert(tv[tj as int] == et@);
                            }
                            found = true;
                            break ;
                        }
                        tj = tj + 1;
                    }
                    if !found {
                        proof {
                            if tv.contains(cands[ci as int].spec_type()) {
                                let w = choose|w: int|
                                    0 <= w < tv.len() && tv[w] == cands[ci as int].spec_type();
                                assert(false);
                            }
                            assert(!exactly_met(cands, tv));
                        }
                        return None;
                    }
                    ci = ci + 1;
                }
                let mut tj: usize = 0;
                while tj < targets.len()
                    invariant
                        tj <= targets@.len(),
                        events@.len() == cands.len(),
                        events@.len() == targets@.len(),
                        events@.len() > 0,
                        forall|k: int| 0 <= k < events@.len() ==> *(#[trigger] events@[k])
                            == cands[k],
                        tv == req_targets(Requirement::Exactly(*targets)),
                        self.requirement == Some(Requirement::Exactly(*targets)),
                        forall|k: int|
                            0 <= k < cands.len() ==> tv.contains(#[trigger] cands[k].spec_type()),
                        forall|j: int|
                            0 <= j < tj ==> exists|k: int|
                                0 <= k < cands.len() && (#[trigger] cands[k].spec_type())
                                    == #[trigger] tv[j],
                    decreases targets@.len() - tj,
                {
                    let target = &targets[tj];
                    let mut found = false;
                    let mut ci: usize = 0;
                    while ci < events.len()
                        invariant
                            ci <= events@.len(),
                            events@.len() == cands.len(),
                            forall|k: int| 0 <= k < events@.len() ==> *(#[trigger] events@[k])
                                == cands[k],
                            tv == req_targets(Requirement::Exactly(*targets)),
                            tj < targets@.len(),
                            target == &targets@[tj as int],
                            found ==> exists|k: int|
                                0 <= k < cands.len() && (#[trigger] cands[k].spec_type())
                                    == tv[tj as int],
                            !found ==> forall|k: int|
                                0 <= k < ci ==> (#[trigger] cands[k].spec_type()) != tv[tj as int],
                        decreases events@.len() - ci,
                    {
                        let et = match events[ci].event_type() {
                            Some(t) => t,
                            None => String::new(),
                        };
                        if et == *target {
                            proof {
                                assert(cands[ci as int].spec_type() == tv[tj as int]);
                            }
                            found = true;
                            break ;
                        }
                        ci = ci + 1;
                    }
                    if !found {
                        proof {
                            if exists|k: int|
                                0 <= k < cands.len() && (#[trigger] cands[k].spec_type())
                                    == tv[tj as int] {
                                let w = choose|k: int|
                                    0 <= k < cands.len() && (#[trigger] cands[k].spec_type())
                                        == tv[tj as int];
                                assert(false);
                            }
                            assert(!exactly_met(cands, tv));
                        }
                        return None;
                    }
                    tj = tj + 1;
                }
                proof {
                    assert(exactly_met(cands, tv));
                }
                Some(events[events.len() - 1].received())
            }
        }
    }

    /// Evaluate the rule against a trigger and its context, consulting
    /// the engine for the predicate's verdict once the requirement is
    /// met.  Whatever verdict comes back, the outcome relates the
    /// requirement, the verdict and the rule's timing exactly as
    /// `evaluate_with` states.
    pub fn evaluate<E: PredicateEngine>(
        &self,
        engine: &mut E,
        trigger: &Trigger,
        context: &EventContext,
    ) -> (r: LaikaResult<RuleResult>)
        ensures
            valid_correlation_spec(*trigger, context.sequence@, self.requirement) && met_at_spec(
                self.requirement,
                candidates(*trigger, context.sequence@),
            ) is None ==> r == Ok::<RuleResult, LaikaError>(RuleResult::RequirementNotMet),
            match r {
                Err(e) => (e == LaikaError::InvalidEventGroup && !valid_correlation_spec(
                    *trigger,
                    context.sequence@,
                    self.requirement,
                )) || (e is RuleEvaluationError && valid_correlation_spec(
                    *trigger,
                    context.sequence@,
                    self.requirement,
                ) && met_at_spec(
                    self.requirement,
                    candidates(*trigger, context.sequence@),
                ) is Some),
                Ok(outcome) => {
                    &&& valid_correlation_spec(*trigger, context.sequence@, self.requirement)
                    &&& match outcome {
                        RuleResult::RequirementNotMet => met_at_spec(
                            self.requirement,
                            candidates(*trigger, context.sequence@),
                        ) is None,
                        RuleResult::ConditionSatisfied { met_at, action_config, condition_result } => {
                            &&& met_at_spec(
                                self.requirement,
                                candidates(*trigger, context.sequence@),
                            ) == Some(met_at)
                            &&& action_config.target@ == self.action.target@
                            &&& action_config.emit_template.root@
                                == self.action.emit_template.root@
                        },
                        RuleResult::ConditionNotSatisfied { met_at, recheck } => {
                            &&& met_at_spec(
                                self.requirement,
                                candidates(*trigger, context.sequence@),
                            ) == Some(met_at)
                            &&& recheck == self.timing
                        },
                    }
                },
            },
    {
        if !self.valid_correlation(trigger, context) {
            return Err(LaikaError::InvalidEventGroup);
        }
        match self.when_met_requirements(trigger, context) {
            Some(_) => {
                let verdict = match engine.evaluate(&self.filter_and_extract, trigger, context) {
                    Ok(v) => v,
                    Err(e) => {
                        return Err(LaikaError::RuleEvaluationError(e.message()));
                    },
                };
                self.evaluate_with(trigger, context, verdict)
            }
            None => Ok(RuleResult::RequirementNotMet),
        }
    }
}

/// Scan the candidates for an `AtLeast` requirement.
#[verifier::loop_isolation(false)]
fn at_least_loop(
    events: &Vec<&Event>,
    targets: &Vec<String>,
    seen: &mut Vec<String>,
    cands_g: Ghost<Seq<Event>>,
    tv_g: Ghost<Seq<Seq<char>>>,
) -> (r: Option<i64>)
    requires
        old(seen)@.len() == 0,
        cands_g@.len() == events@.len(),
        forall|k: int| 0 <= k < events@.len() ==> *(#[trigger] events@[k]) == cands_g@[k],
        tv_g@.len() == targets@.len(),
        forall|j: int| 0 <= j < targets@.len() ==> (#[trigger] targets@[j])@ == tv_g@[j],
    ensures
        r == at_least_scan(cands_g@, tv_g@, 0, Seq::empty()),
{
    let ghost cands = cands_g@;
    let ghost tv = tv_g@;
    let mut i: usize = 0;
    let ghost seen0: Seq<Seq<char>> = Seq::empty();
    proof {
        assert(seen_views(seen@) =~= seen0);
    }
    while i < events.len()
        invariant
            i <= events@.len(),
            at_least_scan(cands, tv, 0, Seq::empty()) == at_least_scan(
                cands,
                tv,
                i as int,
                seen_views(seen@),
            ),
            seen@.len() < tv.len() || tv.len() == 0,
            forall|a: int, b: int|
                0 <= a < b < seen@.len() ==> (#[trigger] seen@[a])@ != (#[trigger] seen@[b])@,
        decreases events@.len() - i,
    {
        let ghost seen_pre = seen_views(seen@);
        let et = match events[i].event_type() {
            Some(t) => t,
            None => String::new(),
        };
        proof {
            assert(et@ == cands[i as int].spec_type());
        }
        let in_targets = contains_view(targets, &et);
        let in_seen = contains_view(seen, &et);
        proof {
            assert(in_targets == tv.contains(et@)) by {
                if in_targets {
                    let w = choose|w: int| 0 <= w < targets@.len() && targets@[w]@ == et@;
                    assert(tv[w] == et@);
                } else {
                    if tv.contains(et@) {
                        let w = choose|w: int| 0 <= w < tv.len() && tv[w] == et@;
                        assert(targets@[w]@ == et@);
                        assert(false);
                    }
                }
            }
            assert(in_seen == seen_views(seen@).contains(et@)) by {
                if in_seen {
                    let w = choose|w: int| 0 <= w < seen@.len() && seen@[w]@ == et@;
                    assert(seen_views(seen@)[w] == et@);
                } else {
                    if seen_views(seen@).contains(et@) {
                        let w = choose|w: int|
                            0 <= w < seen_views(seen@).len() && seen_views(seen@)[w] == et@;
                        assert(seen@[w]@ == et@);
                        assert(false);
                    }
                }
            }
        }
        if in_targets && !in_seen {
            seen.push(et);
            proof {
                assert(seen_views(seen@) =~= seen_pre.push(cands[i as int].spec_type()));
            }
        }
        if seen.len() >= targets.len() {
            return Some(events[i].received());
        }
        proof {
            assert(at_least_scan(cands, tv, i as int, seen_pre) == at_least_scan(
                cands,
                tv,
                i + 1,
                seen_views(seen@),
            ));
        }
        i = i + 1;
    }
    None
}

/// What a list of seen type labels holds.
pub open spec fn seen_views(s: Seq<String>) -> Seq<Seq<char>> {
    Seq::new(
        s.len(),
        |i: int|
            if 0 <= i < s.len() {
                s[i]@
            } else {
                Seq::empty()
            },
    )
}

/// Whether the list holds the given text.
fn contains_view(v: &Vec<String>, s: &String) -> (r: bool)
    ensures
        r == exists|w: int| 0 <= w < v@.len() && (#[trigger] v@[w])@ == s@,
{
    let mut k: usize = 0;
    while k < v.len()
        invariant
            k <= v@.len(),
            forall|m: int| 0 <= m < k ==> (#[trigger] v@[m])@ != s@,
        decreases v@.len() - k,
    {
        if v[k] == *s {
            proof {
                assert(v@[k as int]@ == s@);
            }
            return true;
        }
        k = k + 1;
    }
    false
}

} // verus!
