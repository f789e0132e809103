//! The processor: classify a raw event, persist it under its key,
//! evaluate every rule, and collect the resulting actions.

use vstd::prelude::*;

use crate::action::{EmitAction, EventAction};
use crate::broker::{CorrelationId, EventExpiry};
use crate::config::{ActionConfig, EventCorrelation, correlation_path, timing_wf};
use crate::context::EventContext;
use crate::errors::{LaikaError, LaikaResult};
use crate::event::{Event, RawEvent, Trigger};
use crate::json::Json;
use crate::matcher::{EventTypeDefinitions, classify_spec};
use crate::predicate::PredicateEngine;
use crate::json::JsonV;
use crate::rules::{
    EventRule, EventRuleDefinition, RuleResult, candidates, met_at_spec, valid_correlation_spec,
};
use crate::storage::{EventStorage, read_events_bytes, write_event_bytes};
use crate::template::{render_node, rendered_jsonv};
use crate::config::{TimingConfig, instant_in_range, next_check_spec, timing_bounded};

verus! {

broadcast use
    vstd::std_specs::vec::group_vec_axioms,
    vstd::seq::group_seq_axioms,
    vstd::seq_lib::group_to_multiset_ensures,
    vstd::multiset::group_multiset_axioms;

/// What one action holds.
pub enum ActionV {
    Emit { target: Seq<char>, payload: JsonV },
    Wakeup { expires_at: int, key: Seq<char>, rule: Seq<char> },
}

/// What an action holds.
pub open spec fn action_view(a: EventAction) -> ActionV {
    match a {
        EventAction::Emit(e) => ActionV::Emit { target: e.target@, payload: e.payload@ },
        EventAction::ScheduleWakeup(w) => ActionV::Wakeup {
            expires_at: w.expires_at as int,
            key: w.correlation_id@,
            rule: w.event_rule@,
        },
    }
}

/// What a sequence of actions holds.
pub open spec fn actions_view(s: Seq<EventAction>) -> Seq<ActionV> {
    Seq::new(
        s.len(),
        |i: int|
            if 0 <= i < s.len() {
                action_view(s[i])
            } else {
                ActionV::Emit { target: Seq::empty(), payload: JsonV::Null }
            },
    )
}

/// What an optional correlation key holds.
pub open spec fn key_view(k: Option<CorrelationId>) -> Option<Seq<char>> {
    match k {
        Some(text) => Some(text@),
        None => None,
    }
}

/// How one rule's evaluation ended, as far as the contracts can see:
/// its evaluation failed, its predicate yielded nothing, or it yielded
/// an extraction.
pub enum VerdictV {
    Failed,
    NotSatisfied,
    Satisfied(JsonV),
}

/// The actions one rule contributes to an evaluation, given its verdict
/// and the re-check instant chosen for it: nothing for an invalid
/// group, an unmet requirement, a failed evaluation or a failed render;
/// one emission of the rendered template on an extraction; one
/// scheduled wake-up on no extraction, when the rule has a timing, the
/// evaluation has a key, and an instant was chosen.
pub open spec fn rule_contribution(
    rule: EventRule,
    t: Trigger,
    ctx: Seq<Event>,
    key: Option<Seq<char>>,
    verdict: VerdictV,
    sched: Option<int>,
) -> Seq<ActionV> {
    if !valid_correlation_spec(t, ctx, rule.requirement) {
        Seq::empty()
    } else {
        match met_at_spec(rule.requirement, candidates(t, ctx)) {
            None => Seq::empty(),
            Some(_) => match verdict {
                VerdictV::Failed => Seq::empty(),
                VerdictV::Satisfied(v) => match render_node(rule.action.emit_template.root@, v) {
                    Ok(rendered) => seq![
                        ActionV::Emit {
                            target: rule.action.target@,
                            payload: rendered_jsonv(rendered),
                        },
                    ],
                    Err(_) => Seq::empty(),
                },
                VerdictV::NotSatisfied => match (rule.timing, key, sched) {
                    (Some(_), Some(k), Some(at)) => seq![
                        ActionV::Wakeup { expires_at: at, key: k, rule: rule.name@ },
                    ],
                    _ => Seq::empty(),
                },
            },
        }
    }
}

/// Whether one rule's evaluation failed: its group was rejected, its
/// predicate raised, or its render failed.  Each failure is reported,
/// and evaluation continues with the remaining rules.
pub open spec fn rule_failed(rule: EventRule, t: Trigger, ctx: Seq<Event>, verdict: VerdictV) -> bool {
    ||| verdict is Failed
    ||| (verdict matches VerdictV::Satisfied(v) && valid_correlation_spec(t, ctx, rule.requirement)
        && met_at_spec(rule.requirement, candidates(t, ctx)) is Some && render_node(
        rule.action.emit_template.root@,
        v,
    ) is Err)
}

/// How many of the first `n` rules failed.
pub open spec fn failure_count(
    rules: Seq<EventRule>,
    t: Trigger,
    ctx: Seq<Event>,
    vs: Seq<VerdictV>,
    n: int,
) -> int
    decreases n,
{
    if n <= 0 {
        0
    } else {
        failure_count(rules, t, ctx, vs, n - 1) + if rule_failed(rules[n - 1], t, ctx, vs[n - 1]) {
            1int
        } else {
            0int
        }
    }
}

/// The in-order concatenation of the first `n` rules' contributions.
pub open spec fn rule_contributions(
    rules: Seq<EventRule>,
    t: Trigger,
    ctx: Seq<Event>,
    key: Option<Seq<char>>,
    vs: Seq<VerdictV>,
    scheds: Seq<Option<int>>,
    n: int,
) -> Seq<ActionV>
    decreases n,
{
    if n <= 0 {
        Seq::empty()
    } else {
        rule_contributions(rules, t, ctx, key, vs, scheds, n - 1) + rule_contribution(
            rules[n - 1],
            t,
            ctx,
            key,
            vs[n - 1],
            scheds[n - 1],
        )
    }
}

/// The contributions read only the first `n` verdicts and instants.
proof fn lemma_contributions_agree(
    rules: Seq<EventRule>,
    t: Trigger,
    ctx: Seq<Event>,
    key: Option<Seq<char>>,
    vs1: Seq<VerdictV>,
    scheds1: Seq<Option<int>>,
    vs2: Seq<VerdictV>,
    scheds2: Seq<Option<int>>,
    n: int,
)
    requires
        forall|k: int| 0 <= k < n ==> #[trigger] vs1[k] == vs2[k] && scheds1[k] == scheds2[k],
    ensures
        rule_contributions(rules, t, ctx, key, vs1, scheds1, n) == rule_contributions(
            rules,
            t,
            ctx,
            key,
            vs2,
            scheds2,
            n,
        ),
        failure_count(rules, t, ctx, vs1, n) == failure_count(rules, t, ctx, vs2, n),
    decreases n,
{
    if n > 0 {
        lemma_contributions_agree(rules, t, ctx, key, vs1, scheds1, vs2, scheds2, n - 1);
    }
}

/// With every group valid and every requirement unmet, no rule
/// contributes anything and none fails.
proof fn lemma_contributions_all_unmet(
    rules: Seq<EventRule>,
    t: Trigger,
    ctx: Seq<Event>,
    key: Option<Seq<char>>,
    vs: Seq<VerdictV>,
    scheds: Seq<Option<int>>,
    n: int,
)
    requires
        forall|k: int|
            0 <= k < n ==> valid_correlation_spec(t, ctx, (#[trigger] rules[k]).requirement)
                && met_at_spec(rules[k].requirement, candidates(t, ctx)) is None,
        forall|k: int| 0 <= k < n ==> !((#[trigger] vs[k]) is Failed),
    ensures
        rule_contributions(rules, t, ctx, key, vs, scheds, n) == Seq::<ActionV>::empty(),
        failure_count(rules, t, ctx, vs, n) == 0,
    decreases n,
{
    if n > 0 {
        lemma_contributions_all_unmet(rules, t, ctx, key, vs, scheds, n - 1);
        assert(rule_contribution(rules[n - 1], t, ctx, key, vs[n - 1], scheds[n - 1]) =~= Seq::<
            ActionV,
        >::empty());
        assert(rule_contributions(rules, t, ctx, key, vs, scheds, n) =~= Seq::<ActionV>::empty());
    }
}

/// How a verdict and a chosen re-check instant may come about for one
/// rule: a rejected group always fails; the predicate runs only once
/// the requirement is met; and a chosen instant must be what the rule's
/// timing gives for some reading of the clock.
pub open spec fn verdict_consistent(
    rule: EventRule,
    t: Trigger,
    ctx: Seq<Event>,
    key: Option<Seq<char>>,
    verdict: VerdictV,
    sched: Option<int>,
) -> bool {
    if !valid_correlation_spec(t, ctx, rule.requirement) {
        verdict is Failed
    } else {
        match met_at_spec(rule.requirement, candidates(t, ctx)) {
            None => verdict is NotSatisfied,
            Some(met) => match verdict {
                VerdictV::Failed => true,
                VerdictV::Satisfied(_) => true,
                VerdictV::NotSatisfied => match rule.timing {
                    Some(tc) => key is Some ==> exists|now: int|
                        {
                            &&& -400_000_000_000 <= now <= 400_000_000_000
                            &&& (tc.until matches Some(u) && now >= met + u ==> sched is None)
                            &&& (instant_in_range(met as int) && timing_bounded(tc) ==> match sched {
                                Some(w) => next_check_spec(tc, met as int, now) == Some(w),
                                None => next_check_spec(tc, met as int, now) is None,
                            })
                        },
                    None => true,
                },
            },
        }
    }
}

/// One evaluation of every rule, described end to end: there are
/// verdicts and re-check instants under which the actions are the
/// rules' in-order contributions, the failure list has one entry per
/// failed rule, and every verdict is consistent.
pub open spec fn evaluation_outcome(
    rules: Seq<EventRule>,
    t: Trigger,
    ctx: Seq<Event>,
    key: Option<Seq<char>>,
    actions: Seq<ActionV>,
    failures: int,
) -> bool {
    exists|vs: Seq<VerdictV>, scheds: Seq<Option<int>>|
        {
            &&& vs.len() == rules.len()
            &&& scheds.len() == rules.len()
            &&& actions == rule_contributions(rules, t, ctx, key, vs, scheds, rules.len() as int)
            &&& failures == failure_count(rules, t, ctx, vs, rules.len() as int)
            &&& forall|j: int|
                0 <= j < rules.len() ==> verdict_consistent(
                    #[trigger] rules[j],
                    t,
                    ctx,
                    key,
                    vs[j],
                    scheds[j],
                )
        }
}

/// The in-order concatenation of the first `m` chunks.
pub open spec fn chunks_concat(chunks: Seq<Seq<ActionV>>, m: int) -> Seq<ActionV>
    decreases m,
{
    if m <= 0 {
        Seq::empty()
    } else {
        chunks_concat(chunks, m - 1) + chunks[m - 1]
    }
}

/// The concatenation reads only the first `m` chunks.
proof fn lemma_chunks_agree(c1: Seq<Seq<ActionV>>, c2: Seq<Seq<ActionV>>, m: int)
    requires
        forall|k: int| 0 <= k < m ==> #[trigger] c1[k] == c2[k],
    ensures
        chunks_concat(c1, m) == chunks_concat(c2, m),
    decreases m,
{
    if m > 0 {
        lemma_chunks_agree(c1, c2, m - 1);
    }
}

/// The actions one correlated event yields: there is an appended event
/// carrying the given instant, type, payload and key, and an ordered
/// valid prior context, whose evaluation yields exactly these actions.
pub open spec fn correlated_chunk(
    rules: Seq<EventRule>,
    received: i64,
    data: JsonV,
    et: Seq<char>,
    key: Seq<char>,
    chunk: Seq<ActionV>,
) -> bool {
    exists|trig: Event, prior: Seq<Event>, failures: int|
        {
            &&& trig matches Event::Correlated(c) && c.received == received && c.event_type@ == et
                && c.data@ == data && c.correlation_id@ == key
            &&& crate::context::sorted_by_received(prior)
            &&& crate::context::group_valid(prior)
            &&& 0 <= failures
            &&& evaluation_outcome(
                rules,
                Trigger::ReceivedEvent(trig),
                prior,
                Some(key),
                chunk,
                failures,
            )
        }
}

/// The actions one non-correlated event yields: it is evaluated alone,
/// with an empty context and no key.
pub open spec fn non_correlated_chunk(
    rules: Seq<EventRule>,
    received: i64,
    data: JsonV,
    et: Seq<char>,
    chunk: Seq<ActionV>,
) -> bool {
    exists|trig: Event, failures: int|
        {
            &&& trig matches Event::NonCorrelated(nc) && nc.received == received && nc.event_type@
                == et && nc.data@ == data
            &&& 0 <= failures
            &&& evaluation_outcome(
                rules,
                Trigger::ReceivedEvent(trig),
                Seq::empty(),
                None,
                chunk,
                failures,
            )
        }
}

/// The engine's heart: the classifier, the correlation table, the rules
/// and the predicate engine they run on.
#[derive(Debug)]
pub struct EventProcessor<E: PredicateEngine> {
    pub engine: E,
    pub event_matcher: EventTypeDefinitions,
    pub event_correlation: EventCorrelation,
    pub rules: Vec<EventRule>,
}

/// Every rule's timing holds non-negative durations.
pub open spec fn rules_wf(rules: Seq<EventRule>) -> bool {
    forall|i: int|
        0 <= i < rules.len() ==> ((#[trigger] rules[i]).timing matches Some(t) ==> timing_wf(t))
}

impl<E: PredicateEngine> EventProcessor<E> {
    /// The processor's patterns and timings are well-formed.
    pub open spec fn wf(&self) -> bool {
        self.event_matcher.wf() && rules_wf(self.rules@)
    }

    /// Wire a processor: install every rule's predicate into the
    /// engine, keeping the classifier, the correlation table and the
    /// rules — name, timing, requirement and action — as configured.
    #[verifier::loop_isolation(false)]
    pub fn new(
        event_matcher: EventTypeDefinitions,
        event_correlation: EventCorrelation,
        rules: Vec<EventRuleDefinition>,
        engine: E,
    ) -> (r: Self)
        requires
            event_matcher.wf(),
            forall|i: int|
                0 <= i < rules@.len() ==> ((#[trigger] rules@[i]).timing matches Some(t)
                    ==> timing_wf(t)),
        ensures
            r.wf(),
            r.event_matcher == event_matcher,
            r.event_correlation == event_correlation,
            r.rules@.len() == rules@.len(),
            forall|i: int|
                0 <= i < rules@.len() ==> {
                    &&& (#[trigger] r.rules@[i]).name@ == rules@[i].name@
                    &&& r.rules@[i].timing == rules@[i].timing
                    &&& r.rules@[i].requirement == rules@[i].requirement
                    &&& r.rules@[i].action.target@ == rules@[i].action.target@
                    &&& r.rules@[i].action.emit_template.root@ == rules@[i].action.emit_template.root@
                },
    {
        let ghost defs = rules@;
        let mut engine = engine;
        let mut installed: Vec<EventRule> = Vec::new();
        let mut rest = rules;
        while rest.len() > 0
            invariant
                rules_wf(installed@),
                installed@.len() + rest@.len() == defs.len(),
                forall|k: int|
                    0 <= k < rest@.len() ==> #[trigger] rest@[k] == defs[installed@.len() + k],
                forall|i: int|
                    0 <= i < installed@.len() ==> {
                        &&& (#[trigger] installed@[i]).name@ == defs[i].name@
                        &&& installed@[i].timing == defs[i].timing
                        &&& installed@[i].requirement == defs[i].requirement
                        &&& installed@[i].action.target@ == defs[i].action.target@
                        &&& installed@[i].action.emit_template.root@
                            == defs[i].action.emit_template.root@
                    },
            decreases rest@.len(),
        {
            let ghost pre = rest@;
            let def = rest.remove(0);
            proof {
                assert(def == pre[0]);
                assert(def == defs[installed@.len() as int]);
            }
            let rule = def.register_to_engine(&mut engine);
            installed.push(rule);
        }
        Self { engine, event_matcher, event_correlation, rules: installed }
    }

    /// Classify a raw event into every matching typed event, deriving
    /// each one's correlation key from the configured path.  Fails
    /// exactly when a configured key path names a field the payload
    /// lacks.
    #[verifier::loop_isolation(false)]
    pub fn parse_event(&self, event_source: &str, raw_event: RawEvent) -> (r: LaikaResult<
        Vec<Event>,
    >)
        requires
            self.wf(),
        ensures
            match r {
                Ok(events) => {
                    &&& events@.len() == classify_spec(
                        self.event_matcher.type_definitions@,
                        event_source@,
                        raw_event.data@,
                    ).len()
                    &&& forall|i: int|
                        0 <= i < events@.len() ==> {
                            &&& (#[trigger] events@[i]).spec_type() == classify_spec(
                                self.event_matcher.type_definitions@,
                                event_source@,
                                raw_event.data@,
                            )[i]
                            &&& events@[i].spec_received() == raw_event.received
                            &&& events@[i].spec_data() == raw_event.data@
                            &&& (events@[i] is Correlated <==> correlation_path(
                                self.event_correlation.event_rules@,
                                events@[i].spec_type(),
                            ) is Some)
                            &&& (events@[i] matches Event::Correlated(c) ==> (correlation_path(
                                self.event_correlation.event_rules@,
                                c.event_type@,
                            ) matches Some(path) && crate::json::lookup_path(
                                raw_event.data@,
                                path,
                            ) matches Ok(v) && c.correlation_id@ == crate::render::json_text(v)))
                        }
                },
                Err(e) => e == LaikaError::EventMatchError && exists|j: int|
                    {
                        &&& 0 <= j < classify_spec(
                            self.event_matcher.type_definitions@,
                            event_source@,
                            raw_event.data@,
                        ).len()
                        &&& correlation_path(
                            self.event_correlation.event_rules@,
                            #[trigger] classify_spec(
                                self.event_matcher.type_definitions@,
                                event_source@,
                                raw_event.data@,
                            )[j],
                        ) matches Some(path)
                        &&& crate::json::lookup_path(raw_event.data@, path) is Err
                    },
            },
    {
        let types = match self.event_matcher.match_message(event_source, &raw_event.data) {
            Ok(ts) => ts,
            Err(_) => {
                return Err(LaikaError::EventMatchError);
            },
        };
        let ghost spec_types = classify_spec(
            self.event_matcher.type_definitions@,
            event_source@,
            raw_event.data@,
        );
        let mut out: Vec<Event> = Vec::new();
        let mut i: usize = 0;
        while i < types.len()
            invariant
                i <= types@.len(),
                types@.len() == spec_types.len(),
                forall|j: int| 0 <= j < types@.len() ==> (#[trigger] types@[j])@ == spec_types[j],
                out@.len() == i,
                forall|j: int|
                    0 <= j < i ==> {
                        &&& (#[trigger] out@[j]).spec_type() == spec_types[j]
                        &&& out@[j].spec_received() == raw_event.received
                        &&& out@[j].spec_data() == raw_event.data@
                        &&& (out@[j] is Correlated <==> correlation_path(
                            self.event_correlation.event_rules@,
                            out@[j].spec_type(),
                        ) is Some)
                        &&& (out@[j] matches Event::Correlated(c) ==> (correlation_path(
                            self.event_correlation.event_rules@,
                            c.event_type@,
                        ) matches Some(path) && crate::json::lookup_path(
                            raw_event.data@,
                            path,
                        ) matches Ok(v) && c.correlation_id@ == crate::render::json_text(v)))
                    },
            decreases types@.len() - i,
        {
            let event_type = types[i].clone();
            let key = match self.event_correlation.correlation_id(&event_type, &raw_event) {
                Ok(k) => k,
                Err(_) => {
                    proof {
                        let cl = classify_spec(
                            self.event_matcher.type_definitions@,
                            event_source@,
                            raw_event.data@,
                        );
                        assert(cl[i as int] == spec_types[i as int]);
                        assert(correlation_path(
                            self.event_correlation.event_rules@,
                            #[trigger] cl[i as int],
                        ) is Some);
                    }
                    return Err(LaikaError::EventMatchError);
                },
            };
            let parsed = raw_event.clone().parse(event_type, key);
            out.push(parsed);
            i = i + 1;
        }
        Ok(out)
    }

    /// The actions the rules yield for one trigger and its context: an
    /// emission for each satisfied rule, and a scheduled wake-up for
    /// each unsatisfied rule whose timing gives a next instant and whose
    /// evaluation has a correlation key.  A rule fires every time an
    /// evaluation satisfies it.  A rule whose evaluation fails — a
    /// rejected group, a raised predicate, or a failed render —
    /// contributes nothing; its failure is returned beside the actions
    /// for the caller to log, and evaluation continues with the
    /// remaining rules.
    #[verifier::loop_isolation(false)]
    pub fn relevant_actions(
        &mut self,
        correlation_id: &Option<CorrelationId>,
        trigger: &Trigger,
        context: &EventContext,
    ) -> (r: (Vec<EventAction>, Vec<LaikaError>))
        requires
            old(self).wf(),
        ensures
            final(self).wf(),
            final(self).event_matcher == old(self).event_matcher,
            final(self).event_correlation == old(self).event_correlation,
            final(self).rules@ == old(self).rules@,
            forall|k: int|
                0 <= k < r.0@.len() ==> ((#[trigger] r.0@[k]) matches
                EventAction::ScheduleWakeup(e) ==> (correlation_id matches Some(key)
                    && e.correlation_id@ == key@ && exists|j: int|
                    0 <= j < old(self).rules@.len() && e.event_rule@ == (
                    #[trigger] old(self).rules@[j]).name@)),
            evaluation_outcome(
                old(self).rules@,
                *trigger,
                context.sequence@,
                key_view(*correlation_id),
                actions_view(r.0@),
                r.1@.len() as int,
            ),
            forall|k: int|
                0 <= k < r.1@.len() ==> ((#[trigger] r.1@[k]) is InvalidEventGroup || r.1@[k]
                    is RuleEvaluationError || r.1@[k] is TemplateError),
            (forall|j: int|
                0 <= j < old(self).rules@.len() ==> valid_correlation_spec(
                    *trigger,
                    context.sequence@,
                    (#[trigger] old(self).rules@[j]).requirement,
                ) && met_at_spec(
                    old(self).rules@[j].requirement,
                    candidates(*trigger, context.sequence@),
                ) is None) ==> (r.0@.len() == 0 && r.1@.len() == 0),
    {
        let ghost rules_g = self.rules@;
        let ghost tg = *trigger;
        let ghost ctxg = context.sequence@;
        let ghost kg = key_view(*correlation_id);
        let mut actions: Vec<EventAction> = Vec::new();
        let mut failures: Vec<LaikaError> = Vec::new();
        let mut i: usize = 0;
        let ghost mut vs: Seq<VerdictV> = Seq::empty();
        let ghost mut scheds: Seq<Option<int>> = Seq::empty();
        while i < self.rules.len()
            invariant
                i <= self.rules@.len(),
                self.wf(),
                self.event_matcher == old(self).event_matcher,
                self.event_correlation == old(self).event_correlation,
                self.rules@ == rules_g,
                vs.len() == i,
                scheds.len() == i,
                actions_view(actions@) == rule_contributions(
                    rules_g,
                    tg,
                    ctxg,
                    kg,
                    vs,
                    scheds,
                    i as int,
                ),
                failures@.len() == failure_count(rules_g, tg, ctxg, vs, i as int),
                forall|j: int|
                    0 <= j < i ==> verdict_consistent(
                        #[trigger] rules_g[j],
                        tg,
                        ctxg,
                        kg,
                        vs[j],
                        scheds[j],
                    ),
                forall|j: int|
                    0 <= j < i ==> ((valid_correlation_spec(
                        tg,
                        ctxg,
                        (#[trigger] rules_g[j]).requirement,
                    ) && met_at_spec(rules_g[j].requirement, candidates(tg, ctxg)) is None)
                        ==> !(vs[j] is Failed)),
                forall|k: int|
                    0 <= k < failures@.len() ==> ((#[trigger] failures@[k]) is InvalidEventGroup
                        || failures@[k] is RuleEvaluationError || failures@[k] is TemplateError),
                forall|k: int|
                    0 <= k < actions@.len() ==> ((#[trigger] actions@[k]) matches
                    EventAction::ScheduleWakeup(e) ==> (correlation_id matches Some(key)
                        && e.correlation_id@ == key@ && exists|j: int|
                        0 <= j < self.rules@.len() && e.event_rule@ == (
                        #[trigger] self.rules@[j]).name@)),
            decreases self.rules@.len() - i,
        {
            proof {
                assert(self.rules@[i as int].timing matches Some(t) ==> timing_wf(t));
            }
            let ghost met = met_at_spec(rules_g[i as int].requirement, candidates(tg, ctxg));
            let ghost pre_actions = actions@;
            let ghost pre_failures = failures@;
            let ghost pre_vs = vs;
            let ghost pre_scheds = scheds;
            let outcome = {
                let rule = &self.rules[i];
                rule.evaluate(&mut self.engine, trigger, context)
            };
            match outcome {
                Ok(RuleResult::ConditionSatisfied { met_at: _, action_config, condition_result }) => {
                    proof {
                        vs = vs.push(VerdictV::Satisfied(condition_result@));
                        scheds = scheds.push(None);
                    }
                    match emit_action(&action_config, &condition_result) {
                        Ok(action) => {
                            actions.push(action);
                        }
                        Err(e) => {
                            proof {
                                assert(met is Some);
                                assert(rule_failed(rules_g[i as int], tg, ctxg, vs[i as int]));
                            }
                            failures.push(e);
                        }
                    }
                }
                Ok(RuleResult::ConditionNotSatisfied { met_at, recheck }) => {
                    proof {
                        vs = vs.push(VerdictV::NotSatisfied);
                    }
                    match recheck {
                        Some(timing) => match correlation_id {
                            Some(key) => {
                                let next = timing.next_check(met_at);
                                proof {
                                    scheds = scheds.push(
                                        match next {
                                            Some(w) => Some(w as int),
                                            None => None,
                                        },
                                    );
                                    let chosen_now = choose|now: int|
                                        {
                                            &&& -400_000_000_000 <= now <= 400_000_000_000
                                            &&& (timing.until matches Some(u) && now >= met_at + u
                                                ==> next is None)
                                            &&& (instant_in_range(met_at as int)
                                                && timing_bounded(timing) ==> match next {
                                                Some(v) => next_check_spec(
                                                    timing,
                                                    met_at as int,
                                                    now,
                                                ) == Some(v as int),
                                                None => next_check_spec(
                                                    timing,
                                                    met_at as int,
                                                    now,
                                                ) is None,
                                            })
                                        };
                                    assert(-400_000_000_000 <= chosen_now
                                        <= 400_000_000_000);
                                    assert(verdict_consistent(
                                        rules_g[i as int],
                                        tg,
                                        ctxg,
                                        kg,
                                        vs[i as int],
                                        scheds[i as int],
                                    ));
                                }
                                match next {
                                    Some(next_wakeup) => {
                                        actions.push(
                                            EventAction::ScheduleWakeup(
                                                EventExpiry::new(
                                                    next_wakeup,
                                                    key.clone(),
                                                    self.rules[i].name.clone(),
                                                ),
                                            ),
                                        );
                                    }
                                    None => {}
                                }
                            }
                            None => {
                                proof {
                                    scheds = scheds.push(None);
                                }
                            }
                        },
                        None => {
                            proof {
                                scheds = scheds.push(None);
                            }
                        }
                    }
                }
                Ok(RuleResult::RequirementNotMet) => {
                    proof {
                        vs = vs.push(VerdictV::NotSatisfied);
                        scheds = scheds.push(None);
                    }
                }
                Err(e) => {
                    proof {
                        vs = vs.push(VerdictV::Failed);
                        scheds = scheds.push(None);
                        if e == LaikaError::InvalidEventGroup {
                            assert(!valid_correlation_spec(
                                tg,
                                ctxg,
                                rules_g[i as int].requirement,
                            ));
                        } else {
                            assert(met is Some);
                        }
                    }
                    failures.push(e);
                }
            }
            proof {
                lemma_contributions_agree(
                    rules_g,
                    tg,
                    ctxg,
                    kg,
                    pre_vs,
                    pre_scheds,
                    vs,
                    scheds,
                    i as int,
                );
                assert(rule_contributions(rules_g, tg, ctxg, kg, vs, scheds, i + 1)
                    == rule_contributions(rules_g, tg, ctxg, kg, vs, scheds, i as int)
                    + rule_contribution(
                    rules_g[i as int],
                    tg,
                    ctxg,
                    kg,
                    vs[i as int],
                    scheds[i as int],
                ));
                if actions@.len() == pre_actions.len() {
                    assert(rule_contribution(
                        rules_g[i as int],
                        tg,
                        ctxg,
                        kg,
                        vs[i as int],
                        scheds[i as int],
                    ) =~= Seq::<ActionV>::empty());
                    assert(actions_view(actions@) =~= rule_contributions(
                        rules_g,
                        tg,
                        ctxg,
                        kg,
                        vs,
                        scheds,
                        i + 1,
                    ));
                } else {
                    assert(actions@ == pre_actions.push(actions@.last()));
                    assert(rule_contribution(
                        rules_g[i as int],
                        tg,
                        ctxg,
                        kg,
                        vs[i as int],
                        scheds[i as int],
                    ) =~= seq![action_view(actions@.last())]);
                    assert(actions_view(actions@) =~= rule_contributions(
                        rules_g,
                        tg,
                        ctxg,
                        kg,
                        vs,
                        scheds,
                        i + 1,
                    ));
                }
                if failures@.len() == pre_failures.len() {
                    assert(!rule_failed(rules_g[i as int], tg, ctxg, vs[i as int]));
                } else {
                    assert(rule_failed(rules_g[i as int], tg, ctxg, vs[i as int]));
                }
                assert(failures@.len() == failure_count(rules_g, tg, ctxg, vs, i + 1));
                assert forall|k: int|
                    0 <= k < actions@.len() implies ((#[trigger] actions@[k]) matches
                EventAction::ScheduleWakeup(e) ==> (correlation_id matches Some(key)
                    && e.correlation_id@ == key@ && exists|j: int|
                    0 <= j < self.rules@.len() && e.event_rule@ == (
                    #[trigger] self.rules@[j]).name@)) by {
                    if k < pre_actions.len() {
                        assert(actions@[k] == pre_actions[k]);
                    } else {
                        match actions@[k] {
                            EventAction::ScheduleWakeup(e) => {
                                assert((i as int) < self.rules@.len());
                                assert(e.event_rule@ == (#[trigger] self.rules@[i as int]).name@);
                            }
                            _ => {}
                        }
                    }
                }
            }
            i = i + 1;
        }
        proof {
            assert(actions_view(actions@) == rule_contributions(
                rules_g,
                tg,
                ctxg,
                kg,
                vs,
                scheds,
                rules_g.len() as int,
            ));
            assert(evaluation_outcome(
                rules_g,
                tg,
                ctxg,
                kg,
                actions_view(actions@),
                failures@.len() as int,
            ));
            if forall|j: int|
                0 <= j < rules_g.len() ==> valid_correlation_spec(
                    tg,
                    ctxg,
                    (#[trigger] rules_g[j]).requirement,
                ) && met_at_spec(rules_g[j].requirement, candidates(tg, ctxg)) is None {
                assert forall|k: int| 0 <= k < rules_g.len() implies !((#[trigger] vs[k])
                    is Failed) by {
                    assert(valid_correlation_spec(tg, ctxg, rules_g[k].requirement));
                }
                lemma_contributions_all_unmet(rules_g, tg, ctxg, kg, vs, scheds, rules_g.len() as int);
                assert(actions_view(actions@).len() == 0);
            }
        }
        (actions, failures)
    }
}

/// Render a satisfied rule's template against its extraction and wrap
/// the result for emission.
pub fn emit_action(action_config: &ActionConfig, output: &Json) -> (r: LaikaResult<EventAction>)
    ensures
        match r {
            Ok(a) => {
                &&& a matches EventAction::Emit(e)
                &&& e.target@ == action_config.target@
                &&& crate::template::render_node(action_config.emit_template.root@, output@)
                    matches Ok(rendered) && e.payload@ == rendered_jsonv(rendered)
            },
            Err(e) => crate::template::render_node(
                action_config.emit_template.root@,
                output@,
            ) is Err && e is TemplateError,
        },
{
    match action_config.emit_template.render(output) {
        Ok(rendered) => Ok(
            EventAction::Emit(EmitAction::new(action_config.target.clone(), rendered.to_json())),
        ),
        Err(e) => Err(LaikaError::TemplateError(e.message())),
    }
}

/// Handle one correlated event: append it to its key's batch, evaluate
/// every rule with the event as trigger and the earlier decoded events
/// as context, and commit the new batch.  The returned actions are the
/// rules' contributions for that trigger, the returned failures are the
/// rules whose evaluation failed, and every scheduled wake-up carries
/// the event's correlation key and a configured rule's name.
pub fn handle_correlated_parsed_event<E: PredicateEngine, S: EventStorage>(
    processor: &mut EventProcessor<E>,
    storage: &mut S,
    correlated_event: crate::event::CorrelatedEvent,
) -> (r: LaikaResult<(Vec<EventAction>, Vec<LaikaError>)>)
    requires
        old(processor).wf(),
    ensures
        final(processor).wf(),
        final(processor).rules@ == old(processor).rules@,
        final(processor).event_matcher == old(processor).event_matcher,
        final(processor).event_correlation == old(processor).event_correlation,
        r matches Ok(out) ==> forall|k: int|
            0 <= k < out.0@.len() ==> ((#[trigger] out.0@[k]) matches
            EventAction::ScheduleWakeup(e) ==> (e.correlation_id@
                == correlated_event.correlation_id@ && exists|j: int|
                0 <= j < old(processor).rules@.len() && e.event_rule@ == (
                #[trigger] old(processor).rules@[j]).name@)),
        r matches Ok(out) ==> correlated_chunk(
            old(processor).rules@,
            correlated_event.received,
            correlated_event.data@,
            correlated_event.event_type@,
            correlated_event.correlation_id@,
            actions_view(out.0@),
        ),
        r matches Ok(out) ==> forall|k: int|
            0 <= k < out.1@.len() ==> ((#[trigger] out.1@[k]) is InvalidEventGroup || out.1@[k]
                is RuleEvaluationError || out.1@[k] is TemplateError),
{
    let ghost ev0 = correlated_event;
    let correlation_id = correlated_event.correlation_id.clone();
    let stored = match storage.read_bytes(&correlation_id) {
        Ok(s) => s,
        Err(e) => {
            return Err(e);
        },
    };
    let new_bytes = match write_event_bytes(stored.as_ref(), correlated_event) {
        Ok(b) => b,
        Err(e) => {
            return Err(e);
        },
    };
    let mut events = match read_events_bytes(Some(&new_bytes)) {
        Ok(es) => es,
        Err(e) => {
            return Err(e);
        },
    };
    if events.len() == 0 {
        return Err(LaikaError::IO("stored batch lost its last event".to_owned()));
    }
    let last = events.remove(events.len() - 1);
    proof {
        let enc = crate::codec::json_enc(ev0.data@);
        assert(enc.subrange(0, enc.len() as int) =~= enc);
        crate::codec::lemma_json_round_trip(ev0.data@, enc, 0);
        assert(last.received == ev0.received);
        assert(last.correlation_id@ == ev0.correlation_id@);
        assert(last.event_type@ == ev0.event_type@);
        assert(last.data@ == ev0.data@);
    }
    let mut context_events: Vec<Event> = Vec::new();
    let mut rest = events;
    while rest.len() > 0
        decreases rest@.len(),
    {
        let e = rest.remove(0);
        context_events.push(Event::Correlated(e));
    }
    let trigger = Trigger::ReceivedEvent(Event::Correlated(last));
    let context = match EventContext::try_from(context_events) {
        Ok(c) => c,
        Err(e) => {
            return Err(e);
        },
    };
    let (actions, failures) = processor.relevant_actions(
        &Some(correlation_id.clone()),
        &trigger,
        &context,
    );
    proof {
        assert(key_view(Some(correlation_id)) == Some(ev0.correlation_id@));
        assert({
            let trig = Event::Correlated(last);
            let prior = context.sequence@;
            &&& trig matches Event::Correlated(c) && c.received == ev0.received
                && c.correlation_id@ == ev0.correlation_id@ && c.event_type@ == ev0.event_type@
                && c.data@ == ev0.data@
            &&& crate::context::sorted_by_received(prior)
            &&& crate::context::group_valid(prior)
            &&& 0 <= failures@.len() as int
            &&& evaluation_outcome(
                old(processor).rules@,
                Trigger::ReceivedEvent(trig),
                prior,
                Some(ev0.correlation_id@),
                actions_view(actions@),
                failures@.len() as int,
            )
        });
        assert(correlated_chunk(
            old(processor).rules@,
            ev0.received,
            ev0.data@,
            ev0.event_type@,
            ev0.correlation_id@,
            actions_view(actions@),
        ));
    }
    match storage.write_bytes(&correlation_id, new_bytes) {
        Ok(_) => Ok((actions, failures)),
        Err(e) => Err(e),
    }
}

/// Handle one raw event: classify it, and evaluate each resulting typed
/// event in order — through the store for a correlated one, alone for a
/// non-correlated one — concatenating the actions and the per-rule
/// failures.  A payload that lacks a configured key field is rejected
/// as `EventMatchError`, and every scheduled wake-up carries a
/// configured rule's name.
#[verifier::loop_isolation(false)]
pub fn handle_raw_event<E: PredicateEngine, S: EventStorage>(
    processor: &mut EventProcessor<E>,
    storage: &mut S,
    event_source: &str,
    raw_event: RawEvent,
) -> (r: LaikaResult<(Vec<EventAction>, Vec<LaikaError>)>)
    requires
        old(processor).wf(),
    ensures
        final(processor).wf(),
        final(processor).rules@ == old(processor).rules@,
        (exists|j: int|
            {
                &&& 0 <= j < classify_spec(
                    old(processor).event_matcher.type_definitions@,
                    event_source@,
                    raw_event.data@,
                ).len()
                &&& correlation_path(
                    old(processor).event_correlation.event_rules@,
                    #[trigger] classify_spec(
                        old(processor).event_matcher.type_definitions@,
                        event_source@,
                        raw_event.data@,
                    )[j],
                ) matches Some(path)
                &&& crate::json::lookup_path(raw_event.data@, path) is Err
            }) ==> r == Err::<(Vec<EventAction>, Vec<LaikaError>), LaikaError>(
            LaikaError::EventMatchError,
        ),
        r matches Ok(out) ==> forall|k: int|
            0 <= k < out.0@.len() ==> ((#[trigger] out.0@[k]) matches
            EventAction::ScheduleWakeup(e) ==> exists|j: int|
                0 <= j < old(processor).rules@.len() && e.event_rule@ == (
                #[trigger] old(processor).rules@[j]).name@),
        r matches Ok(out) ==> exists|chunks: Seq<Seq<ActionV>>|
            {
                &&& chunks.len() == classify_spec(
                    old(processor).event_matcher.type_definitions@,
                    event_source@,
                    raw_event.data@,
                ).len()
                &&& actions_view(out.0@) == chunks_concat(chunks, chunks.len() as int)
                &&& forall|i: int|
                    0 <= i < chunks.len() ==> {
                        let et = classify_spec(
                            old(processor).event_matcher.type_definitions@,
                            event_source@,
                            raw_event.data@,
                        )[i];
                        match correlation_path(
                            old(processor).event_correlation.event_rules@,
                            et,
                        ) {
                            Some(path) => crate::json::lookup_path(raw_event.data@, path)
                                matches Ok(v) && correlated_chunk(
                                old(processor).rules@,
                                raw_event.received,
                                raw_event.data@,
                                et,
                                crate::render::json_text(v),
                                #[trigger] chunks[i],
                            ),
                            None => non_correlated_chunk(
                                old(processor).rules@,
                                raw_event.received,
                                raw_event.data@,
                                et,
                                chunks[i],
                            ),
                        }
                    }
            },
        r matches Ok(out) ==> forall|k: int|
            0 <= k < out.1@.len() ==> ((#[trigger] out.1@[k]) is InvalidEventGroup || out.1@[k]
                is RuleEvaluationError || out.1@[k] is TemplateError),
{
    let mut event_actions: Vec<EventAction> = Vec::new();
    let mut event_failures: Vec<LaikaError> = Vec::new();
    let ghost cl = classify_spec(
        processor.event_matcher.type_definitions@,
        event_source@,
        raw_event.data@,
    );
    let ghost raw0 = raw_event;
    let parsed = match processor.parse_event(event_source, raw_event) {
        Ok(p) => p,
        Err(e) => {
            return Err(e);
        },
    };
    proof {
        if exists|j: int|
            {
                &&& 0 <= j < cl.len()
                &&& correlation_path(
                    processor.event_correlation.event_rules@,
                    #[trigger] cl[j],
                ) matches Some(path)
                &&& crate::json::lookup_path(raw0.data@, path) is Err
            } {
            let j = choose|j: int|
                {
                    &&& 0 <= j < cl.len()
                    &&& correlation_path(
                        processor.event_correlation.event_rules@,
                        #[trigger] cl[j],
                    ) matches Some(path)
                    &&& crate::json::lookup_path(raw0.data@, path) is Err
                };
            assert(parsed@[j].spec_type() == cl[j]);
            assert(parsed@[j] is Correlated);
            assert(false);
        }
    }
    let ghost parsed0 = parsed@;
    let ghost mut chunks: Seq<Seq<ActionV>> = Seq::empty();
    let mut rest = parsed;
    while rest.len() > 0
        invariant
            processor.wf(),
            processor.rules@ == old(processor).rules@,
            processor.event_correlation == old(processor).event_correlation,
            processor.event_matcher == old(processor).event_matcher,
            chunks.len() + rest@.len() == parsed0.len(),
            forall|k: int|
                0 <= k < rest@.len() ==> #[trigger] rest@[k] == parsed0[chunks.len() + k],
            actions_view(event_actions@) == chunks_concat(chunks, chunks.len() as int),
            forall|i: int|
                0 <= i < chunks.len() ==> {
                    let et = cl[i];
                    match correlation_path(processor.event_correlation.event_rules@, et) {
                        Some(path) => crate::json::lookup_path(raw0.data@, path) matches Ok(v)
                            && correlated_chunk(
                            old(processor).rules@,
                            raw0.received,
                            raw0.data@,
                            et,
                            crate::render::json_text(v),
                            #[trigger] chunks[i],
                        ),
                        None => non_correlated_chunk(
                            old(processor).rules@,
                            raw0.received,
                            raw0.data@,
                            et,
                            chunks[i],
                        ),
                    }
                },
            forall|k: int|
                0 <= k < event_failures@.len() ==> ((#[trigger] event_failures@[k])
                    is InvalidEventGroup || event_failures@[k] is RuleEvaluationError
                    || event_failures@[k] is TemplateError),
            forall|k: int|
                0 <= k < event_actions@.len() ==> ((#[trigger] event_actions@[k]) matches
                EventAction::ScheduleWakeup(e) ==> exists|j: int|
                    0 <= j < old(processor).rules@.len() && e.event_rule@ == (
                    #[trigger] old(processor).rules@[j]).name@),
        decreases rest@.len(),
    {
        let ghost i = chunks.len() as int;
        let ghost pre_actions = event_actions@;
        let ghost pre_failures = event_failures@;
        let ghost pre_chunks = chunks;
        let parsed_event = rest.remove(0);
        proof {
            assert(parsed_event == parsed0[i]);
            assert(parsed0[i].spec_type() == cl[i]);
        }
        match parsed_event {
            Event::Correlated(correlated_event) => {
                proof {
                    assert(correlation_path(
                        processor.event_correlation.event_rules@,
                        correlated_event.event_type@,
                    ) is Some);
                }
                let (mut more, mut more_failures) = match handle_correlated_parsed_event(
                    processor,
                    storage,
                    correlated_event,
                ) {
                    Ok(pair) => pair,
                    Err(e) => {
                        return Err(e);
                    },
                };
                let ghost more_g = more@;
                proof {
                    chunks = chunks.push(actions_view(more_g));
                }
                event_actions.append(&mut more);
                event_failures.append(&mut more_failures);
                proof {
                    lemma_chunks_agree(pre_chunks, chunks, i);
                    assert(actions_view(event_actions@) =~= actions_view(pre_actions)
                        + actions_view(more_g));
                    assert(actions_view(event_actions@) =~= chunks_concat(chunks, i + 1));
                    assert forall|k: int|
                        0 <= k < event_actions@.len() implies ((
                    #[trigger] event_actions@[k]) matches EventAction::ScheduleWakeup(e)
                        ==> exists|j: int|
                        0 <= j < old(processor).rules@.len() && e.event_rule@ == (
                        #[trigger] old(processor).rules@[j]).name@) by {
                        if k < pre_actions.len() {
                            assert(event_actions@[k] == pre_actions[k]);
                        } else {
                            assert(event_actions@[k] == more_g[k - pre_actions.len()]);
                        }
                    }
                }
            }
            Event::NonCorrelated(non_correlated_event) => {
                let ghost nc0 = non_correlated_event;
                proof {
                    assert(correlation_path(
                        processor.event_correlation.event_rules@,
                        non_correlated_event.event_type@,
                    ) is None);
                }
                let trigger = Trigger::ReceivedEvent(Event::NonCorrelated(non_correlated_event));
                let context = match EventContext::try_from(Vec::new()) {
                    Ok(c) => c,
                    Err(e) => {
                        return Err(e);
                    },
                };
                proof {
                    assert(context.sequence@.len() == context.sequence@.to_multiset().len());
                    assert(Seq::<Event>::empty().to_multiset().len() == Seq::<
                        Event,
                    >::empty().len());
                    assert(context.sequence@.len() == 0);
                    assert(context.sequence@ =~= Seq::<Event>::empty());
                }
                let (mut more, mut more_failures) = processor.relevant_actions(
                    &None,
                    &trigger,
                    &context,
                );
                let ghost more_g = more@;
                proof {
                    chunks = chunks.push(actions_view(more_g));
                    assert(key_view(None::<CorrelationId>) == None::<Seq<char>>);
                    assert({
                        let trig = Event::NonCorrelated(nc0);
                        &&& trig matches Event::NonCorrelated(nc) && nc.received == raw0.received
                            && nc.event_type@ == cl[i] && nc.data@ == raw0.data@
                        &&& 0 <= more_failures@.len() as int
                        &&& evaluation_outcome(
                            old(processor).rules@,
                            Trigger::ReceivedEvent(trig),
                            Seq::empty(),
                            None,
                            actions_view(more_g),
                            more_failures@.len() as int,
                        )
                    });
                    assert(non_correlated_chunk(
                        old(processor).rules@,
                        raw0.received,
                        raw0.data@,
                        cl[i],
                        actions_view(more_g),
                    ));
                }
                event_actions.append(&mut more);
                event_failures.append(&mut more_failures);
                proof {
                    lemma_chunks_agree(pre_chunks, chunks, i);
                    assert(actions_view(event_actions@) =~= actions_view(pre_actions)
                        + actions_view(more_g));
                    assert(actions_view(event_actions@) =~= chunks_concat(chunks, i + 1));
                    assert forall|k: int|
                        0 <= k < event_actions@.len() implies ((
                    #[trigger] event_actions@[k]) matches EventAction::ScheduleWakeup(e)
                        ==> exists|j: int|
                        0 <= j < old(processor).rules@.len() && e.event_rule@ == (
                        #[trigger] old(processor).rules@[j]).name@) by {
                        if k < pre_actions.len() {
                            assert(event_actions@[k] == pre_actions[k]);
                        } else {
                            assert(event_actions@[k] == more_g[k - pre_actions.len()]);
                        }
                    }
                }
            }
        }
    }
    proof {
        assert(chunks.len() == cl.len());
    }
    Ok((event_actions, event_failures))
}

/// Handle a fired timer: read the key's events, evaluate every rule
/// against the expiry with the stored events as context, and return the
/// collected actions and per-rule failures.  The returned actions are
/// the rules' contributions for the timer trigger over the decoded
/// context, and every scheduled wake-up carries the given key and a
/// configured rule's name.
pub fn handle_timing_expiry<E: PredicateEngine, S: EventStorage>(
    processor: &mut EventProcessor<E>,
    storage: &mut S,
    correlation_id: String,
    event_expiry: EventExpiry,
) -> (r: LaikaResult<(Vec<EventAction>, Vec<LaikaError>)>)
    requires
        old(processor).wf(),
    ensures
        final(processor).wf(),
        final(processor).rules@ == old(processor).rules@,
        r matches Ok(out) ==> forall|k: int|
            0 <= k < out.0@.len() ==> ((#[trigger] out.0@[k]) matches
            EventAction::ScheduleWakeup(e) ==> (e.correlation_id@ == correlation_id@ && exists|
                j: int,
            |
                0 <= j < old(processor).rules@.len() && e.event_rule@ == (
                #[trigger] old(processor).rules@[j]).name@)),
        r matches Ok(out) ==> exists|prior: Seq<Event>|
            {
                &&& crate::context::sorted_by_received(prior)
                &&& crate::context::group_valid(prior)
                &&& evaluation_outcome(
                    old(processor).rules@,
                    Trigger::TimerExpired(event_expiry),
                    prior,
                    Some(correlation_id@),
                    actions_view(out.0@),
                    out.1@.len() as int,
                )
            },
        r matches Ok(out) ==> forall|k: int|
            0 <= k < out.1@.len() ==> ((#[trigger] out.1@[k]) is InvalidEventGroup || out.1@[k]
                is RuleEvaluationError || out.1@[k] is TemplateError),
{
    let ghost key0 = correlation_id;
    let stored = match storage.read_bytes(&correlation_id) {
        Ok(s) => s,
        Err(e) => {
            return Err(e);
        },
    };
    let events = match read_events_bytes(stored.as_ref()) {
        Ok(es) => es,
        Err(e) => {
            return Err(e);
        },
    };
    let mut context_events: Vec<Event> = Vec::new();
    let mut rest = events;
    while rest.len() > 0
        decreases rest@.len(),
    {
        let e = rest.remove(0);
        context_events.push(Event::Correlated(e));
    }
    let context = match EventContext::try_from(context_events) {
        Ok(c) => c,
        Err(e) => {
            return Err(e);
        },
    };
    let ghost exp0 = event_expiry;
    let trigger = Trigger::TimerExpired(event_expiry);
    let (actions, failures) = processor.relevant_actions(&Some(correlation_id), &trigger, &context);
    proof {
        assert(trigger == Trigger::TimerExpired(exp0));
        assert(key_view(Some(key0)) == Some(key0@));
        assert({
            let prior = context.sequence@;
            &&& crate::context::sorted_by_received(prior)
            &&& crate::context::group_valid(prior)
            &&& evaluation_outcome(
                old(processor).rules@,
                Trigger::TimerExpired(exp0),
                prior,
                Some(key0@),
                actions_view(actions@),
                failures@.len() as int,
            )
        });
    }
    Ok((actions, failures))
}

} // verus!
