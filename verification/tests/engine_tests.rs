//! End-to-end tests: classification, correlation, rule evaluation and
//! emission through the processor.

use laika::config::{ActionConfig, EventCorrelation, TimingConfig};
use laika::context::EventContext;
use laika::errors::{LaikaError, LaikaResult};
use laika::event::{Event, RawEvent, Trigger};
use laika::json::{Json, JsonEntry};
use laika::action::EventAction;
use laika::matcher::{
    EventMatchPattern, EventTypeDefinition, EventTypeDefinitions, MatchOn, MatchRule,
};
use laika::predicate::{DefaultPredicateEngine, JsonPredicate, PredicateEngine};
use laika::processor::{EventProcessor, handle_raw_event, handle_timing_expiry};
use laika::rules::{EventRuleDefinition, Requirement, RuleResult};
use laika::storage::EventStorage;
use laika::template::Template;
use laika::flow_definition::{
    Action, Case, Condition, ConditionExpr, Correlation, EventDefinition, EventRuleBuilder, Flow,
    RuleError, StartFrom,
};

fn obj(entries: Vec<(&str, Json)>) -> Json {
    Json::Obj(
        entries
            .into_iter()
            .map(|(k, v)| JsonEntry { key: k.to_string(), value: v })
            .collect(),
    )
}

fn num(text: &str) -> Json {
    Json::Num(text.to_string())
}

fn s(text: &str) -> Json {
    Json::Str(text.to_string())
}

/// A byte store over a plain vector, standing in for the driver's
/// key-value store.
struct MemStore {
    entries: Vec<(String, Vec<u8>)>,
}

impl MemStore {
    fn new() -> Self {
        MemStore { entries: Vec::new() }
    }
}

impl EventStorage for MemStore {
    fn read_bytes(&mut self, key: &String) -> LaikaResult<Option<Vec<u8>>> {
        for (k, v) in &self.entries {
            if k == key {
                return Ok(Some(v.clone()));
            }
        }
        Ok(None)
    }

    fn write_bytes(&mut self, key: &String, bytes: Vec<u8>) -> LaikaResult<()> {
        for pair in &mut self.entries {
            if &pair.0 == key {
                pair.1 = bytes;
                return Ok(());
            }
        }
        self.entries.push((key.clone(), bytes));
        Ok(())
    }
}

fn type_def(source: &str, type_value: &str, event_type: &str) -> EventTypeDefinition {
    EventTypeDefinition::new(
        source.to_string(),
        EventMatchPattern::MatchRules(vec![MatchRule {
            path: "$.type".to_string(),
            matcher: MatchOn::Exactly(type_value.to_string()),
        }]),
        event_type.to_string(),
    )
}

fn template_from(entries: Vec<(&str, &str)>) -> Template {
    Template::from_payload(&obj(
        entries.into_iter().map(|(k, v)| (k, s(v))).collect::<Vec<_>>(),
    ))
    .unwrap()
}

fn static_template() -> Template {
    template_from(vec![("Output", "Example")])
}

fn rule_def(
    name: &str,
    requirement: Option<Requirement>,
    timing: Option<TimingConfig>,
    target: &str,
    template: Template,
) -> EventRuleDefinition {
    EventRuleDefinition {
        name: name.to_string(),
        filter_and_extract: None,
        timing,
        requirement,
        action: ActionConfig { target: target.to_string(), emit_template: template },
    }
}

fn event_a() -> RawEvent {
    RawEvent::new(obj(vec![
        ("type", s("PaymentInitiated")),
        ("transaction_id", num("1")),
        ("customer_id", num("123")),
        ("value", num("100.5")),
        ("currency", s("USD")),
    ]))
}

fn event_b() -> RawEvent {
    RawEvent::new(obj(vec![
        ("type", s("PaymentAuthorised")),
        ("txn_id", num("1")),
        ("customer_id", num("123")),
    ]))
}

fn event_c() -> RawEvent {
    RawEvent::new(obj(vec![
        ("type", s("PaymentSettled")),
        ("transaction_id", num("1")),
        ("customer_id", num("123")),
    ]))
}

#[test]
fn rules_test_partial_requirements_not_satisfied() -> LaikaResult<()> {
    let mut engine = DefaultPredicateEngine::new();
    let rule = rule_def(
        "partialRule",
        Some(Requirement::Exactly(vec![
            "eventA".to_string(),
            "eventB".to_string(),
            "eventC".to_string(),
        ])),
        None,
        "",
        static_template(),
    )
    .register_to_engine(&mut engine);
    let events: Vec<Event> = vec![event_a().parse("eventA".to_string(), Some("a".to_string()))];
    let context: EventContext = EventContext::try_from(events)?;
    let trigger: Trigger =
        Trigger::ReceivedEvent(event_b().parse("eventB".to_string(), Some("a".to_string())));

    let result = rule.evaluate(&mut engine, &trigger, &context)?;
    assert!(matches!(result, RuleResult::RequirementNotMet));
    Ok(())
}

#[test]
fn rules_test_raise_invalid_event_group() -> LaikaResult<()> {
    let mut engine = DefaultPredicateEngine::new();
    let rule = rule_def(
        "partialRule",
        Some(Requirement::Exactly(vec![
            "eventA".to_string(),
            "eventB".to_string(),
        ])),
        None,
        "",
        static_template(),
    )
    .register_to_engine(&mut engine);

    // EventA NonCorrelated is the only item
    let events: Vec<Event> = vec![];
    let context: EventContext = EventContext::try_from(events)?;
    let trigger: Trigger = Trigger::ReceivedEvent(event_a().parse("eventA".to_string(), None));
    assert!(matches!(
        rule.evaluate(&mut engine, &trigger, &context),
        Err(LaikaError::InvalidEventGroup)
    ));

    let events: Vec<Event> = vec![event_a().parse("eventA".to_string(), None)];
    let context: EventContext = EventContext::try_from(events)?;
    let trigger: Trigger = Trigger::ReceivedEvent(event_b().parse("eventB".to_string(), None));
    assert!(matches!(
        rule.evaluate(&mut engine, &trigger, &context),
        Err(LaikaError::InvalidEventGroup)
    ));
    Ok(())
}

#[test]
// Test rule is satisfied when it has no requirements
fn rules_test_empty_requirements() -> LaikaResult<()> {
    let mut engine = DefaultPredicateEngine::new();
    let rule = rule_def("partialRule", None, None, "", static_template())
        .register_to_engine(&mut engine);

    let events: Vec<Event> = vec![
        event_a().parse("eventA".to_string(), Some("a".to_string())),
        event_b().parse("eventB".to_string(), Some("b".to_string())),
    ];
    let context: EventContext = EventContext::try_from(events)?;
    let trigger: Trigger =
        Trigger::ReceivedEvent(event_c().parse("eventC".to_string(), Some("c".to_string())));

    let result = rule.evaluate(&mut engine, &trigger, &context)?;
    assert!(
        matches!(result, RuleResult::ConditionSatisfied { .. }),
        "Rule with empty requirements should always be satisfied"
    );
    Ok(())
}

fn emissions(actions: &[EventAction]) -> Vec<(String, Json)> {
    actions
        .iter()
        .filter_map(|a| match a {
            EventAction::Emit(e) => Some((e.target.clone(), e.payload.clone())),
            _ => None,
        })
        .collect()
}

#[test]
fn scenario_single_non_correlated_match() {
    // One type A matching $.type == "X" on source s; a rule requiring
    // exactly [A]; template {out: "${{ trigger.event.id }}"}.
    let matcher = EventTypeDefinitions::new(vec![type_def("s", "X", "A")]);
    let correlation = EventCorrelation::new(vec![]);
    let rules = vec![rule_def(
        "r",
        Some(Requirement::Exactly(vec!["A".to_string()])),
        None,
        "out",
        template_from(vec![("out", "${{ trigger.event.id }}")]),
    )];
    let mut processor =
        EventProcessor::new(matcher, correlation, rules, DefaultPredicateEngine::new());
    let mut store = MemStore::new();

    let raw = RawEvent::new(obj(vec![("type", s("X")), ("id", s("7"))]));
    let (actions, failures) = handle_raw_event(&mut processor, &mut store, "s", raw).unwrap();
    assert!(failures.is_empty());
    let emitted = emissions(&actions);
    assert_eq!(emitted.len(), 1);
    assert_eq!(emitted[0].0, "out");
    assert_eq!(emitted[0].1, obj(vec![("out", s("7"))]));
}

fn payments_processor(
    requirement: Requirement,
    timing: Option<TimingConfig>,
) -> EventProcessor<DefaultPredicateEngine> {
    let matcher = EventTypeDefinitions::new(vec![
        type_def("s", "A", "A"),
        type_def("s", "B", "B"),
        type_def("s", "C", "C"),
    ]);
    let correlation = EventCorrelation::new(vec![
        ("A".to_string(), "$.tx".to_string()),
        ("B".to_string(), "$.tx".to_string()),
        ("C".to_string(), "$.tx".to_string()),
    ]);
    let rules = vec![rule_def(
        "r",
        Some(requirement),
        timing,
        "out",
        static_template(),
    )];
    EventProcessor::new(matcher, correlation, rules, DefaultPredicateEngine::new())
}

fn typed(tx: &str, ty: &str) -> RawEvent {
    RawEvent::new(obj(vec![("type", s(ty)), ("tx", num(tx))]))
}

#[test]
fn scenario_exact_multi_event_correlation() {
    // Exactly[A,B,C]; inputs A, B, B under one key: cardinality is
    // wrong at every step, so nothing is emitted.
    let mut processor = payments_processor(
        Requirement::Exactly(vec!["A".to_string(), "B".to_string(), "C".to_string()]),
        None,
    );
    let mut store = MemStore::new();
    let mut all = Vec::new();
    for ty in ["A", "B", "B"] {
        let (actions, failures) =
            handle_raw_event(&mut processor, &mut store, "s", typed("1", ty)).unwrap();
        assert!(failures.is_empty());
        all.extend(actions);
    }
    assert_eq!(emissions(&all).len(), 0);
}

#[test]
fn scenario_at_least_fires_on_completion_and_after() {
    // AtLeast[A,B], no predicate: the first B completes the set, and the
    // second B re-satisfies it; each satisfied evaluation fires.
    let mut processor =
        payments_processor(Requirement::AtLeast(vec!["A".to_string(), "B".to_string()]), None);
    let mut store = MemStore::new();
    let mut counts = Vec::new();
    for ty in ["A", "B", "B"] {
        let (actions, failures) =
            handle_raw_event(&mut processor, &mut store, "s", typed("1", ty)).unwrap();
        assert!(failures.is_empty());
        counts.push(emissions(&actions).len());
    }
    assert_eq!(counts, vec![0, 1, 1]);
}

/// An engine whose predicate answers nothing until a chosen moment.
struct GatedEngine {
    open: bool,
}

impl PredicateEngine for GatedEngine {
    fn store_predicate(&mut self, _js_code: &str) -> JsonPredicate {
        JsonPredicate { id: "gated".to_string() }
    }

    fn evaluate(
        &mut self,
        _predicate: &JsonPredicate,
        _trigger: &Trigger,
        _context: &EventContext,
    ) -> LaikaResult<Option<Json>> {
        if self.open {
            Ok(Some(obj(vec![("ready", s("yes"))])))
        } else {
            Ok(None)
        }
    }
}

#[test]
fn scenario_recheck_scheduling() {
    // Exactly[A,B] with {check_every: 10s, until: 60s} and a predicate
    // that stays unsatisfied: completing the pair schedules a wake-up;
    // once the predicate opens, the timer evaluation emits.
    let matcher = EventTypeDefinitions::new(vec![
        type_def("s", "A", "A"),
        type_def("s", "B", "B"),
    ]);
    let correlation = EventCorrelation::new(vec![
        ("A".to_string(), "$.tx".to_string()),
        ("B".to_string(), "$.tx".to_string()),
    ]);
    let timing = TimingConfig { from: 0, check_every: Some(10), until: Some(60) };
    let mut rules = vec![rule_def(
        "pairRule",
        Some(Requirement::Exactly(vec!["A".to_string(), "B".to_string()])),
        Some(timing),
        "out",
        static_template(),
    )];
    rules[0].filter_and_extract = Some("gated".to_string());
    let mut processor =
        EventProcessor::new(matcher, correlation, rules, GatedEngine { open: false });
    let mut store = MemStore::new();

    let (first, _) = handle_raw_event(&mut processor, &mut store, "s", typed("1", "A")).unwrap();
    assert_eq!(emissions(&first).len(), 0);
    let (second, _) = handle_raw_event(&mut processor, &mut store, "s", typed("1", "B")).unwrap();
    assert_eq!(emissions(&second).len(), 0);
    let wakeups: Vec<_> = second
        .iter()
        .filter_map(|a| match a {
            EventAction::ScheduleWakeup(e) => Some(e.clone()),
            _ => None,
        })
        .collect();
    assert_eq!(wakeups.len(), 1);
    let met_at = laika::clock::now_unix_seconds();
    assert_eq!(wakeups[0].event_rule, "pairRule");
    assert!(wakeups[0].expires_at <= met_at + 70);
    assert!(wakeups[0].expires_at >= met_at - 70);

    // The predicate opens; the timer evaluation fires the rule.
    processor.engine.open = true;
    let key = wakeups[0].correlation_id.clone();
    let (actions, failures) =
        handle_timing_expiry(&mut processor, &mut store, key, wakeups[0].clone()).unwrap();
    assert!(failures.is_empty());
    assert_eq!(emissions(&actions).len(), 1);
}

#[test]
fn scenario_non_correlated_with_correlated_context_rejected() {
    // Exactly[A,B] where only A has a correlation key: B arrives
    // non-correlated against a two-type requirement and is rejected.
    let matcher = EventTypeDefinitions::new(vec![
        type_def("s", "A", "A"),
        type_def("s", "B", "B"),
    ]);
    let correlation = EventCorrelation::new(vec![("A".to_string(), "$.tx".to_string())]);
    let rules = vec![rule_def(
        "r",
        Some(Requirement::Exactly(vec!["A".to_string(), "B".to_string()])),
        None,
        "out",
        static_template(),
    )];
    let mut processor =
        EventProcessor::new(matcher, correlation, rules, DefaultPredicateEngine::new());
    let mut store = MemStore::new();

    handle_raw_event(&mut processor, &mut store, "s", typed("1", "A")).unwrap();
    // The rejection is reported beside the actions; the other rules (none
    // here) would still run, and nothing is emitted.
    let (actions, failures) =
        handle_raw_event(&mut processor, &mut store, "s", typed("1", "B")).unwrap();
    assert_eq!(emissions(&actions).len(), 0);
    assert!(failures
        .iter()
        .any(|f| matches!(f, LaikaError::InvalidEventGroup)));
}

#[test]
fn scenario_template_with_nested_path_and_literal() {
    // Template {metric: "conv", user: "u-${{ userId }}"} against
    // {userId: 42} renders {"metric":"conv","user":"u-42"}.
    let template = template_from(vec![("metric", "conv"), ("user", "u-${{ userId }}")]);
    let extraction = obj(vec![("userId", num("42"))]);
    let rendered = template.render(&extraction).unwrap();
    assert_eq!(
        rendered.to_json(),
        obj(vec![("metric", s("conv")), ("user", s("u-42"))])
    );
}

#[test]
fn test_classifier_regex_and_exact() {
    // A regex pattern is matched inside the value; an exact pattern is
    // compared whole.
    let matcher = EventTypeDefinitions::new(vec![
        EventTypeDefinition::new(
            "s".to_string(),
            EventMatchPattern::MatchRules(vec![MatchRule {
                path: "$.name".to_string(),
                matcher: MatchOn::Regex("^a+$".to_string()),
            }]),
            "allAs".to_string(),
        ),
        type_def("s", "aaa", "exactType"),
        EventTypeDefinition::new("other".to_string(), EventMatchPattern::All, "everything".to_string()),
    ]);
    let hit = matcher.match_message("s", &obj(vec![("name", s("aaa")), ("type", s("aaa"))])).unwrap();
    assert_eq!(hit, vec!["allAs".to_string(), "exactType".to_string()]);
    let miss = matcher.match_message("s", &obj(vec![("name", s("ab")), ("type", s("zzz"))])).unwrap();
    assert!(miss.is_empty());
    let elsewhere = matcher.match_message("other", &obj(vec![("whatever", num("1"))])).unwrap();
    assert_eq!(elsewhere, vec!["everything".to_string()]);
}

#[test]
fn test_correlation_key_errors() {
    let correlation = EventCorrelation::new(vec![("A".to_string(), "$.tx.id".to_string())]);
    let with_key = RawEvent::at(0, obj(vec![("tx", obj(vec![("id", num("9"))]))]));
    assert_eq!(
        correlation.correlation_id(&"A".to_string(), &with_key).unwrap(),
        Some("9".to_string())
    );
    let missing = RawEvent::at(0, obj(vec![("other", num("1"))]));
    assert!(matches!(
        correlation.correlation_id(&"A".to_string(), &missing),
        Err(LaikaError::EventMatchError)
    ));
    assert_eq!(
        correlation.correlation_id(&"unknown".to_string(), &missing).unwrap(),
        None
    );
}

#[test]
fn test_render_error_names_missing_field() {
    let template = template_from(vec![("out", "${{ absent.field }}")]);
    let extraction = obj(vec![("present", num("1"))]);
    assert!(matches!(
        template.render(&extraction),
        Err(laika::template::values::TemplateError::RenderError(_))
    ));
}

#[test]
fn test_flow_definition_validate() {
    let action = Action {
        action_type: "httpPost".to_string(),
        url: None,
        severity: None,
        message: None,
    };
    let builder = EventRuleBuilder {
        correlation: Correlation {
            key: vec![("eventA".to_string(), "$.transaction_id".to_string())],
        },
        events: vec![
            (
                "eventA".to_string(),
                EventDefinition { event_type: "PaymentInitiated".to_string(), filter: None },
            ),
            (
                "eventC".to_string(),
                EventDefinition { event_type: "PaymentSettled".to_string(), filter: None },
            ),
        ],
        flow: Flow {
            conditions: vec![(
                "settledInTime".to_string(),
                Condition::Timing {
                    event: "eventC".to_string(),
                    within: "30m".to_string(),
                    start_from: StartFrom::FirstEvent,
                },
            )],
            cases: vec![(
                "successCase".to_string(),
                Case {
                    required: vec!["eventA".to_string(), "eventC".to_string()],
                    condition: Some(ConditionExpr::Reference("settledInTime".to_string())),
                    action: action.clone(),
                },
            )],
        },
    };
    assert!(builder.validate().is_ok());

    let broken = EventRuleBuilder {
        correlation: Correlation { key: vec![] },
        events: vec![],
        flow: Flow {
            conditions: vec![],
            cases: vec![(
                "badCase".to_string(),
                Case {
                    required: vec!["missingEvent".to_string()],
                    condition: None,
                    action,
                },
            )],
        },
    };
    assert!(matches!(broken.validate(), Err(RuleError::MissingEvent(_))));
}
