//! Unit tests for the parsers, codecs and the expiry queue.

use laika::broker::EventExpiry;
use laika::errors::LaikaError;
use laika::event::CorrelatedEvent;
use laika::event_serde::CorrelatedEventCapnpBatch;
use laika::flow_definition::parse_duration;
use laika::json::{Json, JsonEntry, extract_json_field};
use laika::template::values::{Token, TemplateValue, TemplatedValue, lex, parse};
use laika::timing::TimingExpiry;
use laika::utils::parse_time::parse_time_str;
use laika::config::TimingConfig;

fn obj(entries: Vec<(&str, Json)>) -> Json {
    Json::Obj(
        entries
            .into_iter()
            .map(|(k, v)| JsonEntry { key: k.to_string(), value: v })
            .collect(),
    )
}

fn num(text: &str) -> Json {
    Json::Num(text.to_string())
}

fn s(text: &str) -> Json {
    Json::Str(text.to_string())
}

#[test]
fn test_extract_json_field() {
    let json = obj(vec![
        ("name", s("test")),
        (
            "user",
            obj(vec![("id", num("123")), ("details", obj(vec![("email", s("test@example.com"))]))]),
        ),
    ]);

    assert_eq!(extract_json_field(&json, "$.user.id"), Ok(&num("123")));

    assert_eq!(
        extract_json_field(&json, "user.details.email"),
        Ok(&s("test@example.com"))
    );

    assert!(matches!(
        extract_json_field(&json, "$.nonexistent"),
        Err(LaikaError::FieldNotFound(..))
    ));

    assert!(matches!(
        extract_json_field(&json, "$.user.details.nonexistent"),
        Err(LaikaError::FieldNotFound(..))
    ));
}

#[test]
fn test_parse_time_str() {
    assert_eq!(parse_time_str("30m").unwrap(), 1800);
    assert_eq!(parse_time_str("1h").unwrap(), 3600);
    assert_eq!(parse_time_str("24h").unwrap(), 86400);
    assert!(parse_time_str("invalid").is_err());
}

#[test]
fn test_parse_duration() {
    assert_eq!(parse_duration("30s").unwrap(), 30);
    assert_eq!(parse_duration("5m").unwrap(), 300);
    assert_eq!(parse_duration("2h").unwrap(), 7200);
    assert!(parse_duration("invalid").is_err());
}

#[test]
fn test_parse_duration_spellings() {
    assert_eq!(parse_duration(" 2 Hours ").unwrap(), 7200);
    assert_eq!(parse_duration("3 days").unwrap(), 259200);
    assert_eq!(parse_duration("10 MIN").unwrap(), 600);
    assert!(parse_duration("7 weeks").is_err());
    assert!(parse_duration("h").is_err());
    assert!(parse_duration("99999999999999999999s").is_err());
}

#[test]
pub fn test_lex() {
    let input_targets = vec![
        (
            lex("raw_string"),
            vec![Token::Text("raw_string".to_string())],
        ),
        (
            lex("${{ raw_string }}"),
            vec![
                Token::TemplateStart,
                Token::TemplateIdentifier("raw_string".to_string()),
                Token::TemplateEnd,
            ],
        ),
        (
            lex("Prefix ${{ raw_string }}"),
            vec![
                Token::Text("Prefix ".to_string()),
                Token::TemplateStart,
                Token::TemplateIdentifier("raw_string".to_string()),
                Token::TemplateEnd,
            ],
        ),
        (
            lex("${{ raw_string.sub_key }}"),
            vec![
                Token::TemplateStart,
                Token::TemplateIdentifier("raw_string".to_string()),
                Token::TemplateDot,
                Token::TemplateIdentifier("sub_key".to_string()),
                Token::TemplateEnd,
            ],
        ),
        (
            lex("raw_string.sub_key"),
            vec![Token::Text("raw_string.sub_key".to_string())],
        ),
        (
            lex("Prefix ${{ raw_string }} SecondPrefix ${{ raw_string }}"),
            vec![
                Token::Text("Prefix ".to_string()),
                Token::TemplateStart,
                Token::TemplateIdentifier("raw_string".to_string()),
                Token::TemplateEnd,
                Token::Text(" SecondPrefix ".to_string()),
                Token::TemplateStart,
                Token::TemplateIdentifier("raw_string".to_string()),
                Token::TemplateEnd,
            ],
        ),
    ];
    for (output, expected_output) in input_targets {
        assert_eq!(output, expected_output)
    }
}

#[test]
pub fn test_parse() -> Result<(), laika::template::values::TemplateError> {
    let input_targets = vec![
        (
            parse(lex("raw_string")),
            vec![TemplateValue::Raw("raw_string".to_string())],
        ),
        (
            parse(lex("${{ raw_string }}")),
            vec![TemplateValue::Template(TemplatedValue {
                prefix: None,
                template_fields: vec!["raw_string".to_string()],
                postfix: None,
            })],
        ),
        (
            parse(lex("${{ raw_string.sub_key }}")),
            vec![TemplateValue::Template(TemplatedValue {
                prefix: None,
                template_fields: vec!["raw_string".to_string(), "sub_key".to_string()],
                postfix: None,
            })],
        ),
        (
            parse(lex("MyPrefix${{ raw_string.sub_key }}MyPostfix")),
            vec![TemplateValue::Template(TemplatedValue {
                prefix: Some("MyPrefix".to_string()),
                template_fields: vec!["raw_string".to_string(), "sub_key".to_string()],
                postfix: Some("MyPostfix".to_string()),
            })],
        ),
        (
            parse(lex("MyPrefix${{ raw_string.sub_key }}${{ second_string }}")),
            vec![
                TemplateValue::Template(TemplatedValue {
                    prefix: Some("MyPrefix".to_string()),
                    template_fields: vec!["raw_string".to_string(), "sub_key".to_string()],
                    postfix: None,
                }),
                TemplateValue::Template(TemplatedValue {
                    prefix: None,
                    template_fields: vec!["second_string".to_string()],
                    postfix: None,
                }),
            ],
        ),
        (
            parse(lex("raw_string.sub_key")),
            vec![TemplateValue::Raw("raw_string.sub_key".to_string())],
        ),
    ];
    for (output, expected_output) in input_targets {
        assert_eq!(output?, expected_output)
    }
    Ok(())
}

#[test]
fn test_unclosed_template_rejected() {
    assert!(matches!(
        TemplateValue::try_parse("broken ${{ reference"),
        Err(laika::template::values::TemplateError::UnclosedTemplate(_))
    ));
}

fn now() -> i64 {
    laika::clock::now_unix_seconds()
}

fn create_test_event(minutes_from_now: i64) -> EventExpiry {
    EventExpiry::new(
        now() + 60 * minutes_from_now,
        "test-id".to_string(),
        "ExampleEventRule".to_string(),
    )
}

#[test]
fn test_new_expiry_is_empty() {
    let expiry = TimingExpiry::new();
    assert!(expiry.peek().is_none());
}

#[test]
fn test_add_expiry() {
    let mut expiry = TimingExpiry::new();
    let event = create_test_event(5);
    expiry.add_expiry(event.clone()).unwrap();

    assert_eq!(expiry.peek(), Some(event));
}

#[test]
fn test_multiple_expiries_ordered() {
    let mut expiry = TimingExpiry::new();

    let later = create_test_event(10);
    let sooner = create_test_event(5);

    expiry.add_expiry(later.clone()).unwrap();
    expiry.add_expiry(sooner.clone()).unwrap();

    assert_eq!(expiry.peek(), Some(sooner));
}

#[test]
fn test_ack_future_expiry_fails() {
    let mut expiry = TimingExpiry::new();
    let future_event = create_test_event(5);

    expiry.add_expiry(future_event).unwrap();

    assert!(expiry.ack().is_err());
}

#[test]
fn test_ack_past_expiry_succeeds() {
    let mut expiry = TimingExpiry::new();
    let past_event = create_test_event(-5);

    expiry.add_expiry(past_event.clone()).unwrap();
    expiry.ack().unwrap();

    assert!(expiry.peek().is_none());
}

#[test]
fn test_expiries_persist_across_instances() {
    let event = create_test_event(5);

    // First instance
    let stored = {
        let mut expiry = TimingExpiry::new();
        expiry.add_expiry(event.clone()).unwrap();
        expiry.to_bytes().unwrap()
    };

    // Second instance
    let expiry = TimingExpiry::from_bytes(&stored).unwrap();
    assert_eq!(expiry.peek(), Some(event));
}

#[test]
fn test_remove_expiry() {
    let mut expiry = TimingExpiry::new();

    let event1 = create_test_event(5);
    let event2 = create_test_event(10);

    expiry.add_expiry(event1.clone()).unwrap();
    expiry.add_expiry(event2.clone()).unwrap();

    // Remove first expiry
    expiry.remove_expiry(event1).unwrap();

    assert_eq!(expiry.peek(), Some(event2));
}

#[test]
fn test_nack_removes_all_for_key() {
    let mut expiry = TimingExpiry::new();
    expiry.add_expiry(create_test_event(5)).unwrap();
    expiry.add_expiry(create_test_event(10)).unwrap();
    let other = EventExpiry::new(now() + 60, "other-id".to_string(), "RuleB".to_string());
    expiry.add_expiry(other.clone()).unwrap();

    expiry.nack("test-id".to_string()).unwrap();
    assert_eq!(expiry.peek(), Some(other));
    assert!(expiry.nack("test-id".to_string()).is_err());
}

#[test]
fn test_event_batch_round_trip() {
    let mut batch = CorrelatedEventCapnpBatch::new();
    batch
        .push_event(CorrelatedEvent {
            received: 1_700_000_000,
            correlation_id: "tx-1".to_string(),
            event_type: "eventA".to_string(),
            data: obj(vec![("type", s("PaymentInitiated")), ("tx", num("1"))]),
        })
        .unwrap();
    batch
        .push_event(CorrelatedEvent {
            received: 1_700_000_007,
            correlation_id: "tx-1".to_string(),
            event_type: "eventB".to_string(),
            data: obj(vec![("type", s("PaymentAuthorised")), ("value", num("100.5"))]),
        })
        .unwrap();
    let bytes = batch.to_bytes().unwrap();
    let decoded = CorrelatedEventCapnpBatch::from_bytes(&bytes).unwrap();
    let events = decoded.into_events().unwrap();
    assert_eq!(events.len(), 2);
    assert_eq!(events[0].received, 1_700_000_000);
    assert_eq!(events[0].correlation_id, "tx-1");
    assert_eq!(events[0].event_type, "eventA");
    assert_eq!(
        events[0].data,
        obj(vec![("type", s("PaymentInitiated")), ("tx", num("1"))])
    );
    assert_eq!(events[1].received, 1_700_000_007);
    assert_eq!(events[1].event_type, "eventB");
    assert_eq!(
        events[1].data,
        obj(vec![("type", s("PaymentAuthorised")), ("value", num("100.5"))])
    );
}

#[test]
fn test_store_appends_in_order() {
    let mut stored: Option<Vec<u8>> = None;
    for i in 0..4u32 {
        let event = CorrelatedEvent {
            received: 1_700_000_000 + i as i64,
            correlation_id: "k".to_string(),
            event_type: format!("type{}", i),
            data: num(&format!("{}", i)),
        };
        let bytes = laika::storage::write_event_bytes(stored.as_ref(), event).unwrap();
        stored = Some(bytes);
    }
    let events = laika::storage::read_events_bytes(stored.as_ref()).unwrap();
    assert_eq!(events.len(), 4);
    for i in 0..4usize {
        assert_eq!(events[i].event_type, format!("type{}", i));
        assert_eq!(events[i].received, 1_700_000_000 + i as i64);
    }
}

#[test]
fn test_plain_template_renders_verbatim() {
    let pieces = TemplateValue::try_parse("no markers here, just text").unwrap();
    let rendered =
        laika::template::values::render_values(&pieces, &obj(vec![("k", num("1"))])).unwrap();
    assert_eq!(rendered, "no markers here, just text");
}

#[test]
fn test_next_check_spec_points() {
    let t = TimingConfig { from: 0, check_every: Some(10), until: Some(60) };
    let met = 1000i64;
    // Still before the window closes: the next multiple of ten.
    assert_eq!(t.next_check_at(met, 1000), Some(1000));
    assert_eq!(t.next_check_at(met, 1001), Some(1010));
    assert_eq!(t.next_check_at(met, 1010), Some(1010));
    assert_eq!(t.next_check_at(met, 1055), None);
    // The window has closed.
    assert_eq!(t.next_check_at(met, 1060), None);
    assert_eq!(t.next_check_at(met, 2000), None);
    // A start still in the future is returned as such.
    let later = TimingConfig { from: 30, check_every: Some(10), until: None };
    assert_eq!(later.next_check_at(met, 1000), Some(1030));
}
