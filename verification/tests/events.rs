use serde::de::{Deserialize, Deserializer, Error};
use sse::{Event, ParserState, SseConfig};
use std::collections::BTreeMap;

#[derive(Debug, PartialEq)]
struct TestEvent {
    message: String,
}

impl<'de> Deserialize<'de> for TestEvent {
    fn deserialize<D: Deserializer<'de>>(deserializer: D) -> Result<TestEvent, D::Error> {
        let mut fields: BTreeMap<String, String> = BTreeMap::deserialize(deserializer)?;
        match fields.remove("message") {
            Some(message) => Ok(TestEvent { message }),
            None => Err(D::Error::missing_field("message")),
        }
    }
}

#[test]
fn test_event_display() {
    let event = Event::new("test", "hello\nworld", 1024 * 1024)
        .with_id("123")
        .with_retry(5000);

    let output = event.to_string();
    assert!(output.contains("event: test"));
    assert!(output.contains("id: 123"));
    assert!(output.contains("retry: 5000"));
    assert!(output.contains("data: hello"));
    assert!(output.contains("data: world"));
}

#[test]
fn test_event_deserialization() {
    let event = Event::new("message", r#"{"message": "hello"}"#, 1024 * 1024);
    let result: Result<TestEvent, _> = event.deserialize_data();
    assert!(result.is_ok());
    assert_eq!(result.unwrap().message, "hello");
}

#[test]
fn data_that_does_not_fit_the_type_is_an_error() {
    for data in ["", "{", "[]", "{}", r#"{"message": 1}"#, r#"{"message": "a"} x"#] {
        let event = Event::new("message", data, 10);
        assert!(event.deserialize_data::<TestEvent>().is_err());
    }
}

#[test]
fn text_form_is_exact() {
    assert_eq!(Event::new("message", "", 1).to_string(), "\n");
    assert_eq!(Event::new("message", "x", 1).to_string(), "data: x\n\n");
    assert_eq!(
        Event::new("t", "a\nb\n\nc\n", 1).with_id("i").with_retry(0).to_string(),
        "event: t\nid: i\nretry: 0\ndata: a\ndata: b\ndata: \ndata: c\n\n"
    );
    assert_eq!(
        Event::new("", "a\r\nb\rc\r", 1).with_retry(u64::MAX).to_string(),
        "event: \nretry: 18446744073709551615\ndata: a\ndata: b\rc\r\n\n"
    );
    assert_eq!(Event::new("message", "\n", 1).to_string(), "data: \n\n");
    assert_eq!(Event::new("message", "\r\n\n", 1).to_string(), "data: \ndata: \n\n");
    assert_eq!(Event::new("é", "日\n本", 1).to_string(), "event: é\ndata: 日\ndata: 本\n\n");
}

#[test]
fn lines_are_those_of_std() {
    for data in ["", "\n", "a", "a\n", "a\nb", "a\r\nb\r\n", "\r", "\r\n", "a\rb", "\n\na\n\n", "a\r\r\n"] {
        let mut expected = String::new();
        for line in data.lines() {
            expected.push_str(&format!("data: {line}\n"));
        }
        expected.push('\n');
        assert_eq!(Event::new("message", data, 1).to_string(), expected);
    }
}

#[test]
fn numbers_are_those_of_std() {
    for number in [0, 1, 9, 10, 11, 99, 100, 101, 1234567890, u64::MAX - 1, u64::MAX] {
        let text = Event::new("message", "", 1).with_retry(number).to_string();
        assert_eq!(text, format!("retry: {number}\n\n"));
    }
}

#[test]
fn written_events_are_read_back() {
    let max = 1000;
    let events = vec![
        Event::new("message", "x", max),
        Event::new("ping", "\n\n1", max),
        Event::new("a:b", "1: 2\n\n:3", max).with_id("é:").with_retry(17),
        Event::new("data", "data: x", max).with_id(""),
        Event::new("message", "𝄞", max).with_retry(u64::MAX),
    ];
    let text: String = events.iter().map(|event| event.to_string()).collect();
    for trim_values in [true, false] {
        let config = SseConfig { max_buffer_size: max, trim_values, ..Default::default() };
        let mut parser = ParserState::new(config);
        assert_eq!(parser.process_bytes(text.as_bytes()).unwrap(), events);
        assert_eq!(parser.last_event_id(), Some(""));
        assert_eq!(parser.reconnection_time(), std::time::Duration::from_millis(u64::MAX));
    }
    let spaced = Event::new(" a ", " b \n\tc", max).with_id("  ");
    let config = SseConfig { max_buffer_size: max, trim_values: false, ..Default::default() };
    let mut parser = ParserState::new(config);
    assert_eq!(parser.process_bytes(spaced.to_string().as_bytes()).unwrap(), vec![spaced]);
}

#[test]
fn builders_set_one_field_each() {
    let event = Event::new(String::from("t"), "d", 3);
    assert_eq!(event.event_type, "t");
    assert_eq!(event.data, "d");
    assert_eq!(event.id, None);
    assert_eq!(event.retry, None);
    assert_eq!(event.max_buffer_size, 3);
    let event = event.with_id(String::from("i"));
    assert_eq!(event.id, Some("i".to_string()));
    assert_eq!(event.retry, None);
    let event = event.with_retry(4);
    assert_eq!(event.retry, Some(4));
    assert_eq!(event.id, Some("i".to_string()));
}

#[test]
fn events_are_equal_by_their_fields() {
    let event = Event::new("t", "d", 3).with_id("i").with_retry(4);
    assert_eq!(event.clone(), event);
    assert_ne!(event, Event::new("u", "d", 3).with_id("i").with_retry(4));
    assert_ne!(event, Event::new("t", "e", 3).with_id("i").with_retry(4));
    assert_ne!(event, Event::new("t", "d", 4).with_id("i").with_retry(4));
    assert_ne!(event, Event::new("t", "d", 3).with_id("j").with_retry(4));
    assert_ne!(event, Event::new("t", "d", 3).with_retry(4));
    assert_ne!(event, Event::new("t", "d", 3).with_id("i").with_retry(5));
}

#[test]
fn message_is_told_by_its_type() {
    assert!(Event::new("message", "", 1).is_message());
    assert!(!Event::new("Message", "", 1).is_message());
    assert!(!Event::new("message ", "", 1).is_message());
    assert!(!Event::new("", "", 1).is_message());
}
