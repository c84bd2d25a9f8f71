use sse::{find_line_end, parse_field, Event, ParserState, SseConfig, SseError, Utf8Error};
use std::time::Duration;

fn parser() -> ParserState {
    ParserState::new(SseConfig::default())
}

fn untrimmed() -> ParserState {
    ParserState::new(SseConfig { trim_values: false, ..Default::default() })
}

fn pair(name: &str, value: &str) -> Option<(String, String)> {
    Some((name.to_string(), value.to_string()))
}

#[test]
fn test_field_parsing() {
    assert_eq!(
        parse_field("data: hello", true),
        Some(("data".to_string(), "hello".to_string()))
    );
    assert_eq!(
        parse_field("data:hello", true),
        Some(("data".to_string(), "hello".to_string()))
    );
    assert_eq!(
        parse_field("data: hello world ", true),
        Some(("data".to_string(), "hello world".to_string()))
    );
    assert_eq!(
        parse_field("data", true),
        Some(("data".to_string(), "".to_string()))
    );
}

#[test]
fn field_without_trimming_loses_one_space() {
    assert_eq!(parse_field("data:  hello ", false), pair("data", " hello "));
    assert_eq!(parse_field("data: ", false), pair("data", ""));
    assert_eq!(parse_field("data:", false), pair("data", ""));
    assert_eq!(parse_field("data:\thello", false), pair("data", "\thello"));
}

#[test]
fn field_ends_at_first_colon() {
    assert_eq!(parse_field("data: a:b: c", true), pair("data", "a:b: c"));
    assert_eq!(parse_field("é日: 語:x", false), pair("é日", "語:x"));
    assert_eq!(parse_field("x:𝄞 y", false), pair("x", "𝄞 y"));
    assert_eq!(parse_field(": c", true), pair("", "c"));
    assert_eq!(parse_field("", true), pair("", ""));
}

#[test]
fn trimming_takes_off_all_white_space() {
    for number in 0..=0x10ffffu32 {
        let c = match char::from_u32(number) {
            Some(c) => c,
            None => continue,
        };
        let white = matches!(number,
            0x9..=0xd | 0x20 | 0x85 | 0xa0 | 0x1680 | 0x2000..=0x200a | 0x2028 | 0x2029 | 0x202f
            | 0x205f | 0x3000);
        let line = format!("data:{c}{c}x{c}");
        let expected = if white { "x".to_string() } else { format!("{c}{c}x{c}") };
        assert_eq!(parse_field(&line, true), Some(("data".to_string(), expected)));
    }
    assert_eq!(parse_field("data: \t \u{3000} ", true), pair("data", ""));
}

#[test]
fn test_line_ending_detection() {
    assert_eq!(find_line_end(b"hello\nworld"), Some(5));
    assert_eq!(find_line_end(b"hello\r\nworld"), Some(5));
    assert_eq!(find_line_end(b"hello world"), None);
}

#[test]
fn line_end_edges() {
    assert_eq!(find_line_end(b""), None);
    assert_eq!(find_line_end(b"\n"), Some(0));
    assert_eq!(find_line_end(b"\r\n"), Some(0));
    assert_eq!(find_line_end(b"a\r"), None);
    assert_eq!(find_line_end(b"a\rb\r\r\n"), Some(4));
    assert_eq!(find_line_end(b"a\rb\nc\r\n"), Some(3));
}

#[test]
fn test_parser_state() {
    let config = SseConfig::default();
    let mut parser = ParserState::new(config);

    // Test simple event
    let events = parser.process_bytes(b"data: hello\n\n").unwrap();
    assert_eq!(events.len(), 1);
    assert_eq!(events[0].data, "hello");
    assert_eq!(events[0].event_type, "message");
}

#[test]
fn test_parser_multiline_data() {
    let config = SseConfig::default();
    let mut parser = ParserState::new(config);

    let events = parser
        .process_bytes(b"data: line1\ndata: line2\ndata: line3\n\n")
        .unwrap();
    assert_eq!(events.len(), 1);
    assert_eq!(events[0].data, "line1\nline2\nline3");
}

#[test]
fn test_parser_with_id_and_type() {
    let config = SseConfig::default();
    let mut parser = ParserState::new(config);

    let events = parser
        .process_bytes(b"event: test\ndata: hello\nid: 123\n\n")
        .unwrap();
    assert_eq!(events.len(), 1);
    assert_eq!(events[0].event_type, "test");
    assert_eq!(events[0].data, "hello");
    assert_eq!(events[0].id, Some("123".to_string()));
}

#[test]
fn test_parser_retry_field() {
    let config = SseConfig::default();
    let mut parser = ParserState::new(config);

    let events = parser
        .process_bytes(b"retry: 5000\ndata: test\n\n")
        .unwrap();
    assert_eq!(events.len(), 1);
    assert_eq!(events[0].retry, Some(5000));
    assert_eq!(parser.reconnection_time(), Duration::from_millis(5000));
}

#[test]
fn test_parser_comment_ignored() {
    let config = SseConfig::default();
    let mut parser = ParserState::new(config);

    let events = parser
        .process_bytes(b": this is a comment\ndata: test\n\n")
        .unwrap();
    assert_eq!(events.len(), 1);
    assert_eq!(events[0].data, "test");
}

#[test]
fn test_buffer_overflow() {
    let config = SseConfig {
        max_buffer_size: 10,
        ..Default::default()
    };
    let mut parser = ParserState::new(config);

    let result =
        parser.process_bytes(b"this is a very long line that exceeds the buffer limit");
    assert!(matches!(result, Err(SseError::BufferOverflow { .. })));
}

#[test]
fn refused_bytes_leave_no_trace() {
    let mut parser = ParserState::new(SseConfig { max_buffer_size: 10, ..Default::default() });
    assert_eq!(parser.process_bytes(b"data: ").unwrap(), vec![]);
    assert!(matches!(
        parser.process_bytes(b"12345"),
        Err(SseError::BufferOverflow { max: 10 })
    ));
    assert_eq!(
        parser.process_bytes(b"ab\n\n").unwrap(),
        vec![Event::new("message", "ab", 10)]
    );
    // The buffer is empty again: ten bytes fit, eleven do not.
    assert_eq!(parser.process_bytes(b"0123456789").unwrap(), vec![]);
    assert!(matches!(
        parser.process_bytes(b"0"),
        Err(SseError::BufferOverflow { max: 10 })
    ));
    let mut other = ParserState::new(SseConfig { max_buffer_size: 10, ..Default::default() });
    assert!(other.process_bytes(b"01234567890").is_err());
}

const SAMPLE: &str = "\u{feff}event: täst\r\n: hi\r\ndata: {\"a\": 1}\r\nid: 7\r\n\r\nretry: 10\n\
    data: x\n\ndata\rdata: y\rdata\r\rid: 8\n\nevent: bare\n\nnonsense\n:\n\r\ndata: 𝄞\r\r\n\
    event:\ndata:\n\ndata: open";

#[test]
fn any_cut_gives_the_same_events() {
    let bytes = SAMPLE.as_bytes();
    let mut whole = parser();
    let expected = whole.process_bytes(bytes).unwrap();
    let max = 1024 * 1024;
    assert_eq!(
        expected,
        vec![
            Event::new("täst", "{\"a\": 1}", max).with_id("7"),
            Event::new("message", "x", max).with_retry(10),
            Event::new("message", "\ny\n", max),
            Event::new("message", "𝄞", max),
            Event::new("message", "", max),
        ]
    );
    assert_eq!(whole.last_event_id(), Some("8"));
    for cut in 0..=bytes.len() {
        let mut parser = parser();
        let mut events = parser.process_bytes(&bytes[..cut]).unwrap();
        events.extend(parser.process_bytes(&bytes[cut..]).unwrap());
        assert_eq!(events, expected);
        assert_eq!(parser.last_event_id(), whole.last_event_id());
        assert_eq!(parser.reconnection_time(), whole.reconnection_time());
    }
    let mut slow = parser();
    let mut events = Vec::new();
    for byte in bytes {
        events.extend(slow.process_bytes(&[*byte]).unwrap());
    }
    assert_eq!(events, expected);
    // The last line still waits for its end.
    assert_eq!(
        slow.process_bytes(b"ed\r\n\r\n").unwrap(),
        vec![Event::new("message", "opened", max)]
    );
}

#[test]
fn line_endings_are_alike() {
    let text = "event: a\ndata: b\n\ndata: c\n\n\nid: d\n\n";
    for ending in ["\r\n", "\r"] {
        let mut one = parser();
        let mut other = parser();
        assert_eq!(
            one.process_bytes(text.as_bytes()).unwrap(),
            other.process_bytes(text.replace('\n', ending).as_bytes()).unwrap()
        );
        assert_eq!(one.last_event_id(), Some("d"));
        assert_eq!(other.last_event_id(), Some("d"));
    }
}

#[test]
fn carriage_return_alone_ends_a_line() {
    let message = |data: &str| Event::new("message", data, 1024 * 1024);
    assert_eq!(parser().process_bytes(b"data: x\r\r: c\n").unwrap(), vec![message("x")]);
    assert_eq!(untrimmed().process_bytes(b"data: a\rdata: b\r\r").unwrap(), vec![message("a\nb")]);
    // The second carriage return is an empty line, the line feed behind it is no other one.
    assert_eq!(
        parser().process_bytes(b"data: a\r\r\ndata: b\n\n").unwrap(),
        vec![message("a"), message("b")]
    );
    // A line feed at the start of the next bytes belongs to the carriage return.
    let mut parser = parser();
    assert_eq!(parser.process_bytes(b"data: a\r").unwrap(), vec![]);
    assert_eq!(parser.process_bytes(b"\n").unwrap(), vec![]);
    assert_eq!(parser.process_bytes(b"\n").unwrap(), vec![message("a")]);
    assert_eq!(parser.process_bytes(b"data: b\r").unwrap(), vec![]);
    assert_eq!(parser.process_bytes(b"\r").unwrap(), vec![message("b")]);
}

#[test]
fn byte_order_mark_at_the_start_is_dropped() {
    let x = vec![Event::new("message", "x", 1024 * 1024)];
    assert_eq!(parser().process_bytes(b"\xef\xbb\xbfdata: x\n\n").unwrap(), x);
    assert_eq!(parser().process_bytes(b"\xef\xbb\xbf\xef\xbb\xbfdata: x\n\n").unwrap(), vec![]);
    assert_eq!(parser().process_bytes(b"\n\xef\xbb\xbfdata: x\n\n").unwrap(), vec![]);
    let mut slow = parser();
    for byte in b"\xef\xbb\xbfdata: x\n" {
        assert_eq!(slow.process_bytes(&[*byte]).unwrap(), vec![]);
    }
    assert_eq!(slow.process_bytes(b"\n").unwrap(), x);
}

#[test]
fn comments_are_dropped_either_way() {
    for ignore in [true, false] {
        let mut parser =
            ParserState::new(SseConfig { ignore_comments: ignore, ..Default::default() });
        let events = parser.process_bytes(b":data: no\ndata: yes\n:\n\n:\n\n").unwrap();
        assert_eq!(events, vec![Event::new("message", "yes", 1024 * 1024)]);
    }
}

#[test]
fn unknown_fields_are_ignored() {
    let events = parser()
        .process_bytes(b"Data: no\ndata : no\n data: no\ncolor: red\nplain\ndata: yes\n\n")
        .unwrap();
    assert_eq!(events, vec![Event::new("message", "yes", 1024 * 1024)]);
}

#[test]
fn event_without_data_is_not_handed_out() {
    let mut parser = parser();
    assert_eq!(parser.process_bytes(b"\n\nevent: ping\nid: 7\nretry: 7\n").unwrap(), vec![]);
    assert_eq!(parser.last_event_id(), None);
    assert_eq!(parser.process_bytes(b"\n").unwrap(), vec![]);
    // Its ID and its retry interval count, its type does not.
    assert_eq!(parser.last_event_id(), Some("7"));
    assert_eq!(parser.reconnection_time(), Duration::from_millis(7));
    assert_eq!(
        parser.process_bytes(b"data: x\n\n").unwrap(),
        vec![Event::new("message", "x", 1024 * 1024)]
    );
}

#[test]
fn empty_data_is_handed_out() {
    let message = |data: &str| Event::new("message", data, 1024 * 1024);
    assert_eq!(parser().process_bytes(b"data:\n\n").unwrap(), vec![message("")]);
    assert_eq!(parser().process_bytes(b"data\n\n").unwrap(), vec![message("")]);
    assert_eq!(
        parser().process_bytes(b"event: ping\ndata\n\n\n\n").unwrap(),
        vec![Event::new("ping", "", 1024 * 1024)]
    );
    assert_eq!(parser().process_bytes(b"data\ndata\n\n").unwrap(), vec![message("\n")]);
}

#[test]
fn empty_type_is_that_of_a_message() {
    let x = vec![Event::new("message", "x", 1024 * 1024)];
    assert_eq!(parser().process_bytes(b"event:\ndata: x\n\n").unwrap(), x);
    assert_eq!(parser().process_bytes(b"event: ping\nevent\ndata: x\n\n").unwrap(), x);
}

#[test]
fn empty_data_lines_count() {
    let events = parser()
        .process_bytes(b"data\ndata:\ndata: a\ndata\ndata:\ndata: b\ndata\n\n")
        .unwrap();
    assert_eq!(events[0].data, "\n\na\n\n\nb\n");
}

#[test]
fn order_of_fields_does_not_matter() {
    let one = parser().process_bytes(b"data: d\nid: i\nevent: e\nretry: 1\n\n").unwrap();
    let other = parser().process_bytes(b"retry: 1\nevent: e\nid: i\ndata: d\n\n").unwrap();
    assert_eq!(one, other);
}

#[test]
fn field_without_colon_has_an_empty_value() {
    for name in ["event", "data", "id", "other"] {
        let mut one = parser();
        let mut other = parser();
        assert_eq!(
            one.process_bytes(format!("event: e\n{name}\ndata: x\n\n").as_bytes()).unwrap(),
            other.process_bytes(format!("event: e\n{name}:\ndata: x\n\n").as_bytes()).unwrap()
        );
        assert_eq!(one.last_event_id(), other.last_event_id());
    }
    for line in ["retry\n", "retry:\n"] {
        match parser().process_bytes(line.as_bytes()) {
            Err(SseError::InvalidRetryValue(value)) => assert_eq!(value, ""),
            other => panic!("{other:?}"),
        }
    }
}

#[test]
fn last_event_id_is_set_at_the_empty_line() {
    let mut parser = parser();
    assert_eq!(parser.last_event_id(), None);
    parser.process_bytes(b"id: 1\ndata: a\n\n").unwrap();
    assert_eq!(parser.last_event_id(), Some("1"));
    parser.process_bytes(b"id: 2\n").unwrap();
    assert_eq!(parser.last_event_id(), Some("1"));
    parser.process_bytes(b"data: b\n\ndata: c\n\n").unwrap();
    assert_eq!(parser.last_event_id(), Some("2"));
    parser.process_bytes(b"id\ndata: d\n\n").unwrap();
    assert_eq!(parser.last_event_id(), Some(""));
    parser.process_bytes(b"id: 3\n\nid: 4\nid: 5\0\n\nid: 6\n").unwrap();
    assert_eq!(parser.last_event_id(), Some("4"));
}

#[test]
fn id_with_nul_is_ignored() {
    let events = parser().process_bytes(b"id: 1\nid: a\0b\ndata: x\n\n").unwrap();
    assert_eq!(events[0].id, Some("1".to_string()));
}

#[test]
fn retry_takes_numbers() {
    for (text, number) in [
        ("0", 0),
        ("007", 7),
        ("+5", 5),
        ("18446744073709551615", u64::MAX),
        ("00000000000000000000000000000042", 42),
    ] {
        let mut parser = parser();
        let events =
            parser.process_bytes(format!("retry: {text}\ndata: r\n\n").as_bytes()).unwrap();
        assert_eq!(events[0].retry, Some(number));
        assert_eq!(parser.reconnection_time(), Duration::from_millis(number));
    }
}

#[test]
fn retry_refuses_what_is_no_number() {
    for text in [
        "", "+", "-1", "++1", "1+", "1 2", "1.5", "0x10", "abc", "１", "18446744073709551616",
        "99999999999999999999", "184467440737095516150",
    ] {
        let mut parser = parser();
        match parser.process_bytes(format!("retry: {text}\n").as_bytes()) {
            Err(SseError::InvalidRetryValue(value)) => assert_eq!(value, text),
            other => panic!("{text}: {other:?}"),
        }
        assert_eq!(parser.reconnection_time(), Duration::from_millis(3000));
    }
}

#[test]
fn lines_behind_a_refused_one_wait() {
    let mut parser = parser();
    let result = parser.process_bytes(b"data: a\n\ndata: b\nretry: soon\ndata: c\n\ndata: d\n\n");
    assert!(matches!(result, Err(SseError::InvalidRetryValue(_))));
    let max = 1024 * 1024;
    assert_eq!(
        parser.process_bytes(b"").unwrap(),
        vec![Event::new("message", "b\nc", max), Event::new("message", "d", max)]
    );
}

#[test]
fn bad_utf8_is_refused() {
    for (line, valid_up_to, error_len) in [
        (&b"data: \xff"[..], 6, Some(1)),
        (&b"data: \xe2\x82"[..], 6, None),
        (&b"data: \xe2\x82x"[..], 6, Some(2)),
        (&b"\xc3\xa9\xf0\x9f\x98"[..], 2, None),
        (&b"\xed\xa0\x80"[..], 0, Some(1)),
        (&b"\xc0\x80"[..], 0, Some(1)),
    ] {
        let mut bytes = line.to_vec();
        bytes.extend_from_slice(b"\ndata: x\n\n");
        let mut parser = parser();
        match parser.process_bytes(&bytes) {
            Err(SseError::Utf8(error)) => {
                assert_eq!(error, Utf8Error { valid_up_to, error_len });
            }
            other => panic!("{line:?}: {other:?}"),
        }
        assert_eq!(
            parser.process_bytes(b"").unwrap(),
            vec![Event::new("message", "x", 1024 * 1024)]
        );
    }
}

#[test]
fn message_example() {
    let data = b"event: message\ndata: {\"content\": \"Hello, World!\"}\nid: 1\n\n";
    let events = parser().process_bytes(data).unwrap();
    let event = events.first().unwrap();
    assert_eq!(event.event_type, "message");
    assert_eq!(event.id, Some("1".to_string()));
    let value: serde_json::Value = event.deserialize_data().unwrap();
    assert_eq!(value["content"], serde_json::Value::from("Hello, World!"));
}

#[test]
fn written_field_is_read_back() {
    for (name, value) in [("data", "a: b"), ("", "x"), ("é", ""), ("two words", "y")] {
        let line = format!("{name}: {value}");
        assert_eq!(parse_field(&line, true), pair(name, value));
        assert_eq!(parse_field(&line, false), pair(name, value));
    }
    assert_eq!(parse_field("a:  b ", false), pair("a", " b "));
}

#[test]
fn only_retry_sets_the_reconnection_time() {
    let mut parser = parser();
    parser.process_bytes(b"data: 5\nid: 6\nevent: 7\nRetry: 8\n: retry: 9\nretries: 1\n\n").unwrap();
    assert_eq!(parser.reconnection_time(), Duration::from_millis(3000));
    parser.process_bytes(b"retry: 4\n").unwrap();
    assert_eq!(parser.reconnection_time(), Duration::from_millis(4));
}

#[test]
fn reconnection_time_starts_as_configured() {
    let parser = ParserState::new(SseConfig { reconnection_time: 12, ..Default::default() });
    assert_eq!(parser.reconnection_time(), Duration::from_millis(12));
}

#[test]
fn stream_may_be_longer_than_the_buffer() {
    let text = "data: abc\n\n".repeat(50);
    let expected = vec![Event::new("message", "abc", 12); 50];
    for size in [1, 2, 3] {
        let mut parser = ParserState::new(SseConfig { max_buffer_size: 12, ..Default::default() });
        let mut events = Vec::new();
        for chunk in text.as_bytes().chunks(size) {
            events.extend(parser.process_bytes(chunk).unwrap());
        }
        assert_eq!(events, expected);
    }
}

#[test]
fn id_and_time_count_up_to_a_refused_line() {
    let mut parser = parser();
    let result = parser.process_bytes(b"id: 1\nretry: 5\n\nid: 2\nretry: x\nretry: 9\n\n");
    assert!(matches!(result, Err(SseError::InvalidRetryValue(_))));
    assert_eq!(parser.last_event_id(), Some("1"));
    assert_eq!(parser.reconnection_time(), Duration::from_millis(5));
    assert_eq!(parser.process_bytes(b"").unwrap(), vec![]);
    assert_eq!(parser.last_event_id(), Some("2"));
    assert_eq!(parser.reconnection_time(), Duration::from_millis(9));
}

#[test]
fn single_fields_commute() {
    let fields = [("event", "e"), ("data", "d"), ("id", "i"), ("retry", "1"), ("other", "o")];
    for (one, v) in fields {
        for (other, w) in fields {
            if one != other {
                let mut p = parser();
                let mut q = parser();
                p.process_field(one, v).unwrap();
                p.process_field(other, w).unwrap();
                q.process_field(other, w).unwrap();
                q.process_field(one, v).unwrap();
                assert_eq!(p.dispatch_event(), q.dispatch_event());
                assert_eq!(p.last_event_id(), q.last_event_id());
                assert_eq!(p.reconnection_time(), q.reconnection_time());
            }
        }
    }
}

#[test]
fn single_lines_make_an_event() {
    let mut parser = parser();
    assert_eq!(parser.process_line("event").unwrap(), None);
    assert_eq!(parser.process_line("data: x").unwrap(), None);
    assert_eq!(parser.process_line(": data: y").unwrap(), None);
    assert!(matches!(
        parser.process_line("retry"),
        Err(SseError::InvalidRetryValue(value)) if value.is_empty()
    ));
    assert_eq!(parser.process_line("").unwrap(), Some(Event::new("message", "x", 1024 * 1024)));
    assert_eq!(parser.process_line("").unwrap(), None);
}

#[test]
fn nothing_is_dispatched_twice() {
    let mut parser = parser();
    parser.process_field("id", "7").unwrap();
    assert_eq!(parser.dispatch_event(), None);
    assert_eq!(parser.last_event_id(), Some("7"));
    parser.process_field("event", "ping").unwrap();
    assert_eq!(parser.dispatch_event(), None);
    parser.process_field("data", "x").unwrap();
    assert_eq!(parser.dispatch_event(), Some(Event::new("message", "x", 1024 * 1024)));
    assert_eq!(parser.dispatch_event(), None);
    assert_eq!(parser.last_event_id(), Some("7"));
}

#[test]
fn errors_convert() {
    let io = std::io::Error::other("gone");
    assert!(matches!(SseError::from(io), SseError::Io(error) if error.to_string() == "gone"));
    let json = serde_json::from_str::<u8>("x").unwrap_err();
    assert!(matches!(SseError::from(json), SseError::Json(error) if error.column() == 1));
    let utf8 = std::str::from_utf8(b"ab\xff").unwrap_err();
    assert!(matches!(
        SseError::from(utf8),
        SseError::Utf8(Utf8Error { valid_up_to: 2, error_len: Some(1) })
    ));
    let described = Utf8Error { valid_up_to: 3, error_len: None };
    assert!(matches!(SseError::from(described), SseError::Utf8(error) if error == described));
}
