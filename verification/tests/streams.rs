use http_body_util::Empty;
use hyper::body::Bytes;
use sse::{
    request_head, streaming_body, DecodeSource, Event, EventStream, EventStreamBuilder,
    RawEventStream, SseConfig, SseError, StreamAction, StreamInput, DEFAULT_RECONNECTION_TIME,
    MAX_BUFFER_SIZE,
};
use std::future::Future;
use std::io;
use std::pin::Pin;
use std::task::{Context, Poll};
use std::time::Duration;

#[test]
fn test_config_builder() {
    let config = SseConfig::default();
    assert_eq!(config.max_buffer_size, MAX_BUFFER_SIZE);
    assert_eq!(config.reconnection_time, DEFAULT_RECONNECTION_TIME);
    assert!(config.ignore_comments);
    assert!(config.trim_values);
}

#[test]
fn constants_have_their_values() {
    assert_eq!(MAX_BUFFER_SIZE, 1048576);
    assert_eq!(DEFAULT_RECONNECTION_TIME, 3000);
}

#[test]
fn test_event_stream_builder() {
    let builder = EventStreamBuilder::new()
        .max_buffer_size(512)
        .reconnection_time(Duration::from_millis(1000))
        .ignore_comments(false)
        .trim_values(false);

    assert_eq!(builder.config.max_buffer_size, 512);
    assert_eq!(builder.config.reconnection_time, 1000);
    assert!(!builder.config.ignore_comments);
    assert!(!builder.config.trim_values);
}

#[test]
fn built_stream_has_the_configuration() {
    let mut stream: EventStream<u8> = EventStreamBuilder::default()
        .max_buffer_size(4)
        .reconnection_time(Duration::from_micros(1999))
        .build();
    assert_eq!(stream.reconnection_time(), Duration::from_millis(1));
    assert_eq!(stream.last_event_id(), None);
    assert!(matches!(
        stream.poll_next(StreamInput::Data(b"12345".to_vec())),
        StreamAction::Yield(Err(SseError::BufferOverflow { max: 4 }))
    ));
}

#[test]
fn long_reconnection_time_wraps() {
    let builder = EventStreamBuilder::new().reconnection_time(Duration::from_secs(u64::MAX));
    assert_eq!(builder.config.reconnection_time, 18446744073709550616);
}

fn numbers(stream: &mut EventStream<u32>, bytes: &[u8]) -> StreamAction<u32> {
    match stream.poll_next(StreamInput::Data(bytes.to_vec())) {
        StreamAction::Decode(events) => {
            let mut values = Vec::new();
            for event in events {
                assert_eq!(event.decode_source(), DecodeSource::Data);
                values.push(event.deserialize_data());
            }
            stream.poll_next(StreamInput::Decoded(values))
        }
        action => action,
    }
}

#[test]
fn items_come_out_in_order() {
    let mut stream: EventStream<u32> = EventStream::new();
    assert!(matches!(stream.poll_next(StreamInput::Start), StreamAction::PollBody));
    assert!(matches!(numbers(&mut stream, b"data: 1"), StreamAction::PollBody));
    assert!(matches!(stream.poll_next(StreamInput::OtherFrame), StreamAction::PollBody));
    assert!(matches!(stream.poll_next(StreamInput::Pending), StreamAction::Wait));
    let first = numbers(&mut stream, b"\n\ndata: two\nid: 9\n\ndata: 3\n\n");
    assert!(matches!(first, StreamAction::Yield(Ok(1))));
    assert!(matches!(
        stream.poll_next(StreamInput::Start),
        StreamAction::Yield(Err(SseError::Json(_)))
    ));
    assert_eq!(stream.last_event_id(), Some("9"));
    assert!(matches!(stream.poll_next(StreamInput::Ended), StreamAction::Yield(Ok(3))));
    assert!(matches!(stream.poll_next(StreamInput::Start), StreamAction::PollBody));
    assert!(matches!(stream.poll_next(StreamInput::Ended), StreamAction::Finish));
}

#[test]
fn refused_line_is_handed_out() {
    let mut stream: EventStream<u32> = EventStream::with_config(SseConfig::default());
    match numbers(&mut stream, b"retry: x\ndata: 4\n\n") {
        StreamAction::Yield(Err(SseError::InvalidRetryValue(value))) => assert_eq!(value, "x"),
        _ => panic!("not refused"),
    }
    assert!(matches!(numbers(&mut stream, b""), StreamAction::Yield(Ok(4))));
}

#[test]
fn whole_event_is_decoded_where_it_is_no_message() {
    assert_eq!(Event::new("message", "x", 1).decode_source(), DecodeSource::Data);
    assert_eq!(Event::new("message", "", 1).decode_source(), DecodeSource::Data);
    assert_eq!(Event::new("ping", "", 1).decode_source(), DecodeSource::Data);
    assert_eq!(Event::new("ping", "x", 1).decode_source(), DecodeSource::WholeEvent);
}

#[test]
fn raw_stream_hands_out_events() {
    let mut stream: RawEventStream = EventStream::raw();
    assert_eq!(stream.reconnection_time(), Duration::from_millis(3000));
    let input = StreamInput::Data(b"data: not json\n\nevent: e\ndata: d\nid: 1\n\n".to_vec());
    match stream.poll_next_raw(input) {
        StreamAction::Yield(Ok(event)) => {
            assert_eq!(event, Event::new("message", "not json", MAX_BUFFER_SIZE));
        }
        _ => panic!("no event"),
    }
    match stream.poll_next_raw(StreamInput::Start) {
        StreamAction::Yield(Ok(event)) => {
            assert_eq!(event, Event::new("e", "d", MAX_BUFFER_SIZE).with_id("1"));
        }
        _ => panic!("no event"),
    }
    assert!(matches!(stream.poll_next_raw(StreamInput::Start), StreamAction::PollBody));
    assert!(matches!(
        stream.poll_next_raw(StreamInput::Data(b"data: x".to_vec())),
        StreamAction::PollBody
    ));
    assert!(matches!(
        stream.poll_next_raw(StreamInput::Data(b"\xff\n".to_vec())),
        StreamAction::Yield(Err(SseError::Utf8(_)))
    ));
    assert!(matches!(stream.poll_next_raw(StreamInput::Ended), StreamAction::Finish));
}

struct Silent;

impl hyper::rt::Read for Silent {
    fn poll_read(
        self: Pin<&mut Self>,
        _context: &mut Context<'_>,
        _buffer: hyper::rt::ReadBufCursor<'_>,
    ) -> Poll<io::Result<()>> {
        Poll::Pending
    }
}

impl hyper::rt::Write for Silent {
    fn poll_write(
        self: Pin<&mut Self>,
        _context: &mut Context<'_>,
        bytes: &[u8],
    ) -> Poll<io::Result<usize>> {
        Poll::Ready(Ok(bytes.len()))
    }

    fn poll_flush(self: Pin<&mut Self>, _context: &mut Context<'_>) -> Poll<io::Result<()>> {
        Poll::Ready(Ok(()))
    }

    fn poll_shutdown(self: Pin<&mut Self>, _context: &mut Context<'_>) -> Poll<io::Result<()>> {
        Poll::Ready(Ok(()))
    }
}

fn ready<F: Future>(future: F) -> F::Output {
    let waker = futures_util::task::noop_waker();
    match Box::pin(future).as_mut().poll(&mut Context::from_waker(&waker)) {
        Poll::Ready(output) => output,
        Poll::Pending => panic!("not ready"),
    }
}

fn http_error() -> hyper::Error {
    let (mut sender, connection) =
        ready(hyper::client::conn::http1::handshake::<_, Empty<Bytes>>(Silent)).unwrap();
    drop(connection);
    let request = hyper::Request::builder().body(Empty::new()).unwrap();
    match ready(sender.send_request(request)) {
        Err(error) => error,
        Ok(_) => panic!("sent without a connection"),
    }
}

#[test]
fn failed_body_is_handed_out() {
    let mut stream: EventStream<u32> = EventStream::new();
    assert!(matches!(
        stream.poll_next(StreamInput::Failed(http_error())),
        StreamAction::Yield(Err(SseError::Http(_)))
    ));
    assert!(matches!(stream.poll_next(StreamInput::Start), StreamAction::PollBody));
    assert!(matches!(SseError::from(http_error()), SseError::Http(_)));
}

#[test]
fn refused_frames_and_failures_keep_their_place() {
    let mut stream: RawEventStream = EventStream::raw();
    let mut inputs = vec![
        StreamInput::Data(b"data: 1\n\ndata: 2\n\n".to_vec()),
        StreamInput::Data(b"data: lost\n\nretry: x\ndata: 3\n".to_vec()),
        StreamInput::OtherFrame,
        StreamInput::Failed(http_error()),
        StreamInput::Data(b"\ndata: 4\n\n".to_vec()),
        StreamInput::Ended,
    ]
    .into_iter();
    let mut items = Vec::new();
    let mut input = StreamInput::Start;
    loop {
        input = match stream.poll_next_raw(input) {
            StreamAction::Yield(Ok(event)) => {
                items.push(event.data);
                StreamInput::Start
            }
            StreamAction::Yield(Err(error)) => {
                items.push(match error {
                    SseError::InvalidRetryValue(value) => format!("retry {value}"),
                    SseError::Http(_) => "http".to_string(),
                    other => panic!("{other:?}"),
                });
                StreamInput::Start
            }
            StreamAction::PollBody => inputs.next().unwrap(),
            StreamAction::Finish => break,
            _ => panic!("nothing to wait for or to decode"),
        };
    }
    assert_eq!(items, vec!["1", "2", "retry x", "http", "3", "4"]);
}

#[test]
fn request_head_is_exact() {
    let head = request_head("secret");
    assert_eq!(head.method, "POST");
    assert_eq!(head.uri, "https://api.anthropic.com/v1/messages");
    let headers: Vec<(&str, &str)> =
        head.headers.iter().map(|(name, value)| (name.as_str(), value.as_str())).collect();
    assert_eq!(
        headers,
        vec![
            ("x-api-key", "secret"),
            ("anthropic-version", "2023-06-01"),
            ("content-type", "application/json"),
        ]
    );
}

fn json(text: &str) -> serde_json::Value {
    serde_json::from_str(text).unwrap()
}

#[test]
fn streaming_body_asks_for_a_stream() {
    for (text, expected) in [
        ("{}", r#"{"stream":true}"#),
        (r#"{"model": "m", "max_tokens": 10}"#, r#"{"max_tokens":10,"model":"m","stream":true}"#),
        (r#"{"stream": "no", "z": [1, "é"]}"#, r#"{"stream":true,"z":[1,"é"]}"#),
    ] {
        assert_eq!(streaming_body(json(text)).unwrap().unwrap(), expected);
    }
}

#[test]
fn only_objects_have_a_streaming_body() {
    for text in ["null", "[]", "1", "true", "\"x\""] {
        assert!(streaming_body(json(text)).is_none());
    }
}
