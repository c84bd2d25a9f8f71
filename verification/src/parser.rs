//! The parser: bytes in, events out.

use vstd::prelude::*;
use vstd::utf8::*;

use crate::config;
use crate::config::SseConfig;
use crate::error::Failure;
use crate::error::SseError;
use crate::event;
use crate::event::Event;
use crate::event::EventView;
use crate::text;

verus! {

// ---------------------------------------------------------------------------
// What a parser does
// ---------------------------------------------------------------------------

/// The field name and the value that a line gives. The name ends at the first colon, and one
/// space after it is no part of the value; a line without a colon is a name with an empty value.
pub open spec fn field_of(line: Seq<char>, trim_values: bool) -> (Seq<char>, Seq<char>) {
    let colon = text::position(line, ':');
    if colon < line.len() {
        let value = text::without_leading_space(line.skip(colon + 1));
        (
            line.take(colon),
            if trim_values {
                text::trimmed(value)
            } else {
                value
            },
        )
    } else {
        (line, seq![])
    }
}

/// The bytes that end a line: the line feed and the carriage return.
pub open spec fn is_break(byte: u8) -> bool {
    byte == 10 || byte == 13
}

/// The index of the first byte that ends a line, or the number of bytes where there is none.
pub open spec fn break_at(bytes: Seq<u8>) -> int
    decreases bytes.len(),
{
    if bytes.len() == 0 || is_break(bytes[0]) {
        0
    } else {
        1 + break_at(bytes.drop_first())
    }
}

/// Some byte ends a line.
pub open spec fn has_break(bytes: Seq<u8>) -> bool {
    exists|i: int| 0 <= i < bytes.len() && is_break(#[trigger] bytes[i])
}

/// The bytes begin with a byte order mark.
pub open spec fn has_mark(bytes: Seq<u8>) -> bool {
    bytes.len() >= 3 && bytes[0] == 0xef && bytes[1] == 0xbb && bytes[2] == 0xbf
}

/// An event as it is handed out: an empty type stands for "message".
pub open spec fn with_type(event: EventView) -> EventView {
    if event.event_type.len() == 0 {
        EventView { event_type: event::message_type(), ..event }
    } else {
        event
    }
}

/// The state of a parser.
pub struct ParserView {
    /// The bytes after the last line that was processed.
    pub buffer: Seq<u8>,
    /// Whether no line was taken out of the buffer yet.
    pub at_start: bool,
    /// Whether the last byte before the buffer is a carriage return that ended a line.
    pub after_return: bool,
    /// The event that the lines since the last empty line make up.
    pub event: EventView,
    /// Whether one of these lines is a `data` field.
    pub has_data: bool,
    /// The ID of the last event with one.
    pub last_event_id: Option<Seq<char>>,
    /// The last reconnection time, in milliseconds.
    pub reconnection_time: u64,
    /// The configuration.
    pub config: SseConfig,
}

/// What lines give: the events in order, or why a line was refused.
pub type Outcome = Result<Seq<EventView>, Failure>;

/// The outcome of lines of which the first gave `event`, if anything.
pub open spec fn after_event(event: Option<EventView>, rest: Outcome) -> Outcome {
    match rest {
        Ok(events) => Ok(
            match event {
                Some(event) => seq![event] + events,
                None => events,
            },
        ),
        Err(failure) => Err(failure),
    }
}

/// The outcome of lines of which the first ones gave `events`.
pub open spec fn after_events(events: Seq<EventView>, rest: Outcome) -> Outcome {
    match rest {
        Ok(more) => Ok(events + more),
        Err(failure) => Err(failure),
    }
}

impl ParserView {
    /// A parser that has seen nothing.
    pub open spec fn fresh(config: SseConfig) -> ParserView {
        ParserView {
            buffer: seq![],
            at_start: true,
            after_return: false,
            event: EventView::blank(config.max_buffer_size),
            has_data: false,
            last_event_id: None,
            reconnection_time: config.reconnection_time,
            config,
        }
    }

    /// The parser with a blank event in place of the one being built.
    pub open spec fn with_blank_event(self) -> ParserView {
        ParserView {
            event: EventView::blank(self.config.max_buffer_size),
            has_data: false,
            ..self
        }
    }

    /// The event is complete. Its ID, if it has one, is the last event ID from now on; the event
    /// itself is handed out where it has a `data` field.
    pub open spec fn dispatch(self) -> (Option<EventView>, ParserView) {
        (
            if self.has_data {
                Some(with_type(self.event))
            } else {
                None
            },
            ParserView {
                last_event_id: if self.event.id is Some {
                    self.event.id
                } else {
                    self.last_event_id
                },
                ..self.with_blank_event()
            },
        )
    }

    /// The parser after a `data` field.
    pub open spec fn with_data(self, value: Seq<char>) -> ParserView {
        let data = if self.has_data {
            self.event.data + "\n"@ + value
        } else {
            value
        };
        ParserView { event: EventView { data, ..self.event }, has_data: true, ..self }
    }

    /// The parser after a field, or why the field is refused.
    pub open spec fn field(self, name: Seq<char>, value: Seq<char>) -> (
        Result<(), Failure>,
        ParserView,
    ) {
        if name == "event"@ {
            (Ok(()), ParserView { event: EventView { event_type: value, ..self.event }, ..self })
        } else if name == "data"@ {
            (Ok(()), self.with_data(value))
        } else if name == "id"@ {
            if value.contains('\0') {
                (Ok(()), self)
            } else {
                (Ok(()), ParserView { event: EventView { id: Some(value), ..self.event }, ..self })
            }
        } else if name == "retry"@ {
            match text::number_in(value) {
                Some(retry) => (
                    Ok(()),
                    ParserView {
                        event: EventView { retry: Some(retry), ..self.event },
                        reconnection_time: retry,
                        ..self
                    },
                ),
                None => (Err(Failure::InvalidRetryValue { value }), self),
            }
        } else {
            (Ok(()), self)
        }
    }

    /// The parser after a line of text, with the event that the line completes, or why the line
    /// is refused.
    pub open spec fn line(self, line: Seq<char>) -> (
        Result<Option<EventView>, Failure>,
        ParserView,
    ) {
        if line.len() == 0 {
            (Ok(self.dispatch().0), self.dispatch().1)
        } else if line[0] == ':' {
            (Ok(None), self)
        } else {
            let (name, value) = field_of(line, self.config.trim_values);
            match self.field(name, value) {
                (Ok(()), next) => (Ok(None), next),
                (Err(failure), next) => (Err(failure), next),
            }
        }
    }

    /// The parser after a line of bytes: it has to be UTF-8.
    pub open spec fn byte_line(self, line: Seq<u8>) -> (
        Result<Option<EventView>, Failure>,
        ParserView,
    ) {
        if valid_utf8(line) {
            self.line(decode_utf8(line))
        } else {
            (Err(Failure::Utf8 { line }), self)
        }
    }

    /// A line without the byte order mark that the first line of a stream may begin with.
    pub open spec fn without_mark(self, line: Seq<u8>) -> Seq<u8> {
        if self.at_start && has_mark(line) {
            line.skip(3)
        } else {
            line
        }
    }

    /// The parser after the next line of the stream.
    pub open spec fn stream_line(self, line: Seq<u8>) -> (
        Result<Option<EventView>, Failure>,
        ParserView,
    ) {
        ParserView { at_start: false, ..self }.byte_line(self.without_mark(line))
    }

    /// The parser without the line feed that belongs to a carriage return before the buffer.
    pub open spec fn settled(self) -> ParserView {
        if self.after_return && self.buffer.len() > 0 {
            ParserView {
                buffer: if self.buffer[0] == 10 {
                    self.buffer.skip(1)
                } else {
                    self.buffer
                },
                after_return: false,
                ..self
            }
        } else {
            self
        }
    }

    /// The parser with the first line of its buffer taken out.
    pub open spec fn past_first_line(self) -> ParserView {
        ParserView {
            buffer: self.buffer.skip(break_at(self.buffer) + 1),
            after_return: self.buffer[break_at(self.buffer)] == 13,
            ..self
        }
    }

    /// The first line of the buffer.
    pub open spec fn first_line(self) -> Seq<u8> {
        self.buffer.take(break_at(self.buffer))
    }

    /// The parser after the complete lines of its buffer, one by one until one is refused. A line
    /// ends with a line feed, with a carriage return, or with both in this order.
    pub open spec fn run(self) -> (Outcome, ParserView)
        decreases self.buffer.len(),
    {
        let settled = self.settled();
        let n = break_at(settled.buffer);
        if 0 <= n < settled.buffer.len() {
            let (result, next) = settled.past_first_line().stream_line(settled.first_line());
            match result {
                Ok(event) => {
                    let (outcome, last) = next.run();
                    (after_event(event, outcome), last)
                },
                Err(failure) => (Err(failure), next),
            }
        } else {
            (Ok(seq![]), settled)
        }
    }

    /// The parser after more bytes. They are refused as a whole where they do not fit in the
    /// buffer.
    pub open spec fn feed(self, bytes: Seq<u8>) -> (Outcome, ParserView) {
        if self.buffer.len() + bytes.len() > self.config.max_buffer_size {
            (Err(Failure::BufferOverflow { max: self.config.max_buffer_size }), self)
        } else {
            ParserView { buffer: self.buffer + bytes, ..self }.run()
        }
    }
}

// ---------------------------------------------------------------------------
// Lines and fields
// ---------------------------------------------------------------------------

/// Before the first byte that ends a line there is none.
pub proof fn lemma_break(bytes: Seq<u8>)
    ensures
        0 <= break_at(bytes) <= bytes.len(),
        forall|i: int| 0 <= i < break_at(bytes) ==> !is_break(#[trigger] bytes[i]),
        break_at(bytes) < bytes.len() ==> is_break(bytes[break_at(bytes)]),
        break_at(bytes) < bytes.len() <==> has_break(bytes),
    decreases bytes.len(),
{
    if bytes.len() > 0 && !is_break(bytes[0]) {
        let rest = bytes.drop_first();
        lemma_break(rest);
        assert forall|i: int| 0 <= i < break_at(bytes) implies !is_break(#[trigger] bytes[i]) by {
            if i > 0 {
                assert(bytes[i] == rest[i - 1]);
            }
        }
    }
}

/// The first byte that ends a line is where a part without one ends.
pub proof fn lemma_break_split(head: Seq<u8>, byte: u8, tail: Seq<u8>)
    requires
        !has_break(head),
        is_break(byte),
    ensures
        break_at(head + seq![byte] + tail) == head.len(),
        (head + seq![byte] + tail).take(head.len() as int) == head,
        (head + seq![byte] + tail).skip(head.len() + 1int) == tail,
        (head + seq![byte] + tail)[head.len() as int] == byte,
{
    let bytes = head + seq![byte] + tail;
    lemma_break(bytes);
    let n = head.len() as int;
    assert(is_break(bytes[n]));
    let p = break_at(bytes);
    if p < n {
        assert(is_break(head[p]));
    }
    assert(bytes.take(n) =~= head);
    assert(bytes.skip(n + 1) =~= tail);
}

/// Finds the first byte that ends a line.
fn find_break(buffer: &[u8]) -> (index: usize)
    ensures
        index == break_at(buffer@),
{
    proof {
        lemma_break(buffer@);
    }
    let mut i: usize = 0;
    while i < buffer.len() && buffer[i] != 10 && buffer[i] != 13
        invariant
            i <= buffer@.len(),
            i <= break_at(buffer@) <= buffer@.len(),
            break_at(buffer@) < buffer@.len() ==> is_break(buffer@[break_at(buffer@)]),
            forall|j: int| 0 <= j < break_at(buffer@) ==> !is_break(#[trigger] buffer@[j]),
        decreases buffer.len() - i,
    {
        i = i + 1;
    }
    i
}

/// A line of bytes without one carriage return at its end, or the line itself.
pub open spec fn line_content(line: Seq<u8>) -> Seq<u8> {
    if line.len() > 0 && line.last() == 13 {
        line.drop_last()
    } else {
        line
    }
}

/// Where the first line feed is, or the carriage return before it.
pub open spec fn line_end(buffer: Seq<u8>) -> Option<int> {
    let n = text::position(buffer, 10u8);
    if n < buffer.len() {
        Some(line_content(buffer.take(n)).len() as int)
    } else {
        None
    }
}

/// Finds the end of the first line that a line feed ends, or a carriage return and a line feed. A
/// carriage return alone is not looked for.
pub fn find_line_end(buffer: &[u8]) -> (end: Option<usize>)
    ensures
        match end {
            Some(end) => line_end(buffer@) == Some(end as int),
            None => line_end(buffer@) is None,
        },
        match end {
            Some(end) => {
                &&& end < buffer@.len()
                &&& buffer@[end as int] == 10 || (buffer@[end as int] == 13 && end + 1
                    < buffer@.len() && buffer@[end + 1] == 10)
                &&& forall|i: int|
                    0 <= i < end ==> #[trigger] buffer@[i] != 10 && !(buffer@[i] == 13
                        && buffer@[i + 1] == 10)
            },
            None => !buffer@.contains(10u8),
        },
{
    proof {
        text::lemma_position(buffer@, 10u8);
    }
    let mut i: usize = 0;
    while i < buffer.len()
        invariant
            i <= buffer@.len(),
            forall|j: int| 0 <= j < i ==> buffer@[j] != 10,
            0 < i < buffer@.len() && buffer@[i as int] == 10 ==> buffer@[i - 1] != 13,
            0 <= text::position(buffer@, 10u8) <= buffer@.len(),
            forall|j: int| 0 <= j < text::position(buffer@, 10u8) ==> buffer@[j] != 10,
            text::position(buffer@, 10u8) < buffer@.len() ==> buffer@[text::position(buffer@, 10u8)]
                == 10,
        decreases buffer.len() - i,
    {
        if buffer[i] == 10 {
            return Some(i);
        }
        if buffer[i] == 13 && i + 1 < buffer.len() && buffer[i + 1] == 10 {
            assert(text::position(buffer@, 10u8) == i + 1);
            return Some(i);
        }
        i = i + 1;
    }
    None
}

/// Parses a field line into field name and value.
pub fn parse_field(line: &str, trim_values: bool) -> (field: Option<(String, String)>)
    ensures
        field matches Some((name, value)) && (name@, value@) == field_of(line@, trim_values),
        field matches Some((name, value)) && !name@.contains(':') && if line@.contains(':') {
            let rest = line@.skip(name@.len() + 1int);
            let bare = if rest.len() > 0 && rest[0] == ' ' {
                rest.skip(1)
            } else {
                rest
            };
            &&& line@ == name@ + seq![':'] + rest
            &&& value@ == if trim_values {
                text::trimmed(bare)
            } else {
                bare
            }
        } else {
            name@ == line@ && value@.len() == 0
        },
{
    match text::split_first(line, ':') {
        Some((name, rest)) => {
            proof {
                text::lemma_position_split(name@, ':', rest@);
                assert(line@[name@.len() as int] == ':');
                if rest@.len() > 0 {
                    assert(rest@.drop_first() =~= rest@.skip(1));
                }
            }
            let value = text::strip_leading_space(rest);
            let value: &str = if trim_values {
                value.trim()
            } else {
                value
            };
            Some((name.to_string(), value.to_string()))
        },
        None => {
            proof {
                text::lemma_position(line@, ':');
            }
            Some((line.to_string(), String::new()))
        },
    }
}

// ---------------------------------------------------------------------------
// The parser
// ---------------------------------------------------------------------------

/// The state of a parser.
#[derive(Debug)]
pub struct ParserState {
    /// Buffer for incomplete data.
    buffer: Vec<u8>,
    /// Whether the stream has had no complete line yet.
    at_start: bool,
    /// Whether the last byte before the buffer is a carriage return that ended a line.
    after_return: bool,
    /// Current event being parsed.
    current_event: Event,
    /// Whether the current event has a `data` field.
    has_data: bool,
    /// Last event ID for reconnection.
    last_event_id: Option<String>,
    /// Current reconnection time.
    reconnection_time: u64,
    /// Configuration.
    config: SseConfig,
}

impl View for ParserState {
    type V = ParserView;

    closed spec fn view(&self) -> ParserView {
        ParserView {
            buffer: self.buffer@,
            at_start: self.at_start,
            after_return: self.after_return,
            event: self.current_event@,
            has_data: self.has_data,
            last_event_id: event::optional_text(self.last_event_id),
            reconnection_time: self.reconnection_time,
            config: self.config,
        }
    }
}

/// The contents of events.
pub open spec fn views(events: Seq<Event>) -> Seq<EventView> {
    Seq::new(events.len(), |i: int| events[i]@)
}

/// A blank event.
fn blank_event(max_buffer_size: usize) -> (event: Event)
    ensures
        event@ == EventView::blank(max_buffer_size),
{
    let event = Event::new(event::default_event_type(), "", max_buffer_size);
    proof {
        reveal_strlit("");
        assert(event.data@ =~= seq![]);
    }
    event
}

impl ParserState {
    /// Creates a parser.
    pub fn new(config: SseConfig) -> (parser: ParserState)
        ensures
            parser@ == ParserView::fresh(config),
    {
        ParserState {
            buffer: Vec::new(),
            at_start: true,
            after_return: false,
            current_event: blank_event(config.max_buffer_size),
            has_data: false,
            last_event_id: None,
            reconnection_time: config.reconnection_time,
            config,
        }
    }

    /// Processes incoming bytes and returns the events that they complete. Where a line is
    /// refused, the lines behind it stay in the buffer, and the events that earlier lines of this
    /// call completed are not returned.
    pub fn process_bytes(&mut self, bytes: &[u8]) -> (result: Result<Vec<Event>, SseError>)
        ensures
            final(self)@ == old(self)@.feed(bytes@).1,
            match result {
                Ok(events) => old(self)@.feed(bytes@).0 == Ok::<Seq<EventView>, Failure>(
                    views(events@),
                ),
                Err(error) => old(self)@.feed(bytes@).0 matches Err(failure) && error.reports(
                    failure,
                ),
            },
    {
        let max = self.config.max_buffer_size;
        let fits = match self.buffer.len().checked_add(bytes.len()) {
            Some(total) => total <= max,
            None => false,
        };
        if !fits {
            return Err(SseError::BufferOverflow { max });
        }
        let ghost start = ParserView { buffer: self@.buffer + bytes@, ..self@ };
        self.buffer.extend_from_slice(bytes);
        assert(self.buffer@ =~= start.buffer);
        let mut events: Vec<Event> = Vec::new();
        assert(after_events(views(events@), start.run().0) =~= start.run().0) by {
            if let Ok(more) = start.run().0 {
                assert(views(events@) + more =~= more);
            }
        }
        loop
            invariant
                start.run() == (
                    after_events(views(events@), self@.run().0),
                    self@.run().1,
                ),
                start == (ParserView { buffer: old(self)@.buffer + bytes@, ..old(self)@ }),
                old(self)@.feed(bytes@) == start.run(),
            decreases self@.buffer.len(),
        {
            self.settle();
            let ghost before = self@;
            proof {
                lemma_break(before.buffer);
            }
            let end = find_break(self.buffer.as_slice());
            if end == self.buffer.len() {
                assert(views(events@) + seq![] =~= views(events@));
                return Ok(events);
            }
            let line = self.take_line(end);
            match core::str::from_utf8(line.as_slice()) {
                Err(error) => {
                    return Err(SseError::from(error));
                },
                Ok(text) => {
                    match self.process_line(text) {
                        Err(error) => {
                            return Err(error);
                        },
                        Ok(Some(event)) => {
                            let ghost was = views(events@);
                            events.push(event);
                            proof {
                                if let Ok(more) = self@.run().0 {
                                    assert(was + (seq![event@] + more) =~= views(events@) + more);
                                }
                            }
                        },
                        Ok(None) => {},
                    }
                },
            }
        }
    }

    /// Drops the line feed that belongs to a carriage return before the buffer.
    fn settle(&mut self)
        ensures
            final(self)@ == old(self)@.settled(),
            final(self)@.run() == old(self)@.run(),
    {
        if self.after_return && self.buffer.len() > 0 {
            if self.buffer[0] == 10 {
                self.buffer.remove(0);
                assert(self.buffer@ =~= old(self).buffer@.skip(1));
            }
            self.after_return = false;
        }
    }

    /// Takes the first line, which is `end` bytes long, out of the buffer.
    fn take_line(&mut self, end: usize) -> (line: Vec<u8>)
        requires
            end == break_at(old(self)@.buffer) < old(self)@.buffer.len(),
        ensures
            line@ == old(self)@.without_mark(old(self)@.first_line()),
            final(self)@ == (ParserView { at_start: false, ..old(self)@.past_first_line() }),
    {
        let ghost before = self@;
        self.after_return = self.buffer[end] == 13;
        assert(end < self.buffer.len());
        let mut line = self.buffer.split_off(end + 1);
        core::mem::swap(&mut self.buffer, &mut line);
        line.truncate(end);
        assert(line@ =~= before.first_line());
        assert(self.buffer@ =~= before.past_first_line().buffer);
        // The first line of the stream may begin with a byte order mark.
        if self.at_start && line.len() >= 3 && line[0] == 0xef && line[1] == 0xbb && line[2]
            == 0xbf {
            line = line.split_off(3);
            assert(line@ =~= before.first_line().skip(3));
        }
        self.at_start = false;
        line
    }

    /// Processes a single line and returns an event if the line completes one.
    pub fn process_line(&mut self, line: &str) -> (result: Result<Option<Event>, SseError>)
        ensures
            final(self)@ == old(self)@.line(line@).1,
            match result {
                Ok(Some(event)) => old(self)@.line(line@).0 == Ok::<Option<EventView>, Failure>(
                    Some(event@),
                ),
                Ok(None) => old(self)@.line(line@).0 == Ok::<Option<EventView>, Failure>(None),
                Err(error) => old(self)@.line(line@).0 matches Err(failure) && error.reports(
                    failure,
                ),
            },
    {
        // An empty line ends the event.
        if line.is_empty() {
            return Ok(self.dispatch_event());
        }
        // A comment line; comments are dropped whether or not the configuration ignores them.
        if text::starts_with(line, ':') {
            return Ok(None);
        }
        if let Some((field, value)) = parse_field(line, self.config.trim_values) {
            match self.process_field(field.as_str(), value.as_str()) {
                Ok(()) => {},
                Err(error) => {
                    return Err(error);
                },
            }
        }
        Ok(None)
    }

    /// Processes a field with its value.
    pub fn process_field(&mut self, field: &str, value: &str) -> (result: Result<(), SseError>)
        ensures
            final(self)@ == old(self)@.field(field@, value@).1,
            match result {
                Ok(()) => old(self)@.field(field@, value@).0 is Ok,
                Err(error) => old(self)@.field(field@, value@).0 matches Err(failure)
                    && error.reports(failure),
            },
    {
        if text::same_text(field, "event") {
            self.current_event.event_type = value.to_string();
        } else if text::same_text(field, "data") {
            if self.has_data {
                self.current_event.data.append("\n");
                self.current_event.data.append(value);
            } else {
                self.current_event.data = value.to_string();
                self.has_data = true;
            }
        } else if text::same_text(field, "id") {
            if !text::contains(value, '\0') {
                self.current_event.id = Some(value.to_string());
            }
        } else if text::same_text(field, "retry") {
            match text::parse_number(value) {
                Some(retry) => {
                    self.current_event.retry = Some(retry);
                    self.reconnection_time = retry;
                },
                None => {
                    return Err(SseError::InvalidRetryValue(value.to_string()));
                },
            }
        }
        // Unknown fields are ignored.
        Ok(())
    }

    /// Ends the current event: notes its ID, hands it out where it has data, and starts the next
    /// one.
    pub fn dispatch_event(&mut self) -> (event: Option<Event>)
        ensures
            final(self)@ == old(self)@.dispatch().1,
            match event {
                Some(event) => old(self)@.dispatch().0 == Some(event@),
                None => old(self)@.dispatch().0 is None,
            },
    {
        if let Some(id) = &self.current_event.id {
            self.last_event_id = Some(id.clone());
        }
        if !self.has_data {
            self.reset_event();
            return None;
        }
        let mut event = blank_event(self.config.max_buffer_size);
        core::mem::swap(&mut self.current_event, &mut event);
        self.has_data = false;
        if event.event_type.as_str().is_empty() {
            event.event_type = event::default_event_type();
        }
        Some(event)
    }

    /// Starts a new event in place of the current one.
    fn reset_event(&mut self)
        ensures
            final(self)@ == old(self)@.with_blank_event(),
    {
        self.current_event = blank_event(self.config.max_buffer_size);
        self.has_data = false;
    }

    /// The last event ID, for reconnection.
    pub fn last_event_id(&self) -> (id: Option<&str>)
        ensures
            match id {
                Some(id) => self@.last_event_id == Some(id@),
                None => self@.last_event_id is None,
            },
    {
        match &self.last_event_id {
            Some(id) => Some(id.as_str()),
            None => None,
        }
    }

    /// The current reconnection time.
    pub fn reconnection_time(&self) -> (time: core::time::Duration)
        ensures
            config::nanoseconds(time) == self@.reconnection_time * 1_000_000,
    {
        core::time::Duration::from_millis(self.reconnection_time)
    }
}

} // verus!
