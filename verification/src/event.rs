//! Events and their text form.

use vstd::prelude::*;

use crate::text;

verus! {

/// `Into<String>` from a string slice goes through this conversion of `String`: a string with
/// the same characters.
pub assume_specification<'a>[ <String as From<&'a str>>::from ](s: &str) -> (string: String)
    ensures
        string@ == s@,
;

/// `Into<String>` from a `String` goes through the conversion of any type to itself: the
/// argument unchanged.
pub assume_specification<Any>[ <Any as From<Any>>::from ](value: Any) -> (same: Any)
    ensures
        same == value,
;

/// A parsed event with all its fields.
#[derive(Debug)]
pub struct Event {
    /// The event type, "message" if none was given.
    pub event_type: String,
    /// The event data.
    pub data: String,
    /// The event ID, for the `Last-Event-ID` header.
    pub id: Option<String>,
    /// The retry interval in milliseconds.
    pub retry: Option<u64>,
    /// The buffer size of the parser that the event comes from.
    pub max_buffer_size: usize,
}

/// The contents of an event.
pub struct EventView {
    pub event_type: Seq<char>,
    pub data: Seq<char>,
    pub id: Option<Seq<char>>,
    pub retry: Option<u64>,
    pub max_buffer_size: usize,
}

/// The characters of an optional string.
pub open spec fn optional_text(text: Option<String>) -> Option<Seq<char>> {
    match text {
        Some(text) => Some(text@),
        None => None,
    }
}

impl View for Event {
    type V = EventView;

    open spec fn view(&self) -> EventView {
        EventView {
            event_type: self.event_type@,
            data: self.data@,
            id: optional_text(self.id),
            retry: self.retry,
            max_buffer_size: self.max_buffer_size,
        }
    }
}

/// The type of an event that gives none.
pub open spec fn message_type() -> Seq<char> {
    "message"@
}

/// A line `name: value`, with its line feed.
pub open spec fn field_line(name: Seq<char>, value: Seq<char>) -> Seq<char> {
    name + ": "@ + value + "\n"@
}

/// The line for an event type, which "message" has none of.
pub open spec fn type_line(event_type: Seq<char>) -> Seq<char> {
    if event_type != message_type() {
        field_line("event"@, event_type)
    } else {
        seq![]
    }
}

/// The line for an ID, where there is one.
pub open spec fn id_line(id: Option<Seq<char>>) -> Seq<char> {
    match id {
        Some(id) => field_line("id"@, id),
        None => seq![],
    }
}

/// The line for a retry interval, where there is one.
pub open spec fn retry_line(retry: Option<u64>) -> Seq<char> {
    match retry {
        Some(retry) => field_line("retry"@, text::decimal(retry as nat)),
        None => seq![],
    }
}

/// One `data` line for each of the given lines.
pub open spec fn data_lines(lines: Seq<Seq<char>>) -> Seq<char>
    decreases lines.len(),
{
    if lines.len() == 0 {
        seq![]
    } else {
        field_line("data"@, lines[0]) + data_lines(lines.drop_first())
    }
}

impl EventView {
    /// The event without data, ID or retry interval, of type "message".
    pub open spec fn blank(max_buffer_size: usize) -> EventView {
        EventView {
            event_type: message_type(),
            data: seq![],
            id: None,
            retry: None,
            max_buffer_size,
        }
    }

    /// The text form of an event: its type unless that is "message", its ID, its retry interval,
    /// its data line by line, and an empty line.
    pub open spec fn text(self) -> Seq<char> {
        type_line(self.event_type) + id_line(self.id) + retry_line(self.retry) + data_lines(
            text::lines(self.data),
        ) + "\n"@
    }
}

/// The event type of an event that gives none.
pub(crate) fn default_event_type() -> (event_type: String)
    ensures
        event_type@ == message_type(),
{
    "message".to_string()
}

impl Event {
    /// Creates a new event with the given type and data.
    pub fn new<S: Into<String>, D: Into<String>>(
        event_type: S,
        data: D,
        max_buffer_size: usize,
    ) -> (event: Event)
        ensures
            call_ensures(<S as Into<String>>::into, (event_type,), event.event_type),
            call_ensures(<D as Into<String>>::into, (data,), event.data),
            event.id is None,
            event.retry is None,
            event.max_buffer_size == max_buffer_size,
    {
        Event {
            event_type: event_type.into(),
            data: data.into(),
            id: None,
            retry: None,
            max_buffer_size,
        }
    }

    /// Sets the event ID.
    pub fn with_id<S: Into<String>>(self, id: S) -> (event: Event)
        ensures
            event.id matches Some(text) && call_ensures(<S as Into<String>>::into, (id,), text),
            event == (Event { id: event.id, ..self }),
    {
        let mut event = self;
        event.id = Some(id.into());
        event
    }

    /// Sets the retry interval.
    pub fn with_retry(self, retry: u64) -> (event: Event)
        ensures
            event == (Event { retry: Some(retry), ..self }),
    {
        let mut event = self;
        event.retry = Some(retry);
        event
    }

    /// Tells whether this is a "message" event.
    pub fn is_message(&self) -> (message: bool)
        ensures
            message == (self@.event_type == message_type()),
            message == (self.event_type@ == "message"@),
    {
        text::same_text(self.event_type.as_str(), "message")
    }

    /// Decodes the event data as JSON with `serde_json::from_str`. What comes out is up to the
    /// impl of `Deserialize` for `T`, so nothing is said of it.
    #[verifier::external_body]
    pub fn deserialize_data<T: serde::de::DeserializeOwned>(&self) -> (value: Result<
        T,
        serde_json::Error,
    >) {
        serde_json::from_str(&self.data)
    }
}

/// Appends the line `name: value`.
fn push_field(out: &mut String, name: &str, value: &str)
    ensures
        final(out)@ == old(out)@ + field_line(name@, value@),
{
    out.append(name);
    out.append(": ");
    out.append(value);
    out.append("\n");
    assert(out@ =~= old(out)@ + field_line(name@, value@));
}

impl Event {
    /// The text form of the event.
    pub fn to_string(&self) -> (text: String)
        ensures
            text@ == self@.text(),
    {
        let mut out = String::new();
        if !self.is_message() {
            push_field(&mut out, "event", self.event_type.as_str());
        }
        if let Some(id) = &self.id {
            push_field(&mut out, "id", id.as_str());
        }
        if let Some(retry) = self.retry {
            let mut number = String::new();
            text::push_decimal(&mut number, retry);
            assert(number@ =~= text::decimal(retry as nat));
            push_field(&mut out, "retry", number.as_str());
        }
        let ghost head = out@;
        let mut rest: &str = self.data.as_str();
        let mut more: bool = !rest.is_empty();
        let ghost all = text::lines(self.data@);
        while more
            invariant
                more == (rest@.len() > 0),
                out@ + data_lines(text::lines(rest@)) == head + data_lines(all),
            decreases rest@.len(),
        {
            let ghost before = rest@;
            let ghost written = out@;
            match text::split_first(rest, '\n') {
                Some((line, tail)) => {
                    let bare = text::strip_trailing_return(line);
                    push_field(&mut out, "data", bare);
                    proof {
                        text::lemma_lines_step(line@, tail@);
                        let split = text::lines(before);
                        assert(split.drop_first() =~= text::lines(tail@));
                        assert(out@ + data_lines(text::lines(tail@)) =~= written + data_lines(
                            split,
                        ));
                    }
                    rest = tail;
                },
                None => {
                    push_field(&mut out, "data", rest);
                    proof {
                        text::lemma_position(before, '\n');
                        let split = text::lines(before);
                        assert(split =~= seq![before]);
                        assert(split.drop_first() =~= seq![]);
                        reveal_with_fuel(data_lines, 2);
                        assert(out@ + data_lines(seq![]) =~= written + data_lines(split));
                        reveal_strlit("");
                        assert(text::lines(""@) =~= seq![]);
                    }
                    rest = "";
                },
            }
            more = !rest.is_empty();
        }
        proof {
            assert(rest@ =~= seq![]);
            assert(text::lines(rest@) =~= seq![]);
            assert(data_lines(text::lines(rest@)) =~= seq![]);
        }
        let ghost body = out@;
        out.append("\n");
        assert(body == head + data_lines(all));
        assert(out@ =~= self@.text());
        out
    }
}

/// Compares two optional strings by their characters.
fn same_optional_text(a: &Option<String>, b: &Option<String>) -> (same: bool)
    ensures
        same == (optional_text(*a) == optional_text(*b)),
{
    match (a, b) {
        (Some(a), Some(b)) => text::same_text(a.as_str(), b.as_str()),
        (None, None) => true,
        _ => false,
    }
}

impl PartialEq for Event {
    fn eq(&self, other: &Event) -> (same: bool) {
        text::same_text(self.event_type.as_str(), other.event_type.as_str()) && text::same_text(
            self.data.as_str(),
            other.data.as_str(),
        ) && same_optional_text(&self.id, &other.id) && self.retry == other.retry
            && self.max_buffer_size == other.max_buffer_size
    }
}

impl vstd::std_specs::cmp::PartialEqSpecImpl for Event {
    open spec fn obeys_eq_spec() -> bool {
        true
    }

    open spec fn eq_spec(&self, other: &Event) -> bool {
        self@ == other@
    }
}

impl Eq for Event {

}

impl Clone for Event {
    fn clone(&self) -> (copy: Event)
        ensures
            copy@ == self@,
    {
        Event {
            event_type: self.event_type.clone(),
            data: self.data.clone(),
            id: match &self.id {
                Some(id) => Some(id.clone()),
                None => None,
            },
            retry: self.retry,
            max_buffer_size: self.max_buffer_size,
        }
    }
}

} // verus!
