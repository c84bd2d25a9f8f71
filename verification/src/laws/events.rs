//! What events are made of, and what their text form says, field by field.

use vstd::prelude::*;

use crate::config::SseConfig;
use crate::error::Failure;
use crate::error::SseError;
use crate::event;
use crate::event::Event;
use crate::event::EventView;
use crate::parser;
use crate::parser::ParserView;
use crate::text;
use vstd::std_specs::cmp::PartialEqSpec;
use vstd::utf8::*;

verus! {

// ---------------------------------------------------------------------------
// Contents
// ---------------------------------------------------------------------------

/// The contents of an event are those of its fields.
pub proof fn law_contents_are_the_fields(event: Event)
    ensures
        event@.event_type == event.event_type@,
        event@.data == event.data@,
        event@.id is Some <==> event.id is Some,
        event.id matches Some(id) ==> event@.id == Some(id@),
        event@.retry == event.retry,
        event@.max_buffer_size == event.max_buffer_size,
{
}

/// Two events are equal exactly if each field of one is that of the other, character by character.
pub proof fn law_equal_by_fields(one: Event, other: Event)
    ensures
        one.eq_spec(&other) <==> {
            &&& one.event_type@ == other.event_type@
            &&& one.data@ == other.data@
            &&& match (one.id, other.id) {
                (Some(a), Some(b)) => a@ == b@,
                (None, None) => true,
                _ => false,
            }
            &&& one.retry == other.retry
            &&& one.max_buffer_size == other.max_buffer_size
        },
{
}

/// The contents of several events are those of each, in their order.
pub proof fn law_contents_of_each(events: Seq<Event>)
    ensures
        parser::views(events).len() == events.len(),
        forall|i: int| 0 <= i < events.len() ==> #[trigger] parser::views(events)[i] == events[i]@,
{
}

/// The default configuration has a buffer of one megabyte and a reconnection time of three
/// seconds, ignores comments and trims values; a parser that has seen nothing has nothing but its
/// configuration.
pub proof fn law_fresh_parser(config: SseConfig)
    ensures
        SseConfig::standard().max_buffer_size == 1024 * 1024,
        SseConfig::standard().reconnection_time == 3 * 1000,
        SseConfig::standard().ignore_comments,
        SseConfig::standard().trim_values,
        ParserView::fresh(config).config == config,
        ParserView::fresh(config).buffer.len() == 0,
        ParserView::fresh(config).at_start,
        !ParserView::fresh(config).after_return,
        !ParserView::fresh(config).has_data,
        ParserView::fresh(config).last_event_id is None,
        ParserView::fresh(config).reconnection_time == config.reconnection_time,
        ParserView::fresh(config).event.event_type == "message"@,
        ParserView::fresh(config).event.data.len() == 0,
        ParserView::fresh(config).event.id is None,
        ParserView::fresh(config).event.retry is None,
        ParserView::fresh(config).event.max_buffer_size == config.max_buffer_size,
{
}

/// An error reports a failure exactly if it is of its kind and carries what belongs to it: the
/// limit of the buffer, the value that is no number, or how many of the first bytes of the line
/// are UTF-8, as many as can be.
pub proof fn law_error_reports(error: SseError, failure: Failure)
    ensures
        error.reports(failure) <==> match (error, failure) {
            (SseError::BufferOverflow { max }, Failure::BufferOverflow { max: limit }) => max
                == limit,
            (SseError::InvalidRetryValue(text), Failure::InvalidRetryValue { value }) => text@
                == value,
            (SseError::Utf8(utf8), Failure::Utf8 { line }) => {
                &&& utf8.valid_up_to <= line.len()
                &&& valid_utf8(line.take(utf8.valid_up_to as int))
                &&& forall|m: int|
                    utf8.valid_up_to < m <= line.len() ==> !valid_utf8(#[trigger] line.take(m))
                &&& utf8.error_len == text::utf8_error_len(line)
            },
            _ => false,
        },
{
}

// ---------------------------------------------------------------------------
// The text form
// ---------------------------------------------------------------------------

/// An event of another type than "message" is written as the "message" is, behind a line with its
/// type.
pub proof fn law_type_written(event: EventView, event_type: Seq<char>)
    requires
        event_type != "message"@,
    ensures
        (EventView { event_type, ..event }).text() == "event: "@ + event_type + "\n"@ + (EventView {
            event_type: "message"@,
            ..event
        }).text(),
{
    reveal_strlit("event: ");
    reveal_strlit("event");
    reveal_strlit(": ");
    assert("event"@ + ": "@ =~= "event: "@);
    assert((EventView { event_type, ..event }).text() =~= "event: "@ + event_type + "\n"@ + (
    EventView { event_type: "message"@, ..event }).text());
}

/// A "message" with an ID is written as it is without one, behind a line with the ID.
pub proof fn law_id_written(event: EventView, id: Seq<char>)
    requires
        event.event_type == "message"@,
    ensures
        (EventView { id: Some(id), ..event }).text() == "id: "@ + id + "\n"@ + (EventView {
            id: None,
            ..event
        }).text(),
{
    reveal_strlit("id: ");
    reveal_strlit("id");
    reveal_strlit(": ");
    assert("id"@ + ": "@ =~= "id: "@);
    assert((EventView { id: Some(id), ..event }).text() =~= "id: "@ + id + "\n"@ + (EventView {
        id: None,
        ..event
    }).text());
}

/// A "message" without an ID but with a retry interval is written as it is without one, behind a
/// line with the number in decimal.
pub proof fn law_retry_written(event: EventView, retry: u64)
    requires
        event.event_type == "message"@,
        event.id is None,
    ensures
        (EventView { retry: Some(retry), ..event }).text() == "retry: "@ + text::decimal(
            retry as nat,
        ) + "\n"@ + (EventView { retry: None, ..event }).text(),
{
    reveal_strlit("retry: ");
    reveal_strlit("retry");
    reveal_strlit(": ");
    assert("retry"@ + ": "@ =~= "retry: "@);
    assert((EventView { retry: Some(retry), ..event }).text() =~= "retry: "@ + text::decimal(
        retry as nat,
    ) + "\n"@ + (EventView { retry: None, ..event }).text());
}

/// An event with nothing to write is an empty line, and the limit of the buffer is never written.
pub proof fn law_nothing_written(event: EventView, max_buffer_size: usize)
    ensures
        event.event_type == "message"@ && event.data.len() == 0 && event.id is None
            && event.retry is None ==> event.text() == "\n"@,
        (EventView { max_buffer_size, ..event }).text() == event.text(),
{
    if event.data.len() == 0 {
        assert(text::lines(event.data) =~= Seq::empty());
        assert(event::data_lines(text::lines(event.data)) =~= Seq::empty());
        if event.event_type == "message"@ && event.id is None && event.retry is None {
            assert(event.text() =~= "\n"@);
        }
    }
}

/// Data without a line feed are one line, and the empty line follows.
pub proof fn law_last_line_written(event: EventView)
    requires
        event.event_type == "message"@,
        event.id is None,
        event.retry is None,
        event.data.len() > 0,
        !event.data.contains('\n'),
    ensures
        event.text() == "data: "@ + event.data + "\n"@ + "\n"@,
{
    text::lemma_position(event.data, '\n');
    assert(text::lines(event.data) =~= seq![event.data]);
    lemma_data_line(event.data, Seq::empty());
    assert(seq![event.data] + Seq::<Seq<char>>::empty() =~= seq![event.data]);
    assert(event.text() =~= "data: "@ + event.data + "\n"@ + "\n"@);
}

/// Data with a line feed are written line by line: first what is before the line feed, without the
/// carriage return that belongs to the line feed, then what is behind it.
pub proof fn law_first_line_written(event: EventView, head: Seq<char>, tail: Seq<char>)
    requires
        event.event_type == "message"@,
        event.id is None,
        event.retry is None,
        !head.contains('\n'),
    ensures
        (EventView { data: head + seq!['\r', '\n'] + tail, ..event }).text() == "data: "@ + head
            + "\n"@ + (EventView { data: tail, ..event }).text(),
        head.len() == 0 || head.last() != '\r' ==> (EventView {
            data: head + seq!['\n'] + tail,
            ..event
        }).text() == "data: "@ + head + "\n"@ + (EventView { data: tail, ..event }).text(),
{
    let rest = (EventView { data: tail, ..event }).text();
    lemma_data_line(head, text::lines(tail));
    let long = head.push('\r');
    assert(!long.contains('\n')) by {
        if long.contains('\n') {
            let i = choose|i: int| 0 <= i < long.len() && long[i] == '\n';
            assert(head[i] == '\n');
        }
    }
    assert(head + seq!['\r', '\n'] + tail =~= long + seq!['\n'] + tail);
    text::lemma_lines_step(long, tail);
    assert(long.drop_last() =~= head);
    assert((EventView { data: head + seq!['\r', '\n'] + tail, ..event }).text() =~= "data: "@ + head
        + "\n"@ + rest);
    if head.len() == 0 || head.last() != '\r' {
        text::lemma_lines_step(head, tail);
        assert((EventView { data: head + seq!['\n'] + tail, ..event }).text() =~= "data: "@ + head
            + "\n"@ + rest);
    }
}

proof fn lemma_data_line(line: Seq<char>, rest: Seq<Seq<char>>)
    ensures
        event::data_lines(seq![line] + rest) == "data: "@ + line + "\n"@ + event::data_lines(rest),
{
    reveal_strlit("data: ");
    reveal_strlit("data");
    reveal_strlit(": ");
    assert("data"@ + ": "@ =~= "data: "@);
    assert((seq![line] + rest).drop_first() =~= rest);
    assert(event::data_lines(seq![line] + rest) =~= "data: "@ + line + "\n"@ + event::data_lines(
        rest,
    ));
}

} // verus!
