//! What holds of lines, fields and events.

use vstd::prelude::*;
use vstd::utf8::*;

use crate::error::Failure;
use crate::event::EventView;
use crate::parser;
use crate::parser::ParserView;
use crate::text;

verus! {

/// A line that begins with a colon changes nothing.
pub proof fn law_comment_changes_nothing(state: ParserView, comment: Seq<char>)
    ensures
        state.line(seq![':'] + comment) == (Ok::<Option<EventView>, Failure>(None), state),
{
}

/// A field with another name than "event", "data", "id" and "retry" changes nothing.
pub proof fn law_unknown_field_ignored(state: ParserView, name: Seq<char>, value: Seq<char>)
    requires
        name != "event"@,
        name != "data"@,
        name != "id"@,
        name != "retry"@,
    ensures
        state.field(name, value) == (Ok::<(), Failure>(()), state),
{
}

/// The order of two fields with different names does not matter: either way the parser ends up in
/// the same state, and each of them is accepted or refused as it is alone.
pub proof fn law_fields_commute(
    state: ParserView,
    one: Seq<char>,
    one_value: Seq<char>,
    other: Seq<char>,
    other_value: Seq<char>,
)
    requires
        one != other,
    ensures
        state.field(one, one_value).1.field(other, other_value).1 == state.field(
            other,
            other_value,
        ).1.field(one, one_value).1,
        state.field(one, one_value).1.field(other, other_value).0 == state.field(
            other,
            other_value,
        ).0,
        state.field(other, other_value).1.field(one, one_value).0 == state.field(
            one,
            one_value,
        ).0,
{
    lemma_names_differ();
}

/// A line without a colon is the field of that name with an empty value.
pub proof fn law_no_colon_is_empty_value(state: ParserView, name: Seq<char>)
    requires
        name.len() > 0,
        !name.contains(':'),
    ensures
        state.line(name) == state.line(name + seq![':']),
{
    let line = name + seq![':'];
    text::lemma_position(name, ':');
    text::lemma_position_split(name, ':', Seq::empty());
    assert(line =~= name + seq![':'] + Seq::empty());
    assert(text::trimmed(Seq::<char>::empty()) =~= Seq::empty());
    assert(name.contains(name[0]));
    assert(line[0] == name[0]);
    let (_, value) = parser::field_of(line, state.config.trim_values);
    assert(value =~= Seq::empty());
}

/// The name of a field is what stands before the first colon, and its value what follows, without
/// one space at its front and, if so configured, without white space around it. The value may hold
/// colons. A line without a colon is a name with an empty value.
pub proof fn law_name_and_value(name: Seq<char>, rest: Seq<char>, trim_values: bool)
    requires
        !name.contains(':'),
    ensures
        parser::field_of(name + seq![':', ' '] + rest, trim_values) == (
            name,
            if trim_values {
                text::trimmed(rest)
            } else {
                rest
            },
        ),
        rest.len() == 0 || rest[0] != ' ' ==> parser::field_of(
            name + seq![':'] + rest,
            trim_values,
        ) == (
            name,
            if trim_values {
                text::trimmed(rest)
            } else {
                rest
            },
        ),
        parser::field_of(name, trim_values) == (name, Seq::<char>::empty()),
{
    let spaced = seq![' '] + rest;
    assert(name + seq![':', ' '] + rest =~= name + seq![':'] + spaced);
    text::lemma_position_split(name, ':', spaced);
    text::lemma_position_split(name, ':', rest);
    text::lemma_position(name, ':');
    assert(spaced.drop_first() =~= rest);
}

/// A field reads back without the space as well: the name must hold no colon, the value must not
/// begin with a space, and with trimming it must have no white space around it.
pub proof fn law_bare_field_reads_back(name: Seq<char>, value: Seq<char>, trim_values: bool)
    requires
        !name.contains(':'),
        value.len() == 0 || value[0] != ' ',
        trim_values ==> text::trimmed(value) == value,
    ensures
        parser::field_of(name + seq![':'] + value, trim_values) == (name, value),
{
    law_name_and_value(name, value, trim_values);
}

/// Without trimming, every line with a colon is its name, a colon, at most one space, and its
/// value: no character of the line is lost.
pub proof fn law_line_is_name_and_value(line: Seq<char>)
    requires
        line.contains(':'),
    ensures
        ({
            let (name, value) = parser::field_of(line, false);
            &&& !name.contains(':')
            &&& line == name + seq![':', ' '] + value || (line == name + seq![':'] + value && (
            value.len() == 0 || value[0] != ' '))
        }),
{
    text::lemma_position(line, ':');
    let n = text::position(line, ':');
    let name = line.take(n);
    let rest = line.skip(n + 1);
    assert(!name.contains(':'));
    assert(line =~= name + seq![':'] + rest);
    if rest.len() > 0 && rest[0] == ' ' {
        let value = rest.skip(1);
        assert(line =~= name + seq![':', ' '] + value);
        law_name_and_value(name, value, false);
    } else {
        law_name_and_value(name, rest, false);
    }
}

/// A line that is neither empty nor a comment does what the field of its name and its value does,
/// whichever way it is spelled.
pub proof fn law_line_does_as_field(state: ParserView, name: Seq<char>, rest: Seq<char>)
    requires
        name.len() > 0,
        !name.contains(':'),
    ensures
        ({
            let value = if state.config.trim_values {
                text::trimmed(rest)
            } else {
                rest
            };
            let done = match state.field(name, value) {
                (Ok(()), next) => (Ok::<Option<EventView>, Failure>(None), next),
                (Err(failure), next) => (Err::<Option<EventView>, Failure>(failure), next),
            };
            &&& state.line(name + seq![':', ' '] + rest) == done
            &&& rest.len() == 0 || rest[0] != ' ' ==> state.line(name + seq![':'] + rest) == done
        }),
        state.line(name) == match state.field(name, seq![]) {
            (Ok(()), next) => (Ok::<Option<EventView>, Failure>(None), next),
            (Err(failure), next) => (Err::<Option<EventView>, Failure>(failure), next),
        },
{
    law_name_and_value(name, rest, state.config.trim_values);
    assert(name.contains(name[0]));
    assert((name + seq![':', ' '] + rest)[0] == name[0]);
    assert((name + seq![':'] + rest)[0] == name[0]);
}

/// An `event` field sets the type of the event, and nothing else.
pub proof fn law_event_sets_type(state: ParserView, value: Seq<char>)
    ensures
        state.field("event"@, value) == (
            Ok::<(), Failure>(()),
            ParserView { event: EventView { event_type: value, ..state.event }, ..state },
        ),
{
}

/// A `data` field becomes the data of the event where it is the first one; another one is added to
/// them behind a line feed. It changes nothing else.
pub proof fn law_data_appended(state: ParserView, value: Seq<char>)
    ensures
        state.field("data"@, value) == (
            Ok::<(), Failure>(()),
            ParserView {
                event: EventView {
                    data: if state.has_data {
                        state.event.data + seq!['\n'] + value
                    } else {
                        value
                    },
                    ..state.event
                },
                has_data: true,
                ..state
            },
        ),
{
    lemma_names_differ();
    reveal_strlit("\n");
    assert("\n"@ =~= seq!['\n']);
}

/// A `data` line does the same with a space behind its colon and without, and adds its value to
/// what came before.
pub proof fn law_data_line_appended(state: ParserView, rest: Seq<char>)
    requires
        !state.config.trim_values,
    ensures
        ({
            let next = ParserView {
                event: EventView {
                    data: if state.has_data {
                        state.event.data + seq!['\n'] + rest
                    } else {
                        rest
                    },
                    ..state.event
                },
                has_data: true,
                ..state
            };
            &&& state.line("data: "@ + rest) == (Ok::<Option<EventView>, Failure>(None), next)
            &&& rest.len() == 0 || rest[0] != ' ' ==> state.line("data:"@ + rest) == (
                Ok::<Option<EventView>, Failure>(None),
                next,
            )
        }),
{
    lemma_names_differ();
    reveal_strlit("data: ");
    reveal_strlit("data:");
    assert("data: "@ + rest =~= "data"@ + seq![':', ' '] + rest);
    assert("data:"@ + rest =~= "data"@ + seq![':'] + rest);
    law_line_does_as_field(state, "data"@, rest);
    law_data_appended(state, rest);
}

/// A line of bytes does what its text does where it is UTF-8; another one is refused and changes
/// nothing.
pub proof fn law_bytes_as_text(state: ParserView, line: Seq<char>, bytes: Seq<u8>)
    ensures
        state.byte_line(encode_utf8(line)) == state.line(line),
        !valid_utf8(bytes) ==> state.byte_line(bytes) == (
            Err::<Option<EventView>, Failure>(Failure::Utf8 { line: bytes }),
            state,
        ),
{
    encode_utf8_valid_utf8(line);
    encode_utf8_decode_utf8(line);
}

/// An empty line hands out an event exactly where a `data` field came: the event as it is, but
/// "message" in place of an empty type. Its ID, if it has one, becomes the last event ID either
/// way, and nothing of it stays.
pub proof fn law_empty_line_ends_event(state: ParserView)
    ensures
        state.line(seq![]).0 is Ok,
        state.line(seq![]) == (
            Ok::<Option<EventView>, Failure>(state.dispatch().0),
            state.dispatch().1,
        ),
        state.dispatch().0 is Some <==> state.has_data,
        state.dispatch().0 matches Some(event) ==> {
            &&& event.data == state.event.data
            &&& event.id == state.event.id
            &&& event.retry == state.event.retry
            &&& event.max_buffer_size == state.event.max_buffer_size
            &&& state.event.event_type.len() > 0 ==> event.event_type == state.event.event_type
            &&& state.event.event_type.len() == 0 ==> event.event_type == "message"@
        },
        state.dispatch().1 == (ParserView {
            last_event_id: if state.event.id is Some {
                state.event.id
            } else {
                state.last_event_id
            },
            event: EventView {
                event_type: "message"@,
                data: seq![],
                id: None,
                retry: None,
                max_buffer_size: state.config.max_buffer_size,
            },
            has_data: false,
            ..state
        }),
{
}

/// No event is handed out twice: another empty line gives nothing and changes nothing.
pub proof fn law_dispatch_once(state: ParserView)
    ensures
        state.dispatch().1.dispatch() == (None::<EventView>, state.dispatch().1),
{
}

/// A `retry` field sets the reconnection time and the retry interval of the event to its number; a
/// value that is no number is refused and changes nothing.
pub proof fn law_retry_sets_time(state: ParserView, value: Seq<char>)
    ensures
        match text::number_in(value) {
            Some(number) => state.field("retry"@, value) == (
                Ok::<(), Failure>(()),
                ParserView {
                    reconnection_time: number,
                    event: EventView { retry: Some(number), ..state.event },
                    ..state
                },
            ),
            None => state.field("retry"@, value) == (
                Err::<(), Failure>(Failure::InvalidRetryValue { value }),
                state,
            ),
        },
{
    lemma_names_differ();
}

/// An ID with a NUL character is ignored; another one becomes the ID of the event.
pub proof fn law_id_without_nul(state: ParserView, value: Seq<char>)
    ensures
        state.field("id"@, value) == (
            Ok::<(), Failure>(()),
            if value.contains('\0') {
                state
            } else {
                ParserView { event: EventView { id: Some(value), ..state.event }, ..state }
            },
        ),
{
    lemma_names_differ();
}

/// The four field names, letter by letter, and that no two are the same.
pub(crate) proof fn lemma_names_differ()
    ensures
        "event"@ == seq!['e', 'v', 'e', 'n', 't'],
        "data"@ == seq!['d', 'a', 't', 'a'],
        "id"@ == seq!['i', 'd'],
        "retry"@ == seq!['r', 'e', 't', 'r', 'y'],
        "event"@ != "data"@,
        "event"@ != "id"@,
        "event"@ != "retry"@,
        "data"@ != "id"@,
        "data"@ != "retry"@,
        "id"@ != "retry"@,
{
    reveal_strlit("event");
    reveal_strlit("data");
    reveal_strlit("id");
    reveal_strlit("retry");
    assert("event"@ =~= seq!['e', 'v', 'e', 'n', 't']);
    assert("data"@ =~= seq!['d', 'a', 't', 'a']);
    assert("id"@ =~= seq!['i', 'd']);
    assert("retry"@ =~= seq!['r', 'e', 't', 'r', 'y']);
    assert("event"@[0] != "retry"@[0]);
}

/// Lines with a line feed between them.
pub open spec fn joined(lines: Seq<Seq<char>>) -> Seq<char>
    decreases lines.len(),
{
    if lines.len() == 0 {
        seq![]
    } else if lines.len() == 1 {
        lines[0]
    } else {
        joined(lines.drop_last()) + "\n"@ + lines.last()
    }
}

/// A parser after `data` fields with the given values.
pub open spec fn with_all_data(state: ParserView, values: Seq<Seq<char>>) -> ParserView
    decreases values.len(),
{
    if values.len() == 0 {
        state
    } else {
        with_all_data(state, values.drop_last()).with_data(values.last())
    }
}

/// The data of an event are the values of its `data` fields with a line feed between them.
pub proof fn law_data_lines_joined(state: ParserView, values: Seq<Seq<char>>)
    requires
        !state.has_data,
        values.len() > 0,
    ensures
        with_all_data(state, values) == (ParserView {
            event: EventView { data: joined(values), ..state.event },
            has_data: true,
            ..state
        }),
    decreases values.len(),
{
    if values.len() == 1 {
        assert(values.drop_last() =~= Seq::empty());
        assert(with_all_data(state, values.drop_last()) == state);
        reveal_with_fuel(with_all_data, 2);
    } else {
        law_data_lines_joined(state, values.drop_last());
    }
}

} // verus!
