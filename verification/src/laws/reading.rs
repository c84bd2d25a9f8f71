//! What was written is read back.

use vstd::prelude::*;
use vstd::utf8::*;

use crate::config::SseConfig;
use crate::error::Failure;
use crate::event;
use crate::event::EventView;
use crate::laws::chunks;
use crate::laws::fields;
use crate::parser;
use crate::parser::ParserView;
use crate::text;

verus! {

/// A value that survives as the value of a field line.
pub open spec fn fits_line(value: Seq<char>, trim_values: bool) -> bool {
    &&& !value.contains('\n')
    &&& !value.contains('\r')
    &&& trim_values ==> text::trimmed(value) == value
}

/// A field that is written as `name: value` is read as that name and that value. The name must
/// hold no colon, and with trimming the value must have no white space around it.
pub proof fn law_field_reads_back(name: Seq<char>, value: Seq<char>, trim_values: bool)
    requires
        !name.contains(':'),
        trim_values ==> text::trimmed(value) == value,
    ensures
        parser::field_of(name + ": "@ + value, trim_values) == (name, value),
{
    reveal_strlit(": ");
    let line = name + ": "@ + value;
    let rest = seq![' '] + value;
    assert(line =~= name + seq![':'] + rest);
    text::lemma_position_split(name, ':', rest);
    assert(rest.drop_first() =~= value);
}

/// The parser is past the start of the stream and not behind a carriage return.
spec fn is_plain(state: ParserView) -> bool {
    !state.at_start && !state.after_return
}

/// How a parser takes the first line of its buffer, given the text of the line.
proof fn lemma_first_line(state: ParserView, line: Seq<char>, rest: Seq<u8>)
    requires
        is_plain(state),
        state.buffer == encode_utf8(line + "\n"@) + rest,
        !line.contains('\n'),
        !line.contains('\r'),
    ensures
        state.run() == match chunks::with_buffer(state, rest).line(line) {
            (Ok(found), next) => (parser::after_event(found, next.run().0), next.run().1),
            (Err(failure), next) => (Err(failure), next),
        },
{
    let bytes = encode_utf8(line);
    reveal_strlit("\n");
    assert("\n"@ =~= seq!['\n']);
    text::lemma_encode_concat(line, seq!['\n']);
    text::lemma_encode_ascii('\n');
    assert(state.buffer =~= bytes + seq![10u8] + rest);
    text::lemma_encode_contains(line, '\n');
    text::lemma_encode_contains(line, '\r');
    assert(!parser::has_break(bytes)) by {
        if parser::has_break(bytes) {
            let i = choose|i: int| 0 <= i < bytes.len() && parser::is_break(#[trigger] bytes[i]);
            assert(bytes.contains(bytes[i]));
        }
    }
    parser::lemma_break_split(bytes, 10u8, rest);
    encode_utf8_valid_utf8(line);
    encode_utf8_decode_utf8(line);
    assert(state.past_first_line() == chunks::with_buffer(state, rest));
}

/// How a parser takes a field line that was written.
proof fn lemma_first_field(state: ParserView, name: Seq<char>, value: Seq<char>, rest: Seq<u8>)
    requires
        state.buffer == encode_utf8(event::field_line(name, value)) + rest,
        name.len() > 0,
        !name.contains(':'),
        !name.contains('\n'),
        !name.contains('\r'),
        is_plain(state),
        fits_line(value, state.config.trim_values),
        chunks::with_buffer(state, rest).field(name, value).0 is Ok,
    ensures
        state.run() == chunks::with_buffer(state, rest).field(name, value).1.run(),
{
    let line = name + ": "@ + value;
    reveal_strlit(": ");
    assert(!line.contains('\n')) by {
        if line.contains('\n') {
            let i = choose|i: int| 0 <= i < line.len() && line[i] == '\n';
            if i < name.len() {
                assert(name[i] == '\n');
            } else if i >= name.len() + 2 {
                assert(value[i - name.len() - 2] == '\n');
            }
        }
    }
    assert(!line.contains('\r')) by {
        if line.contains('\r') {
            let i = choose|i: int| 0 <= i < line.len() && line[i] == '\r';
            if i < name.len() {
                assert(name[i] == '\r');
            } else if i >= name.len() + 2 {
                assert(value[i - name.len() - 2] == '\r');
            }
        }
    }
    if line[0] == ':' {
        assert(name[0] == ':');
    }
    lemma_first_line(state, line, rest);
    law_field_reads_back(name, value, state.config.trim_values);
}

/// The first of several `data` fields can be taken by itself.
proof fn lemma_data_first(state: ParserView, values: Seq<Seq<char>>)
    requires
        values.len() > 0,
    ensures
        fields::with_all_data(state, values) == fields::with_all_data(
            state.with_data(values[0]),
            values.drop_first(),
        ),
    decreases values.len(),
{
    if values.len() == 1 {
        assert(values.drop_last() =~= Seq::empty());
        assert(values.drop_first() =~= Seq::empty());
        reveal_with_fuel(fields::with_all_data, 2);
    } else {
        lemma_data_first(state, values.drop_last());
        assert(values.drop_last().drop_first() =~= values.drop_first().drop_last());
        assert(values.drop_first().last() == values.last());
    }
}

/// How a parser takes `data` lines that were written.
proof fn lemma_data_lines(state: ParserView, lines: Seq<Seq<char>>, rest: Seq<u8>)
    requires
        is_plain(state),
        state.buffer == encode_utf8(event::data_lines(lines)) + rest,
        forall|i: int| 0 <= i < lines.len() ==> fits_line(
            #[trigger] lines[i],
            state.config.trim_values,
        ),
    ensures
        state.run() == fields::with_all_data(chunks::with_buffer(state, rest), lines).run(),
    decreases lines.len(),
{
    if lines.len() == 0 {
        assert(encode_utf8(event::data_lines(lines)) =~= Seq::empty());
        assert(state.buffer =~= rest);
    } else {
        fields::lemma_names_differ();
        let first = event::field_line("data"@, lines[0]);
        let more = event::data_lines(lines.drop_first());
        text::lemma_encode_concat(first, more);
        let behind = encode_utf8(more) + rest;
        assert(state.buffer =~= encode_utf8(first) + behind);
        let next = chunks::with_buffer(state, behind).with_data(lines[0]);
        lemma_first_field(state, "data"@, lines[0], behind);
        assert(state.run() == next.run());
        assert forall|i: int| 0 <= i < lines.drop_first().len() implies fits_line(
            #[trigger] lines.drop_first()[i],
            state.config.trim_values,
        ) by {
            assert(lines.drop_first()[i] == lines[i + 1]);
        }
        lemma_data_lines(next, lines.drop_first(), rest);
        lemma_data_first(chunks::with_buffer(state, rest), lines);
        assert(chunks::with_buffer(next, rest) == chunks::with_buffer(state, rest).with_data(
            lines[0],
        ));
    }
}

/// Line feeds stand between lines only, and there is no carriage return.
pub open spec fn has_plain_line_feeds(data: Seq<char>) -> bool {
    &&& data.len() > 0 ==> data.last() != '\n'
    &&& !data.contains('\r')
}

proof fn lemma_joined_first(first: Seq<char>, rest: Seq<Seq<char>>)
    requires
        rest.len() > 0,
    ensures
        fields::joined(seq![first] + rest) == first + "\n"@ + fields::joined(rest),
    decreases rest.len(),
{
    let all = seq![first] + rest;
    assert(all.last() == rest.last());
    assert(all.drop_last() =~= seq![first] + rest.drop_last());
    if rest.len() == 1 {
        assert(all.drop_last() =~= seq![first]);
        reveal_with_fuel(fields::joined, 2);
    } else {
        lemma_joined_first(first, rest.drop_last());
        assert(fields::joined(all) =~= first + "\n"@ + fields::joined(rest));
    }
}

/// Data with plain line feeds are their lines with a line feed between them.
proof fn lemma_lines_joined(data: Seq<char>)
    requires
        has_plain_line_feeds(data),
    ensures
        fields::joined(text::lines(data)) == data,
        data.len() > 0 ==> text::lines(data).len() > 0,
        forall|i: int|
            0 <= i < text::lines(data).len() ==> !(#[trigger] text::lines(data)[i]).contains('\n')
                && !text::lines(data)[i].contains('\r'),
    decreases data.len(),
{
    text::lemma_position(data, '\n');
    let n = text::position(data, '\n');
    if data.len() > 0 {
        if n < data.len() {
            let head = data.take(n);
            let tail = data.skip(n + 1);
            assert(data[n] == '\n');
            assert(tail.len() > 0 && tail.last() == data.last());
            assert(!tail.contains('\r')) by {
                if tail.contains('\r') {
                    let i = choose|i: int| 0 <= i < tail.len() && tail[i] == '\r';
                    assert(data[n + 1 + i] == '\r');
                }
            }
            assert(!head.contains('\r')) by {
                if head.contains('\r') {
                    let i = choose|i: int| 0 <= i < head.len() && head[i] == '\r';
                    assert(data[i] == '\r');
                }
            }
            lemma_lines_joined(tail);
            assert(text::without_trailing_return(head) == head) by {
                if n > 0 {
                    assert(head.contains(head.last()));
                }
            }
            let rest = text::lines(tail);
            assert(text::lines(data) =~= seq![head] + rest);
            lemma_joined_first(head, rest);
            reveal_strlit("\n");
            assert(data =~= head + "\n"@ + tail);
        } else {
            assert(text::lines(data) =~= seq![data]);
        }
    }
}

/// An event that a parser with the given configuration reads back as it was written.
pub open spec fn is_readable(event: EventView, config: SseConfig) -> bool {
    &&& event.data.len() > 0
    &&& event.event_type.len() > 0
    &&& event.max_buffer_size == config.max_buffer_size
    &&& event.event_type != event::message_type() ==> fits_line(
        event.event_type,
        config.trim_values,
    )
    &&& event.id matches Some(id) ==> fits_line(id, config.trim_values) && !id.contains('\0')
    &&& has_plain_line_feeds(event.data)
    &&& config.trim_values ==> forall|i: int|
        0 <= i < text::lines(event.data).len() ==> text::trimmed(
            #[trigger] text::lines(event.data)[i],
        ) == text::lines(event.data)[i]
}

/// The parser after an event that was written: it is between events again.
pub open spec fn having_read(state: ParserView, event: EventView) -> ParserView {
    ParserView {
        at_start: false,
        after_return: false,
        last_event_id: if event.id is Some {
            event.id
        } else {
            state.last_event_id
        },
        reconnection_time: match event.retry {
            Some(retry) => retry,
            None => state.reconnection_time,
        },
        ..state
    }
}

/// How a parser takes the line for an event type.
proof fn lemma_type_line(state: ParserView, event_type: Seq<char>, rest: Seq<u8>)
    requires
        is_plain(state),
        state.buffer == encode_utf8(event::type_line(event_type)) + rest,
        state.event.event_type == event::message_type(),
        event_type != event::message_type() ==> fits_line(event_type, state.config.trim_values),
    ensures
        state.run() == (ParserView {
            buffer: rest,
            event: EventView { event_type, ..state.event },
            ..state
        }).run(),
{
    if event_type != event::message_type() {
        fields::lemma_names_differ();
        lemma_first_field(state, "event"@, event_type, rest);
    } else {
        assert(encode_utf8(event::type_line(event_type)) =~= Seq::empty());
        assert(state.buffer =~= rest);
    }
}

/// How a parser takes the line for an ID.
proof fn lemma_id_line(state: ParserView, id: Option<Seq<char>>, rest: Seq<u8>)
    requires
        is_plain(state),
        state.buffer == encode_utf8(event::id_line(id)) + rest,
        state.event.id is None,
        id matches Some(id) ==> fits_line(id, state.config.trim_values) && !id.contains('\0'),
    ensures
        state.run() == (ParserView {
            buffer: rest,
            event: EventView { id, ..state.event },
            ..state
        }).run(),
{
    if let Some(value) = id {
        fields::lemma_names_differ();
        lemma_first_field(state, "id"@, value, rest);
    } else {
        assert(encode_utf8(event::id_line(id)) =~= Seq::empty());
        assert(state.buffer =~= rest);
    }
}

/// How a parser takes the line for a retry interval.
proof fn lemma_retry_line(state: ParserView, retry: Option<u64>, rest: Seq<u8>)
    requires
        is_plain(state),
        state.buffer == encode_utf8(event::retry_line(retry)) + rest,
        state.event.retry is None,
    ensures
        state.run() == (ParserView {
            buffer: rest,
            event: EventView { retry, ..state.event },
            reconnection_time: match retry {
                Some(retry) => retry,
                None => state.reconnection_time,
            },
            ..state
        }).run(),
{
    if let Some(number) = retry {
        fields::lemma_names_differ();
        lemma_decimal_fits_line(number, state.config.trim_values);
        text::lemma_decimal_reads_back(number);
        lemma_first_field(state, "retry"@, text::decimal(number as nat), rest);
    } else {
        assert(encode_utf8(event::retry_line(retry)) =~= Seq::empty());
        assert(state.buffer =~= rest);
    }
}

/// How a parser takes the lines for the data of an event that is readable.
proof fn lemma_event_data(state: ParserView, event: EventView, rest: Seq<u8>)
    requires
        is_plain(state),
        state.buffer == encode_utf8(event::data_lines(text::lines(event.data))) + rest,
        !state.has_data,
        is_readable(event, state.config),
    ensures
        state.run() == (ParserView {
            buffer: rest,
            event: EventView { data: event.data, ..state.event },
            has_data: true,
            ..state
        }).run(),
{
    let lines = text::lines(event.data);
    lemma_lines_joined(event.data);
    assert forall|i: int| 0 <= i < lines.len() implies fits_line(
        #[trigger] lines[i],
        state.config.trim_values,
    ) by {}
    lemma_data_lines(state, lines, rest);
    fields::law_data_lines_joined(chunks::with_buffer(state, rest), lines);
}

/// How a parser takes the empty line at the end of an event with data and a type.
proof fn lemma_event_end(state: ParserView)
    requires
        is_plain(state),
        state.buffer == encode_utf8("\n"@),
        state.has_data,
        state.event.event_type.len() > 0,
    ensures
        state.run() == (
            Ok::<Seq<EventView>, Failure>(seq![state.event]),
            chunks::with_buffer(state, Seq::empty()).dispatch().1,
        ),
{
    let line = Seq::<char>::empty();
    assert(line + "\n"@ =~= "\n"@);
    assert(state.buffer =~= encode_utf8(line + "\n"@) + Seq::<u8>::empty());
    lemma_first_line(state, line, Seq::empty());
    let done = chunks::with_buffer(state, Seq::empty()).dispatch().1;
    parser::lemma_break(done.buffer);
    assert(seq![state.event] + Seq::<EventView>::empty() =~= seq![state.event]);
}

/// The encoding of the text form of an event, part by part.
proof fn lemma_text_encoded(event: EventView)
    ensures
        encode_utf8(event.text()) == encode_utf8(event::type_line(event.event_type)) + (encode_utf8(
            event::id_line(event.id),
        ) + (encode_utf8(event::retry_line(event.retry)) + (encode_utf8(
            event::data_lines(text::lines(event.data)),
        ) + encode_utf8("\n"@)))),
{
    let of_type = event::type_line(event.event_type);
    let of_id = event::id_line(event.id);
    let of_retry = event::retry_line(event.retry);
    let of_data = event::data_lines(text::lines(event.data));
    let end = "\n"@;
    text::lemma_encode_concat(of_type + of_id + of_retry + of_data, end);
    text::lemma_encode_concat(of_type + of_id + of_retry, of_data);
    text::lemma_encode_concat(of_type + of_id, of_retry);
    text::lemma_encode_concat(of_type, of_id);
    assert(encode_utf8(event.text()) =~= encode_utf8(of_type) + (encode_utf8(of_id) + (encode_utf8(
        of_retry,
    ) + (encode_utf8(of_data) + encode_utf8(end)))));
}

/// The text form of an event with data begins with a letter, and ends a line.
proof fn lemma_text_begins(event: EventView)
    requires
        event.data.len() > 0,
    ensures
        encode_utf8(event.text()).len() > 0,
        encode_utf8(event.text())[0] != 10,
        encode_utf8(event.text())[0] < 0x80,
        parser::has_break(encode_utf8(event.text())),
{
    fields::lemma_names_differ();
    let whole = event.text();
    let lines = text::lines(event.data);
    text::lemma_position(event.data, '\n');
    assert(lines.len() > 0);
    assert(event::data_lines(lines)[0] == 'd');
    assert(whole[0] == 'e' || whole[0] == 'i' || whole[0] == 'r' || whole[0] == 'd');
    text::lemma_encode_contains(whole, '\n');
    reveal_strlit("\n");
    assert(whole.last() == '\n');
    assert(whole.contains('\n'));
    assert(encode_utf8(whole).contains(10u8));
    let bytes = encode_utf8(whole);
    let i = choose|i: int| 0 <= i < bytes.len() && bytes[i] == 10;
    assert(parser::is_break(bytes[i]));
    text::lemma_scalar_bytes(whole[0]);
}

/// Where the buffer begins with an ASCII character other than a line feed, and a line is complete,
/// it does not matter whether the stream begins there, nor whether a carriage return came before.
proof fn lemma_plain_start(state: ParserView)
    requires
        state.buffer.len() > 0,
        state.buffer[0] != 10,
        state.buffer[0] < 0x80,
        parser::has_break(state.buffer),
    ensures
        state.run() == (ParserView { at_start: false, after_return: false, ..state }).run(),
{
    parser::lemma_break(state.buffer);
    let settled = state.settled();
    let plain = ParserView { at_start: false, after_return: false, ..state };
    assert(settled.buffer == state.buffer);
    assert(!parser::has_mark(settled.first_line()));
    assert(settled.past_first_line().stream_line(settled.first_line())
        == plain.past_first_line().stream_line(plain.first_line()));
}

/// A parser between events reads the text form of an event as that event.
pub proof fn law_event_reads_back(state: ParserView, event: EventView)
    requires
        state.buffer.len() == 0,
        state.event == EventView::blank(state.config.max_buffer_size),
        !state.has_data,
        is_readable(event, state.config),
        encode_utf8(event.text()).len() <= state.config.max_buffer_size,
    ensures
        state.feed(encode_utf8(event.text())) == (
            Ok::<Seq<EventView>, Failure>(seq![event]),
            having_read(state, event),
        ),
{
    let after_data = encode_utf8("\n"@);
    let after_retry = encode_utf8(event::data_lines(text::lines(event.data))) + after_data;
    let after_id = encode_utf8(event::retry_line(event.retry)) + after_retry;
    let after_type = encode_utf8(event::id_line(event.id)) + after_id;
    let all = encode_utf8(event::type_line(event.event_type)) + after_type;
    lemma_text_encoded(event);
    assert(state.buffer + all =~= all);
    lemma_text_begins(event);
    lemma_plain_start(chunks::with_buffer(state, all));
    let start = ParserView { buffer: all, at_start: false, after_return: false, ..state };
    lemma_type_line(start, event.event_type, after_type);
    let typed = ParserView {
        buffer: after_type,
        event: EventView { event_type: event.event_type, ..start.event },
        ..start
    };
    lemma_id_line(typed, event.id, after_id);
    let named = ParserView {
        buffer: after_id,
        event: EventView { id: event.id, ..typed.event },
        ..typed
    };
    lemma_retry_line(named, event.retry, after_retry);
    let timed = ParserView {
        buffer: after_retry,
        event: EventView { retry: event.retry, ..named.event },
        reconnection_time: having_read(state, event).reconnection_time,
        ..named
    };
    lemma_event_data(timed, event, after_data);
    let filled = ParserView {
        buffer: after_data,
        event: EventView { data: event.data, ..timed.event },
        has_data: true,
        ..timed
    };
    assert(filled.event == event);
    lemma_event_end(filled);
    assert(Seq::<u8>::empty() =~= state.buffer);
}

/// A number in decimal fits in a line.
proof fn lemma_decimal_fits_line(number: u64, trim_values: bool)
    ensures
        fits_line(text::decimal(number as nat), trim_values),
{
    let digits = text::decimal(number as nat);
    text::lemma_decimal(number as nat);
    if digits.contains('\n') {
        let i = choose|i: int| 0 <= i < digits.len() && digits[i] == '\n';
        assert(text::is_digit(digits[i]));
    }
    assert(text::is_digit(digits[0]));
    assert(text::is_digit(digits[digits.len() - 1]));
    assert(text::trimmed_start(digits) == digits);
    assert(text::trimmed_end(digits) == digits);
}

/// The text forms of events, one after the other.
pub open spec fn texts(events: Seq<EventView>) -> Seq<char>
    decreases events.len(),
{
    if events.len() == 0 {
        seq![]
    } else {
        events[0].text() + texts(events.drop_first())
    }
}

/// The parser after several events that were written.
pub open spec fn having_read_all(state: ParserView, events: Seq<EventView>) -> ParserView
    decreases events.len(),
{
    if events.len() == 0 {
        state
    } else {
        having_read_all(having_read(state, events[0]), events.drop_first())
    }
}

/// A parser between events reads the text forms of events, one after the other, as those events.
pub proof fn law_events_read_back(state: ParserView, events: Seq<EventView>)
    requires
        state.buffer.len() == 0,
        state.event == EventView::blank(state.config.max_buffer_size),
        !state.has_data,
        forall|i: int| 0 <= i < events.len() ==> is_readable(#[trigger] events[i], state.config),
        encode_utf8(texts(events)).len() <= state.config.max_buffer_size,
    ensures
        state.feed(encode_utf8(texts(events))) == (
            Ok::<Seq<EventView>, Failure>(events),
            having_read_all(state, events),
        ),
    decreases events.len(),
{
    if events.len() == 0 {
        assert(state.buffer + encode_utf8(texts(events)) =~= state.buffer);
        assert(events =~= seq![]);
    } else {
        let first = events[0];
        let rest = events.drop_first();
        text::lemma_encode_concat(first.text(), texts(rest));
        law_event_reads_back(state, first);
        chunks::law_cut_anywhere(state, encode_utf8(first.text()), encode_utf8(texts(rest)));
        assert forall|i: int| 0 <= i < rest.len() implies is_readable(
            #[trigger] rest[i],
            state.config,
        ) by {
            assert(rest[i] == events[i + 1]);
        }
        law_events_read_back(having_read(state, first), rest);
        assert(seq![first] + rest =~= events);
    }
}

/// The text forms of events, each in a chunk of its own.
pub open spec fn text_chunks(events: Seq<EventView>) -> Seq<Seq<u8>> {
    Seq::new(events.len(), |i: int| encode_utf8(events[i].text()))
}

/// A parser between events reads the text forms of events as those events, however many there are,
/// where each of them comes by itself and fits in the buffer.
pub proof fn law_many_events_read_back(state: ParserView, events: Seq<EventView>)
    requires
        state.buffer.len() == 0,
        state.event == EventView::blank(state.config.max_buffer_size),
        !state.has_data,
        forall|i: int| 0 <= i < events.len() ==> is_readable(#[trigger] events[i], state.config),
        forall|i: int|
            0 <= i < events.len() ==> encode_utf8((#[trigger] events[i]).text()).len()
                <= state.config.max_buffer_size,
    ensures
        chunks::feed_all(state, text_chunks(events)) == (
            Ok::<Seq<EventView>, Failure>(events),
            having_read_all(state, events),
        ),
    decreases events.len(),
{
    if events.len() == 0 {
        assert(events =~= seq![]);
    } else {
        let first = events[0];
        let rest = events.drop_first();
        law_event_reads_back(state, first);
        assert(text_chunks(events).drop_first() =~= text_chunks(rest));
        assert forall|i: int| 0 <= i < rest.len() implies is_readable(
            #[trigger] rest[i],
            state.config,
        ) && encode_utf8(rest[i].text()).len() <= state.config.max_buffer_size by {
            assert(rest[i] == events[i + 1]);
        }
        law_many_events_read_back(having_read(state, first), rest);
        assert(seq![first] + rest =~= events);
    }
}

} // verus!
