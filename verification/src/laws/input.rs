//! What holds of whole inputs, line by line.

use vstd::prelude::*;
use vstd::utf8::*;

use crate::error::Failure;
use crate::event::EventView;
use crate::laws::chunks;
use crate::laws::fields;
use crate::parser;
use crate::parser::Outcome;
use crate::parser::ParserView;
use crate::text;

verus! {

/// Bytes that fit in the buffer are put behind what is in it.
pub proof fn law_feed_appends(state: ParserView, bytes: Seq<u8>)
    requires
        state.buffer.len() + bytes.len() <= state.config.max_buffer_size,
    ensures
        state.feed(bytes) == (ParserView { buffer: state.buffer + bytes, ..state }).run(),
{
}

/// Only the line feed and the carriage return end a line: without one, all bytes stay, and nothing
/// comes out.
pub proof fn law_no_line_ends(state: ParserView)
    requires
        !state.after_return,
        !state.buffer.contains(10u8),
        !state.buffer.contains(13u8),
    ensures
        state.run() == (Ok::<Seq<EventView>, Failure>(seq![]), state),
{
    parser::lemma_break(state.buffer);
    lemma_no_break(state.buffer);
}

/// Bytes without a line feed and a carriage return end no line.
proof fn lemma_no_break(bytes: Seq<u8>)
    requires
        !bytes.contains(10u8),
        !bytes.contains(13u8),
    ensures
        !parser::has_break(bytes),
{
    if parser::has_break(bytes) {
        let i = choose|i: int| 0 <= i < bytes.len() && parser::is_break(#[trigger] bytes[i]);
        assert(bytes.contains(bytes[i]));
    }
}

/// The bytes before the first line feed or carriage return are a line. It is processed first, by
/// itself, and what is behind it after it; its event, if it completes one, comes out first. Where
/// it is refused, what is behind it stays.
pub proof fn law_first_line_first(state: ParserView, line: Seq<u8>, end: u8, rest: Seq<u8>)
    requires
        !state.at_start,
        !state.after_return,
        !line.contains(10u8),
        !line.contains(13u8),
        end == 10 || end == 13,
        state.buffer == line + seq![end] + rest,
    ensures
        state.run() == match (ParserView {
            buffer: rest,
            after_return: end == 13,
            ..state
        }).byte_line(line) {
            (Ok(None), next) => next.run(),
            (Ok(Some(event)), next) => match next.run() {
                (Ok(events), last) => (
                    Ok::<Seq<EventView>, Failure>(seq![event] + events),
                    last,
                ),
                (Err(failure), last) => (Err(failure), last),
            },
            (Err(failure), next) => (Err(failure), next),
        },
{
    lemma_no_break(line);
    parser::lemma_break_split(line, end, rest);
}

/// Behind a carriage return that ended a line, one line feed is skipped; any other byte is not.
pub proof fn law_line_feed_after_return(state: ParserView, rest: Seq<u8>)
    requires
        state.after_return,
    ensures
        (ParserView { buffer: seq![10u8] + rest, ..state }).run() == (ParserView {
            buffer: rest,
            after_return: false,
            ..state
        }).run(),
        rest.len() > 0 && rest[0] != 10 ==> (ParserView { buffer: rest, ..state }).run() == (
        ParserView { buffer: rest, after_return: false, ..state }).run(),
        (ParserView { buffer: seq![], ..state }).run() == (
            Ok::<Seq<EventView>, Failure>(seq![]),
            ParserView { buffer: seq![], ..state },
        ),
{
    let with_feed = ParserView { buffer: seq![10u8] + rest, ..state };
    assert(with_feed.buffer.skip(1) =~= rest);
}

/// The first line of a stream loses one byte order mark at its front, and nothing else; the other
/// lines keep theirs.
pub proof fn law_mark_dropped_once(state: ParserView, line: Seq<u8>, end: u8, rest: Seq<u8>)
    requires
        state.at_start,
        !state.after_return,
        !line.contains(10u8),
        !line.contains(13u8),
        end == 10 || end == 13,
    ensures
        (ParserView { buffer: seq![0xefu8, 0xbb, 0xbf] + line + seq![end] + rest, ..state }).run()
            == (ParserView {
            buffer: line + seq![end] + rest,
            at_start: false,
            ..state
        }).run(),
        !(line.len() >= 3 && line[0] == 0xef && line[1] == 0xbb && line[2] == 0xbf) ==> (
        ParserView { buffer: line + seq![end] + rest, ..state }).run() == (ParserView {
            buffer: line + seq![end] + rest,
            at_start: false,
            ..state
        }).run(),
{
    let mark = seq![0xefu8, 0xbb, 0xbf];
    let marked = mark + line;
    lemma_no_break(line);
    assert(!parser::has_break(marked)) by {
        if parser::has_break(marked) {
            let i = choose|i: int| 0 <= i < marked.len() && parser::is_break(#[trigger] marked[i]);
            if i >= 3 {
                assert(parser::is_break(line[i - 3]));
            }
        }
    }
    parser::lemma_break_split(line, end, rest);
    parser::lemma_break_split(marked, end, rest);
    assert(marked.skip(3) =~= line);
    assert(mark + line + seq![end] + rest =~= marked + seq![end] + rest);
}

/// The complete lines in the buffer of a parser, without a byte order mark at the start of the
/// stream.
pub open spec fn complete_lines(state: ParserView) -> Seq<Seq<u8>>
    decreases state.buffer.len(),
{
    let settled = state.settled();
    let n = parser::break_at(settled.buffer);
    if 0 <= n < settled.buffer.len() {
        seq![settled.without_mark(settled.first_line())] + complete_lines(
            ParserView { at_start: false, ..settled.past_first_line() },
        )
    } else {
        seq![]
    }
}

/// The parser with all complete lines taken out of its buffer, unread.
pub open spec fn past_all_lines(state: ParserView) -> ParserView
    decreases state.buffer.len(),
{
    let settled = state.settled();
    let n = parser::break_at(settled.buffer);
    if 0 <= n < settled.buffer.len() {
        past_all_lines(ParserView { at_start: false, ..settled.past_first_line() })
    } else {
        settled
    }
}

/// The parser after lines of bytes, one by one until one is refused.
pub open spec fn take_lines(state: ParserView, lines: Seq<Seq<u8>>) -> (Outcome, ParserView)
    decreases lines.len(),
{
    if lines.len() == 0 {
        (Ok(seq![]), state)
    } else {
        match take_lines(state, lines.drop_last()) {
            (Ok(events), next) => match next.byte_line(lines.last()) {
                (Ok(Some(event)), last) => (Ok(events.push(event)), last),
                (Ok(None), last) => (Ok(events), last),
                (Err(failure), last) => (Err(failure), last),
            },
            refused => refused,
        }
    }
}

/// The first of several lines can be taken by itself.
proof fn lemma_take_first(state: ParserView, first: Seq<u8>, rest: Seq<Seq<u8>>)
    ensures
        take_lines(state, seq![first] + rest) == match state.byte_line(first) {
            (Ok(found), next) => (
                parser::after_event(found, take_lines(next, rest).0),
                take_lines(next, rest).1,
            ),
            (Err(failure), next) => (Err(failure), next),
        },
    decreases rest.len(),
{
    let lines = seq![first] + rest;
    if rest.len() == 0 {
        assert(lines.drop_last() =~= Seq::empty());
        reveal_with_fuel(take_lines, 2);
        if let (Ok(Some(event)), _) = state.byte_line(first) {
            assert(Seq::empty().push(event) =~= seq![event] + Seq::<EventView>::empty());
        }
    } else {
        assert(lines.drop_last() =~= seq![first] + rest.drop_last());
        assert(lines.last() == rest.last());
        lemma_take_first(state, first, rest.drop_last());
        if let (Ok(Some(event)), next) = state.byte_line(first) {
            if let (Ok(events), middle) = take_lines(next, rest.drop_last()) {
                if let (Ok(Some(late)), _) = middle.byte_line(rest.last()) {
                    assert((seq![event] + events).push(late) =~= seq![event] + events.push(late));
                }
            }
        }
    }
}

/// Lines are processed without a look at the place in the stream.
proof fn lemma_take_ignores_place(state: ParserView, lines: Seq<Seq<u8>>, place: ParserView)
    ensures
        take_lines(chunks::moved_to(state, place), lines) == (
            take_lines(state, lines).0,
            chunks::moved_to(take_lines(state, lines).1, place),
        ),
    decreases lines.len(),
{
    if lines.len() > 0 {
        lemma_take_ignores_place(state, lines.drop_last(), place);
        let (_, next) = take_lines(state, lines.drop_last());
        chunks::lemma_line_ignores_place(next, lines.last(), place);
    }
}

/// The complete lines in a buffer, and what is behind them, do not depend on what a parser has
/// read.
proof fn lemma_lines_by_place(state: ParserView, place: ParserView)
    requires
        state == chunks::moved_to(state, place),
    ensures
        complete_lines(state) == complete_lines(place),
        past_all_lines(state) == chunks::moved_to(state, past_all_lines(place)),
    decreases state.buffer.len(),
{
    parser::lemma_break(state.settled().buffer);
    let settled = state.settled();
    if parser::has_break(settled.buffer) {
        chunks::lemma_step(state);
        lemma_lines_by_place(
            ParserView { at_start: false, ..settled.past_first_line() },
            ParserView { at_start: false, ..place.settled().past_first_line() },
        );
    }
}

/// `run` takes the complete lines of the buffer, one by one.
proof fn lemma_run_lines(state: ParserView)
    ensures
        state.run().0 == take_lines(state, complete_lines(state)).0,
        state.run().0 is Ok ==> state.run().1 == chunks::moved_to(
            take_lines(state, complete_lines(state)).1,
            past_all_lines(state),
        ),
    decreases state.buffer.len(),
{
    let settled = state.settled();
    parser::lemma_break(settled.buffer);
    if parser::has_break(settled.buffer) {
        chunks::lemma_step(state);
        let past = ParserView { at_start: false, ..settled.past_first_line() };
        let line = settled.without_mark(settled.first_line());
        let (result, next) = past.byte_line(line);
        let lines = complete_lines(state);
        let rest = complete_lines(past);
        chunks::lemma_line_ignores_place(state, line, past);
        assert(chunks::moved_to(state, past) == past);
        let (_, unmoved) = state.byte_line(line);
        lemma_take_first(state, line, rest);
        if result is Ok {
            lemma_run_lines(next);
            lemma_lines_by_place(next, past);
            lemma_take_ignores_place(unmoved, rest, past);
        }
    }
}

/// The lines that `run` takes: the complete lines in the buffer, up to and including the first one
/// that is refused.
pub open spec fn taken_lines(state: ParserView) -> Seq<Seq<u8>>
    decreases state.buffer.len(),
{
    let settled = state.settled();
    let n = parser::break_at(settled.buffer);
    if 0 <= n < settled.buffer.len() {
        let line = settled.without_mark(settled.first_line());
        let past = ParserView { at_start: false, ..settled.past_first_line() };
        match past.byte_line(line) {
            (Ok(_), next) => seq![line] + taken_lines(next),
            (Err(_), _) => seq![line],
        }
    } else {
        seq![]
    }
}

/// The lines that a parser takes when it is fed: none where the bytes do not fit in the buffer.
pub open spec fn lines_fed(state: ParserView, bytes: Seq<u8>) -> Seq<Seq<u8>> {
    if state.buffer.len() + bytes.len() > state.config.max_buffer_size {
        seq![]
    } else {
        taken_lines(chunks::with_buffer(state, state.buffer + bytes))
    }
}

/// `run` takes the lines that it takes one by one, and only the last of them can be refused.
proof fn lemma_run_taken(state: ParserView)
    ensures
        state.run().0 == take_lines(state, taken_lines(state)).0,
        state.run().1 == chunks::moved_to(
            take_lines(state, taken_lines(state)).1,
            state.run().1,
        ),
        taken_lines(state).len() > 0 ==> take_lines(
            state,
            taken_lines(state).drop_last(),
        ).0 is Ok,
        taken_lines(state).is_prefix_of(complete_lines(state)),
        state.run().0 is Ok ==> taken_lines(state) == complete_lines(state),
    decreases state.buffer.len(),
{
    let settled = state.settled();
    parser::lemma_break(settled.buffer);
    if parser::has_break(settled.buffer) {
        chunks::lemma_step(state);
        let past = ParserView { at_start: false, ..settled.past_first_line() };
        let line = settled.without_mark(settled.first_line());
        let (result, next) = past.byte_line(line);
        let taken = taken_lines(state);
        chunks::lemma_line_ignores_place(state, line, past);
        assert(chunks::moved_to(state, past) == past);
        let (_, unmoved) = state.byte_line(line);
        if result is Ok {
            let rest = taken_lines(next);
            lemma_take_first(state, line, rest);
            lemma_run_taken(next);
            lemma_lines_by_place(next, past);
            lemma_take_ignores_place(unmoved, rest, past);
            assert(next == chunks::moved_to(unmoved, past));
            assert(taken.is_prefix_of(complete_lines(state)));
            if rest.len() > 0 {
                assert(taken.drop_last() =~= seq![line] + rest.drop_last());
                lemma_take_first(state, line, rest.drop_last());
                lemma_take_ignores_place(unmoved, rest.drop_last(), past);
            } else {
                assert(taken.drop_last() =~= Seq::empty());
            }
        } else {
            assert(taken =~= seq![line] + Seq::empty());
            lemma_take_first(state, line, Seq::empty());
            assert(taken.drop_last() =~= Seq::empty());
            assert(taken.is_prefix_of(complete_lines(state)));
        }
    }
}

/// What a parser gives when it is fed is what the lines that it takes give, one by one. These are
/// the first of the complete lines, and all of them where nothing is refused.
pub proof fn law_lines_fed(state: ParserView, bytes: Seq<u8>)
    requires
        state.buffer.len() + bytes.len() <= state.config.max_buffer_size,
    ensures
        state.feed(bytes).0 == take_lines(state, lines_fed(state, bytes)).0,
        state.feed(bytes).1 == chunks::moved_to(
            take_lines(state, lines_fed(state, bytes)).1,
            state.feed(bytes).1,
        ),
        lines_fed(state, bytes).is_prefix_of(
            complete_lines(chunks::with_buffer(state, state.buffer + bytes)),
        ),
        state.feed(bytes).0 is Ok ==> lines_fed(state, bytes) == complete_lines(
            chunks::with_buffer(state, state.buffer + bytes),
        ),
{
    let fed = chunks::with_buffer(state, state.buffer + bytes);
    lemma_run_taken(fed);
    lemma_take_ignores_place(state, taken_lines(fed), fed);
    assert(chunks::moved_to(state, fed) == fed);
}

/// A line ending: a line feed, a carriage return, or both in this order.
pub open spec fn is_line_ending(ending: Seq<u8>) -> bool {
    ending == seq![10u8] || ending == seq![13u8] || ending == seq![13u8, 10u8]
}

/// Lines, each with the given ending.
pub open spec fn terminated(lines: Seq<Seq<u8>>, ending: Seq<u8>) -> Seq<u8>
    decreases lines.len(),
{
    if lines.len() == 0 {
        seq![]
    } else {
        lines[0] + ending + terminated(lines.drop_first(), ending)
    }
}

/// Lines without the byte order mark at the start of the stream.
pub open spec fn unmarked(state: ParserView, lines: Seq<Seq<u8>>) -> Seq<Seq<u8>> {
    if lines.len() == 0 {
        lines
    } else {
        lines.update(0, state.without_mark(lines[0]))
    }
}

proof fn lemma_terminated(state: ParserView, lines: Seq<Seq<u8>>, ending: Seq<u8>)
    requires
        is_line_ending(ending),
        forall|i: int| 0 <= i < lines.len() ==> !parser::has_break(#[trigger] lines[i]),
        state.settled().buffer == terminated(lines, ending),
    ensures
        complete_lines(state) == unmarked(state, lines),
        past_all_lines(state).buffer.len() == 0,
        past_all_lines(state).at_start == (state.at_start && lines.len() == 0),
    decreases lines.len(),
{
    let settled = state.settled();
    parser::lemma_break(settled.buffer);
    if lines.len() > 0 {
        let line = lines[0];
        let rest = lines.drop_first();
        let behind = terminated(rest, ending);
        let tail = ending.skip(1) + behind;
        assert(settled.buffer =~= line + seq![ending[0]] + tail);
        assert(parser::is_break(ending[0]));
        parser::lemma_break_split(line, ending[0], tail);
        let past = ParserView { at_start: false, ..settled.past_first_line() };
        assert(past.buffer == tail);
        assert(past.settled().buffer =~= behind) by {
            if ending == seq![13u8] {
                assert(tail =~= behind);
                if rest.len() > 0 {
                    if rest[0].len() > 0 {
                        assert(behind[0] == rest[0][0]);
                        assert(!parser::has_break(lines[1]));
                        assert(!parser::is_break(rest[0][0]));
                    } else {
                        assert(behind[0] == 13);
                    }
                }
            } else if ending == seq![10u8] {
                assert(tail =~= behind);
            } else {
                assert(tail =~= seq![10u8] + behind);
                assert(tail.skip(1) =~= behind);
            }
        }
        assert forall|i: int| 0 <= i < rest.len() implies !parser::has_break(
            #[trigger] rest[i],
        ) by {
            assert(rest[i] == lines[i + 1]);
        }
        lemma_terminated(past, rest, ending);
        assert(unmarked(past, rest) =~= rest);
        assert(seq![settled.without_mark(line)] + rest =~= unmarked(state, lines));
    } else {
        assert(complete_lines(state) =~= unmarked(state, lines));
    }
}

/// All line endings are alike: whichever of them the lines of an input have, and however the input
/// is cut into chunks that fit, the parser gives the same events, or refuses the input for the same
/// reason; where it refuses nothing it ends up in the same state, but for the note that the last
/// byte was a carriage return. The input begins where a line begins.
pub proof fn law_line_endings_alike(
    state: ParserView,
    lines: Seq<Seq<u8>>,
    one: Seq<u8>,
    one_chunks: Seq<Seq<u8>>,
    other: Seq<u8>,
    other_chunks: Seq<Seq<u8>>,
)
    requires
        is_line_ending(one),
        is_line_ending(other),
        forall|i: int| 0 <= i < lines.len() ==> !parser::has_break(#[trigger] lines[i]),
        state.buffer.len() == 0,
        !state.after_return,
        one_chunks.flatten() == terminated(lines, one),
        other_chunks.flatten() == terminated(lines, other),
        chunks::chunks_fit(state, one_chunks),
        chunks::chunks_fit(state, other_chunks),
    ensures
        chunks::feed_all(state, one_chunks).0 == chunks::feed_all(state, other_chunks).0,
        chunks::feed_all(state, one_chunks).0 is Ok ==> (ParserView {
            after_return: false,
            ..chunks::feed_all(state, one_chunks).1
        }) == (ParserView { after_return: false, ..chunks::feed_all(state, other_chunks).1 }),
{
    chunks::law_chunks_that_fit(state, one_chunks);
    chunks::law_chunks_that_fit(state, other_chunks);
    assert(state.buffer + terminated(lines, one) =~= terminated(lines, one));
    assert(state.buffer + terminated(lines, other) =~= terminated(lines, other));
    lemma_run_terminated(state, lines, one);
    lemma_run_terminated(state, lines, other);
}

/// What a parser gives for lines in its buffer does not depend on their ending.
proof fn lemma_run_terminated(state: ParserView, lines: Seq<Seq<u8>>, ending: Seq<u8>)
    requires
        is_line_ending(ending),
        forall|i: int| 0 <= i < lines.len() ==> !parser::has_break(#[trigger] lines[i]),
        !state.after_return,
    ensures
        ({
            let (outcome, last) = chunks::with_buffer(state, terminated(lines, ending)).run();
            let (taken, next) = take_lines(state, unmarked(state, lines));
            &&& outcome == taken
            &&& outcome is Ok ==> (ParserView { after_return: false, ..last }) == (ParserView {
                buffer: seq![],
                at_start: state.at_start && lines.len() == 0,
                after_return: false,
                ..next
            })
        }),
{
    let fed = chunks::with_buffer(state, terminated(lines, ending));
    lemma_terminated(fed, lines, ending);
    lemma_run_lines(fed);
    lemma_take_ignores_place(state, unmarked(state, lines), fed);
    assert(chunks::moved_to(state, fed) == fed);
    assert(past_all_lines(fed).buffer =~= seq![]);
}

/// A line that is refused leaves no trace: the parser is then as if that line had not come, and
/// what follows the line waits in the buffer.
pub proof fn law_refused_line_leaves_no_trace(
    state: ParserView,
    line: Seq<u8>,
    end: u8,
    rest: Seq<u8>,
)
    requires
        !parser::has_break(line),
        parser::is_break(end),
        !state.after_return,
    ensures
        state.byte_line(state.without_mark(line)).0 matches Err(failure) ==> chunks::with_buffer(
            state,
            line + seq![end] + rest,
        ).run() == (
            Err::<Seq<EventView>, Failure>(failure),
            ParserView { buffer: rest, at_start: false, after_return: end == 13, ..state },
        ),
{
    let full = chunks::with_buffer(state, line + seq![end] + rest);
    parser::lemma_break_split(line, end, rest);
    let past = ParserView { at_start: false, ..full.past_first_line() };
    chunks::lemma_line_ignores_place(state, state.without_mark(line), past);
    assert(chunks::moved_to(state, past) == past);
}

/// The text of a line that is UTF-8.
pub open spec fn line_text(line: Seq<u8>) -> Option<Seq<char>> {
    if valid_utf8(line) {
        Some(decode_utf8(line))
    } else {
        None
    }
}

/// The value of a line that is a field of the given name.
pub open spec fn value_in(line: Seq<u8>, name: Seq<char>, trim_values: bool) -> Option<Seq<char>> {
    match line_text(line) {
        Some(text) => if text.len() > 0 && text[0] != ':' && parser::field_of(
            text,
            trim_values,
        ).0 == name {
            Some(parser::field_of(text, trim_values).1)
        } else {
            None
        },
        None => None,
    }
}

/// The number of the last of the lines that are `retry` fields with one, or `before` where none
/// is.
pub open spec fn last_time(lines: Seq<Seq<u8>>, trim_values: bool, before: u64) -> u64
    decreases lines.len(),
{
    if lines.len() == 0 {
        before
    } else {
        match value_in(lines.last(), "retry"@, trim_values) {
            Some(value) => match text::number_in(value) {
                Some(number) => number,
                None => last_time(lines.drop_last(), trim_values, before),
            },
            None => last_time(lines.drop_last(), trim_values, before),
        }
    }
}

/// What a line does to the reconnection time.
proof fn lemma_line_time(state: ParserView, line: Seq<u8>)
    ensures
        state.byte_line(line).1.config == state.config,
        state.byte_line(line).1.reconnection_time == match value_in(
            line,
            "retry"@,
            state.config.trim_values,
        ) {
            Some(value) => match text::number_in(value) {
                Some(number) => number,
                None => state.reconnection_time,
            },
            None => state.reconnection_time,
        },
{
    fields::lemma_names_differ();
}

/// Lines of which at most the last one is refused.
spec fn all_but_last_taken(state: ParserView, lines: Seq<Seq<u8>>) -> bool {
    lines.len() > 0 ==> take_lines(state, lines.drop_last()).0 is Ok
}

/// Where lines are taken, the lines before the last one are.
proof fn lemma_earlier_taken(state: ParserView, lines: Seq<Seq<u8>>)
    requires
        lines.len() > 0,
        take_lines(state, lines.drop_last()).0 is Ok,
    ensures
        all_but_last_taken(state, lines.drop_last()),
{
}

proof fn lemma_take_time(state: ParserView, lines: Seq<Seq<u8>>)
    requires
        all_but_last_taken(state, lines),
    ensures
        take_lines(state, lines).1.config == state.config,
        take_lines(state, lines).1.reconnection_time == last_time(
            lines,
            state.config.trim_values,
            state.reconnection_time,
        ),
    decreases lines.len(),
{
    if lines.len() > 0 {
        lemma_earlier_taken(state, lines);
        lemma_take_time(state, lines.drop_last());
        lemma_line_time(take_lines(state, lines.drop_last()).1, lines.last());
    }
}

/// The reconnection time is the number of the last `retry` field that was taken, whether or not
/// its event was handed out, and whether or not a line was refused.
pub proof fn law_reconnection_time(state: ParserView, bytes: Seq<u8>)
    ensures
        state.feed(bytes).1.reconnection_time == last_time(
            lines_fed(state, bytes),
            state.config.trim_values,
            state.reconnection_time,
        ),
{
    if state.buffer.len() + bytes.len() <= state.config.max_buffer_size {
        let fed = chunks::with_buffer(state, state.buffer + bytes);
        lemma_run_taken(fed);
        lemma_take_time(fed, taken_lines(fed));
    }
}

/// The value of the last of the lines that are `id` fields without a NUL character, or `before`
/// where none is.
pub open spec fn last_id(
    lines: Seq<Seq<u8>>,
    trim_values: bool,
    before: Option<Seq<char>>,
) -> Option<Seq<char>>
    decreases lines.len(),
{
    if lines.len() == 0 {
        before
    } else {
        match value_in(lines.last(), "id"@, trim_values) {
            Some(value) => if value.contains('\0') {
                last_id(lines.drop_last(), trim_values, before)
            } else {
                Some(value)
            },
            None => last_id(lines.drop_last(), trim_values, before),
        }
    }
}

/// The lines before the last empty line, or none where there is no empty line.
pub open spec fn before_last_empty(lines: Seq<Seq<u8>>) -> Option<Seq<Seq<u8>>>
    decreases lines.len(),
{
    if lines.len() == 0 {
        None
    } else if lines.last().len() == 0 {
        Some(lines.drop_last())
    } else {
        before_last_empty(lines.drop_last())
    }
}

/// The ID that the next empty line makes the last event ID.
pub open spec fn newest_id(state: ParserView) -> Option<Seq<char>> {
    if state.event.id is Some {
        state.event.id
    } else {
        state.last_event_id
    }
}

/// What a line does to the IDs.
proof fn lemma_line_id(state: ParserView, line: Seq<u8>)
    ensures
        newest_id(state.byte_line(line).1) == match value_in(
            line,
            "id"@,
            state.config.trim_values,
        ) {
            Some(value) => if value.contains('\0') {
                newest_id(state)
            } else {
                Some(value)
            },
            None => newest_id(state),
        },
        state.byte_line(line).1.last_event_id == if line.len() == 0 {
            newest_id(state)
        } else {
            state.last_event_id
        },
{
    fields::lemma_names_differ();
    if line.len() == 0 {
        assert(line =~= encode_utf8(Seq::<char>::empty()));
        encode_utf8_decode_utf8(Seq::<char>::empty());
    } else if valid_utf8(line) {
        decode_utf8_encode_utf8(line);
        if decode_utf8(line).len() == 0 {
            assert(encode_utf8(decode_utf8(line)) =~= Seq::empty());
        }
    }
}

proof fn lemma_take_id(state: ParserView, lines: Seq<Seq<u8>>)
    requires
        all_but_last_taken(state, lines),
    ensures
        newest_id(take_lines(state, lines).1) == last_id(
            lines,
            state.config.trim_values,
            newest_id(state),
        ),
        take_lines(state, lines).1.last_event_id == match before_last_empty(lines) {
            Some(earlier) => last_id(earlier, state.config.trim_values, newest_id(state)),
            None => state.last_event_id,
        },
    decreases lines.len(),
{
    if lines.len() > 0 {
        lemma_earlier_taken(state, lines);
        lemma_take_time(state, lines.drop_last());
        lemma_take_id(state, lines.drop_last());
        lemma_line_id(take_lines(state, lines.drop_last()).1, lines.last());
    }
}

/// The last event ID is that of the last `id` field before the last empty line that was taken,
/// whether or not an event was handed out there, and whether or not a line was refused. A field
/// whose value has a NUL character does not count.
pub proof fn law_last_event_id(state: ParserView, bytes: Seq<u8>)
    ensures
        state.feed(bytes).1.last_event_id == match before_last_empty(lines_fed(state, bytes)) {
            Some(earlier) => last_id(earlier, state.config.trim_values, newest_id(state)),
            None => state.last_event_id,
        },
{
    if state.buffer.len() + bytes.len() <= state.config.max_buffer_size {
        let fed = chunks::with_buffer(state, state.buffer + bytes);
        lemma_run_taken(fed);
        lemma_take_id(fed, taken_lines(fed));
    }
}

} // verus!
