//! What holds however the bytes of a stream are cut, and what every parser keeps.

use vstd::prelude::*;

use crate::config::SseConfig;
use crate::error::Failure;
use crate::event::EventView;
use crate::parser;
use crate::parser::Outcome;
use crate::parser::ParserView;

verus! {

// ---------------------------------------------------------------------------
// How lines are processed
// ---------------------------------------------------------------------------

/// A parser with other bytes in its buffer.
pub open spec fn with_buffer(state: ParserView, buffer: Seq<u8>) -> ParserView {
    ParserView { buffer, ..state }
}

/// A parser at the place in the stream where another one is.
pub open spec fn moved_to(state: ParserView, place: ParserView) -> ParserView {
    ParserView {
        buffer: place.buffer,
        at_start: place.at_start,
        after_return: place.after_return,
        ..state
    }
}

/// A line is processed without a look at the place in the stream, and leaves it alone.
pub(crate) proof fn lemma_line_ignores_place(state: ParserView, line: Seq<u8>, place: ParserView)
    ensures
        moved_to(state, place).byte_line(line) == (
            state.byte_line(line).0,
            moved_to(state.byte_line(line).1, place),
        ),
        state.byte_line(line).1 == moved_to(state.byte_line(line).1, state),
        state.byte_line(line).1.config == state.config,
{
}

/// What a step of `run` leaves behind.
pub(crate) proof fn lemma_step(state: ParserView)
    requires
        parser::has_break(state.settled().buffer),
    ensures
        ({
            let settled = state.settled();
            let past = settled.past_first_line();
            let (result, next) = past.stream_line(settled.first_line());
            &&& 0 <= parser::break_at(settled.buffer) < settled.buffer.len() <= state.buffer.len()
            &&& next == moved_to(next, ParserView { at_start: false, ..past })
            &&& next.config == state.config
            &&& next.buffer.len() < state.buffer.len()
        }),
{
    let settled = state.settled();
    parser::lemma_break(settled.buffer);
    let past = settled.past_first_line();
    lemma_line_ignores_place(
        ParserView { at_start: false, ..past },
        settled.without_mark(settled.first_line()),
        past,
    );
}

/// The parser waits for more bytes: no complete line is in its buffer.
pub open spec fn is_waiting(state: ParserView) -> bool {
    &&& !parser::has_break(state.buffer)
    &&& state.after_return ==> state.buffer.len() == 0
}

/// Processing lines takes them off the front of the buffer and leaves the configuration alone.
proof fn lemma_run_buffer(state: ParserView)
    ensures
        state.run().1.config == state.config,
        state.run().1.buffer.is_suffix_of(state.buffer),
        state.run().0 is Ok ==> is_waiting(state.run().1),
    decreases state.buffer.len(),
{
    let settled = state.settled();
    parser::lemma_break(settled.buffer);
    assert(settled.buffer.is_suffix_of(state.buffer));
    if parser::has_break(settled.buffer) {
        lemma_step(state);
        let (result, next) = settled.past_first_line().stream_line(settled.first_line());
        assert(next.buffer.is_suffix_of(state.buffer));
        if result is Ok {
            lemma_run_buffer(next);
            let last = next.run().1;
            assert(last.buffer =~= state.buffer.subrange(
                state.buffer.len() - last.buffer.len(),
                state.buffer.len() as int,
            ));
        }
    }
}

/// What bytes behind the buffer change of processing its lines.
proof fn lemma_run_append(state: ParserView, more: Seq<u8>)
    ensures
        with_buffer(state, state.buffer + more).run() == match state.run() {
            (Ok(events), next) => {
                let (outcome, last) = with_buffer(next, next.buffer + more).run();
                (parser::after_events(events, outcome), last)
            },
            (Err(failure), next) => (
                Err(failure),
                with_buffer(next, next.buffer + more),
            ),
        },
    decreases state.buffer.len(),
{
    let all = with_buffer(state, state.buffer + more);
    let settled = state.settled();
    let buffer = settled.buffer;
    parser::lemma_break(buffer);
    let n = parser::break_at(buffer);
    if state.buffer.len() > 0 {
        assert(all.settled() == with_buffer(settled, buffer + more)) by {
            if state.after_return && state.buffer[0] == 10 {
                assert(all.buffer.skip(1) =~= buffer + more);
            }
        }
    }
    if n < buffer.len() {
        let head = buffer.take(n);
        let tail = buffer.skip(n + 1);
        assert(!parser::has_break(head));
        assert(buffer + more =~= head + seq![buffer[n]] + (tail + more));
        parser::lemma_break_split(head, buffer[n], tail + more);
        let past = settled.past_first_line();
        let all_past = all.settled().past_first_line();
        assert(all.settled().first_line() == head);
        assert(all_past == with_buffer(past, tail + more));
        lemma_step(state);
        let (result, next) = past.stream_line(head);
        lemma_line_ignores_place(
            ParserView { at_start: false, ..past },
            past.without_mark(head),
            ParserView { at_start: false, ..all_past },
        );
        assert(all_past.stream_line(head) == (result, with_buffer(next, tail + more)));
        if let Ok(found) = result {
            assert(next.buffer == tail);
            lemma_run_append(next, more);
            let (outcome, last) = next.run();
            if let Ok(events) = outcome {
                let (rest, _) = with_buffer(last, last.buffer + more).run();
                if let Ok(later) = rest {
                    if let Some(event) = found {
                        assert(seq![event] + (events + later) =~= (seq![event] + events) + later);
                    }
                }
            }
        }
    } else {
        let waiting = with_buffer(settled, buffer + more);
        assert(waiting.run() == all.run()) by {
            if state.buffer.len() > 0 {
                assert(!settled.after_return);
                assert(waiting.settled() == all.settled());
            }
        }
        let (outcome, _) = all.run();
        if let Ok(events) = outcome {
            assert(seq![] + events =~= events);
        }
    }
}

/// However a run of bytes is cut in two, the parser gives what it gives for all of them in its
/// buffer, and ends up in the same state; where a line of the first part is refused, the second
/// part would wait in the buffer. Each part has to fit in the buffer when it comes.
pub proof fn law_cut_that_fits(state: ParserView, first: Seq<u8>, second: Seq<u8>)
    requires
        state.buffer.len() + first.len() <= state.config.max_buffer_size,
        state.feed(first).0 is Ok ==> state.feed(first).1.buffer.len() + second.len()
            <= state.config.max_buffer_size,
    ensures
        with_buffer(state, state.buffer + first + second).run() == match state.feed(first) {
            (Ok(events), next) => (
                parser::after_events(events, next.feed(second).0),
                next.feed(second).1,
            ),
            (Err(failure), next) => (Err(failure), with_buffer(next, next.buffer + second)),
        },
{
    let fed = with_buffer(state, state.buffer + first);
    lemma_run_append(fed, second);
    lemma_run_buffer(fed);
}

/// However a run of bytes is cut in two, the parser gives the same events and ends up in the same
/// state; where the first part is refused, the second one waits in the buffer. All bytes have to
/// fit in the buffer at once, since they may come at once.
pub proof fn law_cut_anywhere(state: ParserView, first: Seq<u8>, second: Seq<u8>)
    requires
        state.buffer.len() + first.len() + second.len() <= state.config.max_buffer_size,
    ensures
        state.feed(first + second) == match state.feed(first) {
            (Ok(events), next) => (
                parser::after_events(events, next.feed(second).0),
                next.feed(second).1,
            ),
            (Err(failure), next) => (Err(failure), with_buffer(next, next.buffer + second)),
        },
{
    lemma_run_buffer(with_buffer(state, state.buffer + first));
    law_cut_that_fits(state, first, second);
    assert(state.buffer + (first + second) =~= state.buffer + first + second);
}

/// What a parser gives for bytes that come in several chunks.
pub open spec fn feed_all(state: ParserView, chunks: Seq<Seq<u8>>) -> (Outcome, ParserView)
    decreases chunks.len(),
{
    if chunks.len() == 0 {
        (Ok(seq![]), state)
    } else {
        match state.feed(chunks[0]) {
            (Ok(events), next) => {
                let (outcome, last) = feed_all(next, chunks.drop_first());
                (parser::after_events(events, outcome), last)
            },
            (Err(failure), next) => (Err(failure), next),
        }
    }
}

/// No chunk is too large for the buffer when it comes.
pub open spec fn chunks_fit(state: ParserView, chunks: Seq<Seq<u8>>) -> bool {
    !(feed_all(state, chunks).0 matches Err(Failure::BufferOverflow { max }))
}

/// However a stream of bytes is cut into chunks that fit, the parser gives what it would give for
/// all of them in its buffer, or refuses them for the same reason; where it refuses nothing it ends
/// up in the same state. The stream may be longer than the buffer. No complete line may be in the
/// buffer to begin with.
pub proof fn law_chunks_that_fit(state: ParserView, chunks: Seq<Seq<u8>>)
    requires
        is_waiting(state),
        chunks_fit(state, chunks),
    ensures
        feed_all(state, chunks).0 == with_buffer(state, state.buffer + chunks.flatten()).run().0,
        feed_all(state, chunks).0 is Ok ==> feed_all(state, chunks).1 == with_buffer(
            state,
            state.buffer + chunks.flatten(),
        ).run().1,
    decreases chunks.len(),
{
    parser::lemma_break(state.buffer);
    if chunks.len() == 0 {
        assert(state.buffer + chunks.flatten() =~= state.buffer);
    } else {
        let rest = chunks.drop_first();
        let fed = with_buffer(state, state.buffer + chunks[0]);
        lemma_run_append(fed, rest.flatten());
        lemma_run_buffer(fed);
        assert(state.buffer + chunks.flatten() =~= fed.buffer + rest.flatten());
        if let (Ok(events), next) = state.feed(chunks[0]) {
            law_chunks_that_fit(next, rest);
        }
    }
}

/// Two ways to cut the same stream into chunks that fit give the same events, or the same refusal;
/// where nothing is refused they lead to the same state.
pub proof fn law_cuttings_alike(state: ParserView, one: Seq<Seq<u8>>, other: Seq<Seq<u8>>)
    requires
        is_waiting(state),
        one.flatten() == other.flatten(),
        chunks_fit(state, one),
        chunks_fit(state, other),
    ensures
        feed_all(state, one).0 == feed_all(state, other).0,
        feed_all(state, one).0 is Ok ==> feed_all(state, one).1 == feed_all(state, other).1,
{
    law_chunks_that_fit(state, one);
    law_chunks_that_fit(state, other);
}

/// However a stream of bytes is cut into chunks, the parser gives what it gives for all of them at
/// once, or refuses it for the same reason; where it refuses nothing it ends up in the same state.
/// No complete line may be in the buffer to begin with, and all bytes have to fit in the buffer at
/// once.
pub proof fn law_any_chunks(state: ParserView, chunks: Seq<Seq<u8>>)
    requires
        is_waiting(state),
        state.buffer.len() + chunks.flatten().len() <= state.config.max_buffer_size,
    ensures
        feed_all(state, chunks).0 == state.feed(chunks.flatten()).0,
        feed_all(state, chunks).0 is Ok ==> feed_all(state, chunks).1 == state.feed(
            chunks.flatten(),
        ).1,
{
    lemma_all_fit(state, chunks);
    law_chunks_that_fit(state, chunks);
}

/// Chunks that fit together fit one by one.
proof fn lemma_all_fit(state: ParserView, chunks: Seq<Seq<u8>>)
    requires
        state.buffer.len() + chunks.flatten().len() <= state.config.max_buffer_size,
    ensures
        chunks_fit(state, chunks),
    decreases chunks.len(),
{
    if chunks.len() > 0 {
        let fed = with_buffer(state, state.buffer + chunks[0]);
        lemma_run_buffer(fed);
        lemma_run_failure(fed);
        if let (Ok(events), next) = state.feed(chunks[0]) {
            lemma_all_fit(next, chunks.drop_first());
        }
    }
}

// ---------------------------------------------------------------------------
// What every parser keeps
// ---------------------------------------------------------------------------

/// The buffer is within its limit, the event being built carries that limit, and it has data only
/// if it has a `data` field.
pub open spec fn in_bounds(state: ParserView) -> bool {
    &&& state.buffer.len() <= state.config.max_buffer_size
    &&& state.event.max_buffer_size == state.config.max_buffer_size
    &&& !state.has_data ==> state.event.data.len() == 0
}

/// The events of an outcome have a type and carry the given limit.
pub open spec fn gives_typed(outcome: Outcome, max_buffer_size: usize) -> bool {
    outcome matches Ok(events) ==> forall|i: int|
        0 <= i < events.len() ==> (#[trigger] events[i]).event_type.len() > 0
            && events[i].max_buffer_size == max_buffer_size
}

/// A line keeps a parser within its bounds, and an event that it completes has a type.
proof fn lemma_line_in_bounds(state: ParserView, line: Seq<u8>)
    requires
        in_bounds(state),
    ensures
        in_bounds(state.byte_line(line).1),
        state.byte_line(line).0 matches Ok(Some(event)) ==> event.event_type.len() > 0
            && event.max_buffer_size == state.config.max_buffer_size,
{
    reveal_strlit("message");
}

proof fn lemma_run_in_bounds(state: ParserView)
    requires
        in_bounds(state),
    ensures
        in_bounds(state.run().1),
        gives_typed(state.run().0, state.config.max_buffer_size),
    decreases state.buffer.len(),
{
    let settled = state.settled();
    parser::lemma_break(settled.buffer);
    if parser::has_break(settled.buffer) {
        lemma_step(state);
        let past = settled.past_first_line();
        let line = settled.first_line();
        let (result, next) = past.stream_line(line);
        lemma_line_in_bounds(ParserView { at_start: false, ..past }, past.without_mark(line));
        if result is Ok {
            lemma_run_in_bounds(next);
        }
    }
}

/// A line, a field and the end of an event keep a parser within its bounds.
pub proof fn law_operations_stay_in_bounds(
    state: ParserView,
    line: Seq<char>,
    name: Seq<char>,
    value: Seq<char>,
)
    requires
        in_bounds(state),
    ensures
        in_bounds(state.line(line).1),
        in_bounds(state.field(name, value).1),
        in_bounds(state.dispatch().1),
{
}

/// A parser starts within its bounds, and waits for bytes.
pub proof fn law_fresh_in_bounds(config: SseConfig)
    ensures
        in_bounds(ParserView::fresh(config)),
        is_waiting(ParserView::fresh(config)),
{
}

/// A parser stays within its bounds, whatever it is fed, and keeps its configuration. Every event
/// that comes out of it has a type and carries the limit of the buffer.
pub proof fn law_stays_in_bounds(state: ParserView, bytes: Seq<u8>)
    requires
        in_bounds(state),
    ensures
        in_bounds(state.feed(bytes).1),
        state.feed(bytes).1.config == state.config,
        gives_typed(state.feed(bytes).0, state.config.max_buffer_size),
{
    if state.buffer.len() + bytes.len() <= state.config.max_buffer_size {
        let fed = with_buffer(state, state.buffer + bytes);
        lemma_run_in_bounds(fed);
        lemma_run_buffer(fed);
    }
}

/// Where nothing is refused, no complete line stays in the buffer.
pub proof fn law_no_line_left(state: ParserView, bytes: Seq<u8>)
    requires
        state.feed(bytes).0 is Ok,
    ensures
        is_waiting(state.feed(bytes).1),
{
    lemma_run_buffer(with_buffer(state, state.buffer + bytes));
}

/// What stays in the buffer is the end of what was in it and came.
pub proof fn law_rest_is_suffix(state: ParserView, bytes: Seq<u8>)
    requires
        state.buffer.len() + bytes.len() <= state.config.max_buffer_size,
    ensures
        state.feed(bytes).1.buffer.is_suffix_of(state.buffer + bytes),
{
    lemma_run_buffer(with_buffer(state, state.buffer + bytes));
}

/// Bytes are refused for their number exactly where they do not fit in the buffer, and then the
/// parser is as if they had not come.
pub proof fn law_overflow_changes_nothing(state: ParserView, bytes: Seq<u8>)
    ensures
        state.feed(bytes).0 matches Err(Failure::BufferOverflow { max }) <==> state.buffer.len()
            + bytes.len() > state.config.max_buffer_size,
        state.buffer.len() + bytes.len() > state.config.max_buffer_size ==> state.feed(bytes) == (
            Err::<Seq<EventView>, Failure>(
                Failure::BufferOverflow { max: state.config.max_buffer_size },
            ),
            state,
        ),
{
    lemma_run_failure(with_buffer(state, state.buffer + bytes));
}

/// Lines are refused for what is in them.
proof fn lemma_run_failure(state: ParserView)
    ensures
        !(state.run().0 matches Err(Failure::BufferOverflow { max })),
    decreases state.buffer.len(),
{
    let settled = state.settled();
    parser::lemma_break(settled.buffer);
    if parser::has_break(settled.buffer) {
        lemma_step(state);
        let (result, next) = settled.past_first_line().stream_line(settled.first_line());
        if result is Ok {
            lemma_run_failure(next);
        }
    }
}

/// Bytes that end no line give no event: they wait for the rest of their line.
pub proof fn law_incomplete_line_waits(state: ParserView, bytes: Seq<u8>)
    requires
        is_waiting(state),
        !parser::has_break(bytes),
        state.buffer.len() + bytes.len() <= state.config.max_buffer_size,
    ensures
        state.feed(bytes) == (
            Ok::<Seq<EventView>, Failure>(seq![]),
            ParserView {
                buffer: state.buffer + bytes,
                after_return: state.after_return && bytes.len() == 0,
                ..state
            },
        ),
{
    let buffer = state.buffer + bytes;
    parser::lemma_break(buffer);
    if parser::has_break(buffer) {
        let i = choose|i: int| 0 <= i < buffer.len() && parser::is_break(#[trigger] buffer[i]);
        if i < state.buffer.len() {
            assert(parser::is_break(state.buffer[i]));
        } else {
            assert(parser::is_break(bytes[i - state.buffer.len()]));
        }
    }
    if state.after_return && bytes.len() > 0 {
        assert(buffer[0] == bytes[0]);
        assert(!parser::is_break(bytes[0]));
    }
}

/// Whether comments are to be ignored makes no difference: they always are.
pub proof fn law_comments_never_matter(state: ParserView, bytes: Seq<u8>, ignore: bool)
    ensures
        with_comments(state, ignore).feed(bytes) == (
            state.feed(bytes).0,
            with_comments(state.feed(bytes).1, ignore),
        ),
{
    lemma_run_comments(with_buffer(state, state.buffer + bytes), ignore);
}

/// A parser that is told whether to ignore comments.
pub open spec fn with_comments(state: ParserView, ignore: bool) -> ParserView {
    ParserView { config: SseConfig { ignore_comments: ignore, ..state.config }, ..state }
}

proof fn lemma_line_comments(state: ParserView, line: Seq<u8>, ignore: bool)
    ensures
        with_comments(state, ignore).byte_line(line) == (
            state.byte_line(line).0,
            with_comments(state.byte_line(line).1, ignore),
        ),
{
}

proof fn lemma_run_comments(state: ParserView, ignore: bool)
    ensures
        with_comments(state, ignore).run() == (
            state.run().0,
            with_comments(state.run().1, ignore),
        ),
    decreases state.buffer.len(),
{
    let settled = state.settled();
    parser::lemma_break(settled.buffer);
    assert(with_comments(state, ignore).settled() == with_comments(settled, ignore));
    if parser::has_break(settled.buffer) {
        lemma_step(state);
        let past = settled.past_first_line();
        let line = settled.first_line();
        let (result, next) = past.stream_line(line);
        lemma_line_comments(
            ParserView { at_start: false, ..past },
            past.without_mark(line),
            ignore,
        );
        assert(with_comments(settled, ignore).past_first_line() == with_comments(past, ignore));
        assert(with_comments(past, ignore).stream_line(line) == (
            result,
            with_comments(next, ignore),
        ));
        if result is Ok {
            lemma_run_comments(next, ignore);
        }
    }
}

} // verus!
