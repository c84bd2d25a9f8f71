//! What holds of streams, and of whole runs of one.

use vstd::prelude::*;

use crate::config::SseConfig;
use crate::error::Failure;
use crate::error::SseError;
use crate::event::Event;
use crate::event::EventView;
use crate::laws::chunks;
use crate::parser;
use crate::parser::ParserView;
use crate::stream;
use crate::stream::StreamAction;
use crate::stream::StreamInput;
use crate::stream::StreamView;

verus! {

// ---------------------------------------------------------------------------
// Streams
// ---------------------------------------------------------------------------

/// The items that come out of a stream when items are asked for until there is none.
pub open spec fn drained<T>(stream: StreamView<T>) -> Seq<Result<T, SseError>>
    decreases stream.queue.len(),
{
    match stream.next_or(StreamAction::PollBody) {
        (StreamAction::Yield(item), next) => seq![item] + drained(next),
        _ => seq![],
    }
}

/// The item that an action hands out.
pub open spec fn yielded<T>(action: StreamAction<T>) -> Seq<Result<T, SseError>> {
    match action {
        StreamAction::Yield(item) => seq![item],
        _ => seq![],
    }
}

/// The items in the queue come out first in, first out, each of them once.
pub proof fn law_queue_in_order<T>(stream: StreamView<T>)
    ensures
        drained(stream) == stream.queue,
    decreases stream.queue.len(),
{
    if stream.queue.len() > 0 {
        let next = StreamView { queue: stream.queue.drop_first(), ..stream };
        law_queue_in_order(next);
        assert(seq![stream.queue[0]] + stream.queue.drop_first() =~= stream.queue);
    }
}

/// An item that leaves the queue is the first one.
proof fn lemma_next_or<T>(
    stream: StreamView<T>,
    otherwise: StreamAction<T>,
    action: StreamAction<T>,
    next: StreamView<T>,
)
    requires
        (action, next) == stream.next_or(otherwise),
        yielded(otherwise).len() == 0,
    ensures
        yielded(action) + next.queue == stream.queue,
{
    assert(yielded(action) + next.queue =~= stream.queue);
}

/// What each input makes a stream do, and how the stream is then.
pub proof fn law_step_does<T>(
    stream: StreamView<T>,
    input: StreamInput<T>,
    action: StreamAction<T>,
    next: StreamView<T>,
)
    requires
        stream.steps(input, action, next),
    ensures
        match input {
            StreamInput::Start => {
                &&& next.parser == stream.parser
                &&& stream.queue.len() > 0 ==> action == StreamAction::Yield(stream.queue[0])
                    && next.queue == stream.queue.subrange(1, stream.queue.len() as int)
                &&& stream.queue.len() == 0 ==> action == StreamAction::<T>::PollBody
                    && next.queue.len() == 0
            },
            StreamInput::Ended => {
                &&& next.parser == stream.parser
                &&& stream.queue.len() > 0 ==> action == StreamAction::Yield(stream.queue[0])
                    && next.queue == stream.queue.subrange(1, stream.queue.len() as int)
                &&& stream.queue.len() == 0 ==> action == StreamAction::<T>::Finish
                    && next.queue.len() == 0
            },
            StreamInput::Data(chunk) => {
                &&& next.queue == stream.queue
                &&& next.parser == stream.parser.feed(chunk@).1
                &&& match stream.parser.feed(chunk@).0 {
                    Ok(found) => action matches StreamAction::Decode(events) && events@.len()
                        == found.len() && forall|i: int|
                        0 <= i < found.len() ==> (#[trigger] events@[i])@ == found[i],
                    Err(failure) => action matches StreamAction::Yield(Err(error))
                        && error.reports(failure),
                }
            },
            StreamInput::Decoded(values) => {
                &&& next.parser == stream.parser
                &&& stream.queue.len() + values@.len() == 0 ==> action == StreamAction::<
                    T,
                >::PollBody && next.queue.len() == 0
                &&& stream.queue.len() + values@.len() > 0 ==> {
                    &&& action matches StreamAction::Yield(item)
                    &&& next.queue.len() + 1 == stream.queue.len() + values@.len()
                    &&& forall|i: int|
                        0 <= i < stream.queue.len() ==> (seq![item] + next.queue)[i]
                            == #[trigger] stream.queue[i]
                    &&& forall|i: int|
                        0 <= i < values@.len() ==> (seq![item] + next.queue)[stream.queue.len() + i]
                            == match #[trigger] values@[i] {
                            Ok(value) => Ok::<T, SseError>(value),
                            Err(error) => Err::<T, SseError>(SseError::Json(error)),
                        }
                }
            },
            StreamInput::OtherFrame => action == StreamAction::<T>::PollBody && next == stream,
            StreamInput::Pending => action == StreamAction::<T>::Wait && next == stream,
            StreamInput::Failed(error) => action == StreamAction::<T>::Yield(
                Err(SseError::Http(error)),
            ) && next == stream,
        },
{
    match input {
        StreamInput::Decoded(values) => {
            let more = stream::items_of(values@);
            lemma_next_or(stream.enqueued(more), StreamAction::PollBody, action, next);
            if let StreamAction::Yield(item) = action {
                let all = seq![item] + next.queue;
                assert(all =~= stream.queue + more);
                assert forall|i: int| 0 <= i < values@.len() implies all[stream.queue.len() + i]
                    == match #[trigger] values@[i] {
                    Ok(value) => Ok::<T, SseError>(value),
                    Err(error) => Err::<T, SseError>(SseError::Json(error)),
                } by {
                    assert(all[stream.queue.len() + i] == more[i]);
                }
            }
        },
        StreamInput::Data(chunk) => {
            if let (Ok(found), StreamAction::Decode(events)) = (
                stream.parser.feed(chunk@).0,
                action,
            ) {
                assert forall|i: int| 0 <= i < found.len() implies (#[trigger] events@[i])@
                    == found[i] by {
                    assert(parser::views(events@)[i] == found[i]);
                }
            }
        },
        _ => {},
    }
}

/// What a frame makes a raw stream do: its events go to the end of the queue as they are, and the
/// first item leaves the queue. Any other input makes it do what it makes other streams do.
pub proof fn law_raw_step_does(
    stream: StreamView<Event>,
    input: StreamInput<Event>,
    action: StreamAction<Event>,
    next: StreamView<Event>,
)
    requires
        stream.steps_raw(input, action, next),
    ensures
        !(input is Data) ==> stream.steps(input, action, next),
        input matches StreamInput::Data(chunk) ==> {
            &&& next.parser == stream.parser.feed(chunk@).1
            &&& match stream.parser.feed(chunk@).0 {
                Ok(found) => {
                    &&& stream.queue.len() + found.len() == 0 ==> action == StreamAction::<
                        Event,
                    >::PollBody && next.queue.len() == 0
                    &&& stream.queue.len() + found.len() > 0 ==> {
                        &&& action matches StreamAction::Yield(item)
                        &&& next.queue.len() + 1 == stream.queue.len() + found.len()
                        &&& forall|i: int|
                            0 <= i < stream.queue.len() ==> (seq![item] + next.queue)[i]
                                == #[trigger] stream.queue[i]
                        &&& forall|i: int|
                            0 <= i < found.len() ==> ((seq![item] + next.queue)[stream.queue.len()
                                + i] matches Ok(event) && event@ == #[trigger] found[i])
                    }
                },
                Err(failure) => {
                    &&& next.queue == stream.queue
                    &&& action matches StreamAction::Yield(Err(error))
                    &&& error.reports(failure)
                },
            }
        },
{
    if let StreamInput::Data(chunk) = input {
        if let (Ok(found), fed) = stream.parser.feed(chunk@) {
            let fed = StreamView { parser: fed, ..stream };
            let events = choose|events: Seq<Event>|
                parser::views(events) == found && (action, next) == #[trigger] fed.enqueued(
                    stream::raw_items(events),
                ).next_or(StreamAction::PollBody);
            let more = stream::raw_items(events);
            lemma_next_or(fed.enqueued(more), StreamAction::PollBody, action, next);
            if let StreamAction::Yield(item) = action {
                let all = seq![item] + next.queue;
                assert(all =~= stream.queue + more);
                assert forall|i: int| 0 <= i < found.len() implies (all[stream.queue.len()
                    + i] matches Ok(event) && event@ == #[trigger] found[i]) by {
                    assert(all[stream.queue.len() + i] == more[i]);
                    assert(parser::views(events)[i] == found[i]);
                }
            }
        }
    }
}

/// A stream that was told nothing has a fresh parser and no items.
pub proof fn law_fresh_stream<T>(config: SseConfig)
    ensures
        StreamView::<T>::fresh(config).parser == ParserView::fresh(config),
        StreamView::<T>::fresh(config).queue.len() == 0,
{
}

/// The item of a "message", whatever its data, and of an event without data is decoded from the
/// data; that of any other event from the whole of it.
pub proof fn law_decoded_from(event: EventView)
    ensures
        event.event_type == "message"@ ==> stream::source_of(event) is Data,
        event.data.len() == 0 ==> stream::source_of(event) is Data,
        event.event_type != "message"@ && event.data.len() > 0 ==> stream::source_of(
            event,
        ) is WholeEvent,
{
}

/// Decoded values come out in their order, after what was in the queue, each of them once.
pub proof fn law_decoded_in_order<T>(
    stream: StreamView<T>,
    values: Vec<Result<T, serde_json::Error>>,
    action: StreamAction<T>,
    next: StreamView<T>,
)
    requires
        stream.steps(StreamInput::Decoded(values), action, next),
    ensures
        yielded(action) + drained(next) == stream.queue + stream::items_of(values@),
{
    law_queue_in_order(next);
    lemma_next_or(
        stream.enqueued(stream::items_of(values@)),
        StreamAction::PollBody,
        action,
        next,
    );
}

/// The events of a chunk come out of a raw stream as they are and in their order, after what was
/// in the queue.
pub proof fn law_raw_events_in_order(
    stream: StreamView<Event>,
    chunk: Vec<u8>,
    action: StreamAction<Event>,
    next: StreamView<Event>,
)
    requires
        stream.steps_raw(StreamInput::Data(chunk), action, next),
    ensures
        next.parser == stream.parser.feed(chunk@).1,
        stream.parser.feed(chunk@).0 matches Ok(found) ==> exists|events: Seq<Event>|
            #[trigger] parser::views(events) == found && yielded(action) + drained(next)
                == stream.queue + stream::raw_items(events),
{
    if let (Ok(found), fed) = stream.parser.feed(chunk@) {
        let fed = StreamView { parser: fed, ..stream };
        let events = choose|events: Seq<Event>|
            parser::views(events) == found && (action, next) == #[trigger] fed.enqueued(
                stream::raw_items(events),
            ).next_or(StreamAction::PollBody);
        law_queue_in_order(next);
        lemma_next_or(
            fed.enqueued(stream::raw_items(events)),
            StreamAction::PollBody,
            action,
            next,
        );
    }
}

/// Nothing but a frame with data moves the parser of a stream, and then it is fed that frame.
pub proof fn law_parser_fed_by_frames<T>(
    stream: StreamView<T>,
    input: StreamInput<T>,
    action: StreamAction<T>,
    next: StreamView<T>,
)
    requires
        stream.steps(input, action, next),
    ensures
        next.parser == match input {
            StreamInput::Data(chunk) => stream.parser.feed(chunk@).1,
            _ => stream.parser,
        },
{
}

// ---------------------------------------------------------------------------
// Whole runs of a stream
// ---------------------------------------------------------------------------

/// One step of a stream: what it was told, what it did, and how it then was.
pub struct Step<T> {
    pub input: StreamInput<T>,
    pub action: StreamAction<T>,
    pub next: StreamView<T>,
}

/// How a stream is after steps.
pub open spec fn stream_after<T>(start: StreamView<T>, steps: Seq<Step<T>>) -> StreamView<T> {
    if steps.len() == 0 {
        start
    } else {
        steps.last().next
    }
}

/// What a body gives a stream to work on.
pub enum Piece {
    /// A frame with these data.
    Frame(Seq<u8>),
    /// A failure of the body.
    Failure(hyper::Error),
}

/// What an item of a stream stands for.
pub enum Entry {
    /// An event.
    Event(EventView),
    /// A frame that the parser refused.
    Refused(Failure),
    /// A failure of the body.
    Failed(hyper::Error),
}

/// Events, each as an entry.
pub open spec fn event_entries(events: Seq<EventView>) -> Seq<Entry> {
    Seq::new(events.len(), |i: int| Entry::Event(events[i]))
}

/// The entries of a piece that comes to a parser: one for each event of a frame, or one for the
/// refusal of the frame, or one for the failure.
pub open spec fn piece_entries(state: ParserView, piece: Piece) -> Seq<Entry> {
    match piece {
        Piece::Frame(chunk) => match state.feed(chunk).0 {
            Ok(events) => event_entries(events),
            Err(failure) => seq![Entry::Refused(failure)],
        },
        Piece::Failure(error) => seq![Entry::Failed(error)],
    }
}

/// A parser after pieces. A refused frame does not keep it from the next one.
pub open spec fn parser_after(state: ParserView, pieces: Seq<Piece>) -> ParserView
    decreases pieces.len(),
{
    if pieces.len() == 0 {
        state
    } else {
        let earlier = parser_after(state, pieces.drop_last());
        match pieces.last() {
            Piece::Frame(chunk) => earlier.feed(chunk).1,
            Piece::Failure(_) => earlier,
        }
    }
}

/// The entries of pieces that come to a parser, in their order.
pub open spec fn entries(state: ParserView, pieces: Seq<Piece>) -> Seq<Entry>
    decreases pieces.len(),
{
    if pieces.len() == 0 {
        seq![]
    } else {
        entries(state, pieces.drop_last()) + piece_entries(
            parser_after(state, pieces.drop_last()),
            pieces.last(),
        )
    }
}

/// Frames, each as a piece.
pub open spec fn frame_pieces(chunks: Seq<Seq<u8>>) -> Seq<Piece> {
    Seq::new(chunks.len(), |i: int| Piece::Frame(chunks[i]))
}

/// Where the body does not fail and no frame is refused, the entries are the events of the frames.
pub proof fn law_entries_are_events(state: ParserView, frames: Seq<Seq<u8>>)
    ensures
        chunks::feed_all(state, frames).0 matches Ok(found) ==> {
            &&& entries(state, frame_pieces(frames)) == event_entries(found)
            &&& parser_after(state, frame_pieces(frames)) == chunks::feed_all(state, frames).1
        },
    decreases frames.len(),
{
    if frames.len() == 0 {
        assert(entries(state, frame_pieces(frames)) =~= event_entries(Seq::empty()));
    } else {
        let earlier = frames.drop_last();
        assert(frames =~= earlier + seq![frames.last()]);
        lemma_feed_last(state, earlier, frames.last());
        law_entries_are_events(state, earlier);
        assert(frame_pieces(frames).drop_last() =~= frame_pieces(earlier));
        if let (Ok(found), next) = chunks::feed_all(state, earlier) {
            if let (Ok(events), _) = next.feed(frames.last()) {
                assert(event_entries(found) + event_entries(events) =~= event_entries(
                    found + events,
                ));
            }
        }
    }
}

/// An item is one for an entry: for an event the value, or the error, that `gives` says it was
/// decoded to, for a refused frame the error that reports why, for a failure of the body that
/// failure.
pub open spec fn is_item_for<T>(
    entry: Entry,
    item: Result<T, SseError>,
    gives: spec_fn(EventView, Result<T, serde_json::Error>) -> bool,
) -> bool {
    match entry {
        Entry::Event(event) => match item {
            Ok(value) => gives(event, Ok(value)),
            Err(SseError::Json(error)) => gives(event, Err(error)),
            _ => false,
        },
        Entry::Refused(failure) => item matches Err(error) && error.reports(failure),
        Entry::Failed(error) => item == Err::<T, SseError>(SseError::Http(error)),
    }
}

/// One item for each entry, in their order.
pub open spec fn all_given<T>(
    entries: Seq<Entry>,
    items: Seq<Result<T, SseError>>,
    gives: spec_fn(EventView, Result<T, serde_json::Error>) -> bool,
) -> bool {
    &&& items.len() == entries.len()
    &&& forall|i: int| 0 <= i < items.len() ==> is_item_for(entries[i], #[trigger] items[i], gives)
}

/// What a stream is told answers what it did last: what the body has where it asked for a frame,
/// the decoded values, one for each event in their order, where it asked for them, and otherwise
/// that an item is asked for.
pub open spec fn answers<T>(
    steps: Seq<Step<T>>,
    input: StreamInput<T>,
    gives: spec_fn(EventView, Result<T, serde_json::Error>) -> bool,
) -> bool {
    if steps.len() == 0 {
        input is Start
    } else {
        match steps.last().action {
            StreamAction::PollBody => !(input is Start) && !(input is Decoded),
            StreamAction::Decode(events) => {
                &&& input matches StreamInput::Decoded(values)
                &&& values@.len() == events@.len()
                &&& forall|i: int|
                    0 <= i < values@.len() ==> gives(events@[i]@, #[trigger] values@[i])
            },
            _ => input is Start,
        }
    }
}

/// The steps are a run of a stream over a body.
pub open spec fn is_run<T>(
    start: StreamView<T>,
    steps: Seq<Step<T>>,
    gives: spec_fn(EventView, Result<T, serde_json::Error>) -> bool,
) -> bool
    decreases steps.len(),
{
    steps.len() > 0 ==> {
        let earlier = steps.drop_last();
        let step = steps.last();
        &&& is_run(start, earlier, gives)
        &&& answers(earlier, step.input, gives)
        &&& stream_after(start, earlier).steps(step.input, step.action, step.next)
    }
}

/// The pieces that a stream was told of.
pub open spec fn pieces<T>(steps: Seq<Step<T>>) -> Seq<Piece>
    decreases steps.len(),
{
    if steps.len() == 0 {
        seq![]
    } else {
        pieces(steps.drop_last()) + match steps.last().input {
            StreamInput::Data(chunk) => seq![Piece::Frame(chunk@)],
            StreamInput::Failed(error) => seq![Piece::Failure(error)],
            _ => seq![],
        }
    }
}

/// The items that a stream has handed out.
pub open spec fn items<T>(steps: Seq<Step<T>>) -> Seq<Result<T, SseError>>
    decreases steps.len(),
{
    if steps.len() == 0 {
        seq![]
    } else {
        items(steps.drop_last()) + yielded(steps.last().action)
    }
}

/// The events that a stream wants decoded.
pub open spec fn undecoded<T>(steps: Seq<Step<T>>) -> Seq<EventView> {
    if steps.len() == 0 {
        seq![]
    } else {
        match steps.last().action {
            StreamAction::Decode(events) => parser::views(events@),
            _ => seq![],
        }
    }
}

/// The last of several chunks can be taken by itself.
proof fn lemma_feed_last(state: ParserView, chunks: Seq<Seq<u8>>, chunk: Seq<u8>)
    ensures
        chunks::feed_all(state, chunks + seq![chunk]) == match chunks::feed_all(state, chunks) {
            (Ok(events), next) => (
                parser::after_events(events, next.feed(chunk).0),
                next.feed(chunk).1,
            ),
            refused => refused,
        },
    decreases chunks.len(),
{
    let all = chunks + seq![chunk];
    if chunks.len() == 0 {
        assert(all.drop_first() =~= Seq::empty());
        reveal_with_fuel(chunks::feed_all, 2);
        if let (Ok(events), _) = state.feed(chunk) {
            assert(events + Seq::<EventView>::empty() =~= events);
            assert(Seq::<EventView>::empty() + events =~= events);
        }
    } else {
        assert(all.drop_first() =~= chunks.drop_first() + seq![chunk]);
        if let (Ok(events), next) = state.feed(chunks[0]) {
            lemma_feed_last(next, chunks.drop_first(), chunk);
            if let (Ok(later), last) = chunks::feed_all(next, chunks.drop_first()) {
                if let (Ok(latest), _) = last.feed(chunk) {
                    assert(events + (later + latest) =~= (events + later) + latest);
                }
            }
        }
    }
}

/// The queue is empty whenever a stream does anything but hand out an item.
proof fn lemma_run_queue<T>(
    start: StreamView<T>,
    steps: Seq<Step<T>>,
    gives: spec_fn(EventView, Result<T, serde_json::Error>) -> bool,
)
    requires
        is_run(start, steps, gives),
        start.queue.len() == 0,
    ensures
        steps.len() > 0 && !(steps.last().action is Yield) ==> steps.last().next.queue.len() == 0,
    decreases steps.len(),
{
    if steps.len() > 0 {
        lemma_run_queue(start, steps.drop_last(), gives);
    }
}

/// Where entries and items stand in the middle of a run: the entries so far are those of the items
/// that were handed out or are in the queue, and those of the events that are being decoded.
spec fn is_accounted_for<T>(
    found: Seq<Entry>,
    out: Seq<Result<T, SseError>>,
    pending: Seq<EventView>,
    gives: spec_fn(EventView, Result<T, serde_json::Error>) -> bool,
) -> bool {
    &&& found.len() == out.len() + pending.len()
    &&& all_given(found.take(out.len() as int), out, gives)
    &&& found.skip(out.len() as int) == event_entries(pending)
}

/// More items for more entries.
proof fn lemma_more_given<T>(
    found: Seq<Entry>,
    out: Seq<Result<T, SseError>>,
    more_found: Seq<Entry>,
    more_out: Seq<Result<T, SseError>>,
    gives: spec_fn(EventView, Result<T, serde_json::Error>) -> bool,
)
    requires
        all_given(found, out, gives),
        all_given(more_found, more_out, gives),
    ensures
        all_given(found + more_found, out + more_out, gives),
{
    let all = out + more_out;
    assert forall|i: int| 0 <= i < all.len() implies is_item_for(
        (found + more_found)[i],
        #[trigger] all[i],
        gives,
    ) by {
        if i < out.len() {
            assert(all[i] == out[i]);
        } else {
            assert(all[i] == more_out[i - out.len()]);
        }
    }
}

/// Everything is accounted for where nothing is being decoded exactly if each entry has its item.
proof fn lemma_nothing_pending<T>(
    found: Seq<Entry>,
    out: Seq<Result<T, SseError>>,
    pending: Seq<EventView>,
    gives: spec_fn(EventView, Result<T, serde_json::Error>) -> bool,
)
    requires
        pending.len() == 0,
    ensures
        is_accounted_for(found, out, pending, gives) <==> all_given(found, out, gives),
{
    if found.len() == out.len() {
        assert(found.take(out.len() as int) =~= found);
        assert(found.skip(out.len() as int) =~= event_entries(pending));
    }
}

/// The entries of one more step.
proof fn lemma_entries_step<T>(state: ParserView, steps: Seq<Step<T>>)
    requires
        steps.len() > 0,
    ensures
        ({
            let earlier = pieces(steps.drop_last());
            let before = parser_after(state, earlier);
            match steps.last().input {
                StreamInput::Data(chunk) => {
                    &&& entries(state, pieces(steps)) == entries(state, earlier) + piece_entries(
                        before,
                        Piece::Frame(chunk@),
                    )
                    &&& parser_after(state, pieces(steps)) == before.feed(chunk@).1
                },
                StreamInput::Failed(error) => {
                    &&& entries(state, pieces(steps)) == entries(state, earlier).push(
                        Entry::Failed(error),
                    )
                    &&& parser_after(state, pieces(steps)) == before
                },
                _ => pieces(steps) == earlier,
            }
        }),
{
    let earlier = pieces(steps.drop_last());
    let all = pieces(steps);
    if steps.last().input is Data || steps.last().input is Failed {
        assert(all.drop_last() =~= earlier);
        if let StreamInput::Failed(error) = steps.last().input {
            assert(entries(state, all) =~= entries(state, earlier).push(Entry::Failed(error)));
        }
    } else {
        assert(all =~= earlier);
    }
}

proof fn lemma_run_accounts<T>(
    start: StreamView<T>,
    steps: Seq<Step<T>>,
    gives: spec_fn(EventView, Result<T, serde_json::Error>) -> bool,
)
    requires
        is_run(start, steps, gives),
        start.queue.len() == 0,
    ensures
        stream_after(start, steps).parser == parser_after(start.parser, pieces(steps)),
        is_accounted_for(
            entries(start.parser, pieces(steps)),
            items(steps) + stream_after(start, steps).queue,
            undecoded(steps),
            gives,
        ),
    decreases steps.len(),
{
    if steps.len() == 0 {
        assert(items(steps) + start.queue =~= Seq::empty());
        lemma_nothing_pending(
            Seq::empty(),
            items(steps) + start.queue,
            undecoded(steps),
            gives,
        );
    } else {
        let earlier = steps.drop_last();
        let step = steps.last();
        let stream = stream_after(start, earlier);
        let had = items(earlier) + stream.queue;
        let has = items(steps) + step.next.queue;
        let found = entries(start.parser, pieces(earlier));
        let all = entries(start.parser, pieces(steps));
        lemma_run_accounts(start, earlier, gives);
        lemma_run_queue(start, earlier, gives);
        lemma_entries_step(start.parser, steps);
        match step.input {
            StreamInput::Data(chunk) => {
                lemma_nothing_pending(found, had, undecoded(earlier), gives);
                match stream.parser.feed(chunk@).0 {
                    Ok(events) => {
                        assert(has =~= had);
                        assert(all.take(has.len() as int) =~= found);
                        assert(all.skip(has.len() as int) =~= event_entries(events));
                    },
                    Err(failure) => {
                        lemma_more_given(
                            found,
                            had,
                            seq![Entry::Refused(failure)],
                            yielded(step.action),
                            gives,
                        );
                        assert(has =~= had + yielded(step.action));
                        lemma_nothing_pending(all, has, undecoded(steps), gives);
                    },
                }
            },
            StreamInput::Failed(error) => {
                lemma_nothing_pending(found, had, undecoded(earlier), gives);
                lemma_more_given(
                    found,
                    had,
                    seq![Entry::Failed(error)],
                    yielded(step.action),
                    gives,
                );
                assert(all =~= found + seq![Entry::Failed(error)]);
                assert(has =~= had + yielded(step.action));
                lemma_nothing_pending(all, has, undecoded(steps), gives);
            },
            StreamInput::Decoded(values) => {
                let more = stream::items_of(values@);
                let asked = event_entries(undecoded(earlier));
                assert(all_given(asked, more, gives)) by {
                    if let StreamAction::Decode(events) = earlier.last().action {
                        assert forall|i: int| 0 <= i < more.len() implies is_item_for(
                            asked[i],
                            #[trigger] more[i],
                            gives,
                        ) by {
                            assert(gives(events@[i]@, values@[i]));
                        }
                    }
                }
                lemma_next_or(
                    stream.enqueued(more),
                    StreamAction::PollBody,
                    step.action,
                    step.next,
                );
                assert(has =~= had + more);
                let n = had.len() as int;
                lemma_more_given(found.take(n), had, found.skip(n), more, gives);
                assert(found.take(n) + found.skip(n) =~= found);
                lemma_nothing_pending(all, has, undecoded(steps), gives);
            },
            StreamInput::Start => {
                lemma_next_or(stream, StreamAction::PollBody, step.action, step.next);
                assert(has =~= had);
                assert(undecoded(steps) =~= undecoded(earlier));
            },
            StreamInput::Ended => {
                lemma_next_or(stream, StreamAction::Finish, step.action, step.next);
                assert(has =~= had);
                assert(undecoded(steps) =~= undecoded(earlier));
            },
            _ => {
                assert(has =~= had);
                assert(undecoded(steps) =~= undecoded(earlier));
            },
        }
    }
}

/// The items that are out are those of the first entries, and of all of them where the queue is
/// empty and nothing is being decoded.
proof fn lemma_out_first<T>(
    found: Seq<Entry>,
    out: Seq<Result<T, SseError>>,
    queue: Seq<Result<T, SseError>>,
    pending: Seq<EventView>,
    gives: spec_fn(EventView, Result<T, serde_json::Error>) -> bool,
)
    requires
        is_accounted_for(found, out + queue, pending, gives),
    ensures
        out.len() <= found.len(),
        all_given(found.take(out.len() as int), out, gives),
        queue.len() == 0 && pending.len() == 0 ==> all_given(found, out, gives),
{
    let all = out + queue;
    assert forall|i: int| 0 <= i < out.len() implies is_item_for(
        found.take(out.len() as int)[i],
        #[trigger] out[i],
        gives,
    ) by {
        assert(all[i] == out[i]);
        assert(found.take(all.len() as int)[i] == found[i]);
    }
    if queue.len() == 0 && pending.len() == 0 {
        assert(found.take(out.len() as int) =~= found);
    }
}

/// Over a whole body, a stream hands out one item for each event of the frames, one error in the
/// place of each frame that the parser refuses, and one for each failure of the body, all in their
/// order: none is lost, doubled or moved. Where it finishes, all of them are out; before that,
/// those that are out are the first ones.
pub proof fn law_run_gives_every_event<T>(
    config: SseConfig,
    steps: Seq<Step<T>>,
    gives: spec_fn(EventView, Result<T, serde_json::Error>) -> bool,
)
    requires
        is_run(StreamView::fresh(config), steps, gives),
    ensures
        ({
            let found = entries(ParserView::fresh(config), pieces(steps));
            &&& items(steps).len() <= found.len()
            &&& all_given(found.take(items(steps).len() as int), items(steps), gives)
            &&& steps.len() > 0 && steps.last().action is Finish ==> all_given(
                found,
                items(steps),
                gives,
            )
        }),
{
    let start = StreamView::<T>::fresh(config);
    lemma_run_accounts(start, steps, gives);
    lemma_run_queue(start, steps, gives);
    lemma_out_first(
        entries(start.parser, pieces(steps)),
        items(steps),
        stream_after(start, steps).queue,
        undecoded(steps),
        gives,
    );
}

/// In a run, a stream asks for a frame, waits or finishes only when its queue is empty; it waits
/// only where the body has nothing yet, and finishes exactly where the body has ended.
pub proof fn law_run_waits_for_body<T>(
    config: SseConfig,
    steps: Seq<Step<T>>,
    gives: spec_fn(EventView, Result<T, serde_json::Error>) -> bool,
)
    requires
        is_run(StreamView::fresh(config), steps, gives),
        steps.len() > 0,
    ensures
        !(steps.last().action is Yield) ==> steps.last().next.queue.len() == 0,
        steps.last().action is Wait <==> steps.last().input is Pending,
        steps.last().action is Finish <==> steps.last().input is Ended,
{
    let start = StreamView::<T>::fresh(config);
    lemma_run_queue(start, steps, gives);
    lemma_run_queue(start, steps.drop_last(), gives);
}

/// The steps are a run of a raw stream over a body.
pub open spec fn is_raw_run(start: StreamView<Event>, steps: Seq<Step<Event>>) -> bool
    decreases steps.len(),
{
    steps.len() > 0 ==> {
        let earlier = steps.drop_last();
        let step = steps.last();
        &&& is_raw_run(start, earlier)
        &&& answers(earlier, step.input, is_that_event())
        &&& stream_after(start, earlier).steps_raw(step.input, step.action, step.next)
    }
}

/// The item is the event itself.
pub open spec fn is_that_event() -> spec_fn(EventView, Result<Event, serde_json::Error>) -> bool {
    |event: EventView, value: Result<Event, serde_json::Error>|
        value matches Ok(same) && same@ == event
}

proof fn lemma_raw_run(start: StreamView<Event>, steps: Seq<Step<Event>>)
    requires
        is_raw_run(start, steps),
        start.queue.len() == 0,
    ensures
        stream_after(start, steps).parser == parser_after(start.parser, pieces(steps)),
        all_given(
            entries(start.parser, pieces(steps)),
            items(steps) + stream_after(start, steps).queue,
            is_that_event(),
        ),
        steps.len() > 0 ==> !(steps.last().action is Decode),
        steps.len() > 0 && !(steps.last().action is Yield) ==> steps.last().next.queue.len() == 0,
    decreases steps.len(),
{
    if steps.len() == 0 {
        assert(items(steps) + start.queue =~= Seq::empty());
    } else {
        let earlier = steps.drop_last();
        let step = steps.last();
        let stream = stream_after(start, earlier);
        let had = items(earlier) + stream.queue;
        let has = items(steps) + step.next.queue;
        let found = entries(start.parser, pieces(earlier));
        lemma_raw_run(start, earlier);
        lemma_entries_step(start.parser, steps);
        match step.input {
            StreamInput::Data(chunk) => match stream.parser.feed(chunk@).0 {
                Ok(views) => {
                    law_raw_events_in_order(stream, chunk, step.action, step.next);
                    law_queue_in_order(step.next);
                    let events = choose|events: Seq<Event>|
                        #[trigger] parser::views(events) == views && yielded(step.action) + drained(
                            step.next,
                        ) == stream.queue + stream::raw_items(events);
                    let more = stream::raw_items(events);
                    assert(has =~= had + more);
                    assert forall|i: int| 0 <= i < more.len() implies is_item_for(
                        event_entries(views)[i],
                        #[trigger] more[i],
                        is_that_event(),
                    ) by {
                        assert(parser::views(events)[i] == views[i]);
                    }
                    lemma_more_given(found, had, event_entries(views), more, is_that_event());
                },
                Err(failure) => {
                    let refused = seq![Entry::Refused(failure)];
                    lemma_more_given(found, had, refused, yielded(step.action), is_that_event());
                    assert(has =~= had + yielded(step.action));
                },
            },
            StreamInput::Failed(error) => {
                let failed = seq![Entry::Failed(error)];
                lemma_more_given(found, had, failed, yielded(step.action), is_that_event());
                assert(found.push(Entry::Failed(error)) =~= found + failed);
                assert(has =~= had + yielded(step.action));
            },
            StreamInput::Start => {
                lemma_next_or(stream, StreamAction::PollBody, step.action, step.next);
                assert(has =~= had);
            },
            StreamInput::Ended => {
                lemma_next_or(stream, StreamAction::Finish, step.action, step.next);
                assert(has =~= had);
            },
            _ => {
                assert(has =~= had);
            },
        }
    }
}

/// Over a whole body, a raw stream hands out the events of the frames, one error in the place of
/// each frame that the parser refuses, and one for each failure of the body, all in their order:
/// none is lost, doubled or moved. Where it finishes, all of them are out; before that, those that
/// are out are the first ones.
pub proof fn law_raw_run_gives_every_event(config: SseConfig, steps: Seq<Step<Event>>)
    requires
        is_raw_run(StreamView::fresh(config), steps),
    ensures
        ({
            let found = entries(ParserView::fresh(config), pieces(steps));
            &&& items(steps).len() <= found.len()
            &&& all_given(found.take(items(steps).len() as int), items(steps), is_that_event())
            &&& steps.len() > 0 && steps.last().action is Finish ==> all_given(
                found,
                items(steps),
                is_that_event(),
            )
        }),
{
    let start = StreamView::<Event>::fresh(config);
    let found = entries(start.parser, pieces(steps));
    let queue = stream_after(start, steps).queue;
    lemma_raw_run(start, steps);
    lemma_nothing_pending(found, items(steps) + queue, Seq::empty(), is_that_event());
    lemma_out_first(found, items(steps), queue, Seq::empty(), is_that_event());
}

/// In a run, a raw stream asks for a frame, waits or finishes only when its queue is empty; it
/// waits only where the body has nothing yet, and finishes exactly where the body has ended.
pub proof fn law_raw_run_waits_for_body(config: SseConfig, steps: Seq<Step<Event>>)
    requires
        is_raw_run(StreamView::fresh(config), steps),
        steps.len() > 0,
    ensures
        !(steps.last().action is Yield) ==> steps.last().next.queue.len() == 0,
        steps.last().action is Wait <==> steps.last().input is Pending,
        steps.last().action is Finish <==> steps.last().input is Ended,
{
    let start = StreamView::<Event>::fresh(config);
    lemma_raw_run(start, steps);
    lemma_raw_run(start, steps.drop_last());
}

} // verus!
