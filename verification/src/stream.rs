//! Event streams: what to do with each piece of a response body, and which items come out.

use std::collections::VecDeque;
use vstd::prelude::*;

use crate::config;
use crate::config::SseConfig;
use crate::error::SseError;
use crate::event;
use crate::event::Event;
use crate::event::EventView;
use crate::parser;
use crate::parser::ParserState;
use crate::parser::ParserView;

verus! {

/// What a stream is told.
pub enum StreamInput<T> {
    /// An item is asked for.
    Start,
    /// The body gave a frame with data.
    Data(Vec<u8>),
    /// The body gave a frame without data.
    OtherFrame,
    /// The events that were to be decoded gave these values.
    Decoded(Vec<Result<T, serde_json::Error>>),
    /// The body failed.
    Failed(hyper::Error),
    /// The body has ended.
    Ended,
    /// The body has nothing yet.
    Pending,
}

/// What is to be done next.
pub enum StreamAction<T> {
    /// Hand out an item.
    Yield(Result<T, SseError>),
    /// There are no more items.
    Finish,
    /// There is no item yet.
    Wait,
    /// Ask the body for a frame.
    PollBody,
    /// Decode these events, in order.
    Decode(Vec<Event>),
}

/// What the item of an event is decoded from.
#[derive(Debug, Clone, Copy, PartialEq, Eq, Structural)]
pub enum DecodeSource {
    /// The event data.
    Data,
    /// The event as a whole.
    WholeEvent,
}

/// What the item of an event is decoded from: the data of a "message", the whole of another
/// event with data.
pub open spec fn source_of(event: EventView) -> DecodeSource {
    if event.event_type == event::message_type() || event.data.len() == 0 {
        DecodeSource::Data
    } else {
        DecodeSource::WholeEvent
    }
}

/// The item that a decoded value makes.
pub open spec fn item_of<T>(value: Result<T, serde_json::Error>) -> Result<T, SseError> {
    match value {
        Ok(value) => Ok(value),
        Err(error) => Err(SseError::Json(error)),
    }
}

/// The items that decoded values make.
pub open spec fn items_of<T>(values: Seq<Result<T, serde_json::Error>>) -> Seq<
    Result<T, SseError>,
> {
    Seq::new(values.len(), |i: int| item_of(values[i]))
}

/// The items of events that are handed out as they are.
pub open spec fn raw_items(events: Seq<Event>) -> Seq<Result<Event, SseError>> {
    Seq::new(events.len(), |i: int| Ok(events[i]))
}

/// The state of a stream: its parser, and the items that were not handed out yet.
pub struct StreamView<T> {
    pub parser: ParserView,
    pub queue: Seq<Result<T, SseError>>,
}

impl<T> StreamView<T> {
    /// A stream that was told nothing.
    pub open spec fn fresh(config: SseConfig) -> StreamView<T> {
        StreamView { parser: ParserView::fresh(config), queue: seq![] }
    }

    /// The stream with more items at the end of its queue.
    pub open spec fn enqueued(self, items: Seq<Result<T, SseError>>) -> StreamView<T> {
        StreamView { queue: self.queue + items, ..self }
    }

    /// The first item leaves the queue, or, where there is none, `otherwise` is done.
    pub open spec fn next_or(self, otherwise: StreamAction<T>) -> (StreamAction<T>, StreamView<T>) {
        if self.queue.len() > 0 {
            (
                StreamAction::Yield(self.queue[0]),
                StreamView { queue: self.queue.drop_first(), ..self },
            )
        } else {
            (otherwise, self)
        }
    }

    /// The stream does `action` on `chunk` and then is `next`.
    pub open spec fn takes_data(
        self,
        chunk: Seq<u8>,
        action: StreamAction<T>,
        next: StreamView<T>,
    ) -> bool {
        let (outcome, parser) = self.parser.feed(chunk);
        &&& next == (StreamView { parser, ..self })
        &&& match outcome {
            Ok(events) => action matches StreamAction::Decode(todo) && parser::views(todo@)
                == events,
            Err(failure) => action matches StreamAction::Yield(Err(error)) && error.reports(
                failure,
            ),
        }
    }

    /// The stream does `action` on `input` and then is `next`.
    pub open spec fn steps(
        self,
        input: StreamInput<T>,
        action: StreamAction<T>,
        next: StreamView<T>,
    ) -> bool {
        match input {
            StreamInput::Start => (action, next) == self.next_or(StreamAction::PollBody),
            StreamInput::Data(chunk) => self.takes_data(chunk@, action, next),
            StreamInput::OtherFrame => (action, next) == (StreamAction::<T>::PollBody, self),
            StreamInput::Decoded(values) => (action, next) == self.enqueued(
                items_of(values@),
            ).next_or(StreamAction::PollBody),
            StreamInput::Failed(error) => (action, next) == (
                StreamAction::<T>::Yield(Err(SseError::Http(error))),
                self,
            ),
            StreamInput::Ended => (action, next) == self.next_or(StreamAction::Finish),
            StreamInput::Pending => (action, next) == (StreamAction::<T>::Wait, self),
        }
    }
}

impl StreamView<Event> {
    /// As `steps`, for a stream that hands its events out as they are.
    pub open spec fn steps_raw(
        self,
        input: StreamInput<Event>,
        action: StreamAction<Event>,
        next: StreamView<Event>,
    ) -> bool {
        if let StreamInput::Data(chunk) = input {
            let (outcome, parser) = self.parser.feed(chunk@);
            let fed = StreamView { parser, ..self };
            match outcome {
                Ok(views) => exists|events: Seq<Event>|
                    {
                        &&& parser::views(events) == views
                        &&& (action, next) == #[trigger] fed.enqueued(raw_items(events)).next_or(
                            StreamAction::PollBody,
                        )
                    },
                Err(failure) => {
                    &&& action matches StreamAction::Yield(Err(error))
                    &&& error.reports(failure)
                    &&& next == fed
                },
            }
        } else {
            self.steps(input, action, next)
        }
    }
}

/// A stream of events, decoded to `T`, over the frames of a response body.
pub struct EventStream<T> {
    parser: ParserState,
    event_queue: VecDeque<Result<T, SseError>>,
}

/// A stream of events as they are.
pub type RawEventStream = EventStream<Event>;

impl<T> View for EventStream<T> {
    type V = StreamView<T>;

    closed spec fn view(&self) -> StreamView<T> {
        StreamView { parser: self.parser@, queue: self.event_queue@ }
    }
}

impl<T> EventStream<T> {
    /// Creates a stream with the default configuration.
    pub fn new() -> (stream: EventStream<T>)
        ensures
            stream@ == StreamView::<T>::fresh(SseConfig::standard()),
    {
        EventStream::with_config(SseConfig::default())
    }

    /// Creates a stream with the given configuration.
    pub fn with_config(config: SseConfig) -> (stream: EventStream<T>)
        ensures
            stream@ == StreamView::<T>::fresh(config),
    {
        EventStream { parser: ParserState::new(config), event_queue: VecDeque::new() }
    }

    /// The last event ID, for reconnection.
    pub fn last_event_id(&self) -> (id: Option<&str>)
        ensures
            match id {
                Some(id) => self@.parser.last_event_id == Some(id@),
                None => self@.parser.last_event_id is None,
            },
    {
        self.parser.last_event_id()
    }

    /// The current reconnection time.
    pub fn reconnection_time(&self) -> (time: core::time::Duration)
        ensures
            config::nanoseconds(time) == self@.parser.reconnection_time * 1_000_000,
    {
        self.parser.reconnection_time()
    }

    /// Takes the first item off the queue.
    fn next_item(&mut self, otherwise: StreamAction<T>) -> (action: StreamAction<T>)
        ensures
            (action, final(self)@) == old(self)@.next_or(otherwise),
    {
        let ghost before = self@;
        match self.event_queue.pop_front() {
            Some(item) => {
                assert(self@.queue =~= before.queue.drop_first());
                StreamAction::Yield(item)
            },
            None => otherwise,
        }
    }

    /// Decides what to do next.
    pub fn poll_next(&mut self, input: StreamInput<T>) -> (action: StreamAction<T>)
        ensures
            old(self)@.steps(input, action, final(self)@),
    {
        match input {
            StreamInput::Start => self.next_item(StreamAction::PollBody),
            StreamInput::Data(chunk) => {
                match self.parser.process_bytes(chunk.as_slice()) {
                    Ok(events) => StreamAction::Decode(events),
                    Err(error) => StreamAction::Yield(Err(error)),
                }
            },
            StreamInput::OtherFrame => StreamAction::PollBody,
            StreamInput::Decoded(values) => {
                let ghost before = self@;
                let ghost all = values@;
                for value in it: values.into_iter()
                    invariant
                        it.seq() == all,
                        self@ == before.enqueued(items_of(all.take(it.index() as int))),
                {
                    let ghost n = it.index() as int;
                    let item = match value {
                        Ok(value) => Ok(value),
                        Err(error) => Err(SseError::Json(error)),
                    };
                    self.event_queue.push_back(item);
                    assert(items_of(all.take(n + 1)) =~= items_of(all.take(n)).push(
                        item_of(all[n]),
                    ));
                    assert(self@.queue =~= before.enqueued(items_of(all.take(n + 1))).queue);
                }
                assert(all.take(all.len() as int) =~= all);
                self.next_item(StreamAction::PollBody)
            },
            StreamInput::Failed(error) => StreamAction::Yield(Err(SseError::Http(error))),
            StreamInput::Ended => self.next_item(StreamAction::Finish),
            StreamInput::Pending => StreamAction::Wait,
        }
    }
}

impl Event {
    /// What the item of the event is decoded from.
    pub fn decode_source(&self) -> (source: DecodeSource)
        ensures
            source == source_of(self@),
            source == DecodeSource::Data <==> self.event_type@ == "message"@ || self.data@.len()
                == 0,
    {
        if self.is_message() || self.data.as_str().is_empty() {
            DecodeSource::Data
        } else {
            DecodeSource::WholeEvent
        }
    }
}

impl EventStream<Event> {
    /// Creates a stream that hands out events as they are.
    pub fn raw() -> (stream: EventStream<Event>)
        ensures
            stream@ == StreamView::<Event>::fresh(SseConfig::standard()),
    {
        EventStream::new()
    }

    /// Decides what to do next, and decodes nothing.
    pub fn poll_next_raw(&mut self, input: StreamInput<Event>) -> (action: StreamAction<Event>)
        ensures
            old(self)@.steps_raw(input, action, final(self)@),
    {
        let chunk = match input {
            StreamInput::Data(chunk) => chunk,
            other => {
                return self.poll_next(other);
            },
        };
        match self.parser.process_bytes(chunk.as_slice()) {
            Ok(events) => {
                let ghost before = self@;
                let ghost all = events@;
                for event in it: events.into_iter()
                    invariant
                        it.seq() == all,
                        self@ == before.enqueued(raw_items(all.take(it.index() as int))),
                {
                    let ghost n = it.index() as int;
                    self.event_queue.push_back(Ok(event));
                    assert(self@.queue =~= before.enqueued(raw_items(all.take(n + 1))).queue);
                }
                assert(all.take(all.len() as int) =~= all);
                let action = self.next_item(StreamAction::PollBody);
                assert((action, self@) == before.enqueued(raw_items(all)).next_or(
                    StreamAction::PollBody,
                ));
                action
            },
            Err(error) => StreamAction::Yield(Err(error)),
        }
    }
}

/// Builder for event streams with a configuration of their own.
#[derive(Debug)]
pub struct EventStreamBuilder {
    /// The configuration.
    pub config: SseConfig,
}

impl EventStreamBuilder {
    /// Creates a builder with the default configuration.
    pub fn new() -> (builder: EventStreamBuilder)
        ensures
            builder.config == SseConfig::standard(),
    {
        EventStreamBuilder { config: SseConfig::default() }
    }

    /// Sets the maximum buffer size.
    pub fn max_buffer_size(self, size: usize) -> (builder: EventStreamBuilder)
        ensures
            builder.config == (SseConfig { max_buffer_size: size, ..self.config }),
    {
        let mut builder = self;
        builder.config.max_buffer_size = size;
        builder
    }

    /// Sets the default reconnection time, as a number of whole milliseconds modulo 2^64.
    pub fn reconnection_time(self, time: core::time::Duration) -> (builder: EventStreamBuilder)
        ensures
            builder.config == (SseConfig {
                reconnection_time: (config::nanoseconds(time) / 1_000_000
                    % 0x1_0000_0000_0000_0000) as u64,
                ..self.config
            }),
    {
        let mut builder = self;
        let millis: u128 = time.as_millis();
        assert(millis as u64 == millis % 0x1_0000_0000_0000_0000) by (bit_vector);
        builder.config.reconnection_time = millis as u64;
        builder
    }

    /// Sets whether to ignore comment lines.
    pub fn ignore_comments(self, ignore: bool) -> (builder: EventStreamBuilder)
        ensures
            builder.config == (SseConfig { ignore_comments: ignore, ..self.config }),
    {
        let mut builder = self;
        builder.config.ignore_comments = ignore;
        builder
    }

    /// Sets whether to trim whitespace from field values.
    pub fn trim_values(self, trim: bool) -> (builder: EventStreamBuilder)
        ensures
            builder.config == (SseConfig { trim_values: trim, ..self.config }),
    {
        let mut builder = self;
        builder.config.trim_values = trim;
        builder
    }

    /// Builds an event stream with the configured settings.
    pub fn build<T>(self) -> (stream: EventStream<T>)
        ensures
            stream@ == StreamView::<T>::fresh(self.config),
    {
        EventStream::with_config(self.config)
    }
}

impl Default for EventStreamBuilder {
    fn default() -> (builder: EventStreamBuilder)
        ensures
            builder.config == SseConfig::standard(),
    {
        EventStreamBuilder::new()
    }
}

} // verus!
