//! Configuration of a parser.

use vstd::prelude::*;

verus! {

/// Default reconnection time in milliseconds.
pub const DEFAULT_RECONNECTION_TIME: u64 = 3000;

/// Default limit on the buffer, one megabyte.
pub const MAX_BUFFER_SIZE: usize = 1024 * 1024;

/// Configuration for an event stream.
#[derive(Debug)]
pub struct SseConfig {
    /// Maximum buffer size for incomplete events.
    pub max_buffer_size: usize,
    /// Default reconnection time in milliseconds.
    pub reconnection_time: u64,
    /// Whether to ignore comments (lines starting with ':').
    pub ignore_comments: bool,
    /// Whether to trim whitespace from field values.
    pub trim_values: bool,
}

impl SseConfig {
    /// The configuration that nothing was changed in.
    pub open spec fn standard() -> SseConfig {
        SseConfig {
            max_buffer_size: MAX_BUFFER_SIZE,
            reconnection_time: DEFAULT_RECONNECTION_TIME,
            ignore_comments: true,
            trim_values: true,
        }
    }
}

impl Default for SseConfig {
    fn default() -> (config: SseConfig)
        ensures
            config == SseConfig::standard(),
            config.max_buffer_size == 1_048_576,
            config.reconnection_time == 3000,
            config.ignore_comments,
            config.trim_values,
    {
        SseConfig {
            max_buffer_size: MAX_BUFFER_SIZE,
            reconnection_time: DEFAULT_RECONNECTION_TIME,
            ignore_comments: true,
            trim_values: true,
        }
    }
}

impl Clone for SseConfig {
    fn clone(&self) -> (copy: SseConfig)
        ensures
            copy == *self,
    {
        SseConfig {
            max_buffer_size: self.max_buffer_size,
            reconnection_time: self.reconnection_time,
            ignore_comments: self.ignore_comments,
            trim_values: self.trim_values,
        }
    }
}

/// The length of a duration in nanoseconds.
pub uninterp spec fn nanoseconds(duration: core::time::Duration) -> u128;

/// `core::time::Duration::from_millis`: the duration of that many milliseconds,
/// and of no part of another one.
pub assume_specification[ core::time::Duration::from_millis ](millis: u64) -> (duration:
    core::time::Duration)
    ensures
        nanoseconds(duration) == millis * 1_000_000,
;

/// `core::time::Duration::as_millis`: the whole milliseconds in the duration.
pub assume_specification[ core::time::Duration::as_millis ](
    duration: &core::time::Duration,
) -> (millis: u128)
    ensures
        millis == nanoseconds(*duration) / 1_000_000,
;

} // verus!
