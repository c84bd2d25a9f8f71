//! What holds of parsers and streams as a whole.

pub mod characters;
pub mod chunks;
pub mod events;
pub mod fields;
pub mod input;
pub mod reading;
pub mod streaming;
