//! What the library gives on every input, in plain bytes and numbers.

pub mod calendar;
pub mod connection;
pub mod fields;
pub mod heads;
pub mod targets;
pub mod uris;
pub mod words;
