//! The parts of a message head.

pub mod headers;
pub mod method;
pub mod request_uri;
pub mod status;
