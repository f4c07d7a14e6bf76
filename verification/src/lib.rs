//! HTTP/1.1 message heads, request targets and the decisions of a connection server.

pub mod bytes;
pub mod date;
pub mod http;
pub mod laws;
pub mod parser;
pub mod server;
pub mod threadpool;
