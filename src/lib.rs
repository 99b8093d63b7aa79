//! A small HTTP/1.1 gateway core: request framing, head parsing, request and
//! response rewriting, and the local workloads, with their contracts.
pub mod bytes;
pub mod names;
pub mod headers;
pub mod error;
pub mod request;
pub mod frame;
pub mod forward;
pub mod response;
pub mod workload;
pub mod dispatch;
pub mod config;
