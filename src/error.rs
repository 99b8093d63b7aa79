use vstd::prelude::*;

verus! {

/// Why a single request/response cycle was abandoned.
#[derive(Debug, Clone, PartialEq, Eq)]
pub enum GatewayError {
    /// The client closed the connection before the head terminator arrived.
    ConnectionClosedEarly,
    /// The head block grew past the header ceiling.
    HeadersTooLarge,
    /// The declared request body is larger than the body ceiling.
    BodyTooLarge,
    /// The client closed the connection before the declared body arrived.
    IncompleteBody,
    /// The upstream response grew past the response ceiling.
    ResponseTooLarge,
    /// The request head is not valid text or its request line lacks a token.
    MalformedHead,
    /// The upstream response has no head terminator, or a bad status line.
    MalformedUpstreamResponse,
    /// A `Content-Length` value is not an unsigned integer.
    InvalidContentLength,
    /// No connection to the upstream could be made.
    UpstreamConnectFailed,
    /// The workload transform failed; the bytes are its diagnostics.
    TransformFailed(Vec<u8>),
    /// A read or write failed or timed out.
    Io,
}

/// Why the configured upstream URL cannot be used.
#[derive(Debug, Clone, PartialEq, Eq)]
pub enum ConfigError {
    /// The text is not a URL.
    InvalidUrl,
    /// The scheme is not plain `http`.
    UnsupportedScheme,
    /// The URL names no host.
    MissingHost,
    /// The URL has no port and its scheme no default one.
    MissingPort,
}

} // verus!
