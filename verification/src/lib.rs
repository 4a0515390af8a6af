//! A hand-built HTTP/1.1 client core for talking to a locally reachable
//! LLM inference server over a raw stream socket: request serialization,
//! status/header parsing, transfer-encoding-aware body reconstruction
//! (including a streaming chunked-decoding state machine), and the NDJSON
//! reducer that assembles the streamed reply.
//!
//! All socket work (connecting, reading with timeouts) lives outside this
//! library; everything here is pure computation on byte and character
//! sequences, specified and verified with Verus.

pub mod ascii;
pub mod chat;
pub mod chunked;
pub mod errors;
pub mod json;
pub mod models;
pub mod request;
pub mod response;
