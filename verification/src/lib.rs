//! A minimal HTTP listener core: request decoding, response encoding, routing,
//! and the bookkeeping of a bounded worker pool.
//!
//! Every function here is pure: sockets and threads live with the caller, which
//! hands this crate bytes and events and acts on what it gets back.

pub mod text;
pub mod string_map;
pub mod http_request;
pub mod http_response;
pub mod thread_pool;
pub mod server;
