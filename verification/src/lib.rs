//! A small embeddable HTTP/1.x server library.
//!
//! The verified core covers the request parser, the path-trie router with
//! parametric segments, the response builder with its exact wire format, and
//! the worker-pool message protocol.  The surrounding network plumbing
//! (sockets, threads) lives outside the library and calls into it with plain
//! values.

pub mod strutil;
pub mod method;
pub mod request;
pub mod response;
pub mod pool;
pub mod dispatch;
pub mod router;
