//! Verified core of a TCP broadcast relay.
//!
//! Any payload sent by one connected client is fanned out to every currently
//! registered client. The pieces that carry all the protocol decisions live
//! here: the length-prefixed wire framing (`codec`), the serialized client
//! registry with its best-effort fan-out policy (`registry`), and the
//! per-client reader lifecycle that brackets every connection between one
//! `Joined` and one `Left` event (`session`).
//!
//! Transport I/O, thread spawning, and channel plumbing stay outside; they
//! hand this library plain bytes and events and carry its decisions out.

pub mod codec;
pub mod registry;
pub mod session;
