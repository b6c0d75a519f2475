//! Runtime for an actor-addressed remote-debugging message bus carried over a
//! single duplex byte stream.
//!
//! The crate is organised bottom-up: `json` models the structured values that
//! travel on the wire and proves that serialisation and parsing invert each
//! other; `codec` frames payload bytes with a decimal length prefix; `message`
//! is the envelope (`from`, optional `to`, flat payload fields); `actors`
//! holds the addressable capabilities; `registry` maps live actor ids to
//! actors while enforcing id uniqueness; `dispatch` routes one inbound
//! message; `session` owns one connection's registry and drives frames
//! through decode and dispatch.

pub mod actors;
pub mod codec;
pub mod json;
pub mod dispatch;
pub mod message;
pub mod registry;
pub mod session;
