//! Membership and fan-out for a broadcast relay: a room of members, each with
//! an outbound queue, and the per-connection lifecycle that drives the room.

pub mod channel;
pub mod member;
pub mod room;
pub mod session;
