//! A relay for short text messages: clients register, join named rooms, and
//! every message addressed to a room is fanned out to its other members.
//!
//! The crate holds the relay's logic: the registry of live sessions and room
//! memberships, the per-connection state machine, routing and teardown, and
//! line framing. Sockets, tasks and JSON encoding live with the caller.
pub mod ids;
pub mod registry;
pub mod protocol;
pub mod session;
