//! A signaling relay: peers join rooms, learn of each other, and pass connection
//! negotiation messages to one another through the relay.
pub mod frame;
pub mod ids;
pub mod laws;
pub mod lobby;
pub mod messages;
pub mod registry;
pub mod session;
pub mod state;
