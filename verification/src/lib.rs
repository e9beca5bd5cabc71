//! A rendezvous relay for UDP.
//!
//! Endpoints behind NAT reach each other through a relay
//! that both can reach.  An endpoint joins a named session with a control
//! datagram; from then on whatever it sends goes to the other members of
//! that session.  This crate is the relay's logic: telling commands from
//! data, the registry of sessions, admission, forwarding, and the eviction
//! of endpoints that went silent.  It performs no input or output: it is
//! handed datagrams and the time, and says what to send where.

pub mod client;
pub mod command;
pub mod deployment;
pub mod endpoint;
pub mod laws;
pub mod reaper;
pub mod registry;
pub mod server;
pub mod table;
