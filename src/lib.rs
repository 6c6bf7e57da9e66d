//! A TCP port-forwarding relay: the routing table read from configuration
//! lines, and the state machine that picks, for each inbound connection, the
//! first destination that accepts it.
pub mod config;
pub mod selector;
