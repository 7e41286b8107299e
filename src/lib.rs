//! Nodes of a simulated cluster: an echo responder, reliable broadcast,
//! a grow-only counter and a per-key append-only log. Each node consumes
//! inbound envelopes and returns the outbound envelopes they cause; the
//! transport that reads and writes them lives outside this library.
pub mod assoc;
pub mod broadcast;
pub mod counter;
pub mod echo;
pub mod kafka_log;
