//! Core of an OSC (Open Sound Control) network diagnostic tool.
//!
//! The library holds the verified heart of a bidirectional OSC/UDP message
//! pump: a wire codec that encodes an outbound parameter vector into an OSC
//! message and decodes inbound datagrams, a fixed-capacity history buffer
//! with FIFO eviction for decoded messages, and a lock-protected shared form
//! of that buffer for use by a receiver thread and a display loop.
//!
//! Sockets, configuration loading and rendering live outside the library;
//! they exchange plain byte buffers and parameter values with it.

pub mod codec;
pub mod history;
pub mod pump;
