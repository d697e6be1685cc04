//! Keystroke statistics: capture-loop decisions, a statistics aggregate with
//! proved invariants, and a durable text encoding with a proved round trip.

pub mod capture;
pub mod clock;
pub mod codec;
pub mod stats;
