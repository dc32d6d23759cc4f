//! A load generator for a versioned binary game protocol: the frame codec, the
//! per-connection protocol state machine and the scheduling decisions of the
//! worker loops. Sockets, readiness polling, threads and clocks live with the
//! caller, which hands the library plain values and performs what it returns.

pub mod behaviour;
pub mod deflate;
pub mod frame;
pub mod packets;
pub mod schedule;
pub mod session;
pub mod status;
pub mod varint;
pub mod worker;
