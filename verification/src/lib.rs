//! A declarative protocol-definition and binary codec engine for stateful,
//! bidirectional, versioned network protocols.
//!
//! A protocol schema enumerates, per protocol version, the connection states,
//! the two traffic directions, and for each (state, direction) pair the set of
//! opcodes and their field layouts, including fields whose presence depends on
//! the value of previously decoded fields. From such a schema the engine
//! provides deterministic encode/decode routines that respect field order and
//! conditional presence, and a dispatcher that maps (state, direction, opcode)
//! to the correct decode routine.

pub mod protocol;
pub mod segment;
pub mod stream;
pub mod wire;
