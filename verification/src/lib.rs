//! Core logic of a maze experience gated by a terminal puzzle:
//! procedural maze generation, a global game-state machine, a timed
//! typewriter text reveal, and a line-by-line puzzle validation engine.

pub mod maze;
pub mod puzzle;
pub mod session;
pub mod states;
pub mod timer;
pub mod typewriter;
