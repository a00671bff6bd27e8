//! Global game state machine.
//!
//! The experience is always in exactly one mode; gameplay systems read the
//! current mode to decide whether to run, and write it only through an
//! explicit transition request.

use vstd::prelude::*;

verus! {

/// The single global mode of the experience.
///
/// - `Exploring`: the player navigates the maze
/// - `AtTerminal`: the player reached the fix terminal, the puzzle is shown
/// - `Combat`: reserved for enemy engagement; nothing transitions into it
/// - `Win`: the puzzle was solved
/// - `GameOver`: the countdown ran out
#[derive(Clone, Copy, Debug, PartialEq, Eq, Structural)]
pub enum GameState {
    Exploring,
    AtTerminal,
    Combat,
    Win,
    GameOver,
}

/// Holds the authoritative current mode.
///
/// Transition requests unconditionally overwrite the current mode
/// (last writer wins within a frame); at most one gated system issues a
/// request per frame, since only one mode's systems run at a time.
pub struct GameStateMachine {
    current: GameState,
}

impl GameStateMachine {
    /// The mode the machine currently holds, for use in contracts.
    pub closed spec fn mode(self) -> GameState {
        self.current
    }

    /// A fresh machine starts out exploring.
    pub fn new() -> (m: GameStateMachine)
        ensures
            m.mode() == GameState::Exploring,
    {
        GameStateMachine { current: GameState::Exploring }
    }

    /// Unconditionally overwrites the current mode with `to`.
    pub fn request_transition(&mut self, to: GameState)
        ensures
            final(self).mode() == to,
    {
        self.current = to;
    }

    /// Read-only query of the current mode.
    pub fn current(&self) -> (s: GameState)
        ensures
            s == self.mode(),
    {
        self.current
    }
}

} // verus!
