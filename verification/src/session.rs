//! Orchestration of the experience: the transition rules that connect the
//! state machine, the typewriter and the puzzle session.
//!
//! Each function handles one trigger of the transition table; the frame
//! scheduler calls it when the corresponding input event arrives in the
//! mode it is gated on.

use vstd::prelude::*;

use crate::puzzle::{
    fresh_session, submit_next, submit_outcome, Outcome, TerminalPuzzle,
};
use crate::states::{GameState, GameStateMachine};
use crate::timer::GameTimer;
use crate::typewriter::{TypewriterPhase, TypewriterState, REVEAL_CHARS_PER_SECOND};

verus! {

/// The player, while exploring, pressed the interact key within range of
/// the terminal: the mode becomes `AtTerminal`, the typewriter restarts at
/// the warning phase, and a fresh puzzle session over the same lines
/// replaces any previous progress.
pub fn enter_terminal(
    machine: &mut GameStateMachine,
    tw: &mut TypewriterState,
    puzzle: &mut TerminalPuzzle,
)
    requires
        old(machine).mode() == GameState::Exploring,
        old(puzzle)@.wf(),
    ensures
        final(machine).mode() == GameState::AtTerminal,
        final(tw).chars_revealed == 0,
        final(tw).timer_ms == 0,
        final(tw).chars_per_second == REVEAL_CHARS_PER_SECOND,
        final(tw).phase == TypewriterPhase::Warning,
        final(puzzle)@ == fresh_session(old(puzzle)@.lines),
        final(puzzle)@.wf(),
{
    machine.request_transition(GameState::AtTerminal);
    tw.reset();
    puzzle.reset();
}

/// The escape key was pressed at the terminal: back to exploring. Entering
/// the exploring mode resets the countdown timer and discards the
/// in-progress puzzle session.
pub fn escape_terminal(
    machine: &mut GameStateMachine,
    timer: &mut GameTimer,
    puzzle: &mut TerminalPuzzle,
)
    requires
        old(machine).mode() == GameState::AtTerminal,
        old(puzzle)@.wf(),
    ensures
        final(machine).mode() == GameState::Exploring,
        final(timer).remaining_ms == old(timer).total_ms,
        final(timer).total_ms == old(timer).total_ms,
        final(puzzle)@ == fresh_session(old(puzzle)@.lines),
        final(puzzle)@.wf(),
{
    machine.request_transition(GameState::Exploring);
    timer.reset();
    puzzle.reset();
}

/// The restart key was pressed on the win or game-over screen: back to
/// exploring with a full countdown and a cleared session.
pub fn restart(
    machine: &mut GameStateMachine,
    timer: &mut GameTimer,
    puzzle: &mut TerminalPuzzle,
)
    requires
        old(machine).mode() == GameState::Win || old(machine).mode() == GameState::GameOver,
        old(puzzle)@.wf(),
    ensures
        final(machine).mode() == GameState::Exploring,
        final(timer).remaining_ms == old(timer).total_ms,
        final(timer).total_ms == old(timer).total_ms,
        final(puzzle)@ == fresh_session(old(puzzle)@.lines),
        final(puzzle)@.wf(),
{
    machine.request_transition(GameState::Exploring);
    timer.reset();
    puzzle.reset();
}

/// One puzzle submission at the terminal. The session's outcome is the
/// sole producer of a transition out of `AtTerminal`: solving the final
/// line requests `Win`, exactly then; in particular a failed session
/// requests nothing and only escape leads back out.
pub fn submit_line(
    puzzle: &mut TerminalPuzzle,
    machine: &mut GameStateMachine,
    input: &str,
    ready: bool,
) -> (o: Outcome)
    requires
        old(puzzle)@.wf(),
        old(machine).mode() == GameState::AtTerminal,
    ensures
        final(puzzle)@ == submit_next(old(puzzle)@, input@, ready),
        final(puzzle)@.wf(),
        o == submit_outcome(old(puzzle)@, input@, ready),
        final(machine).mode() == if o is Solved {
            GameState::Win
        } else {
            GameState::AtTerminal
        },
{
    let o = puzzle.submit(input, ready);
    match o {
        Outcome::Solved => {
            machine.request_transition(GameState::Win);
        },
        _ => {},
    }
    o
}

} // verus!
