//! Countdown timer.
//!
//! Time is carried in whole milliseconds; the frame scheduler hands each
//! tick the elapsed milliseconds since the previous one. Hitting zero while
//! exploring ends the run.

use vstd::prelude::*;

use crate::states::{GameState, GameStateMachine};

verus! {

/// Milliseconds the countdown starts from.
pub const TIMER_TOTAL_MS: u64 = 60000;

/// The main countdown timer.
pub struct GameTimer {
    pub remaining_ms: u64,
    pub total_ms: u64,
}

impl GameTimer {
    /// A full timer: the whole budget remains.
    pub fn new() -> (t: GameTimer)
        ensures
            t.remaining_ms == TIMER_TOTAL_MS,
            t.total_ms == TIMER_TOTAL_MS,
    {
        GameTimer { remaining_ms: TIMER_TOTAL_MS, total_ms: TIMER_TOTAL_MS }
    }

    /// Refills the timer to its full budget.
    pub fn reset(&mut self)
        ensures
            final(self).remaining_ms == old(self).total_ms,
            final(self).total_ms == old(self).total_ms,
    {
        self.remaining_ms = self.total_ms;
    }
}

/// Ticks the countdown down by `delta_ms` and requests the game-over mode
/// when it reaches zero. The remaining time never goes below zero.
pub fn tick_timer(timer: &mut GameTimer, machine: &mut GameStateMachine, delta_ms: u64)
    ensures
        final(timer).total_ms == old(timer).total_ms,
        final(timer).remaining_ms == if delta_ms < old(timer).remaining_ms {
            (old(timer).remaining_ms - delta_ms) as u64
        } else {
            0u64
        },
        final(machine).mode() == if delta_ms < old(timer).remaining_ms {
            old(machine).mode()
        } else {
            GameState::GameOver
        },
{
    if delta_ms < timer.remaining_ms {
        timer.remaining_ms = timer.remaining_ms - delta_ms;
    } else {
        timer.remaining_ms = 0;
        machine.request_transition(GameState::GameOver);
    }
}

} // verus!
