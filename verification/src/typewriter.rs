//! Timed typewriter reveal of the terminal's text blocks.
//!
//! The sequencer is frame-cooperative: it advances only when handed the
//! frame's elapsed milliseconds, and never blocks. It first reveals a
//! warning block, pauses at its end until the player confirms, then reveals
//! the puzzle prompt and finishes.

use vstd::prelude::*;

verus! {

/// Characters revealed per second while the typewriter runs.
pub const REVEAL_CHARS_PER_SECOND: u64 = 30;

/// Warning text shown before the puzzle prompt.
pub const WARNING_TEXT: &'static str = "> INITIALIZING Y2K PATCH CONSOLE...\n> WARNING: CRITICAL SYSTEM FAULT DETECTED\n> DATE OVERFLOW IMMINENT: 00/00/00\n> LOCATE AND FIX ALL SYNTAX ERRORS IN THE PATCH CODE\n> THE MACHINE CANNOT DO IT. YOU MUST.\n> [PRESS ENTER TO BEGIN]\n";

/// Which text block the typewriter is currently revealing.
#[derive(Clone, Copy, Debug, PartialEq, Eq, Structural)]
pub enum TypewriterPhase {
    Warning,
    Puzzle,
    Done,
}

/// Tracks typewriter reveal progress. Elapsed time is held in whole
/// milliseconds so that the revealed-character count is an exact function
/// of the accumulated time.
pub struct TypewriterState {
    pub chars_revealed: usize,
    pub timer_ms: u64,
    pub chars_per_second: u64,
    pub phase: TypewriterPhase,
}

/// How many characters of a text of length `len` are revealed after
/// `timer_ms` milliseconds at `cps` characters per second: the elapsed
/// character budget, capped at the text's length.
pub open spec fn spec_reveal_count(timer_ms: u64, cps: u64, len: usize) -> int {
    if timer_ms * cps / 1000 >= len {
        len as int
    } else {
        timer_ms * cps / 1000
    }
}

/// The revealed-character count never exceeds the text's length, and is
/// non-decreasing in the elapsed time: ticking forward can only reveal more.
pub proof fn lemma_reveal_monotonic(t1: u64, t2: u64, cps: u64, len: usize)
    requires
        t1 <= t2,
    ensures
        spec_reveal_count(t1, cps, len) <= spec_reveal_count(t2, cps, len),
        spec_reveal_count(t2, cps, len) <= len,
{
    assert(t1 * cps <= t2 * cps) by (nonlinear_arith)
        requires t1 <= t2,
    ;
    assert(t1 * cps / 1000 <= t2 * cps / 1000) by {
        vstd::arithmetic::div_mod::lemma_div_is_ordered(
            (t1 * cps) as int,
            (t2 * cps) as int,
            1000,
        );
    }
}

impl TypewriterState {
    /// A typewriter at the very beginning of the warning phase.
    pub fn new() -> (t: TypewriterState)
        ensures
            t.chars_revealed == 0,
            t.timer_ms == 0,
            t.chars_per_second == REVEAL_CHARS_PER_SECOND,
            t.phase == TypewriterPhase::Warning,
    {
        TypewriterState {
            chars_revealed: 0,
            timer_ms: 0,
            chars_per_second: REVEAL_CHARS_PER_SECOND,
            phase: TypewriterPhase::Warning,
        }
    }

    /// Resets the typewriter to the beginning of the warning phase.
    pub fn reset(&mut self)
        ensures
            final(self).chars_revealed == 0,
            final(self).timer_ms == 0,
            final(self).chars_per_second == REVEAL_CHARS_PER_SECOND,
            final(self).phase == TypewriterPhase::Warning,
    {
        self.chars_revealed = 0;
        self.timer_ms = 0;
        self.chars_per_second = REVEAL_CHARS_PER_SECOND;
        self.phase = TypewriterPhase::Warning;
    }

    /// Advances the reveal by `delta_ms` elapsed milliseconds.
    ///
    /// `text_len` is the length of the text block the current phase
    /// reveals, and `puzzle_unsolved` tells whether the puzzle session is
    /// still unsolved: once it is resolved, or once the reveal is done,
    /// ticking suspends and nothing changes. The elapsed timer saturates
    /// rather than wrapping. Reaching the end of the puzzle prompt moves
    /// the phase to `Done`; the warning phase instead pauses at its full
    /// text until `confirm` acknowledges it.
    pub fn tick(&mut self, delta_ms: u64, text_len: usize, puzzle_unsolved: bool)
        ensures
            final(self).chars_per_second == old(self).chars_per_second,
            (old(self).phase == TypewriterPhase::Done || !puzzle_unsolved) ==> *final(self)
                == *old(self),
            (old(self).phase != TypewriterPhase::Done && puzzle_unsolved) ==> {
                &&& final(self).timer_ms == if old(self).timer_ms + delta_ms <= u64::MAX {
                    old(self).timer_ms + delta_ms
                } else {
                    u64::MAX as int
                }
                &&& final(self).chars_revealed == spec_reveal_count(
                    final(self).timer_ms,
                    old(self).chars_per_second,
                    text_len,
                )
                &&& final(self).phase == if old(self).phase == TypewriterPhase::Puzzle
                    && final(self).chars_revealed >= text_len {
                    TypewriterPhase::Done
                } else {
                    old(self).phase
                }
            },
            old(self).phase == final(self).phase && old(self).chars_revealed
                <= spec_reveal_count(old(self).timer_ms, old(self).chars_per_second, text_len)
                ==> old(self).chars_revealed <= final(self).chars_revealed,
    {
        if self.phase == TypewriterPhase::Done {
            return ;
        }
        if !puzzle_unsolved {
            return ;
        }
        let ghost t0: u64 = self.timer_ms;
        if delta_ms <= u64::MAX - self.timer_ms {
            self.timer_ms = self.timer_ms + delta_ms;
        } else {
            self.timer_ms = u64::MAX;
        }
        proof {
            let a: int = self.timer_ms as int;
            let b: int = self.chars_per_second as int;
            assert(a * b <= u64::MAX * u64::MAX) by (nonlinear_arith)
                requires
                    0 <= a <= u64::MAX,
                    0 <= b <= u64::MAX,
            ;
        }
        let budget: u128 = (self.timer_ms as u128) * (self.chars_per_second as u128) / 1000;
        if budget >= text_len as u128 {
            self.chars_revealed = text_len;
        } else {
            self.chars_revealed = budget as usize;
        }
        assert(self.chars_revealed == spec_reveal_count(
            self.timer_ms,
            self.chars_per_second,
            text_len,
        ));
        proof {
            lemma_reveal_monotonic(t0, self.timer_ms, self.chars_per_second, text_len);
        }
        if self.phase == TypewriterPhase::Puzzle && self.chars_revealed >= text_len {
            self.phase = TypewriterPhase::Done;
        }
    }

    /// Acknowledges the fully revealed warning text.
    ///
    /// Edge-triggered: only when the warning phase has revealed all of its
    /// `text_len` characters does the confirm key move the reveal to the
    /// beginning of the puzzle phase; at any other moment it does nothing.
    pub fn confirm(&mut self, text_len: usize)
        ensures
            (old(self).phase == TypewriterPhase::Warning && old(self).chars_revealed >= text_len)
                ==> *final(self) == (TypewriterState {
                chars_revealed: 0,
                timer_ms: 0,
                chars_per_second: old(self).chars_per_second,
                phase: TypewriterPhase::Puzzle,
            }),
            !(old(self).phase == TypewriterPhase::Warning && old(self).chars_revealed >= text_len)
                ==> *final(self) == *old(self),
    {
        if self.phase == TypewriterPhase::Warning && self.chars_revealed >= text_len {
            self.chars_revealed = 0;
            self.timer_ms = 0;
            self.phase = TypewriterPhase::Puzzle;
        }
    }
}

} // verus!
