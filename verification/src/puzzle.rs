//! Terminal puzzle validation engine.
//!
//! The player fixes three broken pseudocode lines one at a time. A
//! submission is compared against the current line's correct text after
//! normalizing both sides (surrounding whitespace trimmed, lower-cased);
//! the comparison is otherwise an exact match. Wrong attempts reveal a
//! hint and, once they exhaust the per-line budget, fail the session.

use vstd::prelude::*;

verus! {

/// The full pseudocode block shown as context while the puzzle runs.
pub const PUZZLE_PROMPT: &'static str = "PATCH FILE: y2k_fix.pseudo\n-----------------------------------------\nFUNCTION get_full_year(year):\n    stored_yeer = year % 100\n        RETRUN stored_year\n    RETURN stored_year + 190\n-----------------------------------------\n";

/// How many wrong attempts a single line allows before the session fails.
pub const MAX_ATTEMPTS: u32 = 3;

/// Overall state of a puzzle session.
#[derive(Clone, Copy, Debug, PartialEq, Eq, Structural)]
pub enum PuzzleState {
    Unsolved,
    Solved,
    Failed,
}

/// What a single submission did to the session.
#[derive(Clone, Copy, Debug, PartialEq, Eq, Structural)]
pub enum Outcome {
    /// The puzzle is not interactive yet (or is already resolved).
    Rejected,
    /// The submission matched and a further line awaits.
    Advanced,
    /// The submission missed; the line's hint is now shown.
    Hinted,
    /// The submission missed and exhausted the line's attempt budget.
    Failed,
    /// The submission matched the final line.
    Solved,
}

/// A single broken line the player must fix.
pub struct PuzzleLine {
    /// The broken text shown to the player.
    pub broken: String,
    /// The correct answer the player must type.
    pub correct: String,
    /// Hint shown after a failed attempt.
    pub hint: String,
}

/// The text of a puzzle line, character for character.
pub ghost struct LineModel {
    pub broken: Seq<char>,
    pub correct: Seq<char>,
    pub hint: Seq<char>,
}

impl View for PuzzleLine {
    type V = LineModel;

    open spec fn view(&self) -> LineModel {
        LineModel { broken: self.broken@, correct: self.correct@, hint: self.hint@ }
    }
}

/// A puzzle session as the contracts see it.
pub ghost struct PuzzleModel {
    pub lines: Seq<LineModel>,
    pub state: PuzzleState,
    pub current_line: int,
    pub input: Seq<char>,
    pub attempts: int,
    pub max_attempts: int,
    pub show_hint: bool,
}

/// The terminal puzzle session: the fixed ordered lines plus progress
/// across them.
pub struct TerminalPuzzle {
    pub lines: Vec<PuzzleLine>,
    pub state: PuzzleState,
    pub current_line: usize,
    pub current_input: String,
    pub attempts_on_line: u32,
    pub max_attempts: u32,
    pub show_hint: bool,
}

impl View for TerminalPuzzle {
    type V = PuzzleModel;

    open spec fn view(&self) -> PuzzleModel {
        PuzzleModel {
            lines: self.lines@.map_values(|l: PuzzleLine| l@),
            state: self.state,
            current_line: self.current_line as int,
            input: self.current_input@,
            attempts: self.attempts_on_line as int,
            max_attempts: self.max_attempts as int,
            show_hint: self.show_hint,
        }
    }
}

/// What `str::to_lowercase` returns for the given characters.
pub uninterp spec fn lower_of(s: Seq<char>) -> Seq<char>;

/// What `str::trim` leaves of the given characters.
pub uninterp spec fn trim_of(s: Seq<char>) -> Seq<char>;

/// A submission and an answer are compared after trimming surrounding
/// whitespace and lower-casing.
pub open spec fn normalized(s: Seq<char>) -> Seq<char> {
    lower_of(trim_of(s))
}

/// Relies on str::trim: returns the string with leading and trailing
/// whitespace removed; the result depends on the characters alone.
#[verifier::external_body]
fn trim_str(s: &str) -> (r: String)
    ensures
        r@ == trim_of(s@),
{
    s.trim().to_owned()
}

/// Relies on str::to_lowercase: returns the lowercase mapping of the
/// string; the result depends on the characters alone.
#[verifier::external_body]
fn lowercase_str(s: &str) -> (r: String)
    ensures
        r@ == lower_of(s@),
{
    s.to_lowercase()
}

/// Checks a submission against a line's correct answer: equal after
/// normalizing both sides, with no partial credit.
pub fn check_answer(input: &str, correct: &str) -> (r: bool)
    ensures
        r == (normalized(input@) == normalized(correct@)),
{
    let a = lowercase_str(trim_str(input).as_str());
    let b = lowercase_str(trim_str(correct).as_str());
    a == b
}

/// The three buggy lines of the patch, in order.
pub fn puzzle_lines() -> (r: Vec<PuzzleLine>)
    ensures
        r@.len() == 3,
        r@[0]@.broken == "    stored_yeer = year % 100"@,
        r@[0]@.correct == "stored_year = year % 100"@,
        r@[0]@.hint == "HINT: CHECK THE VARIABLE NAME"@,
        r@[1]@.broken == "        RETRUN stored_year"@,
        r@[1]@.correct == "RETURN stored_year"@,
        r@[1]@.hint == "HINT: CHECK THE KEYWORD SPELLING"@,
        r@[2]@.broken == "    RETURN stored_year + 190"@,
        r@[2]@.correct == "RETURN stored_year + 1900"@,
        r@[2]@.hint == "HINT: CHECK THE CONSTANT VALUE"@,
{
    let mut v: Vec<PuzzleLine> = Vec::new();
    v.push(
        PuzzleLine {
            broken: "    stored_yeer = year % 100".to_owned(),
            correct: "stored_year = year % 100".to_owned(),
            hint: "HINT: CHECK THE VARIABLE NAME".to_owned(),
        },
    );
    v.push(
        PuzzleLine {
            broken: "        RETRUN stored_year".to_owned(),
            correct: "RETURN stored_year".to_owned(),
            hint: "HINT: CHECK THE KEYWORD SPELLING".to_owned(),
        },
    );
    v.push(
        PuzzleLine {
            broken: "    RETURN stored_year + 190".to_owned(),
            correct: "RETURN stored_year + 1900".to_owned(),
            hint: "HINT: CHECK THE CONSTANT VALUE".to_owned(),
        },
    );
    v
}

/// A freshly created session over the given lines: first line active, no
/// input, no attempts, no hint, unsolved.
pub open spec fn fresh_session(lines: Seq<LineModel>) -> PuzzleModel {
    PuzzleModel {
        lines: lines,
        state: PuzzleState::Unsolved,
        current_line: 0,
        input: Seq::empty(),
        attempts: 0,
        max_attempts: MAX_ATTEMPTS as int,
        show_hint: false,
    }
}

/// Whether the submission matches the active line's correct answer.
pub open spec fn submit_matches(p: PuzzleModel, input: Seq<char>) -> bool {
    normalized(input) == normalized(p.lines[p.current_line].correct)
}

/// The session after one submission.
///
/// A session that is not ready (reveal unfinished) or already resolved is
/// untouched. A match clears the input, hint and attempt count and
/// advances to the next line, solving the session when the advanced index
/// reaches the end. A miss clears the input, counts the attempt, shows the
/// hint, and fails the session once the attempt budget is exhausted.
pub open spec fn submit_next(p: PuzzleModel, input: Seq<char>, ready: bool) -> PuzzleModel {
    if !ready || !(p.state is Unsolved) {
        p
    } else if submit_matches(p, input) {
        PuzzleModel {
            lines: p.lines,
            state: if p.current_line + 1 == p.lines.len() {
                PuzzleState::Solved
            } else {
                PuzzleState::Unsolved
            },
            current_line: p.current_line + 1,
            input: Seq::empty(),
            attempts: 0,
            max_attempts: p.max_attempts,
            show_hint: false,
        }
    } else {
        PuzzleModel {
            lines: p.lines,
            state: if p.attempts + 1 >= p.max_attempts {
                PuzzleState::Failed
            } else {
                PuzzleState::Unsolved
            },
            current_line: p.current_line,
            input: Seq::empty(),
            attempts: p.attempts + 1,
            max_attempts: p.max_attempts,
            show_hint: true,
        }
    }
}

/// What one submission reports.
pub open spec fn submit_outcome(p: PuzzleModel, input: Seq<char>, ready: bool) -> Outcome {
    if !ready || !(p.state is Unsolved) {
        Outcome::Rejected
    } else if submit_matches(p, input) {
        if p.current_line + 1 == p.lines.len() {
            Outcome::Solved
        } else {
            Outcome::Advanced
        }
    } else {
        if p.attempts + 1 >= p.max_attempts {
            Outcome::Failed
        } else {
            Outcome::Hinted
        }
    }
}

impl PuzzleModel {
    /// Well-formedness of a session: the attempt count stays within the
    /// budget, the line index stays within the line sequence and, while
    /// the session is unsolved, denotes a real line with attempts to
    /// spare.
    pub open spec fn wf(self) -> bool {
        &&& 1 <= self.lines.len()
        &&& 1 <= self.max_attempts
        &&& 0 <= self.attempts <= self.max_attempts
        &&& 0 <= self.current_line <= self.lines.len()
        &&& self.state is Unsolved ==> self.current_line < self.lines.len() && self.attempts
            < self.max_attempts
    }
}

impl TerminalPuzzle {
    /// A fresh unsolved session over the given lines, starting at the
    /// first one.
    pub fn new(lines: Vec<PuzzleLine>) -> (p: TerminalPuzzle)
        requires
            lines@.len() >= 1,
        ensures
            p@ == fresh_session(lines@.map_values(|l: PuzzleLine| l@)),
            p@.wf(),
    {
        TerminalPuzzle {
            lines: lines,
            state: PuzzleState::Unsolved,
            current_line: 0,
            current_input: String::new(),
            attempts_on_line: 0,
            max_attempts: MAX_ATTEMPTS,
            show_hint: false,
        }
    }

    /// Discards all progress: a fresh session over the same lines.
    pub fn reset(&mut self)
        ensures
            final(self)@ == fresh_session(old(self)@.lines),
            old(self)@.wf() ==> final(self)@.wf(),
    {
        self.state = PuzzleState::Unsolved;
        self.current_line = 0;
        self.current_input = String::new();
        self.attempts_on_line = 0;
        self.max_attempts = MAX_ATTEMPTS;
        self.show_hint = false;
    }

    /// Checks one submission against the active line and updates the
    /// session accordingly; `ready` tells whether the typewriter reveal
    /// has finished, before which every submission is rejected.
    pub fn submit(&mut self, input: &str, ready: bool) -> (o: Outcome)
        requires
            old(self)@.wf(),
        ensures
            final(self)@ == submit_next(old(self)@, input@, ready),
            o == submit_outcome(old(self)@, input@, ready),
            final(self)@.wf(),
    {
        if !ready {
            return Outcome::Rejected;
        }
        match self.state {
            PuzzleState::Unsolved => {},
            _ => { return Outcome::Rejected },
        }
        let line_count = self.lines.len();
        assert(self.current_line < line_count);
        let matched = check_answer(input, self.lines[self.current_line].correct.as_str());
        if matched {
            self.current_line = self.current_line + 1;
            self.current_input = String::new();
            self.attempts_on_line = 0;
            self.show_hint = false;
            if self.current_line == line_count {
                self.state = PuzzleState::Solved;
                Outcome::Solved
            } else {
                Outcome::Advanced
            }
        } else {
            self.attempts_on_line = self.attempts_on_line + 1;
            self.current_input = String::new();
            self.show_hint = true;
            if self.attempts_on_line >= self.max_attempts {
                self.state = PuzzleState::Failed;
                Outcome::Failed
            } else {
                Outcome::Hinted
            }
        }
    }
}

/// Solving straight through: on a fresh three-line session, submitting a
/// matching answer for each line in order advances twice and solves on
/// the third, leaving the session solved past its last line.
pub proof fn lemma_solve_sequence(
    lines: Seq<LineModel>,
    i1: Seq<char>,
    i2: Seq<char>,
    i3: Seq<char>,
)
    requires
        lines.len() == 3,
        normalized(i1) == normalized(lines[0].correct),
        normalized(i2) == normalized(lines[1].correct),
        normalized(i3) == normalized(lines[2].correct),
    ensures
        ({
            let p0 = fresh_session(lines);
            let p1 = submit_next(p0, i1, true);
            let p2 = submit_next(p1, i2, true);
            let p3 = submit_next(p2, i3, true);
            &&& submit_outcome(p0, i1, true) is Advanced
            &&& p1.state is Unsolved && p1.current_line == 1
            &&& submit_outcome(p1, i2, true) is Advanced
            &&& p2.state is Unsolved && p2.current_line == 2
            &&& submit_outcome(p2, i3, true) is Solved
            &&& p3.state is Solved && p3.current_line == 3
        }),
{
}

/// Attempt and hint lifecycle of a single line: on a session with a fresh
/// attempt count, two wrong submissions leave it unsolved with the hint
/// shown and two attempts recorded, and a third wrong submission fails it,
/// with the line index unchanged throughout.
pub proof fn lemma_attempt_hint_lifecycle(
    p: PuzzleModel,
    i1: Seq<char>,
    i2: Seq<char>,
    i3: Seq<char>,
)
    requires
        p.wf(),
        p.state is Unsolved,
        p.attempts == 0,
        p.max_attempts == 3,
        normalized(i1) != normalized(p.lines[p.current_line].correct),
        normalized(i2) != normalized(p.lines[p.current_line].correct),
        normalized(i3) != normalized(p.lines[p.current_line].correct),
    ensures
        ({
            let p1 = submit_next(p, i1, true);
            let p2 = submit_next(p1, i2, true);
            let p3 = submit_next(p2, i3, true);
            &&& p1.state is Unsolved && p1.show_hint && p1.attempts == 1
            &&& p2.state is Unsolved && p2.show_hint && p2.attempts == 2
            &&& p3.state is Failed && p3.attempts == 3
            &&& p1.current_line == p.current_line
            &&& p2.current_line == p.current_line
            &&& p3.current_line == p.current_line
            &&& submit_outcome(p, i1, true) is Hinted
            &&& submit_outcome(p1, i2, true) is Hinted
            &&& submit_outcome(p2, i3, true) is Failed
        }),
{
}

} // verus!
