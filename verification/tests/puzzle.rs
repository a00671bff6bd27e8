use y2k_maze::puzzle::{check_answer, puzzle_lines, Outcome, PuzzleState, TerminalPuzzle};

#[test]
fn normalization_ignores_case_and_surrounding_whitespace() {
    assert!(check_answer("  Stored_Year", "stored_year"));
    assert!(check_answer("stored_year", "stored_year"));
    assert!(check_answer("STORED_YEAR ", "stored_year"));
    assert!(check_answer("\tstored_year\n", "stored_year"));
    assert!(!check_answer("stored year", "stored_year"));
    assert!(!check_answer("", "stored_year"));
    assert!(!check_answer("stored_years", "stored_year"));
}

#[test]
fn inner_whitespace_is_not_ignored() {
    assert!(check_answer("  RETURN   stored_year  ", "RETURN   stored_year"));
    assert!(!check_answer("RETURNstored_year", "RETURN stored_year"));
}

#[test]
fn the_three_lines_carry_their_texts() {
    let lines = puzzle_lines();
    assert_eq!(lines.len(), 3);
    assert_eq!(lines[0].correct, "stored_year = year % 100");
    assert_eq!(lines[1].correct, "RETURN stored_year");
    assert_eq!(lines[2].correct, "RETURN stored_year + 1900");
    assert_eq!(lines[0].broken, "    stored_yeer = year % 100");
    assert_eq!(lines[1].broken, "        RETRUN stored_year");
    assert_eq!(lines[2].broken, "    RETURN stored_year + 190");
    assert!(lines[0].hint.contains("VARIABLE NAME"));
    assert!(lines[1].hint.contains("KEYWORD"));
    assert!(lines[2].hint.contains("CONSTANT"));
}

#[test]
fn a_fresh_session_starts_unsolved_at_line_one() {
    let p = TerminalPuzzle::new(puzzle_lines());
    assert_eq!(p.state, PuzzleState::Unsolved);
    assert_eq!(p.current_line, 0);
    assert_eq!(p.current_input, "");
    assert_eq!(p.attempts_on_line, 0);
    assert_eq!(p.max_attempts, 3);
    assert!(!p.show_hint);
}

#[test]
fn submissions_before_the_reveal_finishes_are_rejected() {
    let mut p = TerminalPuzzle::new(puzzle_lines());
    assert_eq!(p.submit("stored_year = year % 100", false), Outcome::Rejected);
    assert_eq!(p.state, PuzzleState::Unsolved);
    assert_eq!(p.current_line, 0);
    assert_eq!(p.attempts_on_line, 0);
}

#[test]
fn a_correct_submission_advances_and_clears_line_state() {
    let mut p = TerminalPuzzle::new(puzzle_lines());
    assert_eq!(p.submit("wrong", true), Outcome::Hinted);
    assert!(p.show_hint);
    assert_eq!(p.attempts_on_line, 1);
    assert_eq!(p.submit("  STORED_YEAR = year % 100 ", true), Outcome::Advanced);
    assert_eq!(p.state, PuzzleState::Unsolved);
    assert_eq!(p.current_line, 1);
    assert_eq!(p.attempts_on_line, 0);
    assert!(!p.show_hint);
    assert_eq!(p.current_input, "");
}

#[test]
fn attempt_and_hint_lifecycle_on_one_line() {
    let mut p = TerminalPuzzle::new(puzzle_lines());
    assert_eq!(p.submit("guess one", true), Outcome::Hinted);
    assert_eq!(p.submit("guess two", true), Outcome::Hinted);
    assert_eq!(p.state, PuzzleState::Unsolved);
    assert!(p.show_hint);
    assert_eq!(p.attempts_on_line, 2);
    assert_eq!(p.current_line, 0);
    assert_eq!(p.submit("guess three", true), Outcome::Failed);
    assert_eq!(p.state, PuzzleState::Failed);
    assert_eq!(p.attempts_on_line, 3);
    assert_eq!(p.current_line, 0);
}

#[test]
fn a_failed_session_rejects_further_submissions() {
    let mut p = TerminalPuzzle::new(puzzle_lines());
    for _ in 0..3 {
        p.submit("nope", true);
    }
    assert_eq!(p.state, PuzzleState::Failed);
    assert_eq!(p.submit("stored_year = year % 100", true), Outcome::Rejected);
    assert_eq!(p.state, PuzzleState::Failed);
}

#[test]
fn solving_all_three_lines_solves_the_session() {
    let mut p = TerminalPuzzle::new(puzzle_lines());
    assert_eq!(p.submit("stored_year = year % 100", true), Outcome::Advanced);
    assert_eq!(p.submit("return stored_year", true), Outcome::Advanced);
    assert_eq!(p.submit("RETURN stored_year + 1900", true), Outcome::Solved);
    assert_eq!(p.state, PuzzleState::Solved);
    assert_eq!(p.current_line, 3);
    assert_eq!(p.submit("anything", true), Outcome::Rejected);
}

#[test]
fn wrong_attempts_do_not_carry_across_lines() {
    let mut p = TerminalPuzzle::new(puzzle_lines());
    assert_eq!(p.submit("bad", true), Outcome::Hinted);
    assert_eq!(p.submit("bad", true), Outcome::Hinted);
    assert_eq!(p.submit("stored_year = year % 100", true), Outcome::Advanced);
    assert_eq!(p.attempts_on_line, 0);
    assert_eq!(p.submit("bad", true), Outcome::Hinted);
    assert_eq!(p.submit("bad", true), Outcome::Hinted);
    assert_eq!(p.state, PuzzleState::Unsolved);
    assert_eq!(p.submit("RETURN stored_year", true), Outcome::Advanced);
    assert_eq!(p.current_line, 2);
    assert_eq!(p.state, PuzzleState::Unsolved);
}
