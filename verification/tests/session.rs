use y2k_maze::puzzle::{puzzle_lines, Outcome, PuzzleState, TerminalPuzzle};
use y2k_maze::session::{enter_terminal, escape_terminal, restart, submit_line};
use y2k_maze::states::{GameState, GameStateMachine};
use y2k_maze::timer::{tick_timer, GameTimer, TIMER_TOTAL_MS};
use y2k_maze::typewriter::{TypewriterPhase, TypewriterState};

#[test]
fn the_machine_starts_exploring_and_obeys_requests() {
    let mut sm = GameStateMachine::new();
    assert_eq!(sm.current(), GameState::Exploring);
    sm.request_transition(GameState::AtTerminal);
    assert_eq!(sm.current(), GameState::AtTerminal);
    sm.request_transition(GameState::Combat);
    assert_eq!(sm.current(), GameState::Combat);
    sm.request_transition(GameState::Exploring);
    assert_eq!(sm.current(), GameState::Exploring);
}

#[test]
fn entering_the_terminal_resets_typewriter_and_session() {
    let mut sm = GameStateMachine::new();
    let mut tw = TypewriterState::new();
    let mut p = TerminalPuzzle::new(puzzle_lines());
    tw.tick(10000, 5, true);
    p.submit("bad", true);
    enter_terminal(&mut sm, &mut tw, &mut p);
    assert_eq!(sm.current(), GameState::AtTerminal);
    assert_eq!(tw.chars_revealed, 0);
    assert_eq!(tw.timer_ms, 0);
    assert_eq!(tw.phase, TypewriterPhase::Warning);
    assert_eq!(p.state, PuzzleState::Unsolved);
    assert_eq!(p.current_line, 0);
    assert_eq!(p.attempts_on_line, 0);
    assert!(!p.show_hint);
}

#[test]
fn scenario_three_correct_lines_win_exactly_after_the_third() {
    let mut sm = GameStateMachine::new();
    let mut tw = TypewriterState::new();
    let mut p = TerminalPuzzle::new(puzzle_lines());
    enter_terminal(&mut sm, &mut tw, &mut p);
    assert_eq!(
        submit_line(&mut p, &mut sm, "stored_year = year % 100", true),
        Outcome::Advanced
    );
    assert_eq!(sm.current(), GameState::AtTerminal);
    assert_eq!(submit_line(&mut p, &mut sm, "RETURN stored_year", true), Outcome::Advanced);
    assert_eq!(sm.current(), GameState::AtTerminal);
    assert_eq!(
        submit_line(&mut p, &mut sm, "RETURN stored_year + 1900", true),
        Outcome::Solved
    );
    assert_eq!(p.state, PuzzleState::Solved);
    assert_eq!(sm.current(), GameState::Win);
}

#[test]
fn scenario_three_wrong_answers_fail_without_any_transition() {
    let mut sm = GameStateMachine::new();
    let mut tw = TypewriterState::new();
    let mut p = TerminalPuzzle::new(puzzle_lines());
    enter_terminal(&mut sm, &mut tw, &mut p);
    assert_eq!(submit_line(&mut p, &mut sm, "a", true), Outcome::Hinted);
    assert_eq!(submit_line(&mut p, &mut sm, "b", true), Outcome::Hinted);
    assert_eq!(submit_line(&mut p, &mut sm, "c", true), Outcome::Failed);
    assert_eq!(p.state, PuzzleState::Failed);
    assert_eq!(p.current_line, 0);
    assert_eq!(sm.current(), GameState::AtTerminal);
}

#[test]
fn escape_returns_to_exploring_and_discards_progress() {
    let mut sm = GameStateMachine::new();
    let mut tw = TypewriterState::new();
    let mut p = TerminalPuzzle::new(puzzle_lines());
    let mut timer = GameTimer::new();
    enter_terminal(&mut sm, &mut tw, &mut p);
    tick_timer(&mut timer, &mut sm, 500);
    submit_line(&mut p, &mut sm, "stored_year = year % 100", true);
    escape_terminal(&mut sm, &mut timer, &mut p);
    assert_eq!(sm.current(), GameState::Exploring);
    assert_eq!(timer.remaining_ms, TIMER_TOTAL_MS);
    assert_eq!(p.state, PuzzleState::Unsolved);
    assert_eq!(p.current_line, 0);
}

#[test]
fn restart_leaves_win_and_game_over_for_exploring() {
    let mut sm = GameStateMachine::new();
    let mut timer = GameTimer::new();
    let mut p = TerminalPuzzle::new(puzzle_lines());
    sm.request_transition(GameState::Win);
    restart(&mut sm, &mut timer, &mut p);
    assert_eq!(sm.current(), GameState::Exploring);
    sm.request_transition(GameState::GameOver);
    restart(&mut sm, &mut timer, &mut p);
    assert_eq!(sm.current(), GameState::Exploring);
    assert_eq!(timer.remaining_ms, timer.total_ms);
}

#[test]
fn the_countdown_expires_into_game_over() {
    let mut sm = GameStateMachine::new();
    let mut timer = GameTimer::new();
    tick_timer(&mut timer, &mut sm, 59999);
    assert_eq!(timer.remaining_ms, TIMER_TOTAL_MS - 59999);
    assert_eq!(sm.current(), GameState::Exploring);
    tick_timer(&mut timer, &mut sm, 1);
    assert_eq!(timer.remaining_ms, 0);
    assert_eq!(sm.current(), GameState::GameOver);
    // ticking past zero keeps it at zero
    let mut timer = GameTimer::new();
    let mut sm = GameStateMachine::new();
    tick_timer(&mut timer, &mut sm, u64::MAX);
    assert_eq!(timer.remaining_ms, 0);
    assert_eq!(sm.current(), GameState::GameOver);
}
