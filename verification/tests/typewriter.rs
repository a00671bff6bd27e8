use y2k_maze::typewriter::{
    TypewriterPhase, TypewriterState, REVEAL_CHARS_PER_SECOND, WARNING_TEXT,
};

#[test]
fn a_fresh_typewriter_reveals_nothing() {
    let t = TypewriterState::new();
    assert_eq!(t.chars_revealed, 0);
    assert_eq!(t.timer_ms, 0);
    assert_eq!(t.chars_per_second, REVEAL_CHARS_PER_SECOND);
    assert_eq!(t.phase, TypewriterPhase::Warning);
}

#[test]
fn reveal_follows_the_elapsed_time_exactly() {
    let mut t = TypewriterState::new();
    // 30 chars per second: 100 ms reveal 3 characters, one second 30.
    t.tick(100, 1000, true);
    assert_eq!(t.chars_revealed, 3);
    t.tick(900, 1000, true);
    assert_eq!(t.chars_revealed, 30);
    // 33 ms are only 0.99 characters: still 30.
    t.tick(33, 1000, true);
    assert_eq!(t.chars_revealed, 30);
    t.tick(1, 1000, true);
    assert_eq!(t.chars_revealed, 31);
}

#[test]
fn reveal_is_monotonic_and_capped_by_the_text_length() {
    let mut t = TypewriterState::new();
    let len = WARNING_TEXT.len();
    let mut last = 0;
    for _ in 0..200 {
        t.tick(77, len, true);
        assert!(t.chars_revealed >= last);
        assert!(t.chars_revealed <= len);
        last = t.chars_revealed;
    }
    assert_eq!(t.chars_revealed, len);
    assert_eq!(t.phase, TypewriterPhase::Warning);
}

#[test]
fn the_warning_pauses_until_confirmed() {
    let mut t = TypewriterState::new();
    let len = WARNING_TEXT.len();
    // confirming too early does nothing
    t.tick(100, len, true);
    t.confirm(len);
    assert_eq!(t.phase, TypewriterPhase::Warning);
    // finish the warning, then confirm
    t.tick(1_000_000, len, true);
    assert_eq!(t.chars_revealed, len);
    t.confirm(len);
    assert_eq!(t.phase, TypewriterPhase::Puzzle);
    assert_eq!(t.chars_revealed, 0);
    assert_eq!(t.timer_ms, 0);
}

#[test]
fn the_puzzle_prompt_finishes_into_done() {
    let mut t = TypewriterState::new();
    let warning_len = WARNING_TEXT.len();
    t.tick(1_000_000, warning_len, true);
    t.confirm(warning_len);
    let prompt_len = 220usize;
    t.tick(100, prompt_len, true);
    assert_eq!(t.phase, TypewriterPhase::Puzzle);
    t.tick(1_000_000, prompt_len, true);
    assert_eq!(t.chars_revealed, prompt_len);
    assert_eq!(t.phase, TypewriterPhase::Done);
    // once done, ticking changes nothing
    let before = t.timer_ms;
    t.tick(500, prompt_len, true);
    assert_eq!(t.timer_ms, before);
}

#[test]
fn ticking_suspends_once_the_puzzle_is_resolved() {
    let mut t = TypewriterState::new();
    t.tick(100, 1000, false);
    assert_eq!(t.chars_revealed, 0);
    assert_eq!(t.timer_ms, 0);
    t.tick(100, 1000, true);
    assert_eq!(t.chars_revealed, 3);
}

#[test]
fn reset_returns_to_the_warning_phase() {
    let mut t = TypewriterState::new();
    t.tick(5000, 10, true);
    t.confirm(10);
    t.reset();
    assert_eq!(t.chars_revealed, 0);
    assert_eq!(t.timer_ms, 0);
    assert_eq!(t.phase, TypewriterPhase::Warning);
    assert_eq!(t.chars_per_second, REVEAL_CHARS_PER_SECOND);
}
