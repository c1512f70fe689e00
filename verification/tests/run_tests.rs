use refocus::run::{advance, RunState};

#[test]
fn successful_run_reaches_committed() {
    let mut state = RunState::Idle;
    state = advance(state, true);
    assert_eq!(state, RunState::Staged);
    state = advance(state, true);
    assert_eq!(state, RunState::Merged);
    state = advance(state, true);
    assert_eq!(state, RunState::Committed);
}

#[test]
fn failed_commit_ends_the_run_without_touching_the_target() {
    let mut state = RunState::Idle;
    state = advance(state, true);
    state = advance(state, true);
    assert_eq!(state, RunState::Merged);
    state = advance(state, false);
    assert_eq!(state, RunState::Failed);
    // A failed run stays failed: no later step can reach the committing
    // transition.
    state = advance(state, true);
    assert_eq!(state, RunState::Failed);
}

#[test]
fn early_failure_short_circuits() {
    let state = advance(RunState::Idle, false);
    assert_eq!(state, RunState::Failed);
    let state = advance(RunState::Staged, false);
    assert_eq!(state, RunState::Failed);
}

#[test]
fn committed_is_terminal() {
    assert_eq!(advance(RunState::Committed, false), RunState::Committed);
    assert_eq!(advance(RunState::Committed, true), RunState::Committed);
}
