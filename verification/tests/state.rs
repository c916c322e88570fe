use block_mirror::phase::{MirrorPhase, Transition};
use block_mirror::state::MirrorState;

fn all_phases() -> Vec<MirrorPhase> {
    vec![
        MirrorPhase::Running,
        MirrorPhase::Ready,
        MirrorPhase::Completing,
        MirrorPhase::Completed,
        MirrorPhase::Cancelling,
        MirrorPhase::Failed(String::from("a")),
    ]
}

fn reach(phase: &MirrorPhase) -> MirrorState {
    let mut state = MirrorState::new(0);
    match phase {
        MirrorPhase::Running => {}
        MirrorPhase::Ready => state.transition_to_phase(MirrorPhase::Ready),
        MirrorPhase::Completing => {
            state.transition_to_phase(MirrorPhase::Ready);
            state.transition_to_phase(MirrorPhase::Completing);
        }
        MirrorPhase::Completed => {
            state.transition_to_phase(MirrorPhase::Ready);
            state.transition_to_phase(MirrorPhase::Completing);
            state.transition_to_phase(MirrorPhase::Completed);
        }
        other => state.transition_to_phase(other.clone()),
    }
    assert_eq!(state.phase(), *phase);
    state
}

#[test]
fn a_new_mirror_is_running_with_nothing_copied() {
    let status = MirrorState::new(4096).status();
    assert_eq!(status.phase, MirrorPhase::Running);
    assert_eq!(status.copied_bytes, 0);
    assert_eq!(status.total_bytes, 4096);
}

#[test]
fn exactly_the_documented_transitions_apply() {
    let allowed = [(0, 1), (0, 4), (0, 5), (1, 2), (1, 4), (1, 5), (2, 3), (5, 4)];
    let phases = all_phases();
    for (i, from) in phases.iter().enumerate() {
        for (j, to) in phases.iter().enumerate() {
            let mut state = reach(from);
            let kind = from.transition(to);
            state.transition_to_phase(to.clone());
            if i == j {
                assert_eq!(kind, Transition::Unchanged);
                assert_eq!(state.phase(), *from);
            } else if allowed.contains(&(i, j)) {
                assert_eq!(kind, Transition::Applied);
                assert_eq!(state.phase(), *to);
            } else {
                assert_eq!(kind, Transition::Rejected);
                assert_eq!(state.phase(), *from);
            }
        }
    }
}

#[test]
fn the_first_failure_keeps_its_reason() {
    let mut state = MirrorState::new(0);
    state.transition_to_phase(MirrorPhase::Failed(String::from("first")));
    state.transition_to_phase(MirrorPhase::Failed(String::from("second")));
    assert_eq!(state.phase(), MirrorPhase::Failed(String::from("first")));
    state.transition_to_phase(MirrorPhase::Ready);
    assert_eq!(state.phase(), MirrorPhase::Failed(String::from("first")));
    state.transition_to_phase(MirrorPhase::Cancelling);
    assert_eq!(state.phase(), MirrorPhase::Cancelling);
}

#[test]
fn terminal_phases_are_not_left() {
    for terminal in [MirrorPhase::Completed, MirrorPhase::Cancelling] {
        let mut state = reach(&terminal);
        for target in all_phases() {
            state.transition_to_phase(target);
            assert_eq!(state.phase(), terminal);
        }
    }
}

#[test]
fn a_switch_over_is_not_failed_or_cancelled() {
    let mut state = reach(&MirrorPhase::Completing);
    state.transition_to_phase(MirrorPhase::Failed(String::from("late")));
    assert_eq!(state.phase(), MirrorPhase::Completing);
    state.transition_to_phase(MirrorPhase::Cancelling);
    assert_eq!(state.phase(), MirrorPhase::Completing);
    state.transition_to_phase(MirrorPhase::Completed);
    assert_eq!(state.phase(), MirrorPhase::Completed);
}

#[test]
fn rejected_attempts_are_noted_for_the_log() {
    let mut state = MirrorState::new(0);
    state.transition_to_phase(MirrorPhase::Running);
    state.transition_to_phase(MirrorPhase::Completed);
    state.transition_to_phase(MirrorPhase::Cancelling);
    state.transition_to_phase(MirrorPhase::Failed(String::from("late")));
    assert_eq!(
        state.take_rejected(),
        vec![
            (MirrorPhase::Running, MirrorPhase::Completed),
            (MirrorPhase::Cancelling, MirrorPhase::Failed(String::from("late"))),
        ]
    );
    assert_eq!(state.take_rejected(), vec![]);
    assert_eq!(state.phase(), MirrorPhase::Cancelling);
}
