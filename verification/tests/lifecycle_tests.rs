use colony_core::lifecycle::{action_step, ActionState};

#[test]
fn construction_finishes_exactly_at_three_seconds() {
    let a = ActionState::Construct(1000);
    assert_eq!(action_step(a, 1000), (a, false));
    assert_eq!(action_step(a, 3999), (a, false));
    assert_eq!(action_step(a, 4000), (ActionState::Idle, false));
    assert_eq!(action_step(a, 9999), (ActionState::Idle, false));
}

#[test]
fn destruction_removes_exactly_at_three_seconds() {
    let a = ActionState::Destruct(500);
    assert_eq!(action_step(a, 500), (a, false));
    assert_eq!(action_step(a, 3499), (a, false));
    assert_eq!(action_step(a, 3500), (a, true));
}

#[test]
fn idle_stays_idle() {
    assert_eq!(action_step(ActionState::Idle, 0), (ActionState::Idle, false));
    assert_eq!(action_step(ActionState::Idle, 123456), (ActionState::Idle, false));
}

#[test]
fn construction_from_time_zero() {
    let a = ActionState::Construct(0);
    assert_eq!(action_step(a, 2999), (a, false));
    assert_eq!(action_step(a, 3000), (ActionState::Idle, false));
}
