use bevy_platformer::input::{horizontal_axis, FixedStepPlan, PlayerInputState};
use bevy_platformer::spawn::{spawn_decision, SpawnDecision};

#[test]
fn horizontal_axis_values() {
    assert_eq!(horizontal_axis(false, false), 0);
    assert_eq!(horizontal_axis(true, false), -1);
    assert_eq!(horizontal_axis(false, true), 1);
    assert_eq!(horizontal_axis(true, true), 0);
}

#[test]
fn default_input_is_idle() {
    let s = PlayerInputState::default();
    assert_eq!(s, PlayerInputState { horizontal: 0, jump_queued: false });
}

#[test]
fn jump_press_survives_later_frames() {
    let mut s = PlayerInputState::default();
    s.collect(false, false, true);
    s.collect(true, false, false);
    s.collect(false, false, false);
    assert!(s.jump_queued);
    assert_eq!(s.horizontal, 0);
    let plan = s.fixed_step_plan();
    assert!(plan.apply_jump);
    assert!(plan.jumps(true));
    assert!(!plan.jumps(false));
    s.clear_jump_queue();
    assert!(!s.jump_queued);
    s.collect(false, true, false);
    assert!(!s.fixed_step_plan().apply_jump);
    assert_eq!(s.horizontal, 1);
}

#[test]
fn movement_or_damping_never_both() {
    for left in [false, true] {
        for right in [false, true] {
            let mut s = PlayerInputState::default();
            s.collect(left, right, false);
            let plan = s.fixed_step_plan();
            assert_ne!(plan.apply_horizontal_movement, plan.apply_horizontal_damping);
            assert_eq!(plan.apply_horizontal_movement, left != right);
        }
    }
}

#[test]
fn plan_values() {
    let s = PlayerInputState { horizontal: -1, jump_queued: false };
    assert_eq!(
        s.fixed_step_plan(),
        FixedStepPlan {
            apply_jump: false,
            apply_horizontal_movement: true,
            apply_horizontal_damping: false
        }
    );
}

#[test]
fn spawn_decisions() {
    assert_eq!(spawn_decision(1, 3), SpawnDecision::PlayerExists);
    assert_eq!(spawn_decision(2, 0), SpawnDecision::PlayerExists);
    assert_eq!(spawn_decision(0, 0), SpawnDecision::NoSpawnPoint);
    assert_eq!(spawn_decision(0, 4), SpawnDecision::SpawnAtFirstPoint);
}
