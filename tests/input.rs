use std::any::TypeId;

use bevy::input::keyboard::KeyCode;
use bevy::input::ButtonInput;
use game_core::input::{action_state, ActionEvent, ActionMappings, ActionState};

struct Jump;
struct Fire;

fn states_for<T: 'static>(events: &[ActionEvent]) -> Vec<ActionState> {
    events
        .iter()
        .filter(|e| e.action == TypeId::of::<T>())
        .map(|e| e.state)
        .collect()
}

#[test]
fn check_triggered() {
    let mut actions = ActionMappings::default();
    actions.bind::<Jump>(vec![KeyCode::Space]);

    let mut input = ButtonInput::<KeyCode>::default();
    input.press(KeyCode::Space);

    // pressing the button starts the action
    let events = actions.evaluate(&input);
    assert_eq!(states_for::<Jump>(&events), vec![ActionState::JustPressed]);

    input.clear();

    // still holding the button keeps it running
    let events = actions.evaluate(&input);
    assert_eq!(states_for::<Jump>(&events), vec![ActionState::Pressed]);

    input.clear();
    input.release_all();

    // letting go ends it
    let events = actions.evaluate(&input);
    assert_eq!(states_for::<Jump>(&events), vec![ActionState::JustReleased]);
}

#[test]
fn jump_lifecycle_over_four_frames() {
    let mut actions = ActionMappings::new();
    actions.bind::<Jump>(vec![KeyCode::Space]);
    let mut input = ButtonInput::<KeyCode>::default();

    input.press(KeyCode::Space);
    let frame1 = actions.evaluate(&input);
    assert_eq!(frame1.len(), 1);
    assert_eq!(frame1[0].action, TypeId::of::<Jump>());
    assert_eq!(frame1[0].state, ActionState::JustPressed);

    input.clear();
    let frame2 = actions.evaluate(&input);
    assert_eq!(frame2.len(), 1);
    assert_eq!(frame2[0].state, ActionState::Pressed);

    input.clear();
    input.release(KeyCode::Space);
    let frame3 = actions.evaluate(&input);
    assert_eq!(frame3.len(), 1);
    assert_eq!(frame3[0].state, ActionState::JustReleased);

    input.clear();
    let frame4 = actions.evaluate(&input);
    assert!(frame4.is_empty());
}

#[test]
fn hold_runs_every_later_frame() {
    let mut actions = ActionMappings::new();
    actions.bind::<Jump>(vec![KeyCode::Space]);
    let mut input = ButtonInput::<KeyCode>::default();
    input.press(KeyCode::Space);
    assert_eq!(states_for::<Jump>(&actions.evaluate(&input)), vec![ActionState::JustPressed]);
    for _ in 0..5 {
        input.clear();
        input.press(KeyCode::Space);
        assert_eq!(states_for::<Jump>(&actions.evaluate(&input)), vec![ActionState::Pressed]);
    }
}

#[test]
fn idle_keys_fire_nothing() {
    let mut actions = ActionMappings::new();
    actions.bind::<Jump>(vec![KeyCode::Space]);
    let mut input = ButtonInput::<KeyCode>::default();
    assert!(actions.evaluate(&input).is_empty());
    input.press(KeyCode::KeyA);
    assert!(actions.evaluate(&input).is_empty());
}

#[test]
fn press_and_release_in_one_frame_starts() {
    let mut actions = ActionMappings::new();
    actions.bind::<Jump>(vec![KeyCode::Space]);
    let mut input = ButtonInput::<KeyCode>::default();
    input.press(KeyCode::Space);
    input.release(KeyCode::Space);
    assert_eq!(states_for::<Jump>(&actions.evaluate(&input)), vec![ActionState::JustPressed]);
}

#[test]
fn either_bound_key_drives_the_action() {
    let mut actions = ActionMappings::new();
    actions.bind::<Jump>(vec![KeyCode::Space, KeyCode::KeyW]);

    let mut only_first = ButtonInput::<KeyCode>::default();
    only_first.press(KeyCode::Space);
    let mut only_second = ButtonInput::<KeyCode>::default();
    only_second.press(KeyCode::KeyW);
    let mut both = ButtonInput::<KeyCode>::default();
    both.press(KeyCode::Space);
    both.press(KeyCode::KeyW);

    for input in [&only_first, &only_second, &both] {
        assert_eq!(states_for::<Jump>(&actions.evaluate(input)), vec![ActionState::JustPressed]);
    }

    // one key held from before, the other just pressed: the press wins
    let mut mixed = ButtonInput::<KeyCode>::default();
    mixed.press(KeyCode::Space);
    mixed.clear();
    mixed.press(KeyCode::KeyW);
    assert_eq!(states_for::<Jump>(&actions.evaluate(&mixed)), vec![ActionState::JustPressed]);

    // one key still held while the other goes up: the action keeps running
    let mut held = ButtonInput::<KeyCode>::default();
    held.press(KeyCode::Space);
    held.press(KeyCode::KeyW);
    held.clear();
    held.release(KeyCode::KeyW);
    assert_eq!(states_for::<Jump>(&actions.evaluate(&held)), vec![ActionState::Pressed]);
}

#[test]
fn binding_again_adds_keys() {
    let mut actions = ActionMappings::new();
    actions.bind::<Jump>(vec![KeyCode::Space]);
    actions.bind::<Jump>(vec![KeyCode::KeyW]);
    actions.bind::<Jump>(vec![]);

    let mut input = ButtonInput::<KeyCode>::default();
    input.press(KeyCode::KeyW);
    let events = actions.evaluate(&input);
    assert_eq!(events.len(), 1);
    assert_eq!(events[0].state, ActionState::JustPressed);

    input.press(KeyCode::Space);
    assert_eq!(actions.evaluate(&input).len(), 1);
}

#[test]
fn actions_sharing_a_key_fire_independently() {
    let mut actions = ActionMappings::new();
    actions.bind::<Jump>(vec![KeyCode::Space]);
    actions.bind::<Fire>(vec![KeyCode::Space, KeyCode::KeyF]);

    let mut input = ButtonInput::<KeyCode>::default();
    input.press(KeyCode::Space);
    let events = actions.evaluate(&input);
    assert_eq!(events.len(), 2);
    assert_eq!(states_for::<Jump>(&events), vec![ActionState::JustPressed]);
    assert_eq!(states_for::<Fire>(&events), vec![ActionState::JustPressed]);

    let mut only_f = ButtonInput::<KeyCode>::default();
    only_f.press(KeyCode::KeyF);
    let events = actions.evaluate(&only_f);
    assert_eq!(events.len(), 1);
    assert_eq!(events[0].action, TypeId::of::<Fire>());
}

#[test]
fn explicit_identity_binds_like_a_type() {
    let mut by_type = ActionMappings::new();
    by_type.bind::<Jump>(vec![KeyCode::Space]);
    let mut by_id = ActionMappings::new();
    by_id.bind_id(TypeId::of::<Jump>(), vec![KeyCode::Space]);

    let mut input = ButtonInput::<KeyCode>::default();
    input.press(KeyCode::Space);
    let a = by_type.evaluate(&input);
    let b = by_id.evaluate(&input);
    assert_eq!(a.len(), 1);
    assert_eq!(b.len(), 1);
    assert_eq!(a[0].action, b[0].action);
    assert_eq!(a[0].state, b[0].state);
}

#[test]
fn classifies_each_phase() {
    let keys = vec![KeyCode::KeyA, KeyCode::KeyB];
    let mut input = ButtonInput::<KeyCode>::default();
    assert_eq!(action_state(&input, &keys), None);
    input.press(KeyCode::KeyB);
    assert_eq!(action_state(&input, &keys), Some(ActionState::JustPressed));
    input.clear();
    assert_eq!(action_state(&input, &keys), Some(ActionState::Pressed));
    input.release(KeyCode::KeyB);
    assert_eq!(action_state(&input, &keys), Some(ActionState::JustReleased));
    input.clear();
    assert_eq!(action_state(&input, &keys), None);
    assert_eq!(action_state(&input, &vec![]), None);
}
