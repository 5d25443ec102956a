use auto_engine::convert::{
    Action, KeyAction, KeyBoardKeyMode, MouseAction, MouseActionParam, ACTION_DELAY, ACTION_END,
    ACTION_KEY,
};
use auto_engine::node::Context;
use auto_engine::start::{StartRunner, StartRunnerFactory};
use auto_engine::node::{NodeRunner, NodeRunnerFactory};
use auto_engine::task::{TaskEventPayload, TaskStatus};

#[test]
fn to_key_mode_maps_each_gesture() {
    assert_eq!(KeyAction::KeyDown.to_key_mode(), KeyBoardKeyMode::Down);
    assert_eq!(KeyAction::KeyUp.to_key_mode(), KeyBoardKeyMode::Up);
}

#[test]
fn action_kind_markers_match_the_recorder() {
    assert_eq!(ACTION_END, 1);
    assert_eq!(ACTION_DELAY, 2);
    assert_eq!(ACTION_KEY, 3);
}

#[test]
fn start_runner_does_nothing_and_succeeds() {
    let mut runner = StartRunner;
    let ctx = Context::new("workdir".to_string());
    assert!(runner.run(&ctx, &serde_json::Value::Null).is_ok());
    assert_eq!(ctx.workdir, "workdir");

    let mut fresh = StartRunnerFactory.create();
    assert!(fresh.inner.run(&ctx, &serde_json::Value::Null).is_ok());
}

#[test]
fn task_event_payload_carries_the_status() {
    let e = TaskEventPayload::new(TaskStatus::Paused);
    assert_eq!(e.status, TaskStatus::Paused);
}

#[test]
fn recorder_values_round_hold_their_fields() {
    let m = MouseActionParam::CurrentPosition([-1, -1]);
    assert_eq!(m, MouseActionParam::CurrentPosition([-1, -1]));
    assert_ne!(
        MouseActionParam::Percent(["0.2604%".to_string(), "0.5556%".to_string()]),
        m
    );
    assert_ne!(MouseAction::LeftDown, MouseAction::LeftUp);

    let a = Action {
        kind: ACTION_DELAY,
        dis: false,
        mark: String::new(),
        min: Some(10),
        max: Some(20),
        v_min: None,
        v_max: None,
        ms: None,
        ex: None,
        vk: None,
        state: None,
        move_flag: None,
        track: None,
        speed: None,
        x: None,
        y: None,
    };
    assert_eq!(a.min, Some(10));
    assert_eq!(a.kind, ACTION_DELAY);
}

#[test]
fn task_event_label_is_stable() {
    assert_eq!(auto_engine::task::TASK_EVENT, "task");
}
