use auto_engine::controller::{NodeRunnerController, RunnerState};
use auto_engine::executor::{Execution, NodeState, RunStatus};
use auto_engine::graph::build_graph;
use auto_engine::node::{BoxedRunner, Context, NodeRunner};
use auto_engine::schema::{Connection, NodeSchema, WorkflowSchema};
use auto_engine::task::TaskStatus;

fn node(action: &str) -> NodeSchema {
    NodeSchema { action_type: action.to_string(), parameters: serde_json::Value::Null }
}

fn diamond() -> WorkflowSchema {
    WorkflowSchema {
        nodes: vec![node("Start"), node("a"), node("b"), node("c")],
        connections: vec![
            Connection { from: 0, to: 1 },
            Connection { from: 0, to: 2 },
            Connection { from: 1, to: 3 },
            Connection { from: 2, to: 3 },
        ],
    }
}

#[test]
fn pause_stops_dispatch_and_resume_completes_without_repeats() {
    let g = build_graph(&diamond()).unwrap();
    let mut ex = Execution::new(g);

    let root = ex.next_ready().expect("the root is ready");
    ex.report_success(root);

    ex.pause().expect("a running run pauses");
    assert_eq!(ex.status, RunStatus::Paused);
    assert!(ex.next_ready().is_none(), "a paused run dispatches nothing");

    ex.resume().expect("a paused run resumes");
    assert_eq!(ex.status, RunStatus::Running);

    let mut dispatched = vec![root];
    while let Some(i) = ex.next_ready() {
        assert!(!dispatched.contains(&i), "a node must not run twice");
        dispatched.push(i);
        ex.report_success(i);
    }
    assert_eq!(ex.status, RunStatus::Finished);
    assert_eq!(dispatched.len(), 4);
    assert_eq!(
        ex.events.last().map(|e| e.status),
        Some(TaskStatus::Finished)
    );
}

#[test]
fn cancel_discards_the_frontier_and_is_terminal() {
    let g = build_graph(&diamond()).unwrap();
    let mut ex = Execution::new(g);

    let root = ex.next_ready().expect("the root is ready");
    ex.report_success(root);

    ex.cancel().expect("a running run cancels");
    assert_eq!(ex.status, RunStatus::Cancelled);
    assert!(ex.next_ready().is_none(), "a cancelled run dispatches nothing");
    assert!(ex.pause().is_err(), "control on a terminal run is a no-op error");
    assert!(ex.resume().is_err());
    assert!(ex.cancel().is_err());

    let started = ex
        .states
        .iter()
        .filter(|s| **s != NodeState::Pending)
        .count();
    assert_eq!(started, 1, "only the already-dispatched node ever started");
}

#[test]
fn status_transitions_are_published_as_events() {
    let g = build_graph(&diamond()).unwrap();
    let mut ex = Execution::new(g);
    assert_eq!(ex.events.len(), 1);
    assert_eq!(ex.events[0].status, TaskStatus::Running);

    ex.pause().unwrap();
    ex.resume().unwrap();
    ex.cancel().unwrap();
    let statuses: Vec<TaskStatus> = ex.events.iter().map(|e| e.status).collect();
    assert_eq!(
        statuses,
        vec![
            TaskStatus::Running,
            TaskStatus::Paused,
            TaskStatus::Running,
            TaskStatus::Cancelled,
        ]
    );
}

struct NoopRunner;

impl NodeRunner for NoopRunner {
    fn run(&mut self, _ctx: &Context, _param: &serde_json::Value) -> Result<(), String> {
        Ok(())
    }
}

#[test]
fn controller_lifecycle_accepts_only_valid_transitions() {
    let mut c = NodeRunnerController::new(BoxedRunner { inner: Box::new(NoopRunner) });
    assert_eq!(c.state, RunnerState::Idle);
    assert!(c.pause().is_err(), "an idle controller has nothing to pause");
    assert!(c.resume().is_err());

    let ctx = Context::new(String::new());
    c.start(&ctx, &serde_json::Value::Null).expect("the runner succeeds");
    assert_eq!(c.state, RunnerState::Completed);
    assert!(c.cancel().is_err(), "a completed controller is terminal");
}

struct FailingRunner;

impl NodeRunner for FailingRunner {
    fn run(&mut self, _ctx: &Context, _param: &serde_json::Value) -> Result<(), String> {
        Err("no template".to_string())
    }
}

#[test]
fn controller_records_failure_and_cancellation() {
    let mut c = NodeRunnerController::new(BoxedRunner { inner: Box::new(FailingRunner) });
    let ctx = Context::new(String::new());
    assert!(c.start(&ctx, &serde_json::Value::Null).is_err());
    assert_eq!(c.state, RunnerState::Failed);

    let mut idle = NodeRunnerController::new(BoxedRunner { inner: Box::new(NoopRunner) });
    idle.cancel().expect("an idle controller cancels");
    assert_eq!(idle.state, RunnerState::Cancelled);
}
