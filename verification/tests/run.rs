use std::cell::RefCell;
use std::rc::Rc;

use auto_engine::node::{BoxedRunner, Context, NodeDefinition, NodeName, NodeRunner, NodeRunnerFactory};
use auto_engine::register::NodeRegisterBus;
use auto_engine::schema::{Connection, NodeSchema, WorkflowSchema};
use auto_engine::task::TaskStatus;
use auto_engine::workflow::{ExecError, WorkflowRunner};

struct RecordingRunner {
    label: String,
    log: Rc<RefCell<Vec<String>>>,
    fail: bool,
}

impl NodeRunner for RecordingRunner {
    fn run(&mut self, _ctx: &Context, _param: &serde_json::Value) -> Result<(), String> {
        self.log.borrow_mut().push(self.label.clone());
        if self.fail {
            Err(format!("{} failed", self.label))
        } else {
            Ok(())
        }
    }
}

struct RecordingFactory {
    label: String,
    log: Rc<RefCell<Vec<String>>>,
    fail: bool,
}

impl NodeRunnerFactory for RecordingFactory {
    fn create(&self) -> BoxedRunner {
        BoxedRunner {
            inner: Box::new(RecordingRunner {
                label: self.label.clone(),
                log: Rc::clone(&self.log),
                fail: self.fail,
            }),
        }
    }
}

fn definition(action: &str) -> NodeDefinition {
    NodeDefinition {
        action_type: action.to_string(),
        name: NodeName { zh: action.to_string(), en: action.to_string() },
        icon: String::new(),
        input_schema: schemars::Schema::from(true),
        output_schema: schemars::Schema::from(true),
    }
}

fn register(bus: &mut NodeRegisterBus, log: &Rc<RefCell<Vec<String>>>, action: &str, fail: bool) {
    bus.register(
        definition(action),
        Box::new(RecordingFactory { label: action.to_string(), log: Rc::clone(log), fail }),
    );
}

fn node(action: &str) -> NodeSchema {
    NodeSchema { action_type: action.to_string(), parameters: serde_json::Value::Null }
}

fn schema(actions: &[&str], edges: &[(usize, usize)]) -> WorkflowSchema {
    WorkflowSchema {
        nodes: actions.iter().map(|a| node(a)).collect(),
        connections: edges.iter().map(|&(from, to)| Connection { from, to }).collect(),
    }
}

#[test]
fn empty_forest_finishes_immediately() {
    let w = schema(&["a"], &[]);
    let runner = WorkflowRunner::create(w).unwrap();
    let bus = NodeRegisterBus::new();
    let ctx = Context::new(String::new());
    let status = runner.run(&bus, &ctx).expect("nothing to do finishes");
    assert_eq!(status, TaskStatus::Finished);
}

#[test]
fn diamond_runs_the_join_node_once_after_both_branches() {
    let log = Rc::new(RefCell::new(Vec::new()));
    let mut bus = NodeRegisterBus::new();
    for action in ["Start", "a", "b", "c"] {
        register(&mut bus, &log, action, false);
    }
    let w = schema(
        &["Start", "a", "b", "c"],
        &[(0, 1), (0, 2), (1, 3), (2, 3)],
    );
    let runner = WorkflowRunner::create(w).unwrap();
    let ctx = Context::new(String::new());
    let status = runner.run(&bus, &ctx).expect("the diamond runs");
    assert_eq!(status, TaskStatus::Finished);

    let seen = log.borrow();
    assert_eq!(seen.iter().filter(|l| l.as_str() == "c").count(), 1);
    let pos = |label: &str| seen.iter().position(|l| l == label).unwrap();
    assert!(pos("Start") < pos("a"));
    assert!(pos("Start") < pos("b"));
    assert!(pos("a") < pos("c"));
    assert!(pos("b") < pos("c"));
    assert_eq!(seen.len(), 4);
}

#[test]
fn unknown_action_type_fails_naming_the_key() {
    let w = schema(&["Start"], &[]);
    let runner = WorkflowRunner::create(w).unwrap();
    let bus = NodeRegisterBus::new();
    let ctx = Context::new(String::new());
    match runner.run(&bus, &ctx) {
        Err(ExecError::UnknownActionType { action }) => assert_eq!(action, "Start"),
        _ => panic!("expected an unknown-action-type error"),
    }
}

#[test]
fn node_failure_aborts_the_run() {
    let log = Rc::new(RefCell::new(Vec::new()));
    let mut bus = NodeRegisterBus::new();
    register(&mut bus, &log, "Start", false);
    register(&mut bus, &log, "boom", true);
    let w = schema(&["Start", "boom", "after"], &[(0, 1), (1, 2)]);
    let runner = WorkflowRunner::create(w).unwrap();
    let ctx = Context::new(String::new());
    match runner.run(&bus, &ctx) {
        Err(ExecError::NodeFailed { message, .. }) => assert_eq!(message, "boom failed"),
        _ => panic!("expected a node failure"),
    }
    let seen = log.borrow();
    assert!(seen.iter().all(|l| l != "after"));
}
