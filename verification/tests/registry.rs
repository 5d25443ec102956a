use std::cell::Cell;
use std::rc::Rc;

use auto_engine::node::{BoxedRunner, Context, NodeDefinition, NodeName, NodeRunner, NodeRunnerFactory};
use auto_engine::register::NodeRegisterBus;

struct CountingRunner {
    counter: Rc<Cell<usize>>,
}

impl NodeRunner for CountingRunner {
    fn run(&mut self, _ctx: &Context, _param: &serde_json::Value) -> Result<(), String> {
        self.counter.set(self.counter.get() + 1);
        Ok(())
    }
}

struct CountingFactory {
    counter: Rc<Cell<usize>>,
}

impl CountingFactory {
    fn new() -> Self {
        Self { counter: Rc::new(Cell::new(0)) }
    }

    fn with_counter(counter: Rc<Cell<usize>>) -> Self {
        Self { counter }
    }
}

impl NodeRunnerFactory for CountingFactory {
    fn create(&self) -> BoxedRunner {
        BoxedRunner { inner: Box::new(CountingRunner { counter: Rc::clone(&self.counter) }) }
    }
}

fn definition(action: &str) -> NodeDefinition {
    NodeDefinition {
        action_type: action.to_string(),
        name: NodeName { zh: "测试节点".to_string(), en: "test node".to_string() },
        icon: "icon".to_string(),
        input_schema: schemars::Schema::from(true),
        output_schema: schemars::Schema::from(true),
    }
}

#[test]
fn register_and_list_nodes() {
    let mut bus = NodeRegisterBus::new();
    bus.register(definition("action_a"), Box::new(CountingFactory::new()));

    let nodes = bus.list_nodes();
    assert_eq!(nodes.len(), 1);
    assert_eq!(nodes[0].action_type, "action_a");
}

#[test]
fn create_runner_from_factory() {
    let counter = Rc::new(Cell::new(0));
    let mut bus = NodeRegisterBus::new();
    bus.register(
        definition("action_b"),
        Box::new(CountingFactory::with_counter(Rc::clone(&counter))),
    );

    let mut runner = bus.create_runner("action_b").expect("runner should be created");

    let ctx = Context::new(String::new());
    runner
        .inner
        .run(&ctx, &serde_json::Value::Null)
        .expect("runner should execute successfully");

    assert_eq!(counter.get(), 1);
}

#[test]
fn create_runner_returns_none_for_unknown_key() {
    let bus = NodeRegisterBus::new();
    assert!(bus.create_runner("unknown").is_none());
}

#[test]
fn registering_distinct_keys_lists_each_once() {
    let mut bus = NodeRegisterBus::new();
    bus.register(definition("one"), Box::new(CountingFactory::new()));
    bus.register(definition("two"), Box::new(CountingFactory::new()));
    bus.register(definition("three"), Box::new(CountingFactory::new()));

    let nodes = bus.list_nodes();
    assert_eq!(nodes.len(), 3);
    assert_eq!(nodes[0].action_type, "one");
    assert_eq!(nodes[1].action_type, "two");
    assert_eq!(nodes[2].action_type, "three");
}

#[test]
fn reregistering_a_key_uses_the_latest_factory() {
    let first = Rc::new(Cell::new(0));
    let second = Rc::new(Cell::new(0));
    let mut bus = NodeRegisterBus::new();
    bus.register(
        definition("action_c"),
        Box::new(CountingFactory::with_counter(Rc::clone(&first))),
    );
    bus.register(
        definition("action_c"),
        Box::new(CountingFactory::with_counter(Rc::clone(&second))),
    );

    let nodes = bus.list_nodes();
    assert_eq!(nodes.len(), 1);

    let mut runner = bus.create_runner("action_c").expect("runner should be created");
    let ctx = Context::new(String::new());
    runner.inner.run(&ctx, &serde_json::Value::Null).unwrap();

    assert_eq!(first.get(), 0);
    assert_eq!(second.get(), 1);
}
