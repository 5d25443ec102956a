//! The reserved "Start" action type: the runner that marks a forest root
//! and does no work of its own.

use vstd::prelude::*;
use crate::node::{BoxedRunner, Context, NodeRunner, NodeRunnerFactory};

verus! {

/// Runner of the reserved "Start" action type; it has nothing to do.
pub struct StartRunner;

/// The "Start" action takes no parameters.
pub struct Params;

impl NodeRunner for StartRunner {
    fn run(&mut self, _ctx: &Context, _param: &serde_json::Value) -> (r: Result<(), String>)
        ensures
            r is Ok,
    {
        Ok(())
    }
}

/// Factory producing fresh `StartRunner` instances.
pub struct StartRunnerFactory;

impl NodeRunnerFactory for StartRunnerFactory {
    fn create(&self) -> BoxedRunner {
        BoxedRunner { inner: Box::new(StartRunner) }
    }
}

} // verus!
