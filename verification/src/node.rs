//! Node-level data model: localized names, node definitions, the execution
//! context handed to runners, and the capability traits implemented by node
//! authors.

use vstd::prelude::*;

verus! {

/// Localized display name of an action type.
pub struct NodeName {
    pub zh: String,
    pub en: String,
}

impl Clone for NodeName {
    fn clone(&self) -> (r: Self)
        ensures
            r == *self,
    {
        NodeName { zh: self.zh.clone(), en: self.en.clone() }
    }
}

/// Metadata of one action type: its unique key, display name, icon
/// reference, and the JSON schemas describing its input and output
/// parameters. Immutable once registered.
///
/// The schemas are stored and handed out as data. No dependency of this
/// crate interprets JSON schemas, so holding a parameter payload against
/// the input schema is left to the node author's runner and to the
/// embedding application; the executor dispatches the payload verbatim.
pub struct NodeDefinition {
    pub action_type: String,
    pub name: NodeName,
    pub icon: String,
    pub input_schema: schemars::Schema,
    pub output_schema: schemars::Schema,
}

impl Clone for NodeDefinition {
    fn clone(&self) -> (r: Self)
        ensures
            r == *self,
    {
        NodeDefinition {
            action_type: self.action_type.clone(),
            name: self.name.clone(),
            icon: self.icon.clone(),
            input_schema: crate::json::clone_schema(&self.input_schema),
            output_schema: crate::json::clone_schema(&self.output_schema),
        }
    }
}

/// Ambient context handed to every runner for the duration of one node
/// execution.
pub struct Context {
    pub workdir: String,
}

impl Context {
    /// Builds a context rooted at the given working directory.
    pub fn new(workdir: String) -> (r: Context)
        ensures
            r.workdir == workdir,
    {
        Context { workdir }
    }
}

/// Capability implemented by node authors: executes one node with opaque
/// structured parameters, reporting success or an error message.
pub trait NodeRunner {
    fn run(&mut self, ctx: &Context, param: &serde_json::Value) -> Result<(), String>;
}

/// A runner instance behind a uniform boxed handle, bound to exactly one
/// node execution and discarded afterwards.
pub struct BoxedRunner {
    pub inner: Box<dyn NodeRunner>,
}

/// Stateless capability producing a fresh runner per execution request.
pub trait NodeRunnerFactory {
    fn create(&self) -> BoxedRunner;
}

} // verus!
