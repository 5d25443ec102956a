//! Node registry: a catalog mapping an action-type key to its definition
//! and to the factory that produces fresh runner instances.
//!
//! Registration under an already-present key replaces the prior entry
//! (last-write-wins); lookup of an unknown key is a normal absent outcome,
//! never an error. Definitions and factories are stored in two vectors
//! that advance in lockstep: position `i` of each belongs to one entry.

use vstd::prelude::*;
use vstd::pervasive::VecAdditionalExecFns;
use vstd::string::StringExecFns;
use crate::node::{BoxedRunner, NodeDefinition, NodeRunnerFactory};

verus! {

/// The registry. Keys are kept unique: at most one entry per action-type
/// key, and the factory at a key's position is the one registered together
/// with the definition at that position.
pub struct NodeRegisterBus {
    pub defs: Vec<NodeDefinition>,
    pub factories: Vec<Box<dyn NodeRunnerFactory>>,
}

impl NodeRegisterBus {
    /// The two columns advance in lockstep and keys are pairwise distinct.
    pub open spec fn wf(self) -> bool {
        &&& self.defs@.len() == self.factories@.len()
        &&& forall|i: int, j: int|
            0 <= i < self.defs@.len() && 0 <= j < self.defs@.len() && i != j
                ==> self.defs@[i].action_type@ != self.defs@[j].action_type@
    }

    /// Whether some entry is registered under `key`.
    pub open spec fn key_present(self, key: Seq<char>) -> bool {
        exists|i: int| 0 <= i < self.defs@.len() && self.defs@[i].action_type@ == key
    }

    /// The index of the entry registered under `key` (unique when `wf`).
    pub open spec fn index_of(self, key: Seq<char>) -> int {
        choose|i: int| 0 <= i < self.defs@.len() && self.defs@[i].action_type@ == key
    }

    /// Builds an empty registry.
    pub fn new() -> (r: NodeRegisterBus)
        ensures
            r.defs@.len() == 0,
            r.wf(),
    {
        NodeRegisterBus { defs: Vec::new(), factories: Vec::new() }
    }

    /// Stores `definition` and `factory` under `definition.action_type`.
    /// A second registration under the same key replaces the prior entry,
    /// factory included; a fresh key appends one entry. All other entries
    /// are untouched, so registering distinct keys grows the catalog by
    /// exactly one entry each.
    pub fn register(
        &mut self,
        definition: NodeDefinition,
        factory: Box<dyn NodeRunnerFactory>,
    )
        requires
            old(self).wf(),
        ensures
            final(self).wf(),
            final(self).key_present(definition.action_type@),
            old(self).key_present(definition.action_type@) ==> {
                &&& final(self).defs@ == old(self).defs@.update(
                    old(self).index_of(definition.action_type@),
                    definition,
                )
                &&& final(self).factories@ == old(self).factories@.update(
                    old(self).index_of(definition.action_type@),
                    factory,
                )
            },
            !old(self).key_present(definition.action_type@) ==> {
                &&& final(self).defs@ == old(self).defs@.push(definition)
                &&& final(self).factories@ == old(self).factories@.push(factory)
            },
    {
        let n = self.defs.len();
        let mut i: usize = 0;
        while i < n
            invariant
                n == self.defs@.len(),
                i <= n,
                self == old(self),
                old(self).wf(),
                forall|j: int|
                    0 <= j < i ==> self.defs@[j].action_type@ != definition.action_type@,
            decreases n - i,
        {
            if self.defs[i].action_type == definition.action_type {
                proof {
                    assert(old(self).defs@[i as int].action_type@ == definition.action_type@);
                    assert(old(self).key_present(definition.action_type@));
                    let k = old(self).index_of(definition.action_type@);
                    assert(0 <= k < old(self).defs@.len()
                        && old(self).defs@[k].action_type@ == definition.action_type@);
                    assert(k == i);
                }
                let ghost priorf = self.factories@;
                self.defs.set(i, definition);
                self.factories.set(i, factory);
                proof {
                    vstd::seq::axiom_seq_update_len::<Box<dyn NodeRunnerFactory>>(
                        priorf,
                        i as int,
                        factory,
                    );
                    assert(self.defs@[i as int].action_type@ == definition.action_type@);
                }
                return ;
            }
            i += 1;
        }
        let ghost priord = self.defs@;
        let ghost priorf = self.factories@;
        self.defs.push(definition);
        self.factories.push(factory);
        proof {
            vstd::seq::axiom_seq_push_len::<Box<dyn NodeRunnerFactory>>(priorf, factory);
            assert(self.defs@[priord.len() as int].action_type@ == definition.action_type@);
        }
    }

    /// Returns a point-in-time snapshot of every registered definition, in
    /// registration order.
    pub fn list_nodes(&self) -> (r: Vec<NodeDefinition>)
        ensures
            r@.len() == self.defs@.len(),
            forall|i: int| 0 <= i < r@.len() ==> r@[i] == self.defs@[i],
    {
        let mut r: Vec<NodeDefinition> = Vec::new();
        let n = self.defs.len();
        let mut i: usize = 0;
        while i < n
            invariant
                n == self.defs@.len(),
                i <= n,
                r@.len() == i,
                forall|j: int| 0 <= j < i ==> r@[j] == self.defs@[j],
            decreases n - i,
        {
            r.push(self.defs[i].clone());
            i += 1;
        }
        r
    }

    /// Produces a fresh runner from the factory registered under `key`, or
    /// absence when the key is unknown. Absence is a normal outcome, not an
    /// error.
    pub fn create_runner(&self, key: &str) -> (r: Option<BoxedRunner>)
        requires
            self.wf(),
        ensures
            r is Some <==> self.key_present(key@),
    {
        let owned: String = String::from_str(key);
        let n = self.defs.len();
        let mut i: usize = 0;
        while i < n
            invariant
                self.wf(),
                owned@ == key@,
                n == self.defs@.len(),
                i <= n,
                forall|j: int| 0 <= j < i ==> self.defs@[j].action_type@ != key@,
            decreases n - i,
        {
            if self.defs[i].action_type == owned {
                let runner = self.factories[i].create();
                return Some(runner);
            }
            i += 1;
        }
        None
    }
}

} // verus!
