//! Workflow runner: builds the forest for a schema and drives it to a
//! terminal status, resolving one fresh runner per node through the
//! registry and dispatching it through a runner controller.

use vstd::prelude::*;
use crate::controller::NodeRunnerController;
use crate::executor::{
    count_pending, lemma_count_pending_same, lemma_count_pending_update, Execution, NodeState,
    RunStatus,
};
use crate::graph::{
    build_graph, conn_ok, conns_ok, has_reachable_cycle, offending_id, represents, BuildError,
    Graph,
};
use crate::node::Context;
use crate::register::NodeRegisterBus;
use crate::schema::WorkflowSchema;
use crate::task::TaskStatus;

verus! {

/// Why a run aborted.
#[derive(Debug)]
pub enum ExecError {
    /// A node's action-type key has no registry entry; `action` names it.
    UnknownActionType { action: String },
    /// A node's runner reported failure; the run aborted fail-fast.
    NodeFailed { node: usize, message: String },
}

/// A workflow bound to its validated forest, ready to run.
pub struct WorkflowRunner {
    pub schema: WorkflowSchema,
    pub graph: Graph,
}

impl WorkflowRunner {
    /// The forest faithfully represents the kept schema.
    pub open spec fn wf(self) -> bool {
        represents(self.graph, self.schema)
    }

    /// The action-type key of the forest node at slot `s`.
    pub open spec fn slot_key(self, s: int) -> Seq<char> {
        self.schema.nodes@[self.graph.nodes@[s].schema_id as int].action_type@
    }

    /// Validates `workflow` and builds its forest. Fails with
    /// `MissingNode` naming the first invalid connection endpoint, or
    /// with `CycleDetected` whenever a node reachable from a root lies on
    /// a cycle; a runner is handed back only for an acyclic, fully
    /// resolved schema, with the schema kept alongside the forest.
    pub fn create(workflow: WorkflowSchema) -> (r: Result<WorkflowRunner, BuildError>)
        ensures
            r matches Ok(w) ==> w.wf() && w.schema == workflow && !has_reachable_cycle(workflow),
            (r matches Err(e) && e matches BuildError::MissingNode { .. }) <==> !conns_ok(
                workflow.connections@,
                workflow.nodes@.len() as nat,
            ),
            !conns_ok(workflow.connections@, workflow.nodes@.len() as nat) ==> exists|k: int|
                0 <= k < workflow.connections@.len() && !conn_ok(
                    #[trigger] workflow.connections@[k],
                    workflow.nodes@.len() as nat,
                ) && (forall|j: int|
                    0 <= j < k ==> conn_ok(
                        #[trigger] workflow.connections@[j],
                        workflow.nodes@.len() as nat,
                    )) && (r matches Err(e) && e == (BuildError::MissingNode {
                    id: offending_id(workflow.connections@[k], workflow.nodes@.len() as nat),
                })),
            conns_ok(workflow.connections@, workflow.nodes@.len() as nat) && has_reachable_cycle(
                workflow,
            ) ==> (r matches Err(e) && e == BuildError::CycleDetected),
            (r matches Err(e) && e == BuildError::CycleDetected) ==> has_reachable_cycle(
                workflow,
            ),
    {
        match build_graph(&workflow) {
            Ok(graph) => Ok(WorkflowRunner { schema: workflow, graph }),
            Err(e) => Err(e),
        }
    }

    /// Drives the whole forest to completion, sequentially: repeatedly
    /// takes a frontier node, resolves a fresh runner for its action type
    /// from the registry, and dispatches it through a controller. The run
    /// finishes only when every node has completed and every node's
    /// action type resolved in the registry; an unknown action type or a
    /// runner failure aborts it fail-fast, naming the key or the node. An
    /// empty forest finishes immediately. A node's parameters are handed
    /// to its runner verbatim: checking them against the definition's
    /// input schema is the node author's concern, since no dependency
    /// here interprets JSON schemas.
    pub fn run(self, bus: &NodeRegisterBus, ctx: &Context) -> (r: Result<TaskStatus, ExecError>)
        requires
            self.wf(),
            bus.wf(),
        ensures
            r matches Ok(s) ==> s == TaskStatus::Finished,
            r matches Ok(s) ==> forall|sl: int|
                0 <= sl < self.graph.nodes@.len() ==> bus.key_present(#[trigger] self.slot_key(sl)),
            self.graph.nodes@.len() == 0 ==> (r matches Ok(s) && s == TaskStatus::Finished),
            r matches Err(e) ==> (e matches ExecError::UnknownActionType { action }
                ==> !bus.key_present(action@) && exists|sl: int|
                0 <= sl < self.graph.nodes@.len() && action@ == #[trigger] self.slot_key(sl)),
            r matches Err(e) ==> (e matches ExecError::NodeFailed { node, message }
                ==> (node as int) < self.graph.nodes@.len()),
    {
        let schema = self.schema;
        let mut ex = Execution::new(self.graph);
        let ghost total = ex.n();
        loop
            invariant
                ex.wf(),
                bus.wf(),
                ex.n() == total,
                total == self.graph.nodes@.len(),
                ex.graph == self.graph,
                schema == self.schema,
                forall|sl: int|
                    0 <= sl < total && (#[trigger] ex.states@[sl]) != NodeState::Pending
                        ==> bus.key_present(self.slot_key(sl)),
                ex.none_in_flight(),
                ex.status == RunStatus::Running || ex.status == RunStatus::Finished,
                forall|s: int|
                    0 <= s < ex.graph.nodes@.len() ==> ((#[trigger] ex.graph.nodes@[
                    s]).schema_id as int) < schema.nodes@.len(),
            ensures
                forall|sl: int|
                    0 <= sl < self.graph.nodes@.len() ==> bus.key_present(
                        #[trigger] self.slot_key(sl),
                    ),
            decreases count_pending(ex.states@),
        {
            let ghost pre_states = ex.states@;
            let ghost pre_ex = ex;
            let next = ex.next_ready();
            match next {
                None => {
                    proof {
                        if pre_ex.status == RunStatus::Running {
                            assert(ex.all_done());
                        } else {
                            assert(ex == pre_ex);
                            assert(ex.all_done());
                        }
                        assert forall|sl: int|
                            0 <= sl < self.graph.nodes@.len() implies bus.key_present(
                            #[trigger] self.slot_key(sl),
                        ) by {
                            assert(ex.states@[sl] == NodeState::Done);
                        }
                    }
                    break ;
                },
                Some(i) => {
                    proof {
                        lemma_count_pending_update(pre_states, i as int, NodeState::InFlight);
                    }
                    let sid = ex.graph.nodes[i].schema_id;
                    let key = &schema.nodes[sid].action_type;
                    match bus.create_runner(key.as_str()) {
                        None => {
                            ex.report_failure(i);
                            proof {
                                assert((i as int) < self.graph.nodes@.len() && key@
                                    == self.slot_key(i as int));
                            }
                            return Err(ExecError::UnknownActionType { action: key.clone() });
                        },
                        Some(runner) => {
                            let mut controller = NodeRunnerController::new(runner);
                            let outcome = controller.start(ctx, &schema.nodes[sid].parameters);
                            match outcome {
                                Ok(()) => {
                                    let ghost mid_states = ex.states@;
                                    ex.report_success(i);
                                    proof {
                                        lemma_count_pending_same(
                                            mid_states,
                                            i as int,
                                            NodeState::Done,
                                        );
                                        assert(bus.key_present(self.slot_key(i as int)));
                                        assert forall|sl: int|
                                            0 <= sl < total && (#[trigger] ex.states@[sl])
                                                != NodeState::Pending implies bus.key_present(
                                            self.slot_key(sl),
                                        ) by {
                                            if sl != i as int {
                                                assert(ex.states@[sl] == pre_states[sl]);
                                            }
                                        }
                                    }
                                },
                                Err(message) => {
                                    ex.report_failure(i);
                                    return Err(ExecError::NodeFailed { node: i, message });
                                },
                            }
                        },
                    }
                },
            }
        }
        Ok(TaskStatus::Finished)
    }
}

} // verus!
