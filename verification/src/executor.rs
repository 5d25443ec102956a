//! Executor state for one workflow run: per-node progress, the join
//! discipline that releases a node only after every parent completed, and
//! the run-level status machine with pause, resume and cancel.
//!
//! The frontier is the set of pending nodes whose parents are all done;
//! it is preserved across pause and resume, and a completed node never
//! re-enters it.

use vstd::prelude::*;
use vstd::pervasive::VecAdditionalExecFns;
use crate::graph::{contains_usize, Graph};
use crate::task::{TaskEventPayload, TaskStatus};

verus! {

/// Progress of one graph node within a run.
#[derive(Clone, Copy, PartialEq, Eq, Structural, Debug)]
pub enum NodeState {
    Pending,
    InFlight,
    Done,
    Failed,
}

/// Status of the whole run. `Finished`, `Cancelled` and `Failed` are
/// terminal.
#[derive(Clone, Copy, PartialEq, Eq, Structural, Debug)]
pub enum RunStatus {
    Running,
    Paused,
    Finished,
    Cancelled,
    Failed,
}

/// A control request arrived in a status that does not accept it; the
/// request is a no-op.
#[derive(Clone, Copy, PartialEq, Eq, Structural, Debug)]
pub enum RunControlError {
    Rejected,
}

/// The mutable state of one workflow run over a built forest.
pub struct Execution {
    pub graph: Graph,
    pub states: Vec<NodeState>,
    pub parents: Vec<Vec<usize>>,
    pub status: RunStatus,
    pub events: Vec<TaskEventPayload>,
}

impl Execution {
    /// Number of nodes in the forest.
    pub open spec fn n(self) -> int {
        self.graph.nodes@.len() as int
    }

    /// The parent table lists, for every node, exactly the slots whose
    /// child lists contain it; parents always sit at larger slots.
    pub open spec fn parents_ok(self) -> bool {
        &&& self.parents@.len() == self.n()
        &&& forall|c: int, x: int|
            0 <= c < self.n() && 0 <= x < self.parents@[c]@.len() ==> c < ((
            #[trigger] self.parents@[c]@[x]) as int) && ((self.parents@[c]@[x]) as int) < self.n()
                && self.graph.nodes@[self.parents@[c]@[x] as int].children@.contains(c as usize)
        &&& forall|s: int, j: int|
            0 <= s < self.n() && 0 <= j < self.graph.nodes@[s].children@.len()
                ==> self.parents@[(#[trigger] self.graph.nodes@[s].children@[j]) as int]@.contains(
                s as usize)
    }

    /// Run-state well-formedness: a node has started only if every parent
    /// completed successfully; a finished run has every node done; a run
    /// that is still controllable carries no failed node.
    pub open spec fn wf(self) -> bool {
        &&& self.graph.wf()
        &&& self.states@.len() == self.n()
        &&& self.parents_ok()
        &&& forall|i: int, x: int|
            0 <= i < self.n() && (#[trigger] self.states@[i]) != NodeState::Pending && 0 <= x
                < self.parents@[i]@.len() ==> self.states@[(#[trigger] self.parents@[i]@[x]) as int]
                == NodeState::Done
        &&& (self.status == RunStatus::Finished ==> self.all_done())
        &&& ((self.status == RunStatus::Running || self.status == RunStatus::Paused)
            ==> forall|i: int| 0 <= i < self.n() ==> (#[trigger] self.states@[i])
                != NodeState::Failed)
    }

    /// Node `i` belongs to the frontier: still pending, every parent
    /// done.
    pub open spec fn ready(self, i: int) -> bool {
        &&& 0 <= i < self.n()
        &&& self.states@[i] == NodeState::Pending
        &&& forall|x: int|
            0 <= x < self.parents@[i]@.len() ==> self.states@[(#[trigger] self.parents@[i]@[
                x]) as int] == NodeState::Done
    }

    /// The frontier is empty.
    pub open spec fn no_ready(self) -> bool {
        forall|i: int| 0 <= i < self.n() ==> !(#[trigger] self.ready(i))
    }

    /// No node is currently dispatched.
    pub open spec fn none_in_flight(self) -> bool {
        forall|i: int| 0 <= i < self.n() ==> (#[trigger] self.states@[i]) != NodeState::InFlight
    }

    /// Every node has completed successfully.
    pub open spec fn all_done(self) -> bool {
        forall|i: int| 0 <= i < self.n() ==> (#[trigger] self.states@[i]) == NodeState::Done
    }

    /// The run accepts no further control or progress.
    pub open spec fn terminal(self) -> bool {
        self.status == RunStatus::Finished || self.status == RunStatus::Cancelled || self.status
            == RunStatus::Failed
    }

    /// Prepares a run over `graph`: every node pending, status Running,
    /// the initial status published as the first event.
    pub fn new(graph: Graph) -> (r: Execution)
        requires
            graph.wf(),
        ensures
            r.wf(),
            r.graph == graph,
            r.status == RunStatus::Running,
            forall|i: int| 0 <= i < r.n() ==> (#[trigger] r.states@[i]) == NodeState::Pending,
            r.events@.len() == 1 && r.events@[0].status == TaskStatus::Running,
    {
        let n = graph.nodes.len();
        let mut states: Vec<NodeState> = Vec::new();
        let mut i: usize = 0;
        while i < n
            invariant
                i <= n,
                states@.len() == i,
                forall|j: int| 0 <= j < i ==> (#[trigger] states@[j]) == NodeState::Pending,
            decreases n - i,
        {
            states.push(NodeState::Pending);
            i += 1;
        }
        let mut parents: Vec<Vec<usize>> = Vec::new();
        let mut c: usize = 0;
        while c < n
            invariant
                graph.wf(),
                n == graph.nodes@.len(),
                c <= n,
                parents@.len() == c,
                forall|cc: int, x: int|
                    0 <= cc < c && 0 <= x < parents@[cc]@.len() ==> cc < ((#[trigger] parents@[
                    cc]@[x]) as int) && ((parents@[cc]@[x]) as int) < n as int
                        && graph.nodes@[parents@[cc]@[x] as int].children@.contains(cc as usize),
                forall|s: int, j: int|
                    0 <= s < n as int && 0 <= j < graph.nodes@[s].children@.len() && ((
                    #[trigger] graph.nodes@[s].children@[j]) as int) < c ==> parents@[graph.nodes@[
                    s].children@[j] as int]@.contains(s as usize),
            decreases n - c,
        {
            let mut ps: Vec<usize> = Vec::new();
            let mut s: usize = 0;
            while s < n
                invariant
                    graph.wf(),
                    n == graph.nodes@.len(),
                    c < n,
                    s <= n,
                    forall|x: int|
                        0 <= x < ps@.len() ==> (c as int) < ((#[trigger] ps@[x]) as int) && ((
                        ps@[x]) as int) < n as int && graph.nodes@[ps@[x] as int].children@.contains(
                        c as usize),
                    forall|ss: int|
                        0 <= ss < s && graph.nodes@[ss].children@.contains(c as usize)
                            ==> ps@.contains(ss as usize),
                decreases n - s,
            {
                if contains_usize(&graph.nodes[s].children, c) {
                    proof {
                        let j = choose|j: int|
                            0 <= j < graph.nodes@[s as int].children@.len() && graph.nodes@[
                                s as int].children@[j] == c;
                        assert((c as int) < s as int);
                    }
                    let ghost pre = ps@;
                    ps.push(s);
                    proof {
                        assert(ps@[ps@.len() - 1] == s);
                        assert forall|ss: int|
                            0 <= ss < s + 1 && graph.nodes@[ss].children@.contains(c as usize)
                            implies ps@.contains(ss as usize) by {
                            if ss < s as int {
                                assert(pre.contains(ss as usize));
                                let x = choose|x: int|
                                    0 <= x < pre.len() && pre[x] == ss as usize;
                                assert(ps@[x] == ss as usize);
                            } else {
                                assert(ps@[ps@.len() - 1] == ss as usize);
                            }
                        }
                    }
                }
                s += 1;
            }
            parents.push(ps);
            c += 1;
        }
        let mut events: Vec<TaskEventPayload> = Vec::new();
        events.push(TaskEventPayload::new(TaskStatus::Running));
        let r = Execution { graph, states, parents, status: RunStatus::Running, events };
        proof {
            assert forall|s: int, j: int|
                0 <= s < r.n() && 0 <= j < r.graph.nodes@[s].children@.len()
                implies r.parents@[(#[trigger] r.graph.nodes@[s].children@[j]) as int]@.contains(
                s as usize) by {
                assert((r.graph.nodes@[s].children@[j] as int) < n as int);
            }
        }
        r
    }

    /// Whether node `i` belongs to the frontier.
    fn is_ready(&self, i: usize) -> (r: bool)
        requires
            self.wf(),
            (i as int) < self.n(),
        ensures
            r == self.ready(i as int),
    {
        match self.states[i] {
            NodeState::Pending => {},
            _ => {
                return false;
            },
        }
        let ps = &self.parents[i];
        let m = ps.len();
        let mut x: usize = 0;
        while x < m
            invariant
                self.wf(),
                (i as int) < self.n(),
                ps == &self.parents[i as int],
                m == ps@.len(),
                x <= m,
                forall|y: int|
                    0 <= y < x ==> self.states@[(#[trigger] ps@[y]) as int] == NodeState::Done,
            decreases m - x,
        {
            let p = ps[x];
            match self.states[p] {
                NodeState::Done => {},
                _ => {
                    return false;
                },
            }
            x += 1;
        }
        true
    }

    /// Whether no node is currently dispatched.
    fn check_none_in_flight(&self) -> (r: bool)
        requires
            self.wf(),
        ensures
            r == self.none_in_flight(),
    {
        let n = self.states.len();
        let mut i: usize = 0;
        while i < n
            invariant
                self.wf(),
                n == self.states@.len(),
                i <= n,
                forall|j: int| 0 <= j < i ==> (#[trigger] self.states@[j]) != NodeState::InFlight,
            decreases n - i,
        {
            match self.states[i] {
                NodeState::InFlight => {
                    return false;
                },
                _ => {},
            }
            i += 1;
        }
        true
    }

    /// Takes one node off the frontier and marks it dispatched, lowest
    /// slot first. Returns nothing when the run is not running or the
    /// frontier is empty; in the latter case, with nothing dispatched
    /// either, the run is complete and transitions to Finished, publishing
    /// the event.
    pub fn next_ready(&mut self) -> (r: Option<usize>)
        requires
            old(self).wf(),
        ensures
            final(self).wf(),
            final(self).graph == old(self).graph,
            final(self).parents == old(self).parents,
            r matches Some(i) ==> old(self).status == RunStatus::Running && old(self).ready(i as int)
                && final(self).states@ == old(self).states@.update(i as int, NodeState::InFlight)
                && final(self).status == old(self).status && final(self).events == old(self).events,
            r is None ==> final(self).states == old(self).states && (old(self).status
                != RunStatus::Running || old(self).no_ready()),
            r is None && old(self).status == RunStatus::Running && old(self).none_in_flight()
                ==> final(self).status == RunStatus::Finished && final(self).all_done()
                && final(self).events@ == old(self).events@.push(
                TaskEventPayload { status: TaskStatus::Finished },
            ),
            r is None && !(old(self).status == RunStatus::Running && old(self).none_in_flight())
                ==> *final(self) == *old(self),
    {
        match self.status {
            RunStatus::Running => {},
            _ => {
                return None;
            },
        }
        let n = self.graph.nodes.len();
        let mut i: usize = 0;
        while i < n
            invariant
                self.wf(),
                self == old(self),
                self.status == RunStatus::Running,
                n == self.graph.nodes@.len(),
                i <= n,
                forall|j: int| 0 <= j < i ==> !(#[trigger] self.ready(j)),
            decreases n - i,
        {
            if self.is_ready(i) {
                let ghost pre = *self;
                self.states.set(i, NodeState::InFlight);
                proof {
                    assert(final(self).wf()) by {
                        assert forall|ii: int, x: int|
                            0 <= ii < self.n() && (#[trigger] self.states@[ii])
                                != NodeState::Pending && 0 <= x < self.parents@[ii]@.len()
                            implies self.states@[(#[trigger] self.parents@[ii]@[x]) as int]
                            == NodeState::Done by {
                            let p = self.parents@[ii]@[x];
                            if ii == i as int {
                                assert(pre.ready(i as int));
                                assert(pre.states@[p as int] == NodeState::Done);
                            } else {
                                assert(pre.states@[ii] != NodeState::Pending);
                                assert(pre.states@[p as int] == NodeState::Done);
                                assert((p as int) != i as int) by {
                                    if (p as int) == i as int {
                                        assert(pre.states@[i as int] == NodeState::Done);
                                    }
                                }
                            }
                        }
                    }
                }
                return Some(i);
            }
            i += 1;
        }
        if self.check_none_in_flight() {
            proof {
                lemma_stuck_means_done(*self);
            }
            self.status = RunStatus::Finished;
            self.events.push(TaskEventPayload { status: TaskStatus::Finished });
        }
        None
    }

    /// Records that the dispatched node `i` completed successfully,
    /// releasing any child whose other parents are also done.
    pub fn report_success(&mut self, i: usize)
        requires
            old(self).wf(),
            (i as int) < old(self).n(),
            old(self).states@[i as int] == NodeState::InFlight,
        ensures
            final(self).wf(),
            final(self).graph == old(self).graph,
            final(self).parents == old(self).parents,
            final(self).status == old(self).status,
            final(self).events == old(self).events,
            final(self).states@ == old(self).states@.update(i as int, NodeState::Done),
    {
        let ghost pre = *self;
        self.states.set(i, NodeState::Done);
        proof {
            assert(pre.status != RunStatus::Finished) by {
                if pre.status == RunStatus::Finished {
                    assert(pre.states@[i as int] == NodeState::Done);
                }
            }
            assert forall|ii: int, x: int|
                0 <= ii < self.n() && (#[trigger] self.states@[ii]) != NodeState::Pending && 0 <= x
                    < self.parents@[ii]@.len() implies self.states@[(#[trigger] self.parents@[
                ii]@[x]) as int] == NodeState::Done by {
                let p = self.parents@[ii]@[x];
                if ii != i as int {
                    assert(pre.states@[ii] != NodeState::Pending);
                }
                assert(pre.states@[ii] != NodeState::Pending);
                assert(pre.states@[p as int] == NodeState::Done);
            }
        }
    }

    /// Records that the dispatched node `i` failed. The run transitions
    /// to its terminal failed status (fail-fast): the remaining frontier
    /// is abandoned and no further node is dispatched.
    pub fn report_failure(&mut self, i: usize)
        requires
            old(self).wf(),
            (i as int) < old(self).n(),
            old(self).states@[i as int] == NodeState::InFlight,
            old(self).status == RunStatus::Running || old(self).status == RunStatus::Paused,
        ensures
            final(self).wf(),
            final(self).graph == old(self).graph,
            final(self).parents == old(self).parents,
            final(self).status == RunStatus::Failed,
            final(self).events == old(self).events,
            final(self).states@ == old(self).states@.update(i as int, NodeState::Failed),
    {
        let ghost pre = *self;
        self.states.set(i, NodeState::Failed);
        self.status = RunStatus::Failed;
        proof {
            assert forall|ii: int, x: int|
                0 <= ii < self.n() && (#[trigger] self.states@[ii]) != NodeState::Pending && 0 <= x
                    < self.parents@[ii]@.len() implies self.states@[(#[trigger] self.parents@[
                ii]@[x]) as int] == NodeState::Done by {
                let p = self.parents@[ii]@[x];
                if ii != i as int {
                    assert(pre.states@[ii] != NodeState::Pending);
                }
                assert(pre.states@[ii] != NodeState::Pending);
                assert(pre.states@[p as int] == NodeState::Done);
                assert((p as int) != i as int) by {
                    if (p as int) == i as int {
                        assert(pre.states@[i as int] == NodeState::Done);
                    }
                }
            }
        }
    }

    /// Pauses a running run: already-dispatched nodes may still report,
    /// but nothing new leaves the frontier, which is preserved for
    /// resume. Any other status rejects the request unchanged.
    pub fn pause(&mut self) -> (r: Result<(), RunControlError>)
        requires
            old(self).wf(),
        ensures
            final(self).wf(),
            old(self).status == RunStatus::Running ==> r is Ok && final(self).status == RunStatus::Paused
                && final(self).graph == old(self).graph && final(self).parents == old(
                self,
            ).parents && final(self).states == old(self).states && final(self).events@ == old(
                self,
            ).events@.push(
                TaskEventPayload { status: TaskStatus::Paused },
            ),
            old(self).status != RunStatus::Running ==> r is Err && *final(self) == *old(self),
    {
        match self.status {
            RunStatus::Running => {
                self.status = RunStatus::Paused;
                self.events.push(TaskEventPayload { status: TaskStatus::Paused });
                Ok(())
            },
            _ => Err(RunControlError::Rejected),
        }
    }

    /// Resumes a paused run, releasing the preserved frontier. Any other
    /// status rejects the request unchanged.
    pub fn resume(&mut self) -> (r: Result<(), RunControlError>)
        requires
            old(self).wf(),
        ensures
            final(self).wf(),
            old(self).status == RunStatus::Paused ==> r is Ok && final(self).status == RunStatus::Running
                && final(self).graph == old(self).graph && final(self).parents == old(
                self,
            ).parents && final(self).states == old(self).states && final(self).events@ == old(
                self,
            ).events@.push(
                TaskEventPayload { status: TaskStatus::Running },
            ),
            old(self).status != RunStatus::Paused ==> r is Err && *final(self) == *old(self),
    {
        match self.status {
            RunStatus::Paused => {
                self.status = RunStatus::Running;
                self.events.push(TaskEventPayload { status: TaskStatus::Running });
                Ok(())
            },
            _ => Err(RunControlError::Rejected),
        }
    }

    /// Cancels a running or paused run: the remaining frontier is
    /// discarded and no node outside the already-dispatched set will ever
    /// start. A terminal status rejects the request unchanged.
    pub fn cancel(&mut self) -> (r: Result<(), RunControlError>)
        requires
            old(self).wf(),
        ensures
            final(self).wf(),
            (old(self).status == RunStatus::Running || old(self).status == RunStatus::Paused)
                ==> r is Ok && final(self).status == RunStatus::Cancelled
                && final(self).graph == old(self).graph && final(self).parents == old(
                self,
            ).parents && final(self).states == old(self).states && final(self).events@ == old(
                self,
            ).events@.push(
                TaskEventPayload { status: TaskStatus::Cancelled },
            ),
            !(old(self).status == RunStatus::Running || old(self).status == RunStatus::Paused)
                ==> r is Err && *final(self) == *old(self),
    {
        match self.status {
            RunStatus::Running | RunStatus::Paused => {
                self.status = RunStatus::Cancelled;
                self.events.push(TaskEventPayload { status: TaskStatus::Cancelled });
                Ok(())
            },
            _ => Err(RunControlError::Rejected),
        }
    }
}

/// From slot `i` upward some node of the frontier exists, or `i` itself
/// is done: with nothing dispatched and nothing ready, every node from
/// `i` upward is done.
proof fn lemma_done_from(ex: Execution, i: int)
    requires
        ex.wf(),
        ex.status == RunStatus::Running || ex.status == RunStatus::Paused,
        ex.none_in_flight(),
        ex.no_ready(),
        0 <= i < ex.n(),
    ensures
        ex.states@[i] == NodeState::Done,
    decreases ex.n() - i,
{
    match ex.states@[i] {
        NodeState::Done => {},
        NodeState::InFlight => {
            assert(false);
        },
        NodeState::Failed => {
            assert(false);
        },
        NodeState::Pending => {
            assert(!ex.ready(i));
            let x = choose|x: int|
                0 <= x < ex.parents@[i]@.len() && ex.states@[(ex.parents@[i]@[x]) as int]
                    != NodeState::Done;
            let p = ex.parents@[i]@[x] as int;
            assert(i < p < ex.n());
            lemma_done_from(ex, p);
            assert(false);
        },
    }
}

/// An empty frontier with nothing dispatched means the whole forest has
/// completed: the run may finish.
proof fn lemma_stuck_means_done(ex: Execution)
    requires
        ex.wf(),
        ex.status == RunStatus::Running || ex.status == RunStatus::Paused,
        ex.none_in_flight(),
        ex.no_ready(),
    ensures
        ex.all_done(),
{
    assert forall|i: int| 0 <= i < ex.n() implies (#[trigger] ex.states@[i])
        == NodeState::Done by {
        lemma_done_from(ex, i);
    }
}

/// Join law: a node that has left the pending state was released only
/// after every one of its parents had completed successfully — a node on
/// the far side of a diamond starts only once both branches are done.
pub proof fn lemma_started_after_parents(ex: Execution, i: int, x: int)
    requires
        ex.wf(),
        0 <= i < ex.n(),
        ex.states@[i] != NodeState::Pending,
        0 <= x < ex.parents@[i]@.len(),
    ensures
        ex.states@[(ex.parents@[i]@[x]) as int] == NodeState::Done,
{
}

/// Completion law: a run whose status is Finished has executed every
/// node of its forest successfully.
pub proof fn lemma_finished_all_done(ex: Execution)
    requires
        ex.wf(),
        ex.status == RunStatus::Finished,
    ensures
        ex.all_done(),
{
}


/// Number of pending nodes in `s`: the measure of remaining work.
pub open spec fn count_pending(s: Seq<NodeState>) -> nat
    decreases s.len(),
{
    if s.len() == 0 {
        0nat
    } else {
        count_pending(s.drop_last()) + if s.last() == NodeState::Pending {
            1nat
        } else {
            0nat
        }
    }
}

/// Replacing a pending entry by a non-pending one lowers the pending
/// count by exactly one.
pub proof fn lemma_count_pending_update(s: Seq<NodeState>, i: int, v: NodeState)
    requires
        0 <= i < s.len(),
        s[i] == NodeState::Pending,
        v != NodeState::Pending,
    ensures
        count_pending(s.update(i, v)) + 1 == count_pending(s),
    decreases s.len(),
{
    let t = s.update(i, v);
    if i == s.len() - 1 {
        assert(t.drop_last() =~= s.drop_last());
    } else {
        lemma_count_pending_update(s.drop_last(), i, v);
        assert(t.drop_last() =~= s.drop_last().update(i, v));
        assert(t.last() == s.last());
    }
}

/// Replacing a non-pending entry by a non-pending one keeps the pending
/// count unchanged.
pub proof fn lemma_count_pending_same(s: Seq<NodeState>, i: int, v: NodeState)
    requires
        0 <= i < s.len(),
        s[i] != NodeState::Pending,
        v != NodeState::Pending,
    ensures
        count_pending(s.update(i, v)) == count_pending(s),
    decreases s.len(),
{
    let t = s.update(i, v);
    if i == s.len() - 1 {
        assert(t.drop_last() =~= s.drop_last());
    } else {
        lemma_count_pending_same(s.drop_last(), i, v);
        assert(t.drop_last() =~= s.drop_last().update(i, v));
        assert(t.last() == s.last());
    }
}

} // verus!
