//! Graph builder: turns a flat workflow schema into a validated forest of
//! graph nodes stored in an arena.
//!
//! Arena slots are assigned in postorder: every child slot is strictly
//! smaller than its parent's slot, so a built forest is acyclic by
//! construction. A node reachable over several paths is materialized
//! exactly once and shared; following a back-edge fails with a cycle
//! error instead of recursing unboundedly.

use vstd::prelude::*;
use vstd::pervasive::VecAdditionalExecFns;
use vstd::string::StringExecFns;
use crate::schema::{Connection, WorkflowSchema};

verus! {

/// One materialized node: the schema position it stands for and the arena
/// slots of its children, in first-edge order, each child once.
pub struct GraphNode {
    pub schema_id: usize,
    pub children: Vec<usize>,
}

/// A validated forest: the arena of materialized nodes and the slots of
/// the forest roots, in schema order of the "Start" nodes.
pub struct Graph {
    pub nodes: Vec<GraphNode>,
    pub roots: Vec<usize>,
}

/// Why a schema was rejected.
#[derive(Clone, Copy, PartialEq, Eq, Structural, Debug)]
pub enum BuildError {
    /// A connection references a node position that does not exist; `id`
    /// names the offending position.
    MissingNode { id: usize },
    /// A node reachable from a root lies on a cycle.
    CycleDetected,
}

/// Both endpoints of `c` reference one of `n` assigned node positions.
pub open spec fn conn_ok(c: Connection, n: nat) -> bool {
    c.from < n && c.to < n
}

/// Every connection endpoint is a valid node position.
pub open spec fn conns_ok(cs: Seq<Connection>, n: nat) -> bool {
    forall|k: int| 0 <= k < cs.len() ==> conn_ok(#[trigger] cs[k], n)
}

/// The invalid endpoint of a bad connection (`from` first, as validated).
pub open spec fn offending_id(c: Connection, n: nat) -> usize {
    if c.from >= n {
        c.from
    } else {
        c.to
    }
}

/// Some connection leads from `a` to `b`.
pub open spec fn has_edge(cs: Seq<Connection>, a: usize, b: usize) -> bool {
    exists|k: int| 0 <= k < cs.len() && (#[trigger] cs[k]).from == a && cs[k].to == b
}

/// Consecutive elements of `q` are joined by connections.
pub open spec fn is_chain(cs: Seq<Connection>, q: Seq<usize>) -> bool {
    forall|i: int| 0 <= i < q.len() - 1 ==> has_edge(cs, #[trigger] q[i], q[i + 1])
}

/// The reserved action-type key that marks a forest root.
pub open spec fn start_key() -> Seq<char> {
    "Start"@
}

/// Position `p` holds a "Start" node.
pub open spec fn is_start(w: WorkflowSchema, p: int) -> bool {
    0 <= p < w.nodes@.len() && w.nodes@[p].action_type@ == start_key()
}

/// Position `v` is reachable from some "Start" node (a start itself is
/// reachable by the one-element chain).
pub open spec fn reaches(w: WorkflowSchema, v: usize) -> bool {
    exists|q: Seq<usize>|
        q.len() >= 1 && is_chain(w.connections@, q) && is_start(w, q[0] as int) && q.last() == v
}

/// Some node reachable from a root lies on a cycle.
pub open spec fn has_reachable_cycle(w: WorkflowSchema) -> bool {
    exists|q: Seq<usize>|
        q.len() >= 2 && is_chain(w.connections@, q) && q[0] == q.last() && reaches(w, q[0])
}

/// The distinct targets of connections leaving `a` among the first `k`
/// connections, in first-edge order.
pub open spec fn targets_upto(cs: Seq<Connection>, a: usize, k: int) -> Seq<usize>
    decreases k,
{
    if k <= 0 {
        Seq::empty()
    } else {
        let t = targets_upto(cs, a, k - 1);
        if cs[k - 1].from == a && !t.contains(cs[k - 1].to) {
            t.push(cs[k - 1].to)
        } else {
            t
        }
    }
}

/// The distinct targets of all connections leaving `a`, in first-edge
/// order: the children of node `a` in the forest.
pub open spec fn targets_of(cs: Seq<Connection>, a: usize) -> Seq<usize> {
    targets_upto(cs, a, cs.len() as int)
}

/// The "Start" positions among the first `k` node positions, in order.
pub open spec fn starts_upto(w: WorkflowSchema, k: int) -> Seq<usize>
    decreases k,
{
    if k <= 0 {
        Seq::empty()
    } else {
        let t = starts_upto(w, k - 1);
        if is_start(w, k - 1) {
            t.push((k - 1) as usize)
        } else {
            t
        }
    }
}

/// Schema position `p` has a slot in the arena.
pub open spec fn node_materialized(g: Graph, p: usize) -> bool {
    exists|s: int| 0 <= s < g.nodes@.len() && (#[trigger] g.nodes@[s]).schema_id == p
}

/// Slot `s` of `arena` carries exactly the children demanded by the
/// schema's connections: one slot per distinct target, in first-edge
/// order, each strictly below `s`.
pub open spec fn children_match(cs: Seq<Connection>, arena: Seq<GraphNode>, s: int) -> bool {
    let targs = targets_of(cs, arena[s].schema_id);
    &&& arena[s].children@.len() == targs.len()
    &&& forall|j: int|
        0 <= j < targs.len() ==> (#[trigger] arena[s].children@[j]) < s
            && arena[arena[s].children@[j] as int].schema_id == targs[j]
}

impl Graph {
    /// Structural well-formedness: every child slot lies strictly below
    /// its parent's slot (so the forest is acyclic) and every root slot is
    /// valid.
    pub open spec fn wf(self) -> bool {
        &&& forall|s: int, j: int|
            0 <= s < self.nodes@.len() && 0 <= j < (#[trigger] self.nodes@[s]).children@.len()
                ==> (#[trigger] self.nodes@[s].children@[j]) < s
        &&& forall|j: int| 0 <= j < self.roots@.len() ==> (#[trigger] self.roots@[j]) < self.nodes@.len()
    }
}

/// The graph is a faithful forest for schema `w`: slots are in bijection
/// with the materialized positions (each position at most once), children
/// agree with the schema's connections, every reachable position is
/// materialized, and the roots are exactly the "Start" positions in
/// schema order.
pub open spec fn represents(g: Graph, w: WorkflowSchema) -> bool {
    let n = w.nodes@.len();
    let cs = w.connections@;
    &&& g.wf()
    &&& forall|s: int| 0 <= s < g.nodes@.len() ==> ((#[trigger] g.nodes@[s]).schema_id as int) < n
    &&& forall|s1: int, s2: int|
        0 <= s1 < g.nodes@.len() && 0 <= s2 < g.nodes@.len() && s1 != s2
            ==> (#[trigger] g.nodes@[s1]).schema_id != (#[trigger] g.nodes@[s2]).schema_id
    &&& forall|s: int| 0 <= s < g.nodes@.len() ==> children_match(cs, g.nodes@, s)
    &&& forall|p: usize| reaches(w, p) ==> node_materialized(g, p)
    &&& forall|p: usize| node_materialized(g, p) ==> reaches(w, p)
    &&& g.roots@.len() == starts_upto(w, n as int).len()
    &&& forall|j: int|
        0 <= j < g.roots@.len() ==> g.nodes@[#[trigger] g.roots@[j] as int].schema_id
            == starts_upto(w, n as int)[j]
}

/// Invariant of graph construction, tying the visitation map to the
/// arena: a position is visited exactly when it owns an arena slot, and
/// every arena slot already carries its full set of children.
pub open spec fn build_inv(
    w: WorkflowSchema,
    visited: Seq<Option<usize>>,
    on_path: Seq<bool>,
    arena: Seq<GraphNode>,
) -> bool {
    let n = w.nodes@.len();
    &&& visited.len() == n
    &&& on_path.len() == n
    &&& forall|s: int|
        0 <= s < arena.len() ==> ((#[trigger] arena[s]).schema_id as int) < n
            && visited[arena[s].schema_id as int] is Some
            && (visited[arena[s].schema_id as int]->0 as int) == s
    &&& forall|i: int|
        0 <= i < n && (#[trigger] visited[i]) is Some ==> (visited[i]->0 as int) < arena.len()
            && (arena[visited[i]->0 as int].schema_id as int) == i && !on_path[i]
    &&& forall|s: int| 0 <= s < arena.len() ==> children_match(w.connections@, arena, s)
    &&& forall|s: int| 0 <= s < arena.len() ==> reaches(w, (#[trigger] arena[s]).schema_id)
}

/// Number of true entries among the first `k` of `s`.
pub open spec fn count_true_upto(s: Seq<bool>, k: int) -> int
    decreases k,
{
    if k <= 0 {
        0
    } else {
        count_true_upto(s, k - 1) + if s[k - 1] {
            1int
        } else {
            0int
        }
    }
}

/// Number of true entries of `s`: how many positions lie on the current
/// traversal path.
pub open spec fn count_true(s: Seq<bool>) -> int {
    count_true_upto(s, s.len() as int)
}

/// The count over a prefix stays between zero and the prefix length.
proof fn lemma_count_true_bound(s: Seq<bool>, k: int)
    requires
        0 <= k <= s.len(),
    ensures
        0 <= count_true_upto(s, k) <= k,
    decreases k,
{
    if k > 0 {
        lemma_count_true_bound(s, k - 1);
    }
}

/// A false entry pins the count strictly below the prefix length.
proof fn lemma_count_true_missing(s: Seq<bool>, p: int, k: int)
    requires
        0 <= p < k <= s.len(),
        !s[p],
    ensures
        count_true_upto(s, k) <= k - 1,
    decreases k,
{
    if p == k - 1 {
        lemma_count_true_bound(s, k - 1);
    } else {
        lemma_count_true_missing(s, p, k - 1);
    }
}

/// Updating one entry changes the count by the difference at that entry.
proof fn lemma_count_true_update(s: Seq<bool>, i: int, v: bool, k: int)
    requires
        0 <= i < s.len(),
        k <= s.len(),
    ensures
        count_true_upto(s.update(i, v), k) == count_true_upto(s, k) + if i < k {
            (if v {
                1int
            } else {
                0int
            }) - (if s[i] {
                1int
            } else {
                0int
            })
        } else {
            0int
        },
    decreases k,
{
    if k > 0 {
        lemma_count_true_update(s, i, v, k - 1);
        assert(s.update(i, v).len() == s.len());
        if i == k - 1 {
            assert(s.update(i, v)[k - 1] == v);
        } else {
            assert(s.update(i, v)[k - 1] == s[k - 1]);
        }
    }
}

/// An all-false sequence has count zero.
proof fn lemma_count_true_all_false(s: Seq<bool>, k: int)
    requires
        k <= s.len(),
        forall|j: int| 0 <= j < s.len() ==> !(#[trigger] s[j]),
    ensures
        count_true_upto(s, k) == 0,
    decreases k,
{
    if k > 0 {
        lemma_count_true_all_false(s, k - 1);
    }
}

/// Whether `v` holds `x`.
pub(crate) fn contains_usize(v: &Vec<usize>, x: usize) -> (r: bool)
    ensures
        r == v@.contains(x),
{
    let n = v.len();
    let mut i: usize = 0;
    while i < n
        invariant
            n == v@.len(),
            i <= n,
            forall|j: int| 0 <= j < i ==> v@[j] != x,
        decreases n - i,
    {
        if v[i] == x {
            return true;
        }
        i += 1;
    }
    false
}

/// Expands position `p` and its descendants into the arena, memoizing
/// already-visited positions and failing on a back-edge. `fuel` bounds the
/// recursion depth; the traversal never exhausts it because each level
/// marks a fresh position on the current path.
fn dfs(
    w: &WorkflowSchema,
    p: usize,
    fuel: usize,
    visited: &mut Vec<Option<usize>>,
    on_path: &mut Vec<bool>,
    arena: &mut Vec<GraphNode>,
    Ghost(path): Ghost<Seq<usize>>,
) -> (r: Result<usize, BuildError>)
    requires
        conns_ok(w.connections@, w.nodes@.len() as nat),
        (p as int) < w.nodes@.len(),
        build_inv(*w, old(visited)@, old(on_path)@, old(arena)@),
        fuel as int + count_true(old(on_path)@) == w.nodes@.len(),
        forall|i: int|
            0 <= i < w.nodes@.len() ==> ((#[trigger] old(on_path)@[i]) <==> path.contains(
                i as usize,
            )),
        forall|v: usize| path.contains(v) ==> (v as int) < w.nodes@.len(),
        is_chain(w.connections@, path),
        path.len() >= 1 ==> is_start(*w, path[0] as int) && has_edge(
            w.connections@,
            path.last(),
            p,
        ),
        path.len() == 0 ==> is_start(*w, p as int),
    ensures
        build_inv(*w, final(visited)@, final(on_path)@, final(arena)@),
        final(on_path)@ == old(on_path)@,
        final(arena)@.len() >= old(arena)@.len(),
        forall|s: int| 0 <= s < old(arena)@.len() ==> final(arena)@[s] == old(arena)@[s],
        forall|i: int|
            0 <= i < old(visited)@.len() && (#[trigger] old(visited)@[i]) is Some
                ==> final(visited)@[i] == old(visited)@[i],
        r matches Ok(s) ==> final(visited)@[p as int] == Some(s),
        r matches Err(e) ==> e == BuildError::CycleDetected && has_reachable_cycle(*w),
    decreases fuel,
{
    let n = w.nodes.len();
    match visited[p] {
        Some(s) => {
            return Ok(s);
        },
        None => {},
    }
    if on_path[p] {
        proof {
            lemma_path_hit_is_cycle(*w, path, p);
        }
        return Err(BuildError::CycleDetected);
    }
    if fuel == 0 {
        proof {
            lemma_count_true_missing(old(on_path)@, p as int, n as int);
            assert(false);
        }
        return Err(BuildError::CycleDetected);
    }
    on_path.set(p, true);
    proof {
        lemma_count_true_update(old(on_path)@, p as int, true, n as int);
    }
    let mut targets: Vec<usize> = Vec::new();
    let mut child_slots: Vec<usize> = Vec::new();
    let m = w.connections.len();
    let mut k: usize = 0;
    while k < m
        invariant
            n == w.nodes@.len(),
            m == w.connections@.len(),
            conns_ok(w.connections@, n as nat),
            (p as int) < n,
            k <= m,
            fuel >= 1,
            build_inv(*w, visited@, on_path@, arena@),
            old(visited)@.len() == n,
            old(on_path)@.len() == n,
            on_path@ == old(on_path)@.update(p as int, true),
            !old(on_path)@[p as int],
            fuel as int - 1 + count_true(on_path@) == n,
            forall|i: int|
                0 <= i < n ==> ((#[trigger] old(on_path)@[i]) <==> path.contains(i as usize)),
            forall|v: usize| path.contains(v) ==> (v as int) < n,
            is_chain(w.connections@, path),
            path.len() >= 1 ==> is_start(*w, path[0] as int) && has_edge(
                w.connections@,
                path.last(),
                p,
            ),
            path.len() == 0 ==> is_start(*w, p as int),
            visited@[p as int] is None,
            arena@.len() >= old(arena)@.len(),
            forall|s: int| 0 <= s < old(arena)@.len() ==> arena@[s] == old(arena)@[s],
            forall|i: int|
                0 <= i < old(visited)@.len() && (#[trigger] old(visited)@[i]) is Some
                    ==> visited@[i] == old(visited)@[i],
            targets@ == targets_upto(w.connections@, p, k as int),
            child_slots@.len() == targets@.len(),
            forall|j: int|
                0 <= j < child_slots@.len() ==> ((#[trigger] child_slots@[j]) as int)
                    < arena@.len() && arena@[child_slots@[j] as int].schema_id == targets@[j],
        decreases m - k,
    {
        let c = w.connections[k];
        let ghost pre_visited = visited@;
        let ghost pre_arena = arena@;
        if c.from == p {
            if !contains_usize(&targets, c.to) {
                proof {
                    assert((c.to as int) < n) by {
                        assert(conn_ok(w.connections@[k as int], n as nat));
                    }
                    assert(has_edge(w.connections@, p, c.to)) by {
                        assert(w.connections@[k as int].from == p && w.connections@[k as int].to
                            == c.to);
                    }
                    assert(path.push(p).last() == p);
                    assert forall|i: int|
                        0 <= i < n implies ((#[trigger] on_path@[i]) <==> path.push(p).contains(
                        i as usize,
                    )) by {
                        if i == p as int {
                            assert(path.push(p)[path.len() as int] == p);
                            assert(path.push(p).contains(p));
                        } else {
                            if path.contains(i as usize) {
                                let x = choose|x: int|
                                    0 <= x < path.len() && path[x] == i as usize;
                                assert(path.push(p)[x] == i as usize);
                            }
                            if path.push(p).contains(i as usize) {
                                let x = choose|x: int|
                                    0 <= x < path.push(p).len() && path.push(p)[x] == i as usize;
                                assert(x < path.len());
                                assert(path[x] == i as usize);
                            }
                        }
                    }
                    assert forall|v: usize| path.push(p).contains(v) implies (v as int) < n by {
                        let x = choose|x: int|
                            0 <= x < path.push(p).len() && path.push(p)[x] == v;
                        if x < path.len() {
                            assert(path[x] == v);
                            assert(path.contains(v));
                        }
                    }
                    assert(is_chain(w.connections@, path.push(p))) by {
                        assert forall|i: int|
                            0 <= i < path.push(p).len() - 1 implies has_edge(
                            w.connections@,
                            #[trigger] path.push(p)[i],
                            path.push(p)[i + 1],
                        ) by {
                            if i < path.len() - 1 {
                                assert(path.push(p)[i] == path[i]);
                                assert(path.push(p)[i + 1] == path[i + 1]);
                                assert(has_edge(w.connections@, path[i], path[i + 1]));
                            } else {
                                assert(path.push(p)[i] == path.last());
                                assert(path.push(p)[i + 1] == p);
                            }
                        }
                    }
                }
                match dfs(w, c.to, fuel - 1, visited, on_path, arena, Ghost(path.push(p))) {
                    Ok(slot) => {
                        targets.push(c.to);
                        child_slots.push(slot);
                        proof {
                            assert(visited@[p as int] is None) by {
                                if visited@[p as int] is Some {
                                    assert(!on_path@[p as int]);
                                }
                            }
                            assert forall|i: int|
                                0 <= i < old(visited)@.len() && (#[trigger] old(
                                    visited,
                                )@[i]) is Some implies visited@[i] == old(visited)@[i] by {
                                assert(pre_visited[i] == old(visited)@[i]);
                            }
                            assert(targets@ == targets_upto(w.connections@, p, k + 1));
                        }
                    },
                    Err(e) => {
                        on_path.set(p, false);
                        proof {
                            assert(on_path@ =~= old(on_path)@);
                            assert forall|i: int|
                                0 <= i < old(visited)@.len() && (#[trigger] old(
                                    visited,
                                )@[i]) is Some implies visited@[i] == old(visited)@[i] by {
                                assert(pre_visited[i] == old(visited)@[i]);
                            }
                            assert(build_inv(*w, visited@, on_path@, arena@)) by {
                                assert forall|i: int|
                                    0 <= i < w.nodes@.len() && (#[trigger] visited@[i]) is Some
                                    implies (visited@[i]->0 as int) < arena@.len() && (arena@[
                                    visited@[i]->0 as int].schema_id as int) == i
                                    && !on_path@[i] by {
                                    if i != p as int {
                                        assert(on_path@[i] == old(on_path)@.update(
                                            p as int,
                                            true,
                                        )[i]);
                                    }
                                }
                            }
                        }
                        return Err(e);
                    },
                }
            } else {
                proof {
                    assert(targets@ == targets_upto(w.connections@, p, k + 1));
                }
            }
        } else {
            proof {
                assert(targets@ == targets_upto(w.connections@, p, k + 1));
            }
        }
        k += 1;
    }
    on_path.set(p, false);
    proof {
        assert(on_path@ =~= old(on_path)@);
    }
    let slot = arena.len();
    let ghost pre_arena = arena@;
    let ghost pre_visited = visited@;
    arena.push(GraphNode { schema_id: p, children: child_slots });
    visited.set(p, Some(slot));
    proof {
        lemma_reaches_via_path(*w, path, p);
        assert(targets@ == targets_of(w.connections@, p));
        assert(arena@[slot as int].schema_id == p);
        assert(arena@.len() == pre_arena.len() + 1);
        assert forall|s: int| 0 <= s < arena@.len() implies children_match(
            w.connections@,
            arena@,
            s,
        ) by {
            if s < slot {
                assert(children_match(w.connections@, pre_arena, s));
                assert(arena@[s] == pre_arena[s]);
                let targs = targets_of(w.connections@, arena@[s].schema_id);
                assert forall|j: int| 0 <= j < targs.len() implies (#[trigger] arena@[
                    s].children@[j]) < s && arena@[arena@[s].children@[j] as int].schema_id
                    == targs[j] by {
                    assert(pre_arena[s].children@[j] < s);
                    assert(arena@[pre_arena[s].children@[j] as int] == pre_arena[pre_arena[
                        s].children@[j] as int]);
                }
            } else {
                let targs = targets_of(w.connections@, p);
                assert forall|j: int| 0 <= j < targs.len() implies (#[trigger] arena@[
                    s].children@[j]) < s && arena@[arena@[s].children@[j] as int].schema_id
                    == targs[j] by {
                    assert(child_slots@[j] == arena@[s].children@[j]);
                    assert((child_slots@[j] as int) < pre_arena.len());
                    assert(arena@[child_slots@[j] as int] == pre_arena[child_slots@[
                        j] as int]);
                }
            }
        }
        assert(build_inv(*w, visited@, on_path@, arena@)) by {
            assert forall|s: int| 0 <= s < arena@.len() implies ((#[trigger] arena@[
                s]).schema_id as int) < w.nodes@.len() && visited@[arena@[s].schema_id as int]
                is Some && (visited@[arena@[s].schema_id as int]->0 as int) == s by {
                if s < slot {
                    assert(arena@[s] == pre_arena[s]);
                    assert(pre_visited[pre_arena[s].schema_id as int] is Some);
                    assert((pre_visited[pre_arena[s].schema_id as int]->0 as int) == s);
                    assert((pre_arena[s].schema_id as int) != p as int);
                    assert(visited@[pre_arena[s].schema_id as int] == pre_visited[pre_arena[
                        s].schema_id as int]);
                } else {
                    assert(visited@[p as int] == Some(slot));
                }
            }
        }
    }
    Ok(slot)
}

/// Builds the forest for `schema`.
///
/// Fails with `MissingNode` naming the first invalid endpoint when some
/// connection references an unassigned position; with valid connections
/// the result is either a faithful forest or a cycle error, and a schema
/// with a reachable cycle always fails with the cycle error. A schema
/// with no "Start" node yields an empty forest.
pub fn build_graph(schema: &WorkflowSchema) -> (r: Result<Graph, BuildError>)
    ensures
        (r matches Err(e) && e matches BuildError::MissingNode { .. }) <==> !conns_ok(
            schema.connections@,
            schema.nodes@.len() as nat,
        ),
        !conns_ok(schema.connections@, schema.nodes@.len() as nat) ==> exists|k: int|
            0 <= k < schema.connections@.len() && !conn_ok(
                #[trigger] schema.connections@[k],
                schema.nodes@.len() as nat,
            ) && (forall|j: int|
                0 <= j < k ==> conn_ok(#[trigger] schema.connections@[j], schema.nodes@.len() as nat))
                && r == Result::<Graph, BuildError>::Err(BuildError::MissingNode {
                id: offending_id(schema.connections@[k], schema.nodes@.len() as nat),
            }),
        r matches Ok(g) ==> represents(g, *schema),
        r matches Ok(g) ==> !has_reachable_cycle(*schema),
        r matches Ok(g) ==> (starts_upto(*schema, schema.nodes@.len() as int).len() == 0
            ==> g.nodes@.len() == 0 && g.roots@.len() == 0),
        conns_ok(schema.connections@, schema.nodes@.len() as nat) && has_reachable_cycle(*schema)
            ==> r == Result::<Graph, BuildError>::Err(BuildError::CycleDetected),
        (r matches Err(e) && e == BuildError::CycleDetected) ==> has_reachable_cycle(*schema),
{
    let n = schema.nodes.len();
    let m = schema.connections.len();
    let mut k: usize = 0;
    while k < m
        invariant
            n == schema.nodes@.len(),
            m == schema.connections@.len(),
            k <= m,
            forall|j: int| 0 <= j < k ==> conn_ok(#[trigger] schema.connections@[j], n as nat),
        decreases m - k,
    {
        let c = schema.connections[k];
        if c.from >= n {
            return Err(BuildError::MissingNode { id: c.from });
        }
        if c.to >= n {
            return Err(BuildError::MissingNode { id: c.to });
        }
        k += 1;
    }
    let mut visited: Vec<Option<usize>> = Vec::new();
    let mut on_path: Vec<bool> = Vec::new();
    let mut i: usize = 0;
    while i < n
        invariant
            i <= n,
            visited@.len() == i,
            on_path@.len() == i,
            forall|j: int| 0 <= j < i ==> (#[trigger] visited@[j]) is None,
            forall|j: int| 0 <= j < i ==> !(#[trigger] on_path@[j]),
        decreases n - i,
    {
        visited.push(None);
        on_path.push(false);
        i += 1;
    }
    let mut arena: Vec<GraphNode> = Vec::new();
    let mut roots: Vec<usize> = Vec::new();
    let start: String = String::from_str("Start");
    let mut q: usize = 0;
    while q < n
        invariant
            n == schema.nodes@.len(),
            q <= n,
            start@ == start_key(),
            conns_ok(schema.connections@, n as nat),
            build_inv(*schema, visited@, on_path@, arena@),
            forall|j: int| 0 <= j < n ==> !(#[trigger] on_path@[j]),
            forall|j: int|
                0 <= j < q && is_start(*schema, j) ==> (#[trigger] visited@[j]) is Some,
            roots@.len() == starts_upto(*schema, q as int).len(),
            forall|j: int|
                0 <= j < roots@.len() ==> ((#[trigger] roots@[j]) as int) < arena@.len()
                    && arena@[roots@[j] as int].schema_id == starts_upto(*schema, q as int)[j],
            starts_upto(*schema, q as int).len() == 0 ==> arena@.len() == 0,
        decreases n - q,
    {
        let ghost pre_visited = visited@;
        let ghost pre_arena = arena@;
        let ghost pre_roots = roots@;
        if schema.nodes[q].action_type == start {
            proof {
                assert(is_start(*schema, q as int));
                lemma_count_true_all_false(on_path@, on_path@.len() as int);
                assert forall|i: int|
                    0 <= i < n implies ((#[trigger] on_path@[i]) <==> Seq::<usize>::empty(
                ).contains(i as usize)) by {
                    if Seq::<usize>::empty().contains(i as usize) {
                        let x = choose|x: int|
                            0 <= x < Seq::<usize>::empty().len() && Seq::<usize>::empty()[x]
                                == i as usize;
                    }
                }
                assert forall|v: usize| Seq::<usize>::empty().contains(v) implies (v as int)
                    < n by {
                    let x = choose|x: int|
                        0 <= x < Seq::<usize>::empty().len() && Seq::<usize>::empty()[x] == v;
                }
            }
            match dfs(
                schema,
                q,
                n,
                &mut visited,
                &mut on_path,
                &mut arena,
                Ghost(Seq::<usize>::empty()),
            ) {
                Ok(slot) => {
                    roots.push(slot);
                    proof {
                        assert(visited@[q as int] == Some(slot));
                        assert((slot as int) < arena@.len());
                        assert(arena@[slot as int].schema_id == q);
                    }
                },
                Err(e) => {
                    return Err(e);
                },
            }
        } else {
            proof {
                assert(!is_start(*schema, q as int));
            }
        }
        proof {
            assert forall|j: int|
                0 <= j < q + 1 && is_start(*schema, j) implies (#[trigger] visited@[
                j]) is Some by {
                if j < q {
                    assert(pre_visited[j] is Some);
                }
            }
            assert forall|j: int| 0 <= j < roots@.len() implies ((#[trigger] roots@[
                j]) as int) < arena@.len() && arena@[roots@[j] as int].schema_id
                == starts_upto(*schema, q as int + 1)[j] by {
                if j < pre_roots.len() {
                    assert(roots@[j] == pre_roots[j]);
                    assert(arena@[pre_roots[j] as int] == pre_arena[pre_roots[j] as int]);
                }
            }
        }
        q += 1;
    }
    let g = Graph { nodes: arena, roots };
    proof {
        lemma_built_represents(*schema, visited@, on_path@, g);
    }
    Ok(g)
}

/// Extending the current path by one step keeps its end reachable.
proof fn lemma_reaches_via_path(w: WorkflowSchema, path: Seq<usize>, p: usize)
    requires
        is_chain(w.connections@, path),
        path.len() >= 1 ==> is_start(w, path[0] as int) && has_edge(
            w.connections@,
            path.last(),
            p,
        ),
        path.len() == 0 ==> is_start(w, p as int),
    ensures
        reaches(w, p),
{
    let cs = w.connections@;
    let q = path.push(p);
    assert(q.last() == p);
    assert(is_chain(cs, q)) by {
        assert forall|i: int| 0 <= i < q.len() - 1 implies has_edge(
            cs,
            #[trigger] q[i],
            q[i + 1],
        ) by {
            if i < path.len() - 1 {
                assert(q[i] == path[i]);
                assert(q[i + 1] == path[i + 1]);
                assert(has_edge(cs, path[i], path[i + 1]));
            } else {
                assert(q[i] == path.last());
                assert(q[i + 1] == p);
            }
        }
    }
    if path.len() == 0 {
        assert(q[0] == p);
    } else {
        assert(q[0] == path[0]);
    }
    assert(reaches(w, p)) by {
        assert(q.len() >= 1 && is_chain(cs, q) && is_start(w, q[0] as int) && q.last() == p);
    }
}

/// Meeting a position that already lies on the current path closes a
/// reachable cycle.
proof fn lemma_path_hit_is_cycle(w: WorkflowSchema, path: Seq<usize>, p: usize)
    requires
        is_chain(w.connections@, path),
        path.contains(p),
        path.len() >= 1 ==> is_start(w, path[0] as int) && has_edge(
            w.connections@,
            path.last(),
            p,
        ),
    ensures
        has_reachable_cycle(w),
{
    let cs = w.connections@;
    let idx = choose|idx: int| 0 <= idx < path.len() && path[idx] == p;
    let q1 = path.subrange(0, idx + 1);
    assert(is_chain(cs, q1)) by {
        assert forall|i: int| 0 <= i < q1.len() - 1 implies has_edge(
            cs,
            #[trigger] q1[i],
            q1[i + 1],
        ) by {
            assert(q1[i] == path[i]);
            assert(q1[i + 1] == path[i + 1]);
            assert(has_edge(cs, path[i], path[i + 1]));
        }
    }
    assert(q1.len() >= 1 && q1[0] == path[0] && q1.last() == p);
    assert(reaches(w, p));
    let q2 = path.subrange(idx, path.len() as int).push(p);
    assert(q2[0] == path[idx]);
    assert(q2.last() == p);
    assert(q2.len() >= 2);
    assert(is_chain(cs, q2)) by {
        assert forall|i: int| 0 <= i < q2.len() - 1 implies has_edge(
            cs,
            #[trigger] q2[i],
            q2[i + 1],
        ) by {
            if i < q2.len() - 2 {
                assert(q2[i] == path[idx + i]);
                assert(q2[i + 1] == path[idx + i + 1]);
                assert(has_edge(cs, path[idx + i], path[idx + i + 1]));
            } else {
                assert(q2[i] == path[path.len() - 1]);
                assert(q2[i + 1] == p);
            }
        }
    }
    assert(has_reachable_cycle(w)) by {
        assert(q2.len() >= 2 && is_chain(cs, q2) && q2[0] == q2.last() && reaches(w, q2[0]));
    }
}

/// A visited position's every edge target is visited, at a strictly
/// smaller slot.
proof fn lemma_visited_closed(
    w: WorkflowSchema,
    visited: Seq<Option<usize>>,
    on_path: Seq<bool>,
    arena: Seq<GraphNode>,
    a: usize,
    b: usize,
)
    requires
        conns_ok(w.connections@, w.nodes@.len() as nat),
        build_inv(w, visited, on_path, arena),
        (a as int) < w.nodes@.len(),
        visited[a as int] is Some,
        has_edge(w.connections@, a, b),
    ensures
        visited[b as int] is Some,
        visited[b as int]->0 < visited[a as int]->0,
{
    let sa = visited[a as int]->0 as int;
    lemma_targets_iff(w.connections@, a, w.connections@.len() as int);
    let targs = targets_of(w.connections@, a);
    assert(targs.contains(b));
    let j = choose|j: int| 0 <= j < targs.len() && targs[j] == b;
    assert(arena[sa].schema_id == a);
    assert(children_match(w.connections@, arena, sa));
    let sb = arena[sa].children@[j];
    assert(arena[sb as int].schema_id == b);
    assert(visited[b as int] is Some);
    assert((visited[b as int]->0 as int) == sb as int);
}

/// Along the first `k` connections, `b` is a recorded target of `a`
/// exactly when some of those connections leads from `a` to `b`.
proof fn lemma_targets_iff(cs: Seq<Connection>, a: usize, k: int)
    requires
        k <= cs.len(),
    ensures
        forall|b: usize|
            targets_upto(cs, a, k).contains(b) <==> exists|j: int|
                0 <= j < k && (#[trigger] cs[j]).from == a && cs[j].to == b,
    decreases k,
{
    if k > 0 {
        lemma_targets_iff(cs, a, k - 1);
        let prev = targets_upto(cs, a, k - 1);
        let cur = targets_upto(cs, a, k);
        assert forall|b: usize| cur.contains(b) implies exists|j: int|
            0 <= j < k && (#[trigger] cs[j]).from == a && cs[j].to == b by {
            if prev.contains(b) {
            } else {
                assert(cs[k - 1].from == a && cs[k - 1].to == b);
            }
        }
        assert forall|b: usize|
            (exists|j: int| 0 <= j < k && (#[trigger] cs[j]).from == a && cs[j].to == b)
            implies cur.contains(b) by {
            let j = choose|j: int| 0 <= j < k && (#[trigger] cs[j]).from == a && cs[j].to == b;
            if j < k - 1 {
                assert(prev.contains(b));
                let w = choose|w: int| 0 <= w < prev.len() && prev[w] == b;
                assert(cur[w] == b);
            } else {
                if prev.contains(cs[k - 1].to) {
                    let w = choose|w: int| 0 <= w < prev.len() && prev[w] == cs[k - 1].to;
                    assert(cur[w] == b);
                } else {
                    assert(cur[cur.len() - 1] == b);
                }
            }
        }
    }
}

/// Every element of a chain out of a visited position is visited, and the
/// slot at the chain's end lies strictly below the slot at its head when
/// the chain makes at least one step.
proof fn lemma_chain_slots(
    w: WorkflowSchema,
    visited: Seq<Option<usize>>,
    on_path: Seq<bool>,
    arena: Seq<GraphNode>,
    q: Seq<usize>,
)
    requires
        conns_ok(w.connections@, w.nodes@.len() as nat),
        build_inv(w, visited, on_path, arena),
        q.len() >= 1,
        is_chain(w.connections@, q),
        (q[0] as int) < w.nodes@.len(),
        visited[q[0] as int] is Some,
    ensures
        visited[q.last() as int] is Some,
        (q.last() as int) < w.nodes@.len(),
        q.len() >= 2 ==> visited[q.last() as int]->0 < visited[q[0] as int]->0,
    decreases q.len(),
{
    if q.len() >= 2 {
        assert(has_edge(w.connections@, q[0], q[1]));
        lemma_visited_closed(w, visited, on_path, arena, q[0], q[1]);
        let rest = q.subrange(1, q.len() as int);
        assert(is_chain(w.connections@, rest)) by {
            assert forall|i: int| 0 <= i < rest.len() - 1 implies has_edge(
                w.connections@,
                #[trigger] rest[i],
                rest[i + 1],
            ) by {
                assert(rest[i] == q[i + 1]);
                assert(rest[i + 1] == q[i + 2]);
                assert(has_edge(w.connections@, q[i + 1], q[i + 2]));
            }
        }
        assert((rest[0] as int) < w.nodes@.len()) by {
            let k = choose|k: int|
                0 <= k < w.connections@.len() && (#[trigger] w.connections@[k]).from == q[0]
                    && w.connections@[k].to == q[1];
            assert(conn_ok(w.connections@[k], w.nodes@.len() as nat));
        }
        lemma_chain_slots(w, visited, on_path, arena, rest);
        assert(rest.last() == q.last());
    }
}

/// Two distinct arena slots stand for distinct schema positions.
proof fn lemma_slots_injective(
    w: WorkflowSchema,
    visited: Seq<Option<usize>>,
    on_path: Seq<bool>,
    arena: Seq<GraphNode>,
    s1: int,
    s2: int,
)
    requires
        build_inv(w, visited, on_path, arena),
        0 <= s1 < arena.len(),
        0 <= s2 < arena.len(),
        s1 != s2,
    ensures
        arena[s1].schema_id != arena[s2].schema_id,
{
    if arena[s1].schema_id == arena[s2].schema_id {
        assert((visited[arena[s1].schema_id as int]->0 as int) == s1);
        assert((visited[arena[s2].schema_id as int]->0 as int) == s2);
    }
}

/// A reachable position owns an arena slot.
#[verifier::rlimit(50)]
proof fn lemma_reach_materialized(
    w: WorkflowSchema,
    visited: Seq<Option<usize>>,
    on_path: Seq<bool>,
    g: Graph,
    p: usize,
)
    requires
        conns_ok(w.connections@, w.nodes@.len() as nat),
        build_inv(w, visited, on_path, g.nodes@),
        forall|j: int| 0 <= j < w.nodes@.len() && is_start(w, j) ==> (#[trigger] visited[j]) is Some,
        reaches(w, p),
    ensures
        node_materialized(g, p),
        visited[p as int] is Some,
{
    let cs = w.connections@;
    let q = choose|q: Seq<usize>|
        q.len() >= 1 && is_chain(cs, q) && is_start(w, q[0] as int) && q.last() == p;
    assert(visited[q[0] as int] is Some);
    lemma_chain_slots(w, visited, on_path, g.nodes@, q);
    assert(q.last() == p);
    let s = visited[p as int]->0;
    assert((g.nodes@[s as int].schema_id as int) == p as int);
    assert(node_materialized(g, p)) by {
        assert(0 <= (s as int) && (s as int) < g.nodes@.len() && g.nodes@[s as int].schema_id
            == p);
    }
}

/// A finished construction admits no reachable cycle: slots strictly
/// decrease along every edge, so a cycle would place a slot below itself.
proof fn lemma_no_reachable_cycle(
    w: WorkflowSchema,
    visited: Seq<Option<usize>>,
    on_path: Seq<bool>,
    g: Graph,
)
    requires
        conns_ok(w.connections@, w.nodes@.len() as nat),
        build_inv(w, visited, on_path, g.nodes@),
        forall|j: int| 0 <= j < w.nodes@.len() && is_start(w, j) ==> (#[trigger] visited[j]) is Some,
    ensures
        !has_reachable_cycle(w),
{
    let cs = w.connections@;
    if has_reachable_cycle(w) {
        let q = choose|q: Seq<usize>|
            q.len() >= 2 && is_chain(cs, q) && q[0] == q.last() && reaches(w, q[0]);
        lemma_reach_materialized(w, visited, on_path, g, q[0]);
        assert(visited[q[0] as int] is Some);
        lemma_chain_slots(w, visited, on_path, g.nodes@, q);
        assert(false);
    }
}

/// Packages the closure argument: a finished construction represents the
/// schema and rules out reachable cycles.
proof fn lemma_built_represents(
    w: WorkflowSchema,
    visited: Seq<Option<usize>>,
    on_path: Seq<bool>,
    g: Graph,
)
    requires
        conns_ok(w.connections@, w.nodes@.len() as nat),
        build_inv(w, visited, on_path, g.nodes@),
        forall|j: int| 0 <= j < w.nodes@.len() && is_start(w, j) ==> (#[trigger] visited[j]) is Some,
        g.roots@.len() == starts_upto(w, w.nodes@.len() as int).len(),
        forall|j: int|
            0 <= j < g.roots@.len() ==> ((#[trigger] g.roots@[j]) as int) < g.nodes@.len()
                && g.nodes@[g.roots@[j] as int].schema_id == starts_upto(
                w,
                w.nodes@.len() as int,
            )[j],
    ensures
        represents(g, w),
        !has_reachable_cycle(w),
{
    let n = w.nodes@.len();
    let cs = w.connections@;
    assert(g.wf()) by {
        assert forall|s: int, j: int|
            0 <= s < g.nodes@.len() && 0 <= j < (#[trigger] g.nodes@[s]).children@.len()
            implies (#[trigger] g.nodes@[s].children@[j]) < s by {
            assert(children_match(cs, g.nodes@, s));
        }
    }
    assert forall|s1: int, s2: int|
        0 <= s1 < g.nodes@.len() && 0 <= s2 < g.nodes@.len() && s1 != s2
        implies (#[trigger] g.nodes@[s1]).schema_id != (#[trigger] g.nodes@[s2]).schema_id by {
        lemma_slots_injective(w, visited, on_path, g.nodes@, s1, s2);
    }
    assert forall|p: usize| reaches(w, p) implies node_materialized(g, p) by {
        lemma_reach_materialized(w, visited, on_path, g, p);
    }
    lemma_no_reachable_cycle(w, visited, on_path, g);
}

} // verus!
