//! The flat workflow schema handed to the graph builder: an ordered list
//! of node descriptions plus a list of connections between node positions.
//!
//! Node ids are positions in the node list, assigned during graph
//! construction, not supplied by the caller.

use vstd::prelude::*;

verus! {

/// One edge of the workflow: `from` and `to` are node positions.
#[derive(Clone, Copy, PartialEq, Eq, Structural, Debug)]
pub struct Connection {
    pub from: usize,
    pub to: usize,
}

/// One node of the workflow: its action-type key and its opaque parameter
/// payload.
pub struct NodeSchema {
    pub action_type: String,
    pub parameters: serde_json::Value,
}

/// A whole workflow description. Immutable input to the graph builder.
pub struct WorkflowSchema {
    pub nodes: Vec<NodeSchema>,
    pub connections: Vec<Connection>,
}

/// The connections of a linear chain over `n` nodes: each node points to
/// its successor, so a converted recording replays in order. Every
/// endpoint lies below `n`, and an empty or one-node chain has no
/// connections.
pub fn linear_connections(n: usize) -> (r: Vec<Connection>)
    ensures
        r@.len() == (if n == 0 {
            0int
        } else {
            n - 1
        }),
        forall|k: int|
            0 <= k < r@.len() ==> (#[trigger] r@[k]).from == k && (r@[k].to as int) == k + 1,
        forall|k: int| 0 <= k < r@.len() ==> (r@[k].from as nat) < n && (r@[k].to as nat) <= n,
{
    let mut r: Vec<Connection> = Vec::new();
    if n == 0 {
        return r;
    }
    let mut to: usize = 1;
    while to < n
        invariant
            1 <= to <= n,
            n >= 1,
            r@.len() == to - 1,
            forall|k: int|
                0 <= k < r@.len() ==> (#[trigger] r@[k]).from == k && (r@[k].to as int) == k + 1,
        decreases n - to,
    {
        r.push(Connection { from: to - 1, to });
        to += 1;
    }
    r
}

} // verus!
