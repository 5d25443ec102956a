use auto_engine::graph::{build_graph, BuildError};
use auto_engine::schema::{linear_connections, Connection, NodeSchema, WorkflowSchema};

fn node(action: &str) -> NodeSchema {
    NodeSchema { action_type: action.to_string(), parameters: serde_json::Value::Null }
}

fn schema(actions: &[&str], edges: &[(usize, usize)]) -> WorkflowSchema {
    WorkflowSchema {
        nodes: actions.iter().map(|a| node(a)).collect(),
        connections: edges.iter().map(|&(from, to)| Connection { from, to }).collect(),
    }
}

#[test]
fn missing_node_reference_fails_naming_the_id() {
    let w = schema(&["Start", "step"], &[(0, 1), (1, 5)]);
    match build_graph(&w) {
        Err(BuildError::MissingNode { id }) => assert_eq!(id, 5),
        other => panic!("expected a missing-node error, got {:?}", other.map(|_| ())),
    }
}

#[test]
fn missing_from_endpoint_is_reported_first() {
    let w = schema(&["Start"], &[(7, 9)]);
    match build_graph(&w) {
        Err(BuildError::MissingNode { id }) => assert_eq!(id, 7),
        other => panic!("expected a missing-node error, got {:?}", other.map(|_| ())),
    }
}

#[test]
fn reachable_cycle_fails_with_cycle_error() {
    let w = schema(&["Start", "a", "b"], &[(0, 1), (1, 2), (2, 1)]);
    match build_graph(&w) {
        Err(BuildError::CycleDetected) => {},
        other => panic!("expected a cycle error, got {:?}", other.map(|_| ())),
    }
}

#[test]
fn self_loop_fails_with_cycle_error() {
    let w = schema(&["Start", "a"], &[(0, 1), (1, 1)]);
    assert!(matches!(build_graph(&w), Err(BuildError::CycleDetected)));
}

#[test]
fn zero_start_nodes_builds_an_empty_forest() {
    let w = schema(&["a", "b"], &[(0, 1)]);
    let g = build_graph(&w).expect("a schema without roots builds");
    assert_eq!(g.nodes.len(), 0);
    assert_eq!(g.roots.len(), 0);
}

#[test]
fn diamond_materializes_the_join_node_once() {
    let w = schema(
        &["Start", "a", "b", "c"],
        &[(0, 1), (0, 2), (1, 3), (2, 3)],
    );
    let g = build_graph(&w).expect("the diamond builds");
    assert_eq!(g.roots.len(), 1);
    assert_eq!(g.nodes.len(), 4);
    let joins = g.nodes.iter().filter(|n| n.schema_id == 3).count();
    assert_eq!(joins, 1);
}

#[test]
fn unreachable_nodes_are_excluded_not_rejected() {
    let w = schema(&["Start", "a", "orphan"], &[(0, 1)]);
    let g = build_graph(&w).expect("dead code is not an error");
    assert_eq!(g.nodes.len(), 2);
    assert!(g.nodes.iter().all(|n| n.schema_id != 2));
}

#[test]
fn children_are_shared_in_first_edge_order() {
    let w = schema(&["Start", "a", "b"], &[(0, 1), (0, 2), (0, 1)]);
    let g = build_graph(&w).expect("duplicate edges collapse");
    let root = &g.nodes[g.roots[0]];
    assert_eq!(root.schema_id, 0);
    assert_eq!(root.children.len(), 2);
    assert_eq!(g.nodes[root.children[0]].schema_id, 1);
    assert_eq!(g.nodes[root.children[1]].schema_id, 2);
}

#[test]
fn linear_connections_chain_each_node_to_its_successor() {
    assert!(linear_connections(0).is_empty());
    assert!(linear_connections(1).is_empty());
    let c = linear_connections(4);
    assert_eq!(c.len(), 3);
    assert_eq!((c[0].from, c[0].to), (0, 1));
    assert_eq!((c[1].from, c[1].to), (1, 2));
    assert_eq!((c[2].from, c[2].to), (2, 3));
}
