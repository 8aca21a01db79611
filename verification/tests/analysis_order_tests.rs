use lib::plugin::nodeset::{DepGraph, Edge, EdgeKind, NodeId};
use lib::plugin::order::analysis_order;

fn prereq(to: NodeId) -> Edge {
    Edge { to, kind: EdgeKind::Prerequisite(0) }
}

#[test]
fn prerequisites_come_before_their_targets() {
    let g = DepGraph {
        out_edges: vec![
            (NodeId::Root, vec![Edge { to: NodeId::File(1), kind: EdgeKind::Goal(0) }]),
            (NodeId::File(1), vec![prereq(NodeId::File(2)), prereq(NodeId::File(3))]),
            (NodeId::File(2), vec![prereq(NodeId::File(3))]),
        ],
    };
    let (order, cycle) = analysis_order(&g);
    assert_eq!(order, vec![NodeId::File(3), NodeId::File(2), NodeId::File(1)]);
    assert!(cycle.is_none());
}

#[test]
fn a_cycle_is_dropped_and_reported() {
    let g = DepGraph {
        out_edges: vec![
            (NodeId::Root, vec![Edge { to: NodeId::File(1), kind: EdgeKind::Goal(0) }]),
            (NodeId::File(1), vec![prereq(NodeId::File(2))]),
            (NodeId::File(2), vec![prereq(NodeId::File(1))]),
        ],
    };
    let (order, cycle) = analysis_order(&g);
    assert_eq!(order, vec![NodeId::File(2), NodeId::File(1)]);
    assert_eq!(cycle, Some(vec![NodeId::File(1), NodeId::File(2), NodeId::File(1)]));
}

#[test]
fn rule_provenance_edges_are_not_followed() {
    let g = DepGraph {
        out_edges: vec![
            (NodeId::Root, vec![Edge { to: NodeId::File(1), kind: EdgeKind::Goal(0) }]),
            (NodeId::File(1), vec![Edge { to: NodeId::Rule(0), kind: EdgeKind::DerivedBy(0) }]),
        ],
    };
    let (order, cycle) = analysis_order(&g);
    assert_eq!(order, vec![NodeId::File(1)]);
    assert!(cycle.is_none());
}

#[test]
fn an_empty_graph_orders_nothing() {
    let g = DepGraph { out_edges: Vec::new() };
    let (order, cycle) = analysis_order(&g);
    assert!(order.is_empty());
    assert!(cycle.is_none());
}
