//! The dependency edges a plugin sees.

use vstd::prelude::*;
use crate::dep::FileId;

verus! {

/// Index of a nested node set.
pub type SetId = u32;

/// A node of the build graph.
#[derive(Debug, Clone, Copy, PartialEq, Eq, Structural, Hash)]
pub enum NodeId {
    /// The synthetic root whose edges lead to the goals.
    Root,
    /// A file.
    File(FileId),
    /// A pattern rule.
    Rule(usize),
}

/// What a graph edge stands for.
#[derive(Debug, Clone, Copy, PartialEq, Eq, Structural)]
pub enum EdgeKind {
    /// From the root to a goal.
    Goal(usize),
    /// From a target to a prerequisite.
    Prerequisite(usize),
    /// From a target to a grouped-target sibling.
    AlsoMake(usize),
    /// From a renamed file to its new node.
    Renamed,
    /// From a double-colon entry to its head.
    Parent,
    /// From a target to the rule that derived it.
    DerivedBy(usize),
    /// From a rule to one of its pattern prerequisites.
    RulePrerequisite(usize),
}

/// A graph edge.
#[derive(Debug, Clone, Copy, PartialEq, Eq, Structural)]
pub struct Edge {
    pub to: NodeId,
    pub kind: EdgeKind,
}

/// The build graph: each node with its outgoing edges in makefile order.
#[derive(Debug)]
pub struct DepGraph {
    pub out_edges: Vec<(NodeId, Vec<Edge>)>,
}

/// The outgoing edges of `from`: those listed with its first entry, or none.
pub open spec fn edges_from(g: Seq<(NodeId, Vec<Edge>)>, from: NodeId, k: int) -> Seq<Edge>
    decreases g.len() - k,
{
    if k < 0 || k >= g.len() {
        Seq::empty()
    } else if g[k].0 == from {
        g[k].1@
    } else {
        edges_from(g, from, k + 1)
    }
}

/// The edge is part of the dependency view a plugin sees.
pub open spec fn is_child_edge(e: Edge) -> bool {
    match e.kind {
        EdgeKind::Goal(_) | EdgeKind::Prerequisite(_) | EdgeKind::AlsoMake(_) => true,
        _ => false,
    }
}

/// The targets of the dependency-view edges among the first `k` of `es`.
pub open spec fn child_targets(es: Seq<Edge>, k: int) -> Seq<NodeId>
    decreases k,
{
    if k <= 0 {
        Seq::empty()
    } else if is_child_edge(es[k - 1]) {
        child_targets(es, k - 1).push(es[k - 1].to)
    } else {
        child_targets(es, k - 1)
    }
}

/// The dependency edges a plugin can see from `from` — prerequisites,
/// grouped-target siblings and, from the root, the goals — as the nodes
/// they lead to, in edge order.
pub fn child_edges(graph: &DepGraph, from: NodeId) -> (r: Vec<NodeId>)
    ensures
        ({
            let es = edges_from(graph.out_edges@, from, 0);
            r@ == child_targets(es, es.len() as int)
        }),
{
    let mut i: usize = 0;
    while i < graph.out_edges.len() && graph.out_edges[i].0 != from
        invariant
            i <= graph.out_edges@.len(),
            edges_from(graph.out_edges@, from, i as int) == edges_from(graph.out_edges@, from, 0),
        decreases graph.out_edges@.len() - i,
    {
        i += 1;
    }
    let mut out: Vec<NodeId> = Vec::new();
    if i == graph.out_edges.len() {
        return out;
    }
    let es = &graph.out_edges[i].1;
    let mut k: usize = 0;
    while k < es.len()
        invariant
            k <= es@.len(),
            es@ == edges_from(graph.out_edges@, from, 0),
            out@ == child_targets(es@, k as int),
        decreases es@.len() - k,
    {
        let e = es[k];
        match e.kind {
            EdgeKind::Goal(_) | EdgeKind::Prerequisite(_) | EdgeKind::AlsoMake(_) => {
                out.push(e.to);
            },
            _ => {},
        }
        k += 1;
    }
    out
}

} // verus!
