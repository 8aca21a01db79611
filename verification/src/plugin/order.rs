//! The order in which an analysis pass visits the build graph: a depth-first
//! walk from the root over the edges a plugin sees, each node after its
//! prerequisites, with a dependency cycle dropped (and reported) rather than
//! followed.

use vstd::prelude::*;
use crate::plugin::nodeset::{child_edges, child_targets, edges_from, DepGraph, Edge, NodeId};

verus! {

/// A step of the walk: enter a node, or leave it once its prerequisites are
/// done.
pub enum Frame {
    Enter(NodeId),
    Exit(NodeId),
}

/// The nodes the first `k` entries of the graph mention: the root, the
/// listed nodes and the nodes their edges lead to.
pub open spec fn graph_nodes(g: Seq<(NodeId, Vec<Edge>)>, k: int) -> Set<NodeId>
    decreases k,
{
    if k <= 0 {
        Set::empty().insert(NodeId::Root)
    } else {
        graph_nodes(g, k - 1).insert(g[k - 1].0).union(g[k - 1].1@.map_values(|e: Edge| e.to).to_set())
    }
}

proof fn lemma_graph_nodes(g: Seq<(NodeId, Vec<Edge>)>, k: int)
    ensures
        graph_nodes(g, k).finite(),
        graph_nodes(g, k).contains(NodeId::Root),
        forall|j: int, i: int| 0 <= j < k && 0 <= i < g[j].1@.len() ==> graph_nodes(g, k).contains(#[trigger] g[j].1@[i].to),
    decreases k,
{
    broadcast use vstd::seq_lib::seq_to_set_is_finite;
    if k > 0 {
        lemma_graph_nodes(g, k - 1);
        let ts = g[k - 1].1@.map_values(|e: Edge| e.to);
        assert forall|j: int, i: int| 0 <= j < k && 0 <= i < g[j].1@.len() implies graph_nodes(g, k).contains(
            #[trigger] g[j].1@[i].to,
        ) by {
            if j == k - 1 {
                assert(ts[i] == g[j].1@[i].to);
                assert(ts.to_set().contains(ts[i]));
            }
        }
    }
}

/// The edges found from entry `k` on belong to some entry at or after `k`.
proof fn lemma_edges_from_entry(g: Seq<(NodeId, Vec<Edge>)>, from: NodeId, k: int)
    requires
        0 <= k,
    ensures
        edges_from(g, from, k).len() == 0 || exists|j: int| k <= j < g.len() && edges_from(g, from, k) == g[j].1@,
    decreases g.len() - k,
{
    if k < g.len() && g[k].0 != from {
        lemma_edges_from_entry(g, from, k + 1);
    }
}

proof fn lemma_child_targets_in(es: Seq<Edge>, m: int, s: Set<NodeId>)
    requires
        forall|i: int| 0 <= i < es.len() ==> s.contains(#[trigger] es[i].to),
        m <= es.len(),
    ensures
        forall|i: int| 0 <= i < child_targets(es, m).len() ==> s.contains(#[trigger] child_targets(es, m)[i]),
    decreases m,
{
    if m > 0 {
        lemma_child_targets_in(es, m - 1, s);
        let prev = child_targets(es, m - 1);
        if crate::plugin::nodeset::is_child_edge(es[m - 1]) {
            assert forall|i: int| 0 <= i < child_targets(es, m).len() implies s.contains(#[trigger] child_targets(es, m)[i]) by {
                if i < prev.len() {
                    assert(child_targets(es, m)[i] == prev[i]);
                }
            }
        }
    }
}

/// The nodes the walk can reach all belong to the graph's nodes.
proof fn lemma_children_in_graph(g: Seq<(NodeId, Vec<Edge>)>, from: NodeId)
    ensures
        ({
            let es = edges_from(g, from, 0);
            forall|i: int| 0 <= i < child_targets(es, es.len() as int).len() ==> graph_nodes(g, g.len() as int).contains(
                #[trigger] child_targets(es, es.len() as int)[i],
            )
        }),
{
    lemma_graph_nodes(g, g.len() as int);
    lemma_edges_from_entry(g, from, 0);
    let es = edges_from(g, from, 0);
    let u = graph_nodes(g, g.len() as int);
    if es.len() > 0 {
        let j = choose|j: int| 0 <= j < g.len() && es == g[j].1@;
        assert forall|i: int| 0 <= i < es.len() implies u.contains(#[trigger] es[i].to) by {
            assert(es[i].to == g[j].1@[i].to);
        }
    }
    lemma_child_targets_in(es, es.len() as int, u);
}

/// The nodes given a color, as a sequence.
pub open spec fn color_keys(colors: Seq<(NodeId, bool)>) -> Seq<NodeId> {
    colors.map_values(|c: (NodeId, bool)| c.0)
}

/// Where node `n` is among the colored nodes.
fn color_index(colors: &Vec<(NodeId, bool)>, n: NodeId) -> (r: Option<usize>)
    ensures
        match r {
            Some(i) => i < colors@.len() && colors@[i as int].0 == n,
            None => !color_keys(colors@).contains(n),
        },
{
    let mut i: usize = 0;
    while i < colors.len()
        invariant
            i <= colors@.len(),
            forall|j: int| 0 <= j < i ==> colors@[j].0 != n,
        decreases colors@.len() - i,
    {
        if colors[i].0 == n {
            return Some(i);
        }
        i += 1;
    }
    proof {
        if color_keys(colors@).contains(n) {
            let j = choose|j: int| 0 <= j < color_keys(colors@).len() && color_keys(colors@)[j] == n;
            assert(colors@[j].0 == n);
        }
    }
    None
}

/// A colored node newly added to a duplicate-free set of colored nodes, all
/// of the graph's, leaves fewer uncolored ones.
proof fn lemma_room_for_one(keys: Seq<NodeId>, u: Set<NodeId>, n: NodeId)
    requires
        u.finite(),
        keys.no_duplicates(),
        forall|i: int| 0 <= i < keys.len() ==> u.contains(#[trigger] keys[i]),
        u.contains(n),
        !keys.contains(n),
    ensures
        keys.len() < u.len(),
{
    keys.unique_seq_to_set();
    let s = keys.to_set().insert(n);
    assert(s.subset_of(u));
    vstd::set_lib::lemma_len_subset(s, u);
    assert(!keys.to_set().contains(n));
}

/// The nodes along a cycle back to `n`: the walk's path from `n` on (the
/// whole path when `n` is not on it), then `n` again.
pub fn cycle_back_to(path: &Vec<NodeId>, n: NodeId) -> (r: Vec<NodeId>)
    ensures
        ({
            let from = first_index(path@, n, 0);
            r@ == path@.subrange(if from < path@.len() { from } else { 0 }, path@.len() as int).push(n)
        }),
{
    let mut from: usize = 0;
    while from < path.len() && path[from] != n
        invariant
            from <= path@.len(),
            first_index(path@, n, from as int) == first_index(path@, n, 0),
        decreases path@.len() - from,
    {
        from += 1;
    }
    if from == path.len() {
        from = 0;
    }
    let ghost start = from as int;
    let mut c: Vec<NodeId> = Vec::new();
    let mut k = from;
    while k < path.len()
        invariant
            0 <= start <= k <= path@.len(),
            c@ == path@.subrange(start, k as int),
        decreases path@.len() - k,
    {
        let ghost c0 = c@;
        let x = path[k];
        c.push(x);
        proof {
            let sub = path@.subrange(start, k as int + 1);
            assert(c0.len() == k - start);
            assert(sub.len() == k - start + 1);
            assert(c@.len() == sub.len());
            assert forall|q: int| 0 <= q < c@.len() implies c@[q] == sub[q] by {
                if q < c0.len() {
                    assert(c@[q] == c0[q]);
                    assert(c0[q] == path@[start + q]);
                } else {
                    assert(c@[q] == x);
                }
            }
            assert(c@ =~= sub);
        }
        k += 1;
    }
    c.push(n);
    c
}

/// The first index at or after `k` of `n` in `s`, or its length.
pub open spec fn first_index(s: Seq<NodeId>, n: NodeId, k: int) -> int
    decreases s.len() - k,
{
    if k < 0 || k >= s.len() {
        s.len() as int
    } else if s[k] == n {
        k
    } else {
        first_index(s, n, k + 1)
    }
}

/// Node `n` is colored black: the walk is done with it.
pub open spec fn is_black(colors: Seq<(NodeId, bool)>, n: NodeId) -> bool {
    exists|j: int| 0 <= j < colors.len() && colors[j].0 == n && colors[j].1
}

/// The nodes the dependency-view edges from `n` lead to, in edge order.
pub open spec fn kids(g: Seq<(NodeId, Vec<Edge>)>, n: NodeId) -> Seq<NodeId> {
    let es = edges_from(g, n, 0);
    child_targets(es, es.len() as int)
}

/// `order` holds, for the root and for each node in it, every node that
/// node's dependency-view edges lead to (the root aside).
pub open spec fn order_closed(g: Seq<(NodeId, Vec<Edge>)>, order: Seq<NodeId>) -> bool {
    forall|n: NodeId, i: int|
        #![trigger kids(g, n)[i]]
        (n == NodeId::Root || order.contains(n)) && 0 <= i < kids(g, n).len() ==> kids(g, n)[i]
            == NodeId::Root || order.contains(kids(g, n)[i])
}

spec fn colored(colors: Seq<(NodeId, bool)>, n: NodeId) -> bool {
    color_keys(colors).contains(n)
}

spec fn has_exit(stack: Seq<Frame>, n: NodeId) -> bool {
    exists|i: int| 0 <= i < stack.len() && stack[i] == Frame::Exit(n)
}

spec fn entered_after(stack: Seq<Frame>, c: NodeId, p: int) -> bool {
    exists|q: int| p < q < stack.len() && stack[q] == Frame::Enter(c)
}

spec fn kids_colored(g: Seq<(NodeId, Vec<Edge>)>, colors: Seq<(NodeId, bool)>, n: NodeId) -> bool {
    forall|i: int| 0 <= i < kids(g, n).len() ==> colored(colors, #[trigger] kids(g, n)[i])
}

/// Each node the edges of `n` lead to is colored or still to be entered
/// above position `p` of the stack.
spec fn exit_ready(g: Seq<(NodeId, Vec<Edge>)>, colors: Seq<(NodeId, bool)>, stack: Seq<Frame>, n: NodeId, p: int) -> bool {
    forall|i: int|
        0 <= i < kids(g, n).len() ==> colored(colors, #[trigger] kids(g, n)[i]) || entered_after(stack, kids(g, n)[i], p)
}

/// A node still being walked has its exit frame on the stack.
spec fn grays_exit(colors: Seq<(NodeId, bool)>, stack: Seq<Frame>) -> bool {
    forall|j: int| #![trigger colors[j]] 0 <= j < colors.len() && !colors[j].1 ==> has_exit(stack, colors[j].0)
}

spec fn exits_ready(g: Seq<(NodeId, Vec<Edge>)>, colors: Seq<(NodeId, bool)>, stack: Seq<Frame>) -> bool {
    forall|p: int| 0 <= p < stack.len() ==> (#[trigger] stack[p] matches Frame::Exit(n) ==> exit_ready(g, colors, stack, n, p))
}

/// The walk is done with the nodes each black node leads to.
spec fn blacks_done(g: Seq<(NodeId, Vec<Edge>)>, colors: Seq<(NodeId, bool)>) -> bool {
    forall|j: int| #![trigger colors[j]] 0 <= j < colors.len() && colors[j].1 ==> kids_colored(g, colors, colors[j].0)
}

spec fn blacks_out(colors: Seq<(NodeId, bool)>, out: Seq<NodeId>) -> bool {
    forall|j: int| #![trigger colors[j]] 0 <= j < colors.len() && colors[j].1 && colors[j].0 != NodeId::Root ==> out.contains(colors[j].0)
}

spec fn root_seen(colors: Seq<(NodeId, bool)>, stack: Seq<Frame>) -> bool {
    colored(colors, NodeId::Root) || stack.contains(Frame::Enter(NodeId::Root))
}

proof fn lemma_colored_at(c: Seq<(NodeId, bool)>, j: int)
    requires
        0 <= j < c.len(),
    ensures
        colored(c, c[j].0),
{
    assert(color_keys(c)[j] == c[j].0);
}

proof fn lemma_colored_push(c0: Seq<(NodeId, bool)>, x: (NodeId, bool))
    ensures
        forall|m: NodeId| colored(c0, m) ==> #[trigger] colored(c0.push(x), m),
        colored(c0.push(x), x.0),
{
    let c1 = c0.push(x);
    assert forall|m: NodeId| colored(c0, m) implies #[trigger] colored(c1, m) by {
        let j = choose|j: int| 0 <= j < color_keys(c0).len() && color_keys(c0)[j] == m;
        assert(c1[j] == c0[j]);
        lemma_colored_at(c1, j);
    }
    lemma_colored_at(c1, c0.len() as int);
}

/// Popping an enter frame for a node that is already colored keeps the
/// stack's facts.
proof fn lemma_enter_seen(g: Seq<(NodeId, Vec<Edge>)>, c: Seq<(NodeId, bool)>, s0: Seq<Frame>, n: NodeId)
    requires
        s0.len() > 0,
        s0.last() == Frame::Enter(n),
        colored(c, n),
        grays_exit(c, s0),
        exits_ready(g, c, s0),
        root_seen(c, s0),
    ensures
        grays_exit(c, s0.drop_last()),
        exits_ready(g, c, s0.drop_last()),
        root_seen(c, s0.drop_last()),
{
    let s1 = s0.drop_last();
    let t = s0.len() - 1;
    assert forall|j: int| #![trigger c[j]] 0 <= j < c.len() && !c[j].1 implies has_exit(s1, c[j].0) by {
        let i = choose|i: int| 0 <= i < s0.len() && s0[i] == Frame::Exit(c[j].0);
        assert(i != t);
        assert(s1[i] == s0[i]);
    }
    assert forall|p: int| 0 <= p < s1.len() implies (#[trigger] s1[p] matches Frame::Exit(m) ==> exit_ready(g, c, s1, m, p)) by {
        assert(s1[p] == s0[p]);
        if let Frame::Exit(m) = s1[p] {
            assert(exit_ready(g, c, s0, m, p));
            assert forall|i: int| 0 <= i < kids(g, m).len() implies colored(c, #[trigger] kids(g, m)[i])
                || entered_after(s1, kids(g, m)[i], p) by {
                if !colored(c, kids(g, m)[i]) {
                    let q = choose|q: int| p < q < s0.len() && s0[q] == Frame::Enter(kids(g, m)[i]);
                    assert(q != t);
                    assert(s1[q] == s0[q]);
                }
            }
        }
    }
    if !colored(c, NodeId::Root) {
        let q = choose|q: int| 0 <= q < s0.len() && s0[q] == Frame::Enter(NodeId::Root);
        assert(q != t);
        assert(s1[q] == s0[q]);
    }
}

/// Coloring a new node gray, replacing its enter frame by its exit frame
/// and the enter frames of the nodes its edges lead to, keeps the walk's
/// facts.
proof fn lemma_enter_new(
    g: Seq<(NodeId, Vec<Edge>)>,
    c0: Seq<(NodeId, bool)>,
    s0: Seq<Frame>,
    n: NodeId,
    sf: Seq<Frame>,
    out: Seq<NodeId>,
)
    requires
        s0.len() > 0,
        s0.last() == Frame::Enter(n),
        sf.len() == s0.len() + kids(g, n).len(),
        forall|q: int| 0 <= q < s0.len() - 1 ==> sf[q] == s0[q],
        sf[s0.len() - 1] == Frame::Exit(n),
        forall|i: int| 0 <= i < kids(g, n).len() ==> sf[s0.len() - 1 + kids(g, n).len() - i] == Frame::Enter(
            #[trigger] kids(g, n)[i],
        ),
        grays_exit(c0, s0),
        exits_ready(g, c0, s0),
        blacks_done(g, c0),
        blacks_out(c0, out),
        root_seen(c0, s0),
    ensures
        grays_exit(c0.push((n, false)), sf),
        exits_ready(g, c0.push((n, false)), sf),
        blacks_done(g, c0.push((n, false))),
        blacks_out(c0.push((n, false)), out),
        root_seen(c0.push((n, false)), sf),
{
    let c1 = c0.push((n, false));
    let t = s0.len() - 1;
    let ks = kids(g, n);
    lemma_colored_push(c0, (n, false));
    assert forall|j: int| #![trigger c1[j]] 0 <= j < c1.len() && !c1[j].1 implies has_exit(sf, c1[j].0) by {
        if j == c0.len() {
            assert(sf[t] == Frame::Exit(c1[j].0));
        } else {
            assert(c1[j] == c0[j]);
            let i = choose|i: int| 0 <= i < s0.len() && s0[i] == Frame::Exit(c0[j].0);
            assert(i != t);
            assert(sf[i] == s0[i]);
        }
    }
    assert forall|p: int| 0 <= p < sf.len() implies (#[trigger] sf[p] matches Frame::Exit(m) ==> exit_ready(g, c1, sf, m, p)) by {
        if p > t {
            let i = t + ks.len() - p;
            assert(sf[t + ks.len() - i] == Frame::Enter(ks[i]));
        } else if p == t {
            assert forall|i: int| 0 <= i < kids(g, n).len() implies colored(c1, #[trigger] kids(g, n)[i])
                || entered_after(sf, kids(g, n)[i], p) by {
                assert(sf[t + ks.len() - i] == Frame::Enter(ks[i]));
            }
        } else {
            assert(sf[p] == s0[p]);
            if let Frame::Exit(m) = sf[p] {
                assert(exit_ready(g, c0, s0, m, p));
                assert forall|i: int| 0 <= i < kids(g, m).len() implies colored(c1, #[trigger] kids(g, m)[i])
                    || entered_after(sf, kids(g, m)[i], p) by {
                    if colored(c0, kids(g, m)[i]) {
                    } else {
                        let q = choose|q: int| p < q < s0.len() && s0[q] == Frame::Enter(kids(g, m)[i]);
                        if q == t {
                        } else {
                            assert(sf[q] == s0[q]);
                        }
                    }
                }
            }
        }
    }
    assert forall|j: int| #![trigger c1[j]] 0 <= j < c1.len() && c1[j].1 implies kids_colored(g, c1, c1[j].0) by {
        assert(c1[j] == c0[j]);
        assert(kids_colored(g, c0, c0[j].0));
        assert forall|i: int| 0 <= i < kids(g, c0[j].0).len() implies colored(c1, #[trigger] kids(g, c0[j].0)[i]) by {
            assert(colored(c0, kids(g, c0[j].0)[i]));
        }
    }
    assert forall|j: int| #![trigger c1[j]] 0 <= j < c1.len() && c1[j].1 && c1[j].0 != NodeId::Root implies out.contains(c1[j].0) by {
        assert(c1[j] == c0[j]);
    }
    if !colored(c1, NodeId::Root) {
        let q = choose|q: int| 0 <= q < s0.len() && s0[q] == Frame::Enter(NodeId::Root);
        assert(q != t);
        assert(sf[q] == s0[q]);
    }
}

/// Popping the exit frame of a node and coloring it black keeps the walk's
/// facts, with the node added to the order unless it is the root.
proof fn lemma_exit(
    g: Seq<(NodeId, Vec<Edge>)>,
    c0: Seq<(NodeId, bool)>,
    s0: Seq<Frame>,
    n: NodeId,
    i: int,
    o0: Seq<NodeId>,
    o1: Seq<NodeId>,
)
    requires
        s0.len() > 0,
        s0.last() == Frame::Exit(n),
        0 <= i < c0.len(),
        c0[i].0 == n,
        color_keys(c0).no_duplicates(),
        o1 == (if n != NodeId::Root { o0.push(n) } else { o0 }),
        grays_exit(c0, s0),
        exits_ready(g, c0, s0),
        blacks_done(g, c0),
        blacks_out(c0, o0),
        root_seen(c0, s0),
    ensures
        grays_exit(c0.update(i, (n, true)), s0.drop_last()),
        exits_ready(g, c0.update(i, (n, true)), s0.drop_last()),
        blacks_done(g, c0.update(i, (n, true))),
        blacks_out(c0.update(i, (n, true)), o1),
        root_seen(c0.update(i, (n, true)), s0.drop_last()),
{
    let c1 = c0.update(i, (n, true));
    let s1 = s0.drop_last();
    let t = s0.len() - 1;
    assert(color_keys(c1) =~= color_keys(c0));
    assert forall|j: int| #![trigger c1[j]] 0 <= j < c1.len() && !c1[j].1 implies has_exit(s1, c1[j].0) by {
        assert(j != i);
        assert(c1[j] == c0[j]);
        assert(color_keys(c0)[j] == c0[j].0 && color_keys(c0)[i] == n);
        let q = choose|q: int| 0 <= q < s0.len() && s0[q] == Frame::Exit(c0[j].0);
        assert(q != t);
        assert(s1[q] == s0[q]);
    }
    assert forall|p: int| 0 <= p < s1.len() implies (#[trigger] s1[p] matches Frame::Exit(m) ==> exit_ready(g, c1, s1, m, p)) by {
        assert(s1[p] == s0[p]);
        if let Frame::Exit(m) = s1[p] {
            assert(exit_ready(g, c0, s0, m, p));
            assert forall|k: int| 0 <= k < kids(g, m).len() implies colored(c1, #[trigger] kids(g, m)[k])
                || entered_after(s1, kids(g, m)[k], p) by {
                if !colored(c0, kids(g, m)[k]) {
                    let q = choose|q: int| p < q < s0.len() && s0[q] == Frame::Enter(kids(g, m)[k]);
                    assert(q != t);
                    assert(s1[q] == s0[q]);
                }
            }
        }
    }
    assert(exit_ready(g, c0, s0, n, t));
    assert forall|j: int| #![trigger c1[j]] 0 <= j < c1.len() && c1[j].1 implies kids_colored(g, c1, c1[j].0) by {
        if j == i {
            assert forall|k: int| 0 <= k < kids(g, n).len() implies colored(c1, #[trigger] kids(g, n)[k]) by {
                assert(colored(c0, kids(g, n)[k]) || entered_after(s0, kids(g, n)[k], t));
            }
        } else {
            assert(c1[j] == c0[j]);
            assert(kids_colored(g, c0, c0[j].0));
        }
    }
    assert forall|j: int| #![trigger c1[j]] 0 <= j < c1.len() && c1[j].1 && c1[j].0 != NodeId::Root implies o1.contains(c1[j].0) by {
        if j == i {
            assert(o1[o0.len() as int] == n);
        } else {
            assert(c1[j] == c0[j]);
            assert(o0.contains(c0[j].0));
            if n != NodeId::Root {
                let k = choose|k: int| 0 <= k < o0.len() && o0[k] == c0[j].0;
                assert(o1[k] == o0[k]);
            }
        }
    }
    if !colored(c0, NodeId::Root) {
        let q = choose|q: int| 0 <= q < s0.len() && s0[q] == Frame::Enter(NodeId::Root);
        assert(q != t);
        assert(s1[q] == s0[q]);
    }
}

/// Each node of `order` comes after the nodes its dependency-view edges
/// lead to (the root aside).
pub open spec fn order_sorted(g: Seq<(NodeId, Vec<Edge>)>, order: Seq<NodeId>) -> bool {
    forall|k: int, i: int|
        #![trigger kids(g, order[k])[i]]
        0 <= k < order.len() && 0 <= i < kids(g, order[k]).len() && kids(g, order[k])[i] != NodeId::Root
            ==> order.subrange(0, k).contains(kids(g, order[k])[i])
}

spec fn exit_after(stack: Seq<Frame>, c: NodeId, p: int) -> bool {
    exists|q: int| p < q < stack.len() && stack[q] == Frame::Exit(c)
}

/// Each node the edges of `n` lead to is black, or still to be entered or
/// left above position `p` of the stack.
spec fn exit_sorted(g: Seq<(NodeId, Vec<Edge>)>, colors: Seq<(NodeId, bool)>, stack: Seq<Frame>, n: NodeId, p: int) -> bool {
    forall|i: int|
        0 <= i < kids(g, n).len() ==> is_black(colors, #[trigger] kids(g, n)[i]) || entered_after(stack, kids(g, n)[i], p)
            || exit_after(stack, kids(g, n)[i], p)
}

spec fn exits_sorted(g: Seq<(NodeId, Vec<Edge>)>, colors: Seq<(NodeId, bool)>, stack: Seq<Frame>) -> bool {
    forall|p: int| 0 <= p < stack.len() ==> (#[trigger] stack[p] matches Frame::Exit(n) ==> exit_sorted(g, colors, stack, n, p))
}

proof fn lemma_enter_seen_sorted(g: Seq<(NodeId, Vec<Edge>)>, c: Seq<(NodeId, bool)>, s0: Seq<Frame>, n: NodeId)
    requires
        s0.len() > 0,
        s0.last() == Frame::Enter(n),
        is_black(c, n),
        exits_sorted(g, c, s0),
    ensures
        exits_sorted(g, c, s0.drop_last()),
{
    let s1 = s0.drop_last();
    let t = s0.len() - 1;
    assert forall|p: int| 0 <= p < s1.len() implies (#[trigger] s1[p] matches Frame::Exit(m) ==> exit_sorted(g, c, s1, m, p)) by {
        assert(s1[p] == s0[p]);
        if let Frame::Exit(m) = s1[p] {
            assert(exit_sorted(g, c, s0, m, p));
            assert forall|i: int| 0 <= i < kids(g, m).len() implies is_black(c, #[trigger] kids(g, m)[i])
                || entered_after(s1, kids(g, m)[i], p) || exit_after(s1, kids(g, m)[i], p) by {
                let y = kids(g, m)[i];
                if !is_black(c, y) {
                    if entered_after(s0, y, p) {
                        let q = choose|q: int| p < q < s0.len() && s0[q] == Frame::Enter(y);
                        assert(q != t);
                        assert(s1[q] == s0[q]);
                    } else {
                        let q = choose|q: int| p < q < s0.len() && s0[q] == Frame::Exit(y);
                        assert(q != t);
                        assert(s1[q] == s0[q]);
                    }
                }
            }
        }
    }
}

proof fn lemma_enter_new_sorted(
    g: Seq<(NodeId, Vec<Edge>)>,
    c0: Seq<(NodeId, bool)>,
    s0: Seq<Frame>,
    n: NodeId,
    sf: Seq<Frame>,
)
    requires
        s0.len() > 0,
        s0.last() == Frame::Enter(n),
        sf.len() == s0.len() + kids(g, n).len(),
        forall|q: int| 0 <= q < s0.len() - 1 ==> sf[q] == s0[q],
        sf[s0.len() - 1] == Frame::Exit(n),
        forall|i: int| 0 <= i < kids(g, n).len() ==> sf[s0.len() - 1 + kids(g, n).len() - i] == Frame::Enter(
            #[trigger] kids(g, n)[i],
        ),
        exits_sorted(g, c0, s0),
    ensures
        exits_sorted(g, c0.push((n, false)), sf),
{
    let c1 = c0.push((n, false));
    let t = s0.len() - 1;
    let ks = kids(g, n);
    assert forall|p: int| 0 <= p < sf.len() implies (#[trigger] sf[p] matches Frame::Exit(m) ==> exit_sorted(g, c1, sf, m, p)) by {
        if p > t {
            let i = t + ks.len() - p;
            assert(sf[t + ks.len() - i] == Frame::Enter(ks[i]));
        } else if p == t {
            assert forall|i: int| 0 <= i < kids(g, n).len() implies is_black(c1, #[trigger] kids(g, n)[i])
                || entered_after(sf, kids(g, n)[i], p) || exit_after(sf, kids(g, n)[i], p) by {
                assert(sf[t + ks.len() - i] == Frame::Enter(ks[i]));
            }
        } else {
            assert(sf[p] == s0[p]);
            if let Frame::Exit(m) = sf[p] {
                assert(exit_sorted(g, c0, s0, m, p));
                assert forall|i: int| 0 <= i < kids(g, m).len() implies is_black(c1, #[trigger] kids(g, m)[i])
                    || entered_after(sf, kids(g, m)[i], p) || exit_after(sf, kids(g, m)[i], p) by {
                    let y = kids(g, m)[i];
                    if is_black(c0, y) {
                        let j = choose|j: int| 0 <= j < c0.len() && c0[j].0 == y && c0[j].1;
                        assert(c1[j] == c0[j]);
                    } else if entered_after(s0, y, p) {
                        let q = choose|q: int| p < q < s0.len() && s0[q] == Frame::Enter(y);
                        if q == t {
                            assert(sf[t] == Frame::Exit(y));
                        } else {
                            assert(sf[q] == s0[q]);
                        }
                    } else {
                        let q = choose|q: int| p < q < s0.len() && s0[q] == Frame::Exit(y);
                        assert(q != t);
                        assert(sf[q] == s0[q]);
                    }
                }
            }
        }
    }
}

proof fn lemma_exit_sorted(
    g: Seq<(NodeId, Vec<Edge>)>,
    c0: Seq<(NodeId, bool)>,
    s0: Seq<Frame>,
    n: NodeId,
    i: int,
    o0: Seq<NodeId>,
    o1: Seq<NodeId>,
)
    requires
        s0.len() > 0,
        s0.last() == Frame::Exit(n),
        0 <= i < c0.len(),
        c0[i].0 == n,
        o1 == (if n != NodeId::Root { o0.push(n) } else { o0 }),
        blacks_out(c0, o0),
        exits_sorted(g, c0, s0),
        order_sorted(g, o0),
    ensures
        exits_sorted(g, c0.update(i, (n, true)), s0.drop_last()),
        order_sorted(g, o1),
{
    let c1 = c0.update(i, (n, true));
    let s1 = s0.drop_last();
    let t = s0.len() - 1;
    assert forall|y: NodeId| is_black(c0, y) implies #[trigger] is_black(c1, y) by {
        let j = choose|j: int| 0 <= j < c0.len() && c0[j].0 == y && c0[j].1;
        if j != i {
            assert(c1[j] == c0[j]);
        } else {
            assert(c1[i] == (n, true));
        }
    }
    assert(c1[i] == (n, true));
    assert(is_black(c1, n));
    assert forall|p: int| 0 <= p < s1.len() implies (#[trigger] s1[p] matches Frame::Exit(m) ==> exit_sorted(g, c1, s1, m, p)) by {
        assert(s1[p] == s0[p]);
        if let Frame::Exit(m) = s1[p] {
            assert(exit_sorted(g, c0, s0, m, p));
            assert forall|k: int| 0 <= k < kids(g, m).len() implies is_black(c1, #[trigger] kids(g, m)[k])
                || entered_after(s1, kids(g, m)[k], p) || exit_after(s1, kids(g, m)[k], p) by {
                let y = kids(g, m)[k];
                if is_black(c0, y) {
                } else if entered_after(s0, y, p) {
                    let q = choose|q: int| p < q < s0.len() && s0[q] == Frame::Enter(y);
                    assert(q != t);
                    assert(s1[q] == s0[q]);
                } else {
                    let q = choose|q: int| p < q < s0.len() && s0[q] == Frame::Exit(y);
                    if q != t {
                        assert(s1[q] == s0[q]);
                    }
                }
            }
        }
    }
    assert(exit_sorted(g, c0, s0, n, t));
    if n != NodeId::Root {
        assert forall|k: int, x: int|
            #![trigger kids(g, o1[k])[x]]
            0 <= k < o1.len() && 0 <= x < kids(g, o1[k]).len() && kids(g, o1[k])[x] != NodeId::Root implies o1.subrange(
            0,
            k,
        ).contains(kids(g, o1[k])[x]) by {
            if k < o0.len() {
                assert(o1[k] == o0[k]);
                assert(o1.subrange(0, k) =~= o0.subrange(0, k));
            } else {
                assert(o1[k] == n);
                assert(o1.subrange(0, k) =~= o0);
                let y = kids(g, n)[x];
                assert(is_black(c0, y) || entered_after(s0, y, t) || exit_after(s0, y, t));
                let j = choose|j: int| 0 <= j < c0.len() && c0[j].0 == y && c0[j].1;
                assert(o0.contains(c0[j].0));
            }
        }
    }
}

/// Once the stack is empty, the order is closed under the edges.
proof fn lemma_walk_done(g: Seq<(NodeId, Vec<Edge>)>, c: Seq<(NodeId, bool)>, out: Seq<NodeId>)
    requires
        grays_exit(c, Seq::empty()),
        blacks_done(g, c),
        blacks_out(c, out),
        root_seen(c, Seq::empty()),
        forall|k: int| 0 <= k < out.len() ==> is_black(c, #[trigger] out[k]),
    ensures
        order_closed(g, out),
{
    assert forall|n: NodeId, i: int|
        #![trigger kids(g, n)[i]]
        (n == NodeId::Root || out.contains(n)) && 0 <= i < kids(g, n).len() implies kids(g, n)[i]
            == NodeId::Root || out.contains(kids(g, n)[i]) by {
        let j = if n == NodeId::Root {
            choose|j: int| 0 <= j < color_keys(c).len() && color_keys(c)[j] == n
        } else {
            let k = choose|k: int| 0 <= k < out.len() && out[k] == n;
            assert(is_black(c, out[k]));
            choose|j: int| 0 <= j < c.len() && c[j].0 == n && c[j].1
        };
        assert(c[j].0 == n);
        if !c[j].1 {
            assert(has_exit(Seq::<Frame>::empty(), c[j].0));
        }
        assert(kids_colored(g, c, n));
        let x = kids(g, n)[i];
        assert(colored(c, x));
        let j2 = choose|j2: int| 0 <= j2 < color_keys(c).len() && color_keys(c)[j2] == x;
        assert(c[j2].0 == x);
        if !c[j2].1 {
            assert(has_exit(Seq::<Frame>::empty(), c[j2].0));
        }
    }
}

/// The walk's order over `graph`: each node the root reaches, after the
/// nodes its edges lead to, in edge order; the root itself is left out. A
/// dependency back onto a node still being walked is dropped; the first
/// such cycle comes back as the nodes along it, from that node back to it.
pub fn analysis_order(graph: &DepGraph) -> (r: (Vec<NodeId>, Option<Vec<NodeId>>))
    ensures
        r.0@.no_duplicates(),
        !r.0@.contains(NodeId::Root),
        order_closed(graph.out_edges@, r.0@),
        forall|i: int| 0 <= i < r.0@.len() ==> graph_nodes(graph.out_edges@, graph.out_edges@.len() as int).contains(
            #[trigger] r.0@[i],
        ),
        r.1 is None ==> order_sorted(graph.out_edges@, r.0@),
{
    let ghost u = graph_nodes(graph.out_edges@, graph.out_edges@.len() as int);
    proof {
        lemma_graph_nodes(graph.out_edges@, graph.out_edges@.len() as int);
    }
    let mut colors: Vec<(NodeId, bool)> = Vec::new();
    let mut path: Vec<NodeId> = Vec::new();
    let mut out: Vec<NodeId> = Vec::new();
    let mut cycle: Option<Vec<NodeId>> = None;
    let mut stack: Vec<Frame> = Vec::new();
    stack.push(Frame::Enter(NodeId::Root));
    proof {
        assert(stack@[0] == Frame::Enter(NodeId::Root));
    }
    loop
        invariant
            u == graph_nodes(graph.out_edges@, graph.out_edges@.len() as int),
            u.finite(),
            u.contains(NodeId::Root),
            color_keys(colors@).no_duplicates(),
            forall|i: int| 0 <= i < colors@.len() ==> u.contains(#[trigger] colors@[i].0),
            forall|i: int| 0 <= i < stack@.len() ==> (#[trigger] stack@[i] matches Frame::Enter(n) ==> u.contains(n)),
            forall|i: int| 0 <= i < stack@.len() ==> (#[trigger] stack@[i] matches Frame::Exit(n) ==> exists|j: int|
                0 <= j < colors@.len() && colors@[j].0 == n && !colors@[j].1),
            forall|i: int, k: int| 0 <= i < k < stack@.len() ==> (#[trigger] stack@[i] matches Frame::Exit(a) ==> (#[trigger] stack@[k] matches Frame::Exit(b) ==> a != b)),
            forall|i: int| 0 <= i < out@.len() ==> is_black(colors@, #[trigger] out@[i]),
            out@.no_duplicates(),
            !out@.contains(NodeId::Root),
            grays_exit(colors@, stack@),
            exits_ready(graph.out_edges@, colors@, stack@),
            blacks_done(graph.out_edges@, colors@),
            blacks_out(colors@, out@),
            root_seen(colors@, stack@),
            cycle is None ==> exits_sorted(graph.out_edges@, colors@, stack@),
            cycle is None ==> order_sorted(graph.out_edges@, out@),
        ensures
            stack@.len() == 0,
        decreases u.len() - colors@.len(), stack@.len(),
    {
        let ghost s0 = stack@;
        let frame = match stack.pop() {
            Some(f) => f,
            None => {
                break;
            },
        };
        proof {
            assert(stack@ =~= s0.drop_last());
            assert forall|q: int| 0 <= q < stack@.len() implies (#[trigger] stack@[q] matches Frame::Exit(m) ==> exists|j: int|
                0 <= j < colors@.len() && colors@[j].0 == m && !colors@[j].1) by {
                assert(stack@[q] == s0[q]);
            }
            assert forall|a: int, b: int| 0 <= a < b < stack@.len() implies (#[trigger] stack@[a] matches Frame::Exit(x) ==> (#[trigger] stack@[b] matches Frame::Exit(y) ==> x != y)) by {
                assert(stack@[a] == s0[a]);
                assert(stack@[b] == s0[b]);
            }
            assert forall|q: int| 0 <= q < stack@.len() implies (#[trigger] stack@[q] matches Frame::Enter(m) ==> u.contains(m)) by {
                assert(stack@[q] == s0[q]);
            }
        }
        match frame {
            Frame::Enter(n) => {
                match color_index(&colors, n) {
                    Some(i) => {
                        proof {
                            lemma_colored_at(colors@, i as int);
                            lemma_enter_seen(graph.out_edges@, colors@, s0, n);
                        }
                        if !colors[i].1 && cycle.is_none() {
                            cycle = Some(cycle_back_to(&path, n));
                        }
                        proof {
                            if cycle is None {
                                assert(colors@[i as int].1);
                                assert(is_black(colors@, n));
                                lemma_enter_seen_sorted(graph.out_edges@, colors@, s0, n);
                            }
                        }
                    },
                    None => {
                        proof {
                            lemma_room_for_one(color_keys(colors@), u, n);
                        }
                        let ghost c0 = colors@;
                        colors.push((n, false));
                        proof {
                            assert(color_keys(colors@) =~= color_keys(c0).push(n));
                            assert forall|i: int| 0 <= i < out@.len() implies is_black(colors@, #[trigger] out@[i]) by {
                                let j = choose|j: int| 0 <= j < c0.len() && c0[j].0 == out@[i] && c0[j].1;
                                assert(colors@[j] == c0[j]);
                            }
                        }
                        path.push(n);
                        let ghost s1 = stack@;
                        proof {
                            assert forall|q: int| 0 <= q < s1.len() implies (#[trigger] s1[q] matches Frame::Exit(m) ==> m != n) by {
                                assert(s1[q] == s0[q]);
                                if let Frame::Exit(m) = s1[q] {
                                    let j = choose|j: int| 0 <= j < c0.len() && c0[j].0 == m && !c0[j].1;
                                    assert(color_keys(c0)[j] == m);
                                }
                            }
                        }
                        stack.push(Frame::Exit(n));
                        proof {
                            assert forall|q: int| 0 <= q < stack@.len() implies (#[trigger] stack@[q] matches Frame::Exit(m) ==> exists|j: int|
                                0 <= j < colors@.len() && colors@[j].0 == m && !colors@[j].1) by {
                                if q == s1.len() {
                                    assert(colors@[c0.len() as int] == (n, false));
                                } else {
                                    assert(stack@[q] == s0[q]);
                                    if let Frame::Exit(m) = stack@[q] {
                                        let j = choose|j: int| 0 <= j < c0.len() && c0[j].0 == m && !c0[j].1;
                                        assert(colors@[j] == c0[j]);
                                    }
                                }
                            }
                            assert forall|a: int, b: int| 0 <= a < b < stack@.len() implies (#[trigger] stack@[a] matches Frame::Exit(x) ==> (#[trigger] stack@[b] matches Frame::Exit(y) ==> x != y)) by {
                                assert(stack@[a] == s0[a]);
                                if b < s1.len() {
                                    assert(stack@[b] == s0[b]);
                                }
                            }
                        }
                        let children = child_edges(graph, n);
                        proof {
                            lemma_children_in_graph(graph.out_edges@, n);
                        }
                        let mut k = children.len();
                        let ghost s2 = stack@;
                        #[verifier::loop_isolation(false)]
                        while k > 0
                            invariant
                                k <= children@.len(),
                                stack@.len() == s2.len() + children@.len() - k,
                                forall|q: int| 0 <= q < s2.len() ==> stack@[q] == s2[q],
                                forall|i: int| k <= i < children@.len() ==> stack@[s2.len() + children@.len() - 1 - i]
                                    == Frame::Enter(#[trigger] children@[i]),
                                forall|i: int| 0 <= i < children@.len() ==> u.contains(#[trigger] children@[i]),
                                forall|i: int| 0 <= i < stack@.len() ==> (#[trigger] stack@[i] matches Frame::Enter(m) ==> u.contains(m)),
                                forall|i: int| 0 <= i < stack@.len() ==> (#[trigger] stack@[i] matches Frame::Exit(m) ==> exists|j: int|
                                    0 <= j < colors@.len() && colors@[j].0 == m && !colors@[j].1),
                                forall|i: int, q: int| 0 <= i < q < stack@.len() ==> (#[trigger] stack@[i] matches Frame::Exit(a) ==> (#[trigger] stack@[q] matches Frame::Exit(b) ==> a != b)),
                                forall|i: int| 0 <= i < out@.len() ==> is_black(colors@, #[trigger] out@[i]),
                            decreases k,
                        {
                            k -= 1;
                            stack.push(Frame::Enter(children[k]));
                        }
                        proof {
                            assert(s2 == s0.drop_last().push(Frame::Exit(n)));
                            assert(s2[s2.len() - 1] == Frame::Exit(n));
                            assert forall|q: int| 0 <= q < s0.len() - 1 implies stack@[q] == s0[q] by {
                                assert(stack@[q] == s2[q]);
                            }
                            lemma_enter_new(graph.out_edges@, c0, s0, n, stack@, out@);
                            if cycle is None {
                                lemma_enter_new_sorted(graph.out_edges@, c0, s0, n, stack@);
                            }
                        }
                    },
                }
            },
            Frame::Exit(n) => {
                proof {
                    assert(s0[s0.len() - 1] == Frame::Exit(n));
                    assert(stack@ =~= s0.drop_last());
                    assert forall|q: int| 0 <= q < stack@.len() implies (#[trigger] stack@[q] matches Frame::Exit(a) ==> a != n) by {
                        assert(stack@[q] == s0[q]);
                    }
                }
                let ghost gray_j = choose|j: int| 0 <= j < colors@.len() && colors@[j].0 == n && !colors@[j].1;
                match color_index(&colors, n) {
                    Some(i) => {
                        let ghost c0 = colors@;
                        proof {
                            assert(color_keys(c0)[i as int] == n && color_keys(c0)[gray_j] == n);
                        }
                        colors.set(i, (n, true));
                        proof {
                            assert(color_keys(colors@) =~= color_keys(c0));
                            assert forall|q: int| 0 <= q < stack@.len() implies (#[trigger] stack@[q] matches Frame::Exit(m) ==> exists|j: int|
                                0 <= j < colors@.len() && colors@[j].0 == m && !colors@[j].1) by {
                                if let Frame::Exit(m) = stack@[q] {
                                    assert(s0[q] == stack@[q]);
                                    let j = choose|j: int| 0 <= j < c0.len() && c0[j].0 == m && !c0[j].1;
                                    assert(j != i);
                                    assert(colors@[j] == c0[j]);
                                }
                            }
                            assert forall|k: int| 0 <= k < out@.len() implies is_black(colors@, #[trigger] out@[k]) by {
                                let j = choose|j: int| 0 <= j < c0.len() && c0[j].0 == out@[k] && c0[j].1;
                                assert(j != gray_j);
                                assert(color_keys(c0)[j] == out@[k]);
                                assert(out@[k] != n);
                                assert(j != i);
                                assert(colors@[j] == c0[j]);
                            }
                        }
                        path.pop();
                        let ghost o_before = out@;
                        if n != NodeId::Root {
                            let ghost o0 = out@;
                            proof {
                                if o0.contains(n) {
                                    let k = choose|k: int| 0 <= k < o0.len() && o0[k] == n;
                                    let j = choose|j: int| 0 <= j < c0.len() && c0[j].0 == o0[k] && c0[j].1;
                                    assert(color_keys(c0)[j] == n);
                                }
                            }
                            out.push(n);
                            proof {
                                assert forall|k: int| 0 <= k < out@.len() implies is_black(colors@, #[trigger] out@[k]) by {
                                    if k == o0.len() {
                                        assert(colors@[i as int] == (n, true));
                                    } else {
                                        assert(out@[k] == o0[k]);
                                    }
                                }
                            }
                        }
                        proof {
                            assert(s0.last() == Frame::Exit(n));
                            lemma_exit(graph.out_edges@, c0, s0, n, i as int, o_before, out@);
                            if cycle is None {
                                lemma_exit_sorted(graph.out_edges@, c0, s0, n, i as int, o_before, out@);
                            }
                        }
                    },
                    None => {
                        proof {
                            assert(color_keys(colors@)[gray_j] == n);
                        }
                    },
                }
            },
        }
    }
    proof {
        assert(stack@ =~= Seq::<Frame>::empty());
        lemma_walk_done(graph.out_edges@, colors@, out@);
        assert forall|i: int| 0 <= i < out@.len() implies u.contains(#[trigger] out@[i]) by {
            assert(is_black(colors@, out@[i]));
        }
    }
    (out, cycle)
}

} // verus!
