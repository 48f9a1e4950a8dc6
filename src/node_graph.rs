//! The graph of a statement's syntax tree, walked breadth first, each node
//! labelled with its depth.
use vstd::prelude::*;

verus! {

/// The kind of value that a constant holds.
#[derive(Clone, Copy, Debug, PartialEq, Eq, Structural)]
pub enum ValueKind {
    Integer,
    Float,
    Boolean,
    String,
    BitString,
}

/// The kind of a tree node.
#[derive(Clone, Copy, Debug, PartialEq, Eq, Structural)]
pub enum NodeKind {
    /// A constant, with the kind of its value if it has one. The value is
    /// walked as a child node of its own.
    Constant(Option<ValueKind>),
    /// The value of a constant.
    Value(ValueKind),
    /// Any other node kind, by number.
    Other(u32),
}

/// A node of a statement's tree, kept in an arena: `children` are the
/// indices of the nodes that its fields hold, in field order. A constant's
/// children are not walked: its value is.
#[derive(Clone, Debug)]
pub struct AstNode {
    pub kind: NodeKind,
    pub children: Vec<usize>,
}

/// A node of the graph: its kind, its depth, and the arena node it stands
/// for, or `None` for a constant's value.
#[derive(Clone, Copy, Debug, PartialEq, Eq, Structural)]
pub struct GraphNode {
    pub kind: NodeKind,
    pub depth: usize,
    pub node: Option<usize>,
}

/// The nodes in the order the walk reaches them, and an edge from each
/// node's parent to it.
#[derive(Clone, Debug)]
pub struct NodeGraph {
    pub nodes: Vec<GraphNode>,
    pub edges: Vec<(usize, usize)>,
}

/// Every child comes after its parent in the arena, so that the tree has no
/// cycle.
pub open spec fn arena_wf(arena: Seq<AstNode>) -> bool {
    forall|i: int, j: int| 0 <= i < arena.len() && 0 <= j < arena[i].children@.len() ==> i < #[trigger] arena[i].children@[j] < arena.len()
}

/// The kinds and arena nodes of the children that the walk gives node `a`.
pub open spec fn walked_children(arena: Seq<AstNode>, a: int) -> Seq<(NodeKind, Option<usize>)> {
    match arena[a].kind {
        NodeKind::Constant(Some(v)) => seq![(NodeKind::Value(v), None)],
        NodeKind::Constant(None) => seq![],
        _ => arena[a].children@.map_values(|c: usize| (arena[c as int].kind, Some(c))),
    }
}

/// The children of graph node `g` stand at `s, s + 1, ...`, one level deeper,
/// each with an edge from `g`.
pub open spec fn children_at(nodes: Seq<GraphNode>, edges: Seq<(usize, usize)>, g: int, s: int, exp: Seq<(NodeKind, Option<usize>)>) -> bool {
    &&& 1 <= s
    &&& s + exp.len() <= nodes.len()
    &&& s + exp.len() <= edges.len() + 1
    &&& forall|j: int| 0 <= j < exp.len() ==> #[trigger] nodes[s + j] == (GraphNode { kind: exp[j].0, depth: (nodes[g].depth + 1) as usize, node: exp[j].1 })
    &&& forall|j: int| 0 <= j < exp.len() ==> #[trigger] edges[s + j - 1] == (g as usize, (s + j) as usize)
}

/// Every edge from graph node `g` leads to one of the nodes `s, s + 1, ...,
/// s + m - 1`.
pub open spec fn edges_only(edges: Seq<(usize, usize)>, g: int, s: int, m: int) -> bool {
    forall|k: int| 0 <= k < edges.len() && (#[trigger] edges[k]).0 == g ==> s <= k + 1 < s + m
}

proof fn lemma_edges_only_grow(e0: Seq<(usize, usize)>, e1: Seq<(usize, usize)>, g: int, s: int, m: int, cur: int)
    requires
        edges_only(e0, g, s, m),
        e0.len() <= e1.len(),
        e1.subrange(0, e0.len() as int) == e0,
        forall|k: int| e0.len() <= k < e1.len() ==> (#[trigger] e1[k]).0 == cur,
        cur != g,
    ensures
        edges_only(e1, g, s, m),
{
    assert forall|k: int| 0 <= k < e1.len() && (#[trigger] e1[k]).0 == g implies s <= k + 1 < s + m by {
        if k < e0.len() {
            assert(e1[k] == e0[k]);
        }
    }
}

/// The shape of the graph: node `k + 1` is reached by edge `k`, from an
/// earlier node, one level up; parents come in order.
pub open spec fn graph_shape(nodes: Seq<GraphNode>, edges: Seq<(usize, usize)>) -> bool {
    &&& nodes.len() >= 1
    &&& edges.len() == nodes.len() - 1
    &&& forall|k: int| 0 <= k < edges.len() ==> (#[trigger] edges[k]).1 == k + 1 && edges[k].0 <= k
    &&& forall|k: int| 0 <= k < edges.len() ==> nodes[k + 1].depth == nodes[(#[trigger] edges[k]).0 as int].depth + 1
    &&& forall|k: int, l: int| 0 <= k < l < edges.len() ==> (#[trigger] edges[k]).0 <= (#[trigger] edges[l]).0
}

/// The children of one node, one level deeper, with an edge from `g` to each.
fn push_children(arena: &Vec<AstNode>, a: usize, g: usize, depth: usize, nodes: &mut Vec<GraphNode>, edges: &mut Vec<(usize, usize)>)
    requires
        arena_wf(arena@),
        a < arena@.len(),
        g < old(nodes)@.len(),
        old(edges)@.len() + 1 == old(nodes)@.len(),
        old(nodes)@[g as int].depth == depth,
        depth < usize::MAX,
    ensures
        final(nodes)@.len() == old(nodes)@.len() + walked_children(arena@, a as int).len(),
        final(nodes)@.subrange(0, old(nodes)@.len() as int) == old(nodes)@,
        final(edges)@.subrange(0, old(edges)@.len() as int) == old(edges)@,
        final(edges)@.len() + 1 == final(nodes)@.len(),
        children_at(final(nodes)@, final(edges)@, g as int, old(nodes)@.len() as int, walked_children(arena@, a as int)),
        forall|k: int| old(edges)@.len() <= k < final(edges)@.len() ==> (#[trigger] final(edges)@[k]).0 == g,
        forall|k: int| old(nodes)@.len() <= k < final(nodes)@.len() ==> ((#[trigger] final(nodes)@[k]).node matches Some(c) ==> a < c < arena@.len()),
{
    let ghost n0 = nodes@;
    let ghost e0 = edges@;
    let ghost exp = walked_children(arena@, a as int);
    match arena[a].kind {
        NodeKind::Constant(Some(v)) => {
            let idx = nodes.len();
            nodes.push(GraphNode { kind: NodeKind::Value(v), depth: depth + 1, node: None });
            edges.push((g, idx));
            proof {
                assert(nodes@.subrange(0, n0.len() as int) =~= n0);
                assert(edges@.subrange(0, e0.len() as int) =~= e0);
                assert(nodes@[n0.len() + 0int] == nodes@[idx as int]);
                assert(edges@[n0.len() + 0int - 1] == edges@[e0.len() as int]);
            }
        },
        NodeKind::Constant(None) => {
            proof {
                assert(nodes@.subrange(0, n0.len() as int) =~= n0);
                assert(edges@.subrange(0, e0.len() as int) =~= e0);
            }
        },
        _ => {
            let m = arena[a].children.len();
            let mut j: usize = 0;
            while j < m
                invariant
                    arena_wf(arena@),
                    a < arena@.len(),
                    m == arena@[a as int].children@.len(),
                    !(arena@[a as int].kind is Constant),
                    exp == walked_children(arena@, a as int),
                    exp.len() == m,
                    0 <= j <= m,
                    depth < usize::MAX,
                    g < n0.len(),
                    n0[g as int].depth == depth,
                    nodes@.len() == n0.len() + j,
                    edges@.len() == e0.len() + j,
                    e0.len() + 1 == n0.len(),
                    nodes@.subrange(0, n0.len() as int) == n0,
                    edges@.subrange(0, e0.len() as int) == e0,
                    forall|i: int| 0 <= i < j ==> #[trigger] nodes@[n0.len() + i] == (GraphNode { kind: exp[i].0, depth: (depth + 1) as usize, node: exp[i].1 }),
                    forall|i: int| 0 <= i < j ==> #[trigger] edges@[n0.len() + i - 1] == (g, (n0.len() + i) as usize),
                    forall|k: int| n0.len() <= k < nodes@.len() ==> ((#[trigger] nodes@[k]).node matches Some(c) ==> a < c < arena@.len()),
                decreases m - j,
            {
                let c = arena[a].children[j];
                proof {
                    assert(a < arena@[a as int].children@[j as int] < arena@.len());
                }
                let idx = nodes.len();
                let ghost nb = nodes@;
                let ghost eb = edges@;
                nodes.push(GraphNode { kind: arena[c].kind, depth: depth + 1, node: Some(c) });
                edges.push((g, idx));
                proof {
                    assert(nodes@.subrange(0, n0.len() as int) =~= nb.subrange(0, n0.len() as int));
                    assert(edges@.subrange(0, e0.len() as int) =~= eb.subrange(0, e0.len() as int));
                    assert(exp[j as int] == (arena@[c as int].kind, Some(c)));
                    assert forall|i: int| 0 <= i < j + 1 implies #[trigger] nodes@[n0.len() + i] == (GraphNode { kind: exp[i].0, depth: (depth + 1) as usize, node: exp[i].1 }) by {
                        if i < j {
                            assert(nodes@[n0.len() + i] == nb[n0.len() + i]);
                        }
                    }
                    assert forall|i: int| 0 <= i < j + 1 implies #[trigger] edges@[n0.len() + i - 1] == (g, (n0.len() + i) as usize) by {
                        if i < j {
                            assert(edges@[n0.len() + i - 1] == eb[n0.len() + i - 1]);
                        }
                    }
                }
                j = j + 1;
            }
        },
    }
    proof {
        assert(nodes@[g as int] == n0[g as int]);
        assert forall|k: int| e0.len() <= k < edges@.len() implies (#[trigger] edges@[k]).0 == g by {
            assert(edges@[n0.len() + (k - e0.len()) - 1] == edges@[k]);
        }
    }
}


proof fn lemma_child(nodes: Seq<GraphNode>, edges: Seq<(usize, usize)>, g: int, s: int, exp: Seq<(NodeKind, Option<usize>)>, j: int)
    requires
        children_at(nodes, edges, g, s, exp),
        0 <= j < exp.len(),
    ensures
        nodes[s + j] == (GraphNode { kind: exp[j].0, depth: (nodes[g].depth + 1) as usize, node: exp[j].1 }),
        edges[s + j - 1] == (g as usize, (s + j) as usize),
{
}

proof fn lemma_children_at_grow(n0: Seq<GraphNode>, e0: Seq<(usize, usize)>, n1: Seq<GraphNode>, e1: Seq<(usize, usize)>, g: int, s: int, exp: Seq<(NodeKind, Option<usize>)>)
    requires
        children_at(n0, e0, g, s, exp),
        0 <= g < n0.len(),
        n0.len() <= n1.len(),
        e0.len() <= e1.len(),
        n1.subrange(0, n0.len() as int) == n0,
        e1.subrange(0, e0.len() as int) == e0,
    ensures
        children_at(n1, e1, g, s, exp),
{
    assert(n1[g] == n0[g]);
    assert forall|j: int| 0 <= j < exp.len() implies #[trigger] n1[s + j] == (GraphNode { kind: exp[j].0, depth: (n1[g].depth + 1) as usize, node: exp[j].1 }) by {
        assert(n1[s + j] == n0[s + j]);
    }
    assert forall|j: int| 0 <= j < exp.len() implies #[trigger] e1[s + j - 1] == (g as usize, (s + j) as usize) by {
        assert(e1[s + j - 1] == e0[s + j - 1]);
    }
}

/// Walks the tree under `root` breadth first: the root at `at_depth`, then
/// each node's children in field order, one level deeper, each with an edge
/// from its parent. A constant's value is walked as a child of its own.
pub fn get_nodes(arena: &Vec<AstNode>, root: usize, at_depth: usize) -> (r: NodeGraph)
    requires
        arena_wf(arena@),
        root < arena@.len(),
        at_depth + arena@.len() < usize::MAX,
    ensures
        graph_shape(r.nodes@, r.edges@),
        r.nodes@[0] == (GraphNode { kind: arena@[root as int].kind, depth: at_depth, node: Some(root) }),
        forall|g: int| 0 <= g < r.nodes@.len() ==> ((#[trigger] r.nodes@[g]).node matches Some(a) ==> a < arena@.len()
            && exists|s: int| #[trigger] children_at(r.nodes@, r.edges@, g, s, walked_children(arena@, a as int))
                && edges_only(r.edges@, g, s, walked_children(arena@, a as int).len() as int)),
        forall|k: int| 0 <= k < r.edges@.len() ==> (#[trigger] r.nodes@[r.edges@[k].0 as int]).node is Some,
{
    let mut nodes: Vec<GraphNode> = Vec::new();
    let mut edges: Vec<(usize, usize)> = Vec::new();
    nodes.push(GraphNode { kind: arena[root].kind, depth: at_depth, node: Some(root) });
    let mut lo: usize = 0;
    let mut depth: usize = at_depth;
    let ghost mut lower: int = root as int;
    let ghost mut first: Seq<int> = seq![];
    while lo < nodes.len()
        invariant
            arena_wf(arena@),
            root < arena@.len(),
            at_depth + arena@.len() < usize::MAX,
            graph_shape(nodes@, edges@),
            nodes@[0] == (GraphNode { kind: arena@[root as int].kind, depth: at_depth, node: Some(root) }),
            0 <= lo <= nodes@.len(),
            root <= lower,
            depth == at_depth + (lower - root),
            lo < nodes@.len() ==> lower <= arena@.len(),
            lower <= arena@.len() + 1,
            forall|g: int| lo <= g < nodes@.len() ==> (#[trigger] nodes@[g]).depth == depth,
            forall|g: int| lo <= g < nodes@.len() ==> ((#[trigger] nodes@[g]).node matches Some(a) ==> lower <= a),
            forall|g: int| 0 <= g < nodes@.len() ==> ((#[trigger] nodes@[g]).node matches Some(a) ==> a < arena@.len()),
            first.len() == lo,
            forall|g: int| 0 <= g < lo ==> ((#[trigger] nodes@[g]).node matches Some(a) ==> children_at(nodes@, edges@, g, first[g], walked_children(arena@, a as int))
                && edges_only(edges@, g, first[g], walked_children(arena@, a as int).len() as int)),
            forall|k: int| 0 <= k < edges@.len() ==> (#[trigger] edges@[k]).0 < lo,
            forall|k: int| 0 <= k < edges@.len() ==> (#[trigger] nodes@[edges@[k].0 as int]).node is Some,
        decreases arena@.len() + 1 - lower,
    {
        let hi = nodes.len();
        let mut g = lo;
        while g < hi
            invariant
                arena_wf(arena@),
                at_depth + arena@.len() < usize::MAX,
                graph_shape(nodes@, edges@),
                nodes@[0] == (GraphNode { kind: arena@[root as int].kind, depth: at_depth, node: Some(root) }),
                lo <= g <= hi <= nodes@.len(),
                lo < hi,
                lower <= arena@.len(),
                root <= lower,
                depth == at_depth + (lower - root),
                nodes@.len() > hi ==> lower < arena@.len(),
                forall|i: int| lo <= i < hi ==> (#[trigger] nodes@[i]).depth == depth,
                forall|i: int| lo <= i < hi ==> ((#[trigger] nodes@[i]).node matches Some(a) ==> lower <= a),
                forall|i: int| hi <= i < nodes@.len() ==> (#[trigger] nodes@[i]).depth == depth + 1,
                forall|i: int| hi <= i < nodes@.len() ==> ((#[trigger] nodes@[i]).node matches Some(a) ==> lower < a),
                forall|i: int| 0 <= i < nodes@.len() ==> ((#[trigger] nodes@[i]).node matches Some(a) ==> a < arena@.len()),
                first.len() == g,
                forall|i: int| 0 <= i < g ==> ((#[trigger] nodes@[i]).node matches Some(a) ==> children_at(nodes@, edges@, i, first[i], walked_children(arena@, a as int))
                    && edges_only(edges@, i, first[i], walked_children(arena@, a as int).len() as int)),
                forall|k: int| 0 <= k < edges@.len() ==> (#[trigger] edges@[k]).0 < g,
                forall|k: int| 0 <= k < edges@.len() ==> (#[trigger] nodes@[edges@[k].0 as int]).node is Some,
            decreases hi - g,
        {
            let ghost n0 = nodes@;
            let ghost e0 = edges@;
            match nodes[g].node {
                Some(a) => {
                    push_children(arena, a, g, depth, &mut nodes, &mut edges);
                    let count = edges.len();
                    assert(count + 1 == nodes@.len());
                    proof {
                        let exp = walked_children(arena@, a as int);
                        assert(nodes@[g as int] == n0[g as int]);
                        assert forall|i: int| 0 <= i < g implies ((#[trigger] nodes@[i]).node matches Some(b) ==> children_at(nodes@, edges@, i, first[i], walked_children(arena@, b as int))
                            && edges_only(edges@, i, first[i], walked_children(arena@, b as int).len() as int)) by {
                            assert(nodes@[i] == n0[i]);
                            if let Some(b) = n0[i].node {
                                lemma_children_at_grow(n0, e0, nodes@, edges@, i, first[i], walked_children(arena@, b as int));
                                lemma_edges_only_grow(e0, edges@, i, first[i], walked_children(arena@, b as int).len() as int, g as int);
                            }
                        }
                        assert(edges_only(edges@, g as int, n0.len() as int, exp.len() as int)) by {
                            assert forall|k: int| 0 <= k < edges@.len() && (#[trigger] edges@[k]).0 == g implies n0.len() <= k + 1 < n0.len() + exp.len() by {
                                if k < e0.len() {
                                    assert(edges@[k] == e0[k]);
                                }
                            }
                        }
                        first = first.push(n0.len() as int);
                        assert forall|i: int| 0 <= i < g + 1 implies ((#[trigger] nodes@[i]).node matches Some(b) ==> children_at(nodes@, edges@, i, first[i], walked_children(arena@, b as int))
                            && edges_only(edges@, i, first[i], walked_children(arena@, b as int).len() as int)) by {
                            if i < g {
                                assert(nodes@[i] == n0[i]);
                            }
                        }
                        assert forall|i: int| 0 <= i < nodes@.len() implies (#[trigger] nodes@[i]).depth == (if i < hi { if i < lo { nodes@[i].depth } else { depth } } else { (depth + 1) as usize }) by {
                            if i < n0.len() {
                                assert(nodes@[i] == n0[i]);
                            } else {
                                lemma_child(nodes@, edges@, g as int, n0.len() as int, exp, i - n0.len());
                            }
                        }
                        assert forall|k: int| 0 <= k < edges@.len() implies (#[trigger] edges@[k]).1 == k + 1 && edges@[k].0 <= k && edges@[k].0 <= g by {
                            if k < e0.len() {
                                assert(edges@[k] == e0[k]);
                            } else {
                                lemma_child(nodes@, edges@, g as int, n0.len() as int, exp, k + 1 - n0.len());
                            }
                        }
                        assert forall|k: int| 0 <= k < edges@.len() implies nodes@[k + 1].depth == nodes@[(#[trigger] edges@[k]).0 as int].depth + 1 by {
                            if k < e0.len() {
                                assert(edges@[k] == e0[k]);
                                assert(nodes@[k + 1] == n0[k + 1]);
                                assert(nodes@[e0[k].0 as int] == n0[e0[k].0 as int]);
                            } else {
                                lemma_child(nodes@, edges@, g as int, n0.len() as int, exp, k + 1 - n0.len());
                            }
                        }
                        assert forall|k: int, l: int| 0 <= k < l < edges@.len() implies (#[trigger] edges@[k]).0 <= (#[trigger] edges@[l]).0 by {
                            if l < e0.len() {
                                assert(edges@[k] == e0[k]);
                                assert(edges@[l] == e0[l]);
                            } else if k < e0.len() {
                                assert(edges@[k] == e0[k]);
                                lemma_child(nodes@, edges@, g as int, n0.len() as int, exp, l + 1 - n0.len());
                            } else {
                                lemma_child(nodes@, edges@, g as int, n0.len() as int, exp, k + 1 - n0.len());
                                lemma_child(nodes@, edges@, g as int, n0.len() as int, exp, l + 1 - n0.len());
                            }
                        }
                        assert forall|k: int| 0 <= k < edges@.len() implies (#[trigger] nodes@[edges@[k].0 as int]).node is Some by {
                            if k < e0.len() {
                                assert(edges@[k] == e0[k]);
                                assert(nodes@[e0[k].0 as int] == n0[e0[k].0 as int]);
                            } else {
                                lemma_child(nodes@, edges@, g as int, n0.len() as int, exp, k + 1 - n0.len());
                            }
                        }
                        assert forall|i: int| 0 <= i < nodes@.len() implies ((#[trigger] nodes@[i]).node matches Some(b) ==> b < arena@.len()) by {
                            if i < n0.len() {
                                assert(nodes@[i] == n0[i]);
                            } else {
                                lemma_child(nodes@, edges@, g as int, n0.len() as int, exp, i - n0.len());
                            }
                        }
                        assert forall|i: int| lo <= i < hi implies ((#[trigger] nodes@[i]).node matches Some(b) ==> lower <= b) by {
                            assert(nodes@[i] == n0[i]);
                        }
                        assert forall|i: int| hi <= i < nodes@.len() implies ((#[trigger] nodes@[i]).node matches Some(b) ==> lower < b) by {
                            if i < n0.len() {
                                assert(nodes@[i] == n0[i]);
                            } else {
                                assert(nodes@[i].node matches Some(c) ==> a < c);
                            }
                        }
                        assert(nodes@[0] == n0[0]);
                        if nodes@.len() > hi {
                            if n0.len() == hi {
                                assert(exp.len() > 0);
                                assert(lower <= a < arena@.len());
                            }
                        }
                    }
                },
                None => {
                    proof {
                        first = first.push(0);
                        assert forall|i: int| 0 <= i < g + 1 implies ((#[trigger] nodes@[i]).node matches Some(b) ==> children_at(nodes@, edges@, i, first[i], walked_children(arena@, b as int))
                            && edges_only(edges@, i, first[i], walked_children(arena@, b as int).len() as int)) by {
                        }
                    }
                },
            }
            g = g + 1;
        }
        lo = hi;
        proof {
            if lo < nodes@.len() {
                assert(lower < arena@.len());
            }
            lower = lower + 1;
        }
        depth = depth + 1;
    }
    proof {
        assert forall|g: int| 0 <= g < nodes@.len() implies ((#[trigger] nodes@[g]).node matches Some(a) ==> a < arena@.len()
            && exists|s: int| #[trigger] children_at(nodes@, edges@, g, s, walked_children(arena@, a as int))
                && edges_only(edges@, g, s, walked_children(arena@, a as int).len() as int)) by {
            if let Some(a) = nodes@[g].node {
                assert(children_at(nodes@, edges@, g, first[g], walked_children(arena@, a as int)));
                assert(edges_only(edges@, g, first[g], walked_children(arena@, a as int).len() as int));
            }
        }
    }
    NodeGraph { nodes, edges }
}

} // verus!
