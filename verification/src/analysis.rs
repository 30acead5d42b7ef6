//! Analyses over code graphs: differences between two graphs, the
//! neighbourhood of a node, and structural summaries.
use vstd::prelude::*;

use crate::model::{edge_ids, CodeGraph, Edge, EdgeKind, GraphModel, IdEdge, Node};

verus! {

/// The nodes of `ns` whose id `other` lacks, in order.
pub open spec fn nodes_missing(ns: Seq<Node>, other: GraphModel) -> Seq<Node>
    decreases ns.len(),
{
    if ns.len() == 0 {
        Seq::empty()
    } else {
        let rest = nodes_missing(ns.drop_last(), other);
        if other.has_id(ns.last().id@) {
            rest
        } else {
            rest.push(ns.last())
        }
    }
}

/// The edges of `es` that `other` lacks (by endpoint ids and kind), in order.
pub open spec fn edges_missing(es: Seq<IdEdge>, other: GraphModel) -> Seq<IdEdge>
    decreases es.len(),
{
    if es.len() == 0 {
        Seq::empty()
    } else {
        let rest = edges_missing(es.drop_last(), other);
        if other.id_edges().contains(es.last()) {
            rest
        } else {
            rest.push(es.last())
        }
    }
}

/// The difference between two graphs, by node id and by edge.
#[derive(Debug)]
pub struct GraphDiff {
    pub added_nodes: Vec<Node>,
    pub removed_nodes: Vec<Node>,
    pub added_edges: Vec<Edge>,
    pub removed_edges: Vec<Edge>,
}

fn missing_nodes(from: &CodeGraph, other: &CodeGraph) -> (r: Vec<Node>)
    requires
        from.wf(),
        other.wf(),
    ensures
        r@ == nodes_missing(from@.nodes, other@),
{
    let n = from.node_count();
    let mut r: Vec<Node> = Vec::new();
    let mut i: usize = 0;
    assert(from@.nodes.subrange(0, 0) =~= Seq::<Node>::empty());
    while i < n
        invariant
            from.wf(),
            other.wf(),
            n == from@.nodes.len(),
            i <= n,
            r@ == nodes_missing(from@.nodes.subrange(0, i as int), other@),
        decreases n - i,
    {
        let node = from.node_at(i);
        assert(from@.nodes.subrange(0, i + 1).drop_last() =~= from@.nodes.subrange(0, i as int));
        if !other.has_node(node.id.as_str()) {
            r.push(node.clone());
        }
        i = i + 1;
    }
    assert(from@.nodes.subrange(0, n as int) =~= from@.nodes);
    r
}

fn missing_edges(from: &CodeGraph, other: &CodeGraph) -> (r: Vec<Edge>)
    requires
        from.wf(),
        other.wf(),
    ensures
        edge_ids(r@) == edges_missing(from@.id_edges(), other@),
{
    proof { from.lemma_valid(); }
    let m = from.edge_count();
    let mut r: Vec<Edge> = Vec::new();
    let mut i: usize = 0;
    let ghost ie = from@.id_edges();
    assert(ie.subrange(0, 0) =~= Seq::<IdEdge>::empty());
    assert(edge_ids(r@) =~= Seq::<IdEdge>::empty());
    while i < m
        invariant
            from.wf(),
            other.wf(),
            from@.valid(),
            ie == from@.id_edges(),
            m == from@.edges.len(),
            i <= m,
            edge_ids(r@) == edges_missing(ie.subrange(0, i as int), other@),
        decreases m - i,
    {
        let (a, b, k) = from.edge_at(i);
        let src = from.node_at(a);
        let tgt = from.node_at(b);
        assert(ie[i as int] == (src.id@, tgt.id@, k));
        assert(ie.subrange(0, i + 1).drop_last() =~= ie.subrange(0, i as int));
        if !other.has_edge(src.id.as_str(), tgt.id.as_str(), k) {
            let e = Edge { source: src.id.clone(), target: tgt.id.clone(), kind: k };
            let ghost before = r@;
            r.push(e);
            assert(edge_ids(r@) =~= edge_ids(before).push((src.id@, tgt.id@, k)));
        }
        i = i + 1;
    }
    assert(ie.subrange(0, m as int) =~= ie);
    r
}

/// What `new` adds to `old` and what it drops: nodes by id, edges by
/// endpoint ids and kind, each in its graph's order.
pub fn diff(old: &CodeGraph, new: &CodeGraph) -> (d: GraphDiff)
    requires
        old.wf(),
        new.wf(),
    ensures
        d.added_nodes@ == nodes_missing(new@.nodes, old@),
        d.removed_nodes@ == nodes_missing(old@.nodes, new@),
        edge_ids(d.added_edges@) == edges_missing(new@.id_edges(), old@),
        edge_ids(d.removed_edges@) == edges_missing(old@.id_edges(), new@),
{
    GraphDiff {
        added_nodes: missing_nodes(new, old),
        removed_nodes: missing_nodes(old, new),
        added_edges: missing_edges(new, old),
        removed_edges: missing_edges(old, new),
    }
}

proof fn lemma_nodes_missing_self(g: GraphModel, k: int)
    requires
        0 <= k <= g.nodes.len(),
    ensures
        nodes_missing(g.nodes.subrange(0, k), g).len() == 0,
    decreases k,
{
    if k > 0 {
        assert(g.nodes.subrange(0, k).drop_last() =~= g.nodes.subrange(0, k - 1));
        assert(g.nodes[k - 1].id@ == g.nodes.subrange(0, k).last().id@);
        lemma_nodes_missing_self(g, k - 1);
    }
}

proof fn lemma_edges_missing_self(g: GraphModel, k: int)
    requires
        0 <= k <= g.edges.len(),
    ensures
        edges_missing(g.id_edges().subrange(0, k), g).len() == 0,
    decreases k,
{
    if k > 0 {
        assert(g.id_edges().subrange(0, k).drop_last() =~= g.id_edges().subrange(0, k - 1));
        assert(g.id_edges()[k - 1] == g.id_edges().subrange(0, k).last());
        lemma_edges_missing_self(g, k - 1);
    }
}

/// A graph compared with itself shows no difference.
pub proof fn lemma_diff_self_empty(g: GraphModel)
    ensures
        nodes_missing(g.nodes, g).len() == 0,
        edges_missing(g.id_edges(), g).len() == 0,
{
    lemma_nodes_missing_self(g, g.nodes.len() as int);
    assert(g.nodes.subrange(0, g.nodes.len() as int) =~= g.nodes);
    lemma_edges_missing_self(g, g.edges.len() as int);
    assert(g.id_edges().subrange(0, g.edges.len() as int) =~= g.id_edges());
}

} // verus!

verus! {

use crate::model::adjacent;

/// The nodes joined by an edge to some node of `s`.
pub open spec fn spread(g: GraphModel, s: Set<int>) -> Set<int> {
    Set::new(|v: int| 0 <= v < g.nodes.len() && exists|u: int| s.contains(u) && #[trigger] adjacent(g, u, v))
}

/// The nodes within `k` edges of `start`, edges taken in either direction.
pub open spec fn within(g: GraphModel, start: int, k: nat) -> Set<int>
    decreases k,
{
    if k == 0 {
        set![start]
    } else {
        let p = within(g, start, (k - 1) as nat);
        p.union(spread(g, p))
    }
}

/// The nodes at distance exactly `k` from `start`.
pub open spec fn ring(g: GraphModel, start: int, k: nat) -> Set<int> {
    if k == 0 {
        set![start]
    } else {
        within(g, start, k).difference(within(g, start, (k - 1) as nat))
    }
}

/// The indices marked in a visit map.
pub open spec fn marked(v: Seq<bool>) -> Set<int> {
    Set::new(|i: int| 0 <= i < v.len() && v[i])
}

/// No edge leaves the set.
pub open spec fn closed(g: GraphModel, p: Set<int>) -> bool {
    forall|u: int, v: int| p.contains(v) && #[trigger] adjacent(g, u, v) ==> p.contains(u)
}

pub proof fn lemma_adjacent_symmetric(g: GraphModel, u: int, v: int)
    ensures
        adjacent(g, u, v) == adjacent(g, v, u),
{
    if adjacent(g, u, v) {
        let i = choose|i: int| 0 <= i < g.edges.len() && ((#[trigger] g.edges[i]).0 == u && g.edges[i].1 == v || g.edges[i].0 == v && g.edges[i].1 == u);
        assert(0 <= i < g.edges.len() && (g.edges[i].0 == v && g.edges[i].1 == u || g.edges[i].0 == u && g.edges[i].1 == v));
    }
    if adjacent(g, v, u) {
        let i = choose|i: int| 0 <= i < g.edges.len() && ((#[trigger] g.edges[i]).0 == v && g.edges[i].1 == u || g.edges[i].0 == u && g.edges[i].1 == v);
        assert(0 <= i < g.edges.len() && (g.edges[i].0 == u && g.edges[i].1 == v || g.edges[i].0 == v && g.edges[i].1 == u));
    }
}

/// Each step adds exactly what the newest ring reaches.
pub proof fn lemma_ring_step(g: GraphModel, start: int, k: nat)
    ensures
        within(g, start, k + 1) == within(g, start, k).union(spread(g, ring(g, start, k))),
{
    let w = within(g, start, k);
    let r = ring(g, start, k);
    assert(within(g, start, k + 1) == w.union(spread(g, w)));
    if k > 0 {
        let p = within(g, start, (k - 1) as nat);
        assert(w == p.union(spread(g, p)));
        assert forall|v: int| spread(g, w).contains(v) implies w.union(spread(g, r)).contains(v) by {
            let u = choose|u: int| w.contains(u) && #[trigger] adjacent(g, u, v);
            if p.contains(u) {
                assert(spread(g, p).contains(v));
            } else {
                assert(r.contains(u));
                assert(spread(g, r).contains(v));
            }
        }
        assert forall|v: int| spread(g, r).contains(v) implies spread(g, w).contains(v) by {
            let u = choose|u: int| r.contains(u) && #[trigger] adjacent(g, u, v);
            assert(w.contains(u));
        }
        assert(within(g, start, k + 1) =~= w.union(spread(g, r)));
    } else {
        assert(r == w);
    }
}

/// Within distance `k` of a node outside a closed set, no node lies in it.
pub proof fn lemma_within_disjoint(g: GraphModel, start: int, p: Set<int>, k: nat)
    requires
        closed(g, p),
        !p.contains(start),
    ensures
        within(g, start, k).disjoint(p),
    decreases k,
{
    if k > 0 {
        lemma_within_disjoint(g, start, p, (k - 1) as nat);
        let q = within(g, start, (k - 1) as nat);
        assert forall|v: int| within(g, start, k).contains(v) implies !p.contains(v) by {
            if !q.contains(v) {
                let u = choose|u: int| q.contains(u) && #[trigger] adjacent(g, u, v);
                lemma_adjacent_symmetric(g, u, v);
                if p.contains(v) {
                    assert(adjacent(g, v, u));
                    assert(p.contains(u));
                }
            }
        }
    }
}

/// Nodes within reach are nodes of the graph.
pub proof fn lemma_within_bounded(g: GraphModel, start: int, k: nat)
    requires
        0 <= start < g.nodes.len(),
    ensures
        forall|v: int| #[trigger] within(g, start, k).contains(v) ==> 0 <= v < g.nodes.len(),
    decreases k,
{
    if k > 0 {
        lemma_within_bounded(g, start, (k - 1) as nat);
        let q = within(g, start, (k - 1) as nat);
        assert forall|v: int| #[trigger] within(g, start, k).contains(v) implies 0 <= v < g.nodes.len() by {
            if !q.contains(v) {
                assert(spread(g, q).contains(v));
            }
        }
    }
}

/// Once a step adds nothing, no later step does.
pub proof fn lemma_within_stable(g: GraphModel, start: int, k: nat, m: nat)
    requires
        within(g, start, k + 1) == within(g, start, k),
        k <= m,
    ensures
        within(g, start, m) == within(g, start, k),
    decreases m - k,
{
    if m > k {
        lemma_within_stable(g, start, k, (m - 1) as nat);
        assert(within(g, start, m) == within(g, start, (m - 1) as nat).union(spread(g, within(g, start, (m - 1) as nat))));
    }
}

/// Reach only grows with distance.
pub proof fn lemma_within_mono(g: GraphModel, start: int, k: nat, m: nat)
    requires
        k <= m,
    ensures
        within(g, start, k).subset_of(within(g, start, m)),
    decreases m - k,
{
    if m > k {
        lemma_within_mono(g, start, k, (m - 1) as nat);
    }
}

} // verus!

verus! {

/// The set of indices listed in a sequence.
pub open spec fn index_set(s: Seq<usize>) -> Set<int> {
    Set::new(|i: int| exists|j: int| 0 <= j < s.len() && #[trigger] s[j] as int == i)
}

proof fn lemma_index_set_push(s: Seq<usize>, x: usize)
    ensures
        index_set(s.push(x)) == index_set(s).insert(x as int),
{
    assert forall|i: int| index_set(s.push(x)).contains(i) implies index_set(s).insert(x as int).contains(i) by {
        let j = choose|j: int| 0 <= j < s.push(x).len() && #[trigger] s.push(x)[j] as int == i;
        if j < s.len() {
            assert(s[j] as int == i);
        }
    }
    assert forall|i: int| index_set(s).insert(x as int).contains(i) implies index_set(s.push(x)).contains(i) by {
        if i == x as int {
            assert(s.push(x)[s.len() as int] as int == i);
        } else {
            let j = choose|j: int| 0 <= j < s.len() && #[trigger] s[j] as int == i;
            assert(s.push(x)[j] as int == i);
        }
    }
    assert(index_set(s.push(x)) =~= index_set(s).insert(x as int));
}

proof fn lemma_index_set_prefix(s: Seq<usize>, f: int)
    requires
        0 <= f < s.len(),
    ensures
        index_set(s.subrange(0, f + 1)) == index_set(s.subrange(0, f)).insert(s[f] as int),
{
    assert(s.subrange(0, f + 1) =~= s.subrange(0, f).push(s[f]));
    lemma_index_set_push(s.subrange(0, f), s[f]);
}

proof fn lemma_spread_insert(g: GraphModel, a: Set<int>, u: int)
    ensures
        spread(g, a.insert(u)) == spread(g, a).union(Set::new(|v: int| 0 <= v < g.nodes.len() && adjacent(g, u, v))),
{
    assert(spread(g, a.insert(u)) =~= spread(g, a).union(Set::new(|v: int| 0 <= v < g.nodes.len() && adjacent(g, u, v))));
}

/// Breadth-first search from `start` over edges in either direction, at most
/// `depth` levels deep, skipping nodes already marked in `visited` (a set no
/// edge leaves). Returns the nodes found, in the order they were found (level
/// by level, each node's neighbours in the order the graph lists them), and
/// the number of levels taken.
pub fn bfs(graph: &CodeGraph, start: usize, depth: usize, visited: &mut Vec<bool>) -> (r: (Vec<usize>, usize))
    requires
        graph.wf(),
        start < graph@.nodes.len(),
        old(visited)@.len() == graph@.nodes.len(),
        !old(visited)@[start as int],
        closed(graph@, marked(old(visited)@)),
    ensures
        final(visited)@.len() == old(visited)@.len(),
        r.1 <= depth,
        within(graph@, start as int, (r.1 + 1) as nat) == within(graph@, start as int, r.1 as nat)
            || (r.1 == depth && r.0@.len() > depth),
        marked(final(visited)@) == marked(old(visited)@).union(within(graph@, start as int, r.1 as nat)),
        index_set(r.0@) == within(graph@, start as int, r.1 as nat),
        r.0@.no_duplicates(),
        r.0@.len() > 0,
        r.0@[0] == start,
{
    let ghost g = graph@;
    let ghost n = g.nodes.len();
    let ghost s = start as int;
    let ghost p0 = marked(old(visited)@);
    visited.set(start, true);
    let mut order: Vec<usize> = Vec::new();
    order.push(start);
    let mut frontier: Vec<usize> = Vec::new();
    frontier.push(start);
    let mut level: usize = 0;
    proof {
        lemma_within_disjoint(g, s, p0, 0);
        assert(marked(visited@) =~= p0.union(within(g, s, 0)));
        assert(index_set(order@) =~= within(g, s, 0)) by {
            assert(order@[0] as int == s);
        }
        assert(index_set(frontier@) =~= ring(g, s, 0)) by {
            assert(frontier@[0] as int == s);
        }
    }
    while level < depth && frontier.len() > 0
        invariant
            g == graph@,
            graph.wf(),
            n == g.nodes.len(),
            0 <= s < n,
            s == start as int,
            closed(g, p0),
            !p0.contains(s),
            visited@.len() == n,
            level <= depth,
            marked(visited@) == p0.union(within(g, s, level as nat)),
            index_set(frontier@) == ring(g, s, level as nat),
            forall|j: int| 0 <= j < frontier@.len() ==> #[trigger] frontier@[j] < n,
            index_set(order@) == within(g, s, level as nat),
            order@.no_duplicates(),
            order@.len() > 0,
            order@[0] == start,
            frontier@.len() > 0 ==> order@.len() > level,
        decreases depth - level,
    {
        let ghost w = within(g, s, level as nat);
        let ghost base = p0.union(w);
        let ghost order0 = order@;
        proof {
            lemma_within_disjoint(g, s, p0, level as nat);
            lemma_within_bounded(g, s, level as nat);
        }
        let mut next: Vec<usize> = Vec::new();
        let mut f: usize = 0;
        proof {
            assert(frontier@.subrange(0, 0) =~= Seq::<usize>::empty());
            assert(index_set(frontier@.subrange(0, 0)) =~= Set::<int>::empty());
            assert(spread(g, Set::<int>::empty()) =~= Set::<int>::empty());
            assert(marked(visited@) =~= base.union(spread(g, index_set(frontier@.subrange(0, 0)))));
            assert(index_set(next@) =~= Set::<int>::empty());
            assert(order@ =~= order0 + next@);
        }
        while f < frontier.len()
            invariant
                g == graph@,
                graph.wf(),
                n == g.nodes.len(),
                visited@.len() == n,
                f <= frontier@.len(),
                forall|j: int| 0 <= j < frontier@.len() ==> #[trigger] frontier@[j] < n,
                base == p0.union(w),
                marked(visited@) == base.union(spread(g, index_set(frontier@.subrange(0, f as int)))),
                index_set(next@) == marked(visited@).difference(base),
                next@.no_duplicates(),
                forall|j: int| 0 <= j < next@.len() ==> #[trigger] next@[j] < n,
                order@ == order0 + next@,
                order0.no_duplicates(),
                index_set(order0) == w,
                w.disjoint(p0),
                forall|v: int| #[trigger] w.contains(v) ==> 0 <= v < n,
            decreases frontier@.len() - f,
        {
            let u = frontier[f];
            let nb = graph.neighbors(u);
            let ghost before = marked(visited@);
            let mut j: usize = 0;
            while j < nb.len()
                invariant
                    g == graph@,
                    n == g.nodes.len(),
                    visited@.len() == n,
                    j <= nb@.len(),
                    forall|k: int| 0 <= k < nb@.len() ==> #[trigger] nb@[k] < n,
                    base == p0.union(w),
                    marked(visited@) == before.union(index_set(nb@.subrange(0, j as int))),
                    before.subset_of(marked(visited@)),
                    base.subset_of(before),
                    index_set(next@) == marked(visited@).difference(base),
                    next@.no_duplicates(),
                    forall|k: int| 0 <= k < next@.len() ==> #[trigger] next@[k] < n,
                    order@ == order0 + next@,
                    order0.no_duplicates(),
                    index_set(order0) == w,
                    w.disjoint(p0),
                    forall|v: int| #[trigger] w.contains(v) ==> 0 <= v < n,
                decreases nb@.len() - j,
            {
                let v = nb[j];
                proof { lemma_index_set_prefix(nb@, j as int); }
                if !visited[v] {
                    let ghost m0 = marked(visited@);
                    let ghost next0 = next@;
                    visited.set(v, true);
                    next.push(v);
                    order.push(v);
                    proof {
                        assert(marked(visited@) =~= m0.insert(v as int));
                        lemma_index_set_push(next0, v);
                        assert(!index_set(next0).contains(v as int));
                        assert forall|a: int, b: int| 0 <= a < next@.len() && 0 <= b < next@.len() && a != b implies next@[a] != next@[b] by {
                            if a == next0.len() as int {
                                assert(index_set(next0).contains(next0[b] as int));
                            } else if b == next0.len() as int {
                                assert(index_set(next0).contains(next0[a] as int));
                            }
                        }
                        assert(index_set(next@) =~= marked(visited@).difference(base));
                        assert(order@ =~= order0 + next@);
                    }
                } else {
                    proof {
                        assert(marked(visited@).contains(v as int));
                    }
                }
                proof {
                    assert(marked(visited@) =~= before.union(index_set(nb@.subrange(0, j + 1))));
                }
                j = j + 1;
            }
            proof {
                assert(nb@.subrange(0, nb@.len() as int) =~= nb@);
                let adj_u = Set::new(|v: int| 0 <= v < n && adjacent(g, u as int, v));
                assert forall|v: int| index_set(nb@).contains(v) <==> adj_u.contains(v) by {
                    if index_set(nb@).contains(v) {
                        let k = choose|k: int| 0 <= k < nb@.len() && #[trigger] nb@[k] as int == v;
                        assert(adjacent(g, u as int, nb@[k] as int));
                    }
                    if adj_u.contains(v) {
                        assert(adjacent(g, u as int, (v as usize) as int));
                        assert(nb@.contains(v as usize));
                        let k = choose|k: int| 0 <= k < nb@.len() && nb@[k] == v as usize;
                        assert(nb@[k] as int == v);
                    }
                }
                assert(index_set(nb@) =~= adj_u);
                lemma_index_set_prefix(frontier@, f as int);
                lemma_spread_insert(g, index_set(frontier@.subrange(0, f as int)), u as int);
                assert(marked(visited@) =~= base.union(spread(g, index_set(frontier@.subrange(0, f + 1)))));
            }
            f = f + 1;
        }
        proof {
            assert(frontier@.subrange(0, frontier@.len() as int) =~= frontier@);
            lemma_ring_step(g, s, level as nat);
            lemma_within_disjoint(g, s, p0, (level + 1) as nat);
            let w1 = within(g, s, (level + 1) as nat);
            assert(marked(visited@) =~= p0.union(w1));
            assert(index_set(next@) =~= ring(g, s, (level + 1) as nat));
            // order now lists the new ring after the old reach
            assert forall|i: int| index_set(order@).contains(i) <==> w1.contains(i) by {
                if index_set(order@).contains(i) {
                    let k = choose|k: int| 0 <= k < order@.len() && #[trigger] order@[k] as int == i;
                    if k < order0.len() {
                        assert(order0[k] as int == i);
                        assert(index_set(order0).contains(i));
                    } else {
                        assert(next@[k - order0.len()] as int == i);
                        assert(index_set(next@).contains(i));
                    }
                }
                if w1.contains(i) {
                    if w.contains(i) {
                        let k = choose|k: int| 0 <= k < order0.len() && #[trigger] order0[k] as int == i;
                        assert(order@[k] as int == i);
                    } else {
                        assert(index_set(next@).contains(i));
                        let k = choose|k: int| 0 <= k < next@.len() && #[trigger] next@[k] as int == i;
                        assert(order@[order0.len() + k] as int == i);
                    }
                }
            }
            assert(index_set(order@) =~= w1);
            assert forall|a: int, b: int| 0 <= a < order@.len() && 0 <= b < order@.len() && a != b implies order@[a] != order@[b] by {
                if a < order0.len() && b >= order0.len() {
                    assert(index_set(order0).contains(order0[a] as int));
                    assert(index_set(next@).contains(next@[b - order0.len()] as int));
                } else if b < order0.len() && a >= order0.len() {
                    assert(index_set(order0).contains(order0[b] as int));
                    assert(index_set(next@).contains(next@[a - order0.len()] as int));
                } else if a >= order0.len() && b >= order0.len() {
                    assert(next@[a - order0.len()] != next@[b - order0.len()]);
                }
            }
            assert(order@[0] == order0[0]);
        }
        frontier = next;
        level = level + 1;
    }
    proof {
        if frontier@.len() == 0 {
            assert(index_set(frontier@) =~= Set::<int>::empty());
            lemma_ring_step(g, s, level as nat);
            assert(spread(g, Set::<int>::empty()) =~= Set::<int>::empty());
            assert(within(g, s, (level + 1) as nat) =~= within(g, s, level as nat));
        }
    }
    (order, level)
}

} // verus!

verus! {

/// The nodes at the listed indices, in the listed order.
pub open spec fn nodes_at(g: GraphModel, order: Seq<usize>) -> Seq<Node> {
    order.map_values(|i: usize| g.nodes[i as int])
}

/// The first `k` edges of `g` whose two endpoints lie in `s`, by id.
pub open spec fn edges_among(g: GraphModel, s: Set<int>, k: int) -> Seq<IdEdge>
    decreases k,
{
    if k <= 0 {
        Seq::empty()
    } else {
        let rest = edges_among(g, s, k - 1);
        let e = g.edges[k - 1];
        if s.contains(e.0 as int) && s.contains(e.1 as int) {
            rest.push((g.nodes[e.0 as int].id@, g.nodes[e.1 as int].id@, e.2))
        } else {
            rest
        }
    }
}

/// The graph made of the listed nodes, in that order, and the edges of `g`
/// among the set `s`, in the order of `g`.
pub open spec fn induced(g: GraphModel, order: Seq<usize>, s: Set<int>) -> GraphModel {
    GraphModel::empty().with_nodes(nodes_at(g, order)).with_edges(edges_among(g, s, g.edges.len() as int))
}

/// `order` lists, without repeats and starting at `start`, exactly the nodes
/// within `depth` edges of `start`, and `r` is the graph they induce.
pub open spec fn focus_of(g: GraphModel, start: int, depth: nat, order: Seq<usize>, r: GraphModel) -> bool {
    &&& order.no_duplicates()
    &&& order.len() > 0
    &&& order[0] as int == start
    &&& index_set(order) == within(g, start, depth)
    &&& r == induced(g, order, within(g, start, depth))
}

/// The neighbourhood of a node: the nodes within `depth` edges of it (edges
/// taken in either direction), in breadth-first order, with the edges of the
/// graph among them. An unknown id gives the empty graph.
pub fn focus(graph: &CodeGraph, node_id: &str, depth: usize) -> (r: CodeGraph)
    requires
        graph.wf(),
    ensures
        r.wf(),
        !graph@.has_id(node_id@) ==> r@ == GraphModel::empty(),
        graph@.has_id(node_id@) ==> exists|order: Seq<usize>|
            #[trigger] focus_of(graph@, graph@.index_of(node_id@), depth as nat, order, r@),
{
    let mut result = CodeGraph::new();
    let start = match graph.index_of(node_id) {
        Some(i) => i,
        None => return result,
    };
    let ghost g = graph@;
    let n = graph.node_count();
    let mut visited: Vec<bool> = Vec::new();
    while visited.len() < n
        invariant
            visited@.len() <= n,
            forall|k: int| 0 <= k < visited@.len() ==> !visited@[k],
        decreases n - visited@.len(),
    {
        visited.push(false);
    }
    proof {
        assert(marked(visited@) =~= Set::<int>::empty());
    }
    let (order, levels) = bfs(graph, start, depth, &mut visited);
    let ghost s = within(g, start as int, depth as nat);
    proof {
        if levels < depth {
            lemma_within_stable(g, start as int, levels as nat, depth as nat);
        }
        assert(marked(visited@) =~= s);
        lemma_within_bounded(g, start as int, depth as nat);
        assert forall|k: int| 0 <= k < order@.len() implies #[trigger] order@[k] < g.nodes.len() by {
            assert(index_set(order@).contains(order@[k] as int));
        }
    }
    let mut i: usize = 0;
    assert(nodes_at(g, order@.subrange(0, 0)) =~= Seq::<Node>::empty());
    while i < order.len()
        invariant
            graph.wf(),
            g == graph@,
            result.wf(),
            i <= order@.len(),
            forall|k: int| 0 <= k < order@.len() ==> #[trigger] order@[k] < g.nodes.len(),
            result@ == GraphModel::empty().with_nodes(nodes_at(g, order@.subrange(0, i as int))),
        decreases order@.len() - i,
    {
        let node = graph.node_at(order[i]).clone();
        result.add_node(node);
        assert(nodes_at(g, order@.subrange(0, i + 1)).drop_last() =~= nodes_at(g, order@.subrange(0, i as int)));
        i = i + 1;
    }
    assert(order@.subrange(0, order@.len() as int) =~= order@);
    let ghost with_nodes = result@;
    let m = graph.edge_count();
    let mut e: usize = 0;
    while e < m
        invariant
            graph.wf(),
            g == graph@,
            result.wf(),
            m == g.edges.len(),
            e <= m,
            visited@.len() == g.nodes.len(),
            marked(visited@) == s,
            result@ == with_nodes.with_edges(edges_among(g, s, e as int)),
        decreases m - e,
    {
        let (a, b, k) = graph.edge_at(e);
        proof {
            graph.lemma_valid();
            assert(g.edges[e as int].0 < g.nodes.len());
        }
        assert(marked(visited@).contains(a as int) == visited@[a as int]);
        assert(marked(visited@).contains(b as int) == visited@[b as int]);
        if visited[a] && visited[b] {
            let sid = graph.node_at(a).id.clone();
            let tid = graph.node_at(b).id.clone();
            result.add_edge(sid.as_str(), tid.as_str(), k);
            assert(edges_among(g, s, e + 1).drop_last() =~= edges_among(g, s, e as int));
        }
        e = e + 1;
    }
    proof {
        assert(focus_of(g, start as int, depth as nat, order@, result@));
    }
    result
}

} // verus!

verus! {

use crate::model::edge_ends;
use crate::store::{comp_views, in_some, kosaraju_components, reaches};

/// The ids of the listed nodes.
pub open spec fn ids_of(g: GraphModel, c: Seq<usize>) -> Seq<Seq<char>> {
    c.map_values(|i: usize| g.nodes[i as int].id@)
}

/// Lists of strings as sequences of character sequences.
pub open spec fn id_lists(r: Seq<Vec<String>>) -> Seq<Seq<Seq<char>>> {
    r.map_values(|c: Vec<String>| c@.map_values(|s: String| s@))
}

/// The ids of the nodes at the given indices.
pub fn ids_at(graph: &CodeGraph, idx: &Vec<usize>) -> (r: Vec<String>)
    requires
        graph.wf(),
        forall|k: int| 0 <= k < idx@.len() ==> #[trigger] idx@[k] < graph@.nodes.len(),
    ensures
        r@.map_values(|s: String| s@) == ids_of(graph@, idx@),
{
    let mut r: Vec<String> = Vec::new();
    let mut k: usize = 0;
    while k < idx.len()
        invariant
            graph.wf(),
            k <= idx@.len(),
            forall|j: int| 0 <= j < idx@.len() ==> #[trigger] idx@[j] < graph@.nodes.len(),
            r@.map_values(|s: String| s@) == ids_of(graph@, idx@.subrange(0, k as int)),
        decreases idx@.len() - k,
    {
        let id = graph.node_at(idx[k]).id.clone();
        let ghost r0 = r@;
        r.push(id);
        proof {
            let a = r@.map_values(|s: String| s@);
            let b = ids_of(graph@, idx@.subrange(0, k + 1));
            let a0 = r0.map_values(|s: String| s@);
            let b0 = ids_of(graph@, idx@.subrange(0, k as int));
            assert(a0.len() == r0.len());
            assert(b0.len() == k);
            assert(a0 == b0);
            assert(r@ == r0.push(id));
            assert(a.len() == r@.len());
            assert(b.len() == k + 1);
            assert forall|j: int| 0 <= j < a.len() implies a[j] == b[j] by {
                if j < k {
                    assert(a[j] == a0[j]);
                    assert(b[j] == b0[j]);
                }
            }
            assert(a =~= b);
        }
        k = k + 1;
    }
    assert(idx@.subrange(0, idx@.len() as int) =~= idx@);
    r
}

/// The components with more than one node, as id lists, in order.
pub open spec fn cycles_spec(g: GraphModel, comps: Seq<Seq<usize>>) -> Seq<Seq<Seq<char>>>
    decreases comps.len(),
{
    if comps.len() == 0 {
        Seq::empty()
    } else {
        let rest = cycles_spec(g, comps.drop_last());
        if comps.last().len() > 1 {
            rest.push(ids_of(g, comps.last()))
        } else {
            rest
        }
    }
}

/// The cycles are exactly the components of two nodes or more: every such
/// component is reported by its ids, and every reported cycle is, by its ids,
/// one of them.
pub proof fn lemma_cycles_are_multi_node_components(g: GraphModel, comps: Seq<Seq<usize>>)
    ensures
        forall|i: int| 0 <= i < comps.len() && comps[i].len() >= 2 ==> cycles_spec(g, comps).contains(#[trigger] ids_of(g, comps[i])),
        forall|k: int| #![trigger cycles_spec(g, comps)[k]] 0 <= k < cycles_spec(g, comps).len() ==> exists|i: int| 0 <= i < comps.len()
            && comps[i].len() >= 2 && #[trigger] ids_of(g, comps[i]) == cycles_spec(g, comps)[k],
    decreases comps.len(),
{
    if comps.len() > 0 {
        let prev = comps.drop_last();
        lemma_cycles_are_multi_node_components(g, prev);
        let rest = cycles_spec(g, prev);
        let r = cycles_spec(g, comps);
        assert forall|i: int| 0 <= i < comps.len() && comps[i].len() >= 2 implies r.contains(#[trigger] ids_of(g, comps[i])) by {
            if i < comps.len() - 1 {
                assert(prev[i] == comps[i]);
                let k = choose|k: int| 0 <= k < rest.len() && rest[k] == ids_of(g, prev[i]);
                assert(r[k] == rest[k]);
            } else {
                assert(r[r.len() - 1] == ids_of(g, comps[i]));
            }
        }
        assert forall|k: int| #![trigger r[k]] 0 <= k < r.len() implies exists|i: int| 0 <= i < comps.len() && comps[i].len() >= 2
            && #[trigger] ids_of(g, comps[i]) == r[k] by {
            if k < rest.len() {
                assert(r[k] == rest[k]);
                let i = choose|i: int| 0 <= i < prev.len() && prev[i].len() >= 2 && #[trigger] ids_of(g, prev[i]) == rest[k];
                assert(prev[i] == comps[i]);
            } else {
                assert(ids_of(g, comps[comps.len() - 1]) == r[k]);
            }
        }
    }
}

/// Any two distinct nodes that each reach the other are reported together:
/// some cycle is the ids of a component holding both.
pub proof fn lemma_mutual_nodes_in_a_cycle(g: GraphModel, comps: Seq<Seq<usize>>, u: usize, v: usize)
    requires
        scc_partition(g.nodes.len(), edge_ends(g.edges), comps),
        u < g.nodes.len(),
        v < g.nodes.len(),
        u != v,
        reaches(edge_ends(g.edges), u, v),
        reaches(edge_ends(g.edges), v, u),
    ensures
        exists|i: int| 0 <= i < comps.len() && comps[i].contains(u) && comps[i].contains(v)
            && cycles_spec(g, comps).contains(#[trigger] ids_of(g, comps[i])),
{
    assert(in_some(comps, u));
    assert(in_some(comps, v));
    let (i, a) = choose|i: int, a: int| 0 <= i < comps.len() && 0 <= a < comps[i].len() && #[trigger] comps[i][a] == u;
    let (j, b) = choose|j: int, b: int| 0 <= j < comps.len() && 0 <= b < comps[j].len() && #[trigger] comps[j][b] == v;
    assert(i == j);
    assert(a != b);
    assert(comps[i].len() >= 2);
    assert(comps[i].contains(u));
    assert(comps[i].contains(v));
    lemma_cycles_are_multi_node_components(g, comps);
    assert(cycles_spec(g, comps).contains(ids_of(g, comps[i])));
}

/// The strongly connected components of more than one node, as id lists, from
/// a list of components by node index.
pub fn cycles_from(graph: &CodeGraph, comps: &Vec<Vec<usize>>) -> (r: Vec<Vec<String>>)
    requires
        graph.wf(),
        forall|i: int, j: int| 0 <= i < comps@.len() && 0 <= j < comps@[i]@.len() ==> #[trigger] comps@[i]@[j] < graph@.nodes.len(),
    ensures
        id_lists(r@) == cycles_spec(graph@, comp_views(comps@)),
{
    let mut r: Vec<Vec<String>> = Vec::new();
    let mut i: usize = 0;
    while i < comps.len()
        invariant
            graph.wf(),
            i <= comps@.len(),
            forall|a: int, j: int| 0 <= a < comps@.len() && 0 <= j < comps@[a]@.len() ==> #[trigger] comps@[a]@[j] < graph@.nodes.len(),
            id_lists(r@) == cycles_spec(graph@, comp_views(comps@.subrange(0, i as int))),
        decreases comps@.len() - i,
    {
        let c = &comps[i];
        assert(comp_views(comps@.subrange(0, i + 1)).drop_last() =~= comp_views(comps@.subrange(0, i as int)));
        assert(comp_views(comps@.subrange(0, i + 1)).last() == c@);
        if c.len() > 1 {
            assert forall|k: int| 0 <= k < c@.len() implies #[trigger] c@[k] < graph@.nodes.len() by {
                assert(comps@[i as int]@[k] < graph@.nodes.len());
            }
            let ids = ids_at(graph, c);
            r.push(ids);
            assert(id_lists(r@) =~= cycles_spec(graph@, comp_views(comps@.subrange(0, i + 1))));
        }
        i = i + 1;
    }
    assert(comps@.subrange(0, comps@.len() as int) =~= comps@);
    r
}

/// `comps` lists the strongly connected components of a graph with `n` nodes
/// and the given edges: each is non-empty and holds node indices, every node
/// lies in exactly one of them, once, and two nodes share a component exactly
/// when each reaches the other.
pub open spec fn scc_partition(n: nat, edges: Seq<(usize, usize)>, comps: Seq<Seq<usize>>) -> bool {
    &&& forall|i: int| 0 <= i < comps.len() ==> #[trigger] comps[i].len() > 0
    &&& forall|i: int, j: int| 0 <= i < comps.len() && 0 <= j < comps[i].len() ==> #[trigger] comps[i][j] < n
    &&& forall|v: usize| v < n ==> #[trigger] in_some(comps, v)
    &&& forall|i: int, j: int, a: int, b: int|
        0 <= i < comps.len() && 0 <= j < comps.len() && 0 <= a < comps[i].len() && 0 <= b < comps[j].len() && (i != j || a != b)
            ==> #[trigger] comps[i][a] != #[trigger] comps[j][b]
    &&& forall|i: int, j: int, a: int, b: int|
        0 <= i < comps.len() && 0 <= j < comps.len() && 0 <= a < comps[i].len() && 0 <= b < comps[j].len()
            ==> (i == j <==> reaches(edges, #[trigger] comps[i][a], #[trigger] comps[j][b]) && reaches(edges, comps[j][b], comps[i][a]))
}

/// The cycles of the graph: its strongly connected components (as petgraph's
/// `kosaraju_scc` lists them) that hold more than one node, by id.
pub fn cycles(graph: &CodeGraph) -> (r: Vec<Vec<String>>)
    requires
        graph.wf(),
    ensures
        id_lists(r@) == cycles_spec(graph@, kosaraju_components(graph@.nodes.len(), edge_ends(graph@.edges))),
        scc_partition(graph@.nodes.len(), edge_ends(graph@.edges), kosaraju_components(graph@.nodes.len(), edge_ends(graph@.edges))),
{
    let comps = graph.strong_components();
    proof {
        let cv = comp_views(comps@);
        assert forall|i: int| 0 <= i < cv.len() implies #[trigger] cv[i].len() > 0 by {
            assert(comps@[i]@.len() > 0);
        }
        assert forall|i: int, j: int| 0 <= i < cv.len() && 0 <= j < cv[i].len() implies #[trigger] cv[i][j] < graph@.nodes.len() by {
            assert(comps@[i]@[j] < graph@.nodes.len());
        }
        assert forall|i: int, j: int, a: int, b: int|
            0 <= i < cv.len() && 0 <= j < cv.len() && 0 <= a < cv[i].len() && 0 <= b < cv[j].len() && (i != j || a != b)
            implies #[trigger] cv[i][a] != #[trigger] cv[j][b] by {
            assert(comps@[i]@[a] != comps@[j]@[b]);
        }
        assert forall|i: int, j: int, a: int, b: int|
            0 <= i < cv.len() && 0 <= j < cv.len() && 0 <= a < cv[i].len() && 0 <= b < cv[j].len()
            implies (i == j <==> reaches(edge_ends(graph@.edges), #[trigger] cv[i][a], #[trigger] cv[j][b])
                && reaches(edge_ends(graph@.edges), cv[j][b], cv[i][a])) by {
            assert(cv[i][a] == comps@[i]@[a] && cv[j][b] == comps@[j]@[b]);
        }
    }
    cycles_from(graph, &comps)
}

} // verus!

verus! {

/// How many of the first `k` edges end at node `v`.
pub open spec fn in_count(g: GraphModel, v: int, k: int) -> nat
    decreases k,
{
    if k <= 0 {
        0
    } else {
        in_count(g, v, k - 1) + if g.edges[k - 1].1 as int == v { 1nat } else { 0nat }
    }
}

/// How many of the first `k` edges start at node `v`.
pub open spec fn out_count(g: GraphModel, v: int, k: int) -> nat
    decreases k,
{
    if k <= 0 {
        0
    } else {
        out_count(g, v, k - 1) + if g.edges[k - 1].0 as int == v { 1nat } else { 0nat }
    }
}

/// The number of edges entering and leaving a node.
#[derive(Debug)]
pub struct NodeDegree {
    pub id: String,
    pub in_degree: usize,
    pub out_degree: usize,
}

/// The in- and out-degree of every node, in node order.
pub fn degrees(graph: &CodeGraph) -> (r: Vec<NodeDegree>)
    requires
        graph.wf(),
    ensures
        r@.len() == graph@.nodes.len(),
        forall|i: int| 0 <= i < r@.len() ==> {
            &&& (#[trigger] r@[i]).id@ == graph@.nodes[i].id@
            &&& r@[i].in_degree == in_count(graph@, i, graph@.edges.len() as int)
            &&& r@[i].out_degree == out_count(graph@, i, graph@.edges.len() as int)
        },
{
    let ghost g = graph@;
    let n = graph.node_count();
    let m = graph.edge_count();
    let mut ins: Vec<usize> = Vec::new();
    let mut outs: Vec<usize> = Vec::new();
    while ins.len() < n
        invariant
            ins@.len() <= n,
            outs@.len() == ins@.len(),
            forall|k: int| 0 <= k < ins@.len() ==> ins@[k] == 0 && outs@[k] == 0,
        decreases n - ins@.len(),
    {
        ins.push(0);
        outs.push(0);
    }
    let mut e: usize = 0;
    while e < m
        invariant
            graph.wf(),
            g == graph@,
            n == g.nodes.len(),
            m == g.edges.len(),
            e <= m,
            ins@.len() == n,
            outs@.len() == n,
            forall|v: int| 0 <= v < n ==> #[trigger] ins@[v] == in_count(g, v, e as int) && ins@[v] <= e,
            forall|v: int| 0 <= v < n ==> #[trigger] outs@[v] == out_count(g, v, e as int) && outs@[v] <= e,
        decreases m - e,
    {
        let (a, b, _k) = graph.edge_at(e);
        proof { graph.lemma_valid(); }
        assert(a < n && b < n);
        let ob = outs[a];
        outs.set(a, ob + 1);
        let ib = ins[b];
        ins.set(b, ib + 1);
        e = e + 1;
    }
    let mut r: Vec<NodeDegree> = Vec::new();
    let mut i: usize = 0;
    while i < n
        invariant
            graph.wf(),
            g == graph@,
            n == g.nodes.len(),
            m == g.edges.len(),
            i <= n,
            ins@.len() == n,
            outs@.len() == n,
            forall|v: int| 0 <= v < n ==> #[trigger] ins@[v] == in_count(g, v, m as int),
            forall|v: int| 0 <= v < n ==> #[trigger] outs@[v] == out_count(g, v, m as int),
            r@.len() == i,
            forall|k: int| 0 <= k < i ==> {
                &&& (#[trigger] r@[k]).id@ == g.nodes[k].id@
                &&& r@[k].in_degree == in_count(g, k, m as int)
                &&& r@[k].out_degree == out_count(g, k, m as int)
            },
        decreases n - i,
    {
        let id = graph.node_at(i).id.clone();
        r.push(NodeDegree { id, in_degree: ins[i], out_degree: outs[i] });
        i = i + 1;
    }
    r
}

} // verus!

verus! {

/// The nodes connected to `s` by edges in either direction (the weakly
/// connected component of `s`).
pub open spec fn component(g: GraphModel, s: int) -> Set<int> {
    within(g, s, g.nodes.len())
}

/// The indices listed in any of the lists.
pub open spec fn covered(orders: Seq<Seq<usize>>) -> Set<int> {
    Set::new(|x: int| exists|i: int| 0 <= i < orders.len() && #[trigger] index_set(orders[i]).contains(x))
}

/// `orders` lists the weakly connected components of `g`: each list names,
/// without repeats, the component of its first node, which is the smallest
/// index in it; the lists are disjoint, ordered by their first node, and
/// together cover every node.
pub open spec fn components_of(g: GraphModel, orders: Seq<Seq<usize>>) -> bool {
    &&& forall|i: int| 0 <= i < orders.len() ==> {
        &&& (#[trigger] orders[i]).no_duplicates()
        &&& orders[i].len() > 0
        &&& index_set(orders[i]) == component(g, orders[i][0] as int)
        &&& forall|x: int| index_set(orders[i]).contains(x) ==> orders[i][0] <= x
    }
    &&& forall|i: int, j: int| 0 <= i < j < orders.len() ==> (#[trigger] orders[i])[0] < (#[trigger] orders[j])[0]
    &&& forall|i: int, j: int| 0 <= i < orders.len() && 0 <= j < orders.len() && i != j
        ==> index_set(#[trigger] orders[i]).disjoint(index_set(#[trigger] orders[j]))
    &&& forall|v: int| 0 <= v < g.nodes.len() ==> #[trigger] covered(orders).contains(v)
}

/// A repeat-free list of indices below `n` has at most `n` entries.
proof fn lemma_short_listing(order: Seq<usize>, n: nat)
    requires
        order.no_duplicates(),
        forall|k: int| 0 <= k < order.len() ==> #[trigger] order[k] < n,
    ensures
        order.len() <= n,
{
    let t = order.map_values(|x: usize| x as int);
    assert forall|a: int, b: int| 0 <= a < t.len() && 0 <= b < t.len() && a != b implies t[a] != t[b] by {
        assert(order[a] != order[b]);
    }
    t.unique_seq_to_set();
    vstd::set_lib::lemma_int_range(0, n as int);
    assert forall|x: int| t.to_set().contains(x) implies vstd::set_lib::set_int_range(0, n as int).contains(x) by {
        assert(t.contains(x));
        let k = choose|k: int| 0 <= k < t.len() && t[k] == x;
        assert(order[k] < n);
    }
    vstd::set_lib::lemma_len_subset(t.to_set(), vstd::set_lib::set_int_range(0, n as int));
}

/// A reach that stopped growing has no edge leaving it.
proof fn lemma_stable_closed(g: GraphModel, s: int, k: nat)
    requires
        g.edges_valid(),
        within(g, s, k + 1) == within(g, s, k),
    ensures
        closed(g, within(g, s, k)),
{
    let p = within(g, s, k);
    assert forall|u: int, v: int| p.contains(v) && #[trigger] adjacent(g, u, v) implies p.contains(u) by {
        lemma_adjacent_symmetric(g, u, v);
        let i = choose|i: int| 0 <= i < g.edges.len() && ((#[trigger] g.edges[i]).0 == u && g.edges[i].1 == v || g.edges[i].0 == v && g.edges[i].1 == u);
        assert(0 <= u < g.nodes.len());
        assert(spread(g, p).contains(u));
    }
}

/// The weakly connected components: a breadth-first search from each node
/// not yet reached, in node order; each component lists its nodes' ids in
/// the order the search found them.
pub fn components(graph: &CodeGraph) -> (r: Vec<Vec<String>>)
    requires
        graph.wf(),
    ensures
        exists|orders: Seq<Seq<usize>>| #[trigger] components_of(graph@, orders)
            && id_lists(r@) == orders.map_values(|o: Seq<usize>| ids_of(graph@, o)),
{
    let ghost g = graph@;
    proof { graph.lemma_valid(); }
    let n = graph.node_count();
    let mut visited: Vec<bool> = Vec::new();
    while visited.len() < n
        invariant
            visited@.len() <= n,
            forall|k: int| 0 <= k < visited@.len() ==> !visited@[k],
        decreases n - visited@.len(),
    {
        visited.push(false);
    }
    let ghost mut orders: Seq<Seq<usize>> = Seq::empty();
    let mut r: Vec<Vec<String>> = Vec::new();
    proof {
        assert(marked(visited@) =~= covered(orders));
    }
    let mut v: usize = 0;
    while v < n
        invariant
            graph.wf(),
            g == graph@,
            g.valid(),
            n == g.nodes.len(),
            v <= n,
            visited@.len() == n,
            marked(visited@) == covered(orders),
            closed(g, marked(visited@)),
            forall|w: int| 0 <= w < v ==> #[trigger] visited@[w],
            forall|i: int| 0 <= i < orders.len() ==> {
                &&& (#[trigger] orders[i]).no_duplicates()
                &&& orders[i].len() > 0
                &&& orders[i][0] < v
                &&& index_set(orders[i]) == component(g, orders[i][0] as int)
                &&& forall|x: int| index_set(orders[i]).contains(x) ==> orders[i][0] <= x
            },
            forall|i: int, j: int| 0 <= i < j < orders.len() ==> (#[trigger] orders[i])[0] < (#[trigger] orders[j])[0],
            forall|i: int, j: int| 0 <= i < orders.len() && 0 <= j < orders.len() && i != j
                ==> index_set(#[trigger] orders[i]).disjoint(index_set(#[trigger] orders[j])),
            id_lists(r@) == orders.map_values(|o: Seq<usize>| ids_of(g, o)),
        decreases n - v,
    {
        if !visited[v] {
            let ghost before = marked(visited@);
            let (order, levels) = bfs(graph, v, n, &mut visited);
            let ghost w = within(g, v as int, levels as nat);
            proof {
                lemma_within_bounded(g, v as int, levels as nat);
                assert forall|k: int| 0 <= k < order@.len() implies #[trigger] order@[k] < n by {
                    assert(index_set(order@).contains(order@[k] as int));
                }
                if !(within(g, v as int, (levels + 1) as nat) == w) {
                    lemma_short_listing(order@, n as nat);
                }
                assert(within(g, v as int, (levels + 1) as nat) == w);
                lemma_within_stable(g, v as int, levels as nat, n as nat);
                assert(component(g, v as int) == w);
                lemma_stable_closed(g, v as int, levels as nat);
                lemma_within_disjoint(g, v as int, before, levels as nat);
                assert forall|x: int| w.contains(x) implies (v as int) <= x by {
                    if x < v {
                        assert(visited@.len() == n);
                        assert(before.contains(x));
                    }
                }
            }
            let ids = ids_at(graph, &order);
            let ghost orders0 = orders;
            let ghost r0 = r@;
            r.push(ids);
            proof {
                orders = orders.push(order@);
                assert(order@[0] == v);
                assert forall|x: int| marked(visited@).contains(x) <==> covered(orders).contains(x) by {
                    if covered(orders).contains(x) {
                        let i = choose|i: int| 0 <= i < orders.len() && #[trigger] index_set(orders[i]).contains(x);
                        if i < orders0.len() {
                            assert(index_set(orders0[i]).contains(x));
                            assert(covered(orders0).contains(x));
                        }
                    }
                    if before.contains(x) {
                        let i = choose|i: int| 0 <= i < orders0.len() && #[trigger] index_set(orders0[i]).contains(x);
                        assert(index_set(orders[i]).contains(x));
                    }
                    if w.contains(x) {
                        assert(index_set(orders[orders0.len() as int]).contains(x));
                    }
                }
                assert(marked(visited@) =~= covered(orders));
                assert forall|a: int, b: int| #[trigger] closed(g, before) && closed(g, w) && marked(visited@).contains(b) && adjacent(g, a, b)
                    implies marked(visited@).contains(a) by {
                }
                assert(closed(g, marked(visited@)));
                assert forall|i: int, j: int| 0 <= i < orders.len() && 0 <= j < orders.len() && i != j
                    implies index_set(#[trigger] orders[i]).disjoint(index_set(#[trigger] orders[j])) by {
                    if i == orders0.len() as int {
                        assert forall|x: int| index_set(orders[j]).contains(x) implies before.contains(x) by {
                            assert(covered(orders0).contains(x));
                        }
                    } else if j == orders0.len() as int {
                        assert forall|x: int| index_set(orders[i]).contains(x) implies before.contains(x) by {
                            assert(covered(orders0).contains(x));
                        }
                    }
                }
                let a = id_lists(r@);
                let b = orders.map_values(|o: Seq<usize>| ids_of(g, o));
                assert(id_lists(r0) == orders0.map_values(|o: Seq<usize>| ids_of(g, o)));
                assert(r@ == r0.push(ids));
                assert(id_lists(r0).len() == r0.len());
                assert(orders0.map_values(|o: Seq<usize>| ids_of(g, o)).len() == orders0.len());
                assert(a.len() == b.len());
                assert forall|j: int| 0 <= j < a.len() implies a[j] == b[j] by {
                    if j < r0.len() {
                        assert(a[j] == id_lists(r0)[j]);
                        assert(orders[j] == orders0[j]);
                    } else {
                        assert(r@[j] == ids);
                        assert(orders[j] == order@);
                    }
                }
                assert(a =~= b);
                lemma_within_mono(g, v as int, 0, levels as nat);
                assert(w.contains(v as int));
                assert forall|x: int| 0 <= x < v + 1 implies #[trigger] visited@[x] by {
                    if x < v {
                        assert(before.contains(x));
                    }
                    assert(marked(visited@).contains(x));
                }
            }
        }
        v = v + 1;
    }
    proof {
        assert forall|x: int| 0 <= x < g.nodes.len() implies #[trigger] covered(orders).contains(x) by {
            assert(visited@[x]);
            assert(marked(visited@).contains(x));
        }
        assert(components_of(g, orders));
    }
    r
}

} // verus!

verus! {

/// The structural summary of a graph: its cycles, the degree of each node,
/// its weakly connected components and its isolated nodes.
#[derive(Debug)]
pub struct Structure {
    pub cycles: Vec<Vec<String>>,
    pub degrees: Vec<NodeDegree>,
    pub components: Vec<Vec<String>>,
    pub orphan_nodes: Vec<String>,
}

/// The ids of the nodes without edges, in order.
pub open spec fn isolated(ds: Seq<NodeDegree>) -> Seq<Seq<char>>
    decreases ds.len(),
{
    if ds.len() == 0 {
        Seq::empty()
    } else {
        isolated(ds.drop_last()) + if ds.last().in_degree == 0 && ds.last().out_degree == 0 {
            seq![ds.last().id@]
        } else {
            Seq::empty()
        }
    }
}

/// The ids of the nodes without edges (see `isolated`).
pub fn orphans(ds: &Vec<NodeDegree>) -> (r: Vec<String>)
    ensures
        r@.map_values(|s: String| s@) == isolated(ds@),
{
    let mut r: Vec<String> = Vec::new();
    let mut i: usize = 0;
    while i < ds.len()
        invariant
            i <= ds@.len(),
            r@.map_values(|s: String| s@) == isolated(ds@.subrange(0, i as int)),
        decreases ds@.len() - i,
    {
        assert(ds@.subrange(0, i + 1).drop_last() =~= ds@.subrange(0, i as int));
        if ds[i].in_degree == 0 && ds[i].out_degree == 0 {
            let ghost r0 = r@;
            r.push(ds[i].id.clone());
            assert(r@.map_values(|s: String| s@) =~= r0.map_values(|s: String| s@).push(ds@[i as int].id@));
        }
        i = i + 1;
    }
    assert(ds@.subrange(0, ds@.len() as int) =~= ds@);
    r
}

/// Cycles (see `cycles`), degrees (see `degrees`), components (see
/// `components`) and isolated nodes (see `orphans`) of a graph.
pub fn structure(graph: &CodeGraph) -> (r: Structure)
    requires
        graph.wf(),
    ensures
        id_lists(r.cycles@) == cycles_spec(graph@, kosaraju_components(graph@.nodes.len(), edge_ends(graph@.edges))),
        r.degrees@.len() == graph@.nodes.len(),
        forall|i: int| 0 <= i < r.degrees@.len() ==> {
            &&& (#[trigger] r.degrees@[i]).id@ == graph@.nodes[i].id@
            &&& r.degrees@[i].in_degree == in_count(graph@, i, graph@.edges.len() as int)
            &&& r.degrees@[i].out_degree == out_count(graph@, i, graph@.edges.len() as int)
        },
        exists|orders: Seq<Seq<usize>>| #[trigger] components_of(graph@, orders)
            && id_lists(r.components@) == orders.map_values(|o: Seq<usize>| ids_of(graph@, o)),
        r.orphan_nodes@.map_values(|s: String| s@) == isolated(r.degrees@),
{
    let degrees = degrees(graph);
    let cycles = cycles(graph);
    let components = components(graph);
    let orphan_nodes = orphans(&degrees);
    Structure { cycles, degrees, components, orphan_nodes }
}

/// The largest degree a node can have among `total_nodes` nodes, counting an
/// edge in each direction to every other node (1 for graphs of at most one
/// node); coupling scores are degrees divided by it.
pub fn max_degree(total_nodes: usize) -> (r: usize)
    requires
        total_nodes <= usize::MAX / 2,
    ensures
        r == (if total_nodes > 1 { (total_nodes - 1) * 2 } else { 1 }),
{
    if total_nodes > 1 {
        (total_nodes - 1) * 2
    } else {
        1
    }
}

} // verus!

verus! {

/// The in-degrees of the nodes below `upto`, counting the first `k` edges.
pub open spec fn sum_in(g: GraphModel, upto: int, k: int) -> nat
    decreases upto,
{
    if upto <= 0 { 0 } else { sum_in(g, upto - 1, k) + in_count(g, upto - 1, k) }
}

/// The out-degrees of the nodes below `upto`, counting the first `k` edges.
pub open spec fn sum_out(g: GraphModel, upto: int, k: int) -> nat
    decreases upto,
{
    if upto <= 0 { 0 } else { sum_out(g, upto - 1, k) + out_count(g, upto - 1, k) }
}

proof fn lemma_sum_step(g: GraphModel, upto: int, k: int)
    requires
        0 <= k < g.edges.len(),
        0 <= upto,
    ensures
        sum_in(g, upto, k + 1) == sum_in(g, upto, k) + if (g.edges[k].1 as int) < upto { 1nat } else { 0nat },
        sum_out(g, upto, k + 1) == sum_out(g, upto, k) + if (g.edges[k].0 as int) < upto { 1nat } else { 0nat },
    decreases upto,
{
    if upto > 0 {
        lemma_sum_step(g, upto - 1, k);
    }
}

/// Every edge enters one node and leaves one node: the in-degrees that
/// `degrees` reports sum to the number of edges, and so do the out-degrees.
pub proof fn lemma_degree_sums(g: GraphModel)
    requires
        g.edges_valid(),
    ensures
        sum_in(g, g.nodes.len() as int, g.edges.len() as int) == g.edges.len(),
        sum_out(g, g.nodes.len() as int, g.edges.len() as int) == g.edges.len(),
{
    lemma_prefix_sums(g, g.edges.len() as int);
}

proof fn lemma_prefix_sums(g: GraphModel, k: int)
    requires
        g.edges_valid(),
        0 <= k <= g.edges.len(),
    ensures
        sum_in(g, g.nodes.len() as int, k) == k,
        sum_out(g, g.nodes.len() as int, k) == k,
    decreases k,
{
    if k == 0 {
        lemma_sums_zero(g, g.nodes.len() as int);
    } else {
        lemma_prefix_sums(g, k - 1);
        lemma_sum_step(g, g.nodes.len() as int, k - 1);
    }
}

proof fn lemma_sums_zero(g: GraphModel, upto: int)
    ensures
        sum_in(g, upto, 0) == 0,
        sum_out(g, upto, 0) == 0,
    decreases upto,
{
    if upto > 0 {
        lemma_sums_zero(g, upto - 1);
    }
}

} // verus!

verus! {

/// Each node of the difference is a node of the first list that the other
/// graph lacks, and each such node is in the difference.
pub proof fn lemma_nodes_missing_exact(ns: Seq<Node>, other: GraphModel)
    ensures
        forall|i: int| 0 <= i < nodes_missing(ns, other).len() ==> ns.contains(#[trigger] nodes_missing(ns, other)[i])
            && !other.has_id(nodes_missing(ns, other)[i].id@),
        forall|k: int| 0 <= k < ns.len() && !other.has_id(#[trigger] ns[k].id@) ==> nodes_missing(ns, other).contains(ns[k]),
    decreases ns.len(),
{
    if ns.len() > 0 {
        let d = ns.drop_last();
        lemma_nodes_missing_exact(d, other);
        let m = nodes_missing(ns, other);
        let md = nodes_missing(d, other);
        assert forall|i: int| 0 <= i < m.len() implies ns.contains(#[trigger] m[i]) && !other.has_id(m[i].id@) by {
            if i < md.len() {
                assert(m[i] == md[i]);
                let j = choose|j: int| 0 <= j < d.len() && d[j] == md[i];
                assert(ns[j] == d[j]);
            } else {
                assert(m[i] == ns.last());
                assert(ns[ns.len() - 1] == ns.last());
            }
        }
        assert forall|k: int| 0 <= k < ns.len() && !other.has_id(#[trigger] ns[k].id@) implies m.contains(ns[k]) by {
            if k < d.len() {
                assert(d[k] == ns[k]);
                let j = choose|j: int| 0 <= j < md.len() && md[j] == d[k];
                assert(m[j] == md[j]);
            } else {
                assert(m[m.len() - 1] == ns.last());
            }
        }
    }
}

/// The nodes that `diff` reports as added are exactly the nodes of the new
/// graph whose ids the old graph lacks; the removed ones are exactly the
/// nodes of the old graph whose ids the new graph lacks.
pub proof fn lemma_diff_nodes_exact(old: GraphModel, new: GraphModel)
    ensures
        forall|i: int| 0 <= i < nodes_missing(new.nodes, old).len() ==> new.nodes.contains(#[trigger] nodes_missing(new.nodes, old)[i])
            && !old.has_id(nodes_missing(new.nodes, old)[i].id@),
        forall|k: int| 0 <= k < new.nodes.len() && !old.has_id(#[trigger] new.nodes[k].id@) ==> nodes_missing(new.nodes, old).contains(new.nodes[k]),
        forall|i: int| 0 <= i < nodes_missing(old.nodes, new).len() ==> old.nodes.contains(#[trigger] nodes_missing(old.nodes, new)[i])
            && !new.has_id(nodes_missing(old.nodes, new)[i].id@),
        forall|k: int| 0 <= k < old.nodes.len() && !new.has_id(#[trigger] old.nodes[k].id@) ==> nodes_missing(old.nodes, new).contains(old.nodes[k]),
{
    lemma_nodes_missing_exact(new.nodes, old);
    lemma_nodes_missing_exact(old.nodes, new);
}

} // verus!

verus! {

proof fn lemma_with_edges_nodes(base: GraphModel, es: Seq<IdEdge>)
    ensures
        base.with_edges(es).nodes == base.nodes,
    decreases es.len(),
{
    if es.len() > 0 {
        lemma_with_edges_nodes(base, es.drop_last());
    }
}

proof fn lemma_with_nodes_keeps(base: GraphModel, ns: Seq<Node>)
    ensures
        forall|k: int| 0 <= k < ns.len() ==> base.with_nodes(ns).has_id(#[trigger] ns[k].id@),
        forall|i: int| 0 <= i < base.with_nodes(ns).nodes.len() ==>
            base.nodes.contains(#[trigger] base.with_nodes(ns).nodes[i]) || ns.contains(base.with_nodes(ns).nodes[i]),
    decreases ns.len(),
{
    if ns.len() > 0 {
        let d = ns.drop_last();
        lemma_with_nodes_keeps(base, d);
        let p = base.with_nodes(d);
        let r = base.with_nodes(ns);
        assert forall|k: int| 0 <= k < ns.len() implies r.has_id(#[trigger] ns[k].id@) by {
            if k < d.len() {
                assert(d[k] == ns[k]);
                let j = choose|j: int| 0 <= j < p.nodes.len() && #[trigger] p.nodes[j].id@ == ns[k].id@;
                if !p.has_id(ns.last().id@) {
                    assert(r.nodes[j] == p.nodes[j]);
                }
            } else {
                if !p.has_id(ns.last().id@) {
                    assert(r.nodes[p.nodes.len() as int] == ns.last());
                }
            }
        }
        assert forall|i: int| 0 <= i < r.nodes.len() implies base.nodes.contains(#[trigger] r.nodes[i]) || ns.contains(r.nodes[i]) by {
            if i < p.nodes.len() {
                assert(r.nodes[i] == p.nodes[i]);
                if !base.nodes.contains(p.nodes[i]) {
                    let j = choose|j: int| 0 <= j < d.len() && d[j] == p.nodes[i];
                    assert(ns[j] == d[j]);
                }
            } else {
                assert(r.nodes[i] == ns.last());
                assert(ns[ns.len() - 1] == ns.last());
            }
        }
    }
}

/// What `focus` gives is a neighbourhood of the focused node: it holds that
/// node, each of its nodes is a node of the graph within `depth` edges of it,
/// and at depth 0 it holds that node alone.
pub proof fn lemma_focus_neighbourhood(g: GraphModel, start: int, depth: nat, order: Seq<usize>, r: GraphModel)
    requires
        0 <= start < g.nodes.len(),
        focus_of(g, start, depth, order, r),
    ensures
        r.has_id(g.nodes[start].id@),
        forall|i: int| #![trigger r.nodes[i]] 0 <= i < r.nodes.len() ==> exists|v: int| #[trigger] within(g, start, depth).contains(v)
            && 0 <= v < g.nodes.len() && r.nodes[i] == g.nodes[v],
        depth == 0 ==> r.nodes == seq![g.nodes[start]],
{
    let ns = nodes_at(g, order);
    let base = GraphModel::empty();
    let s = within(g, start, depth);
    lemma_with_edges_nodes(base.with_nodes(ns), edges_among(g, s, g.edges.len() as int));
    lemma_with_nodes_keeps(base, ns);
    lemma_within_bounded(g, start, depth);
    assert(ns[0] == g.nodes[start]);
    assert(base.with_nodes(ns).has_id(ns[0].id@));
    assert forall|i: int| #![trigger r.nodes[i]] 0 <= i < r.nodes.len() implies exists|v: int| #[trigger] within(g, start, depth).contains(v)
        && 0 <= v < g.nodes.len() && r.nodes[i] == g.nodes[v] by {
        assert(ns.contains(r.nodes[i]));
        let k = choose|k: int| 0 <= k < ns.len() && ns[k] == r.nodes[i];
        assert(index_set(order).contains(order[k] as int));
        assert(s.contains(order[k] as int));
    }
    if depth == 0 {
        assert(s == set![start]);
        if order.len() > 1 {
            assert(index_set(order).contains(order[1] as int));
            assert(order[1] as int == start);
            assert(order[0] != order[1]);
        }
        assert(order.len() == 1);
        assert(ns =~= seq![g.nodes[start]]);
        assert(ns.drop_last() =~= Seq::<Node>::empty());
        assert(base.with_nodes(ns.drop_last()) == base);
        assert(!base.has_id(ns.last().id@));
        assert(base.with_nodes(ns) == base.with_node(ns.last()));
        assert(base.with_nodes(ns).nodes =~= seq![g.nodes[start]]);
    }
}

} // verus!
