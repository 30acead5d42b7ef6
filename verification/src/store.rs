//! Trusted access to the storage types the graph model is built on:
//! petgraph's `StableGraph` and std's `HashMap` keyed by strings.
use std::collections::HashMap;

use petgraph::graph::{EdgeIndex, NodeIndex};
use petgraph::stable_graph::StableGraph;
use petgraph::Directed;
use vstd::prelude::*;

use crate::model::{EdgeKind, Node};

verus! {

/// The petgraph graph that holds the nodes and edges of a code graph.
pub type NodeStore = StableGraph<Node, EdgeKind, Directed, usize>;

/// A std hash map from string keys to indices.
pub type IdTable = HashMap<String, usize>;

#[verifier::external_type_specification]
#[verifier::external_body]
#[verifier::reject_recursive_types(N)]
#[verifier::reject_recursive_types(E)]
#[verifier::reject_recursive_types(Ty)]
#[verifier::reject_recursive_types(Ix)]
pub struct ExStableGraph<N, E, Ty, Ix>(StableGraph<N, E, Ty, Ix>);

#[verifier::external_type_specification]
#[verifier::external_body]
pub struct ExDirected(Directed);

/// The node slots of a petgraph `StableGraph`, in index order: `Some(w)` for an
/// occupied slot holding weight `w`, `None` for a vacant one.
pub uninterp spec fn node_slots(g: NodeStore) -> Seq<Option<Node>>;

/// The edge slots of a petgraph `StableGraph`, in index order: `Some((a, b, w))`
/// for an edge from node index `a` to node index `b` with weight `w`, `None` for a
/// vacant slot.
pub uninterp spec fn edge_slots(g: NodeStore) -> Seq<Option<(usize, usize, EdgeKind)>>;

/// The edge held by an occupied edge slot.
pub open spec fn slot_edge(o: Option<(usize, usize, EdgeKind)>) -> (usize, usize, EdgeKind) {
    o->0
}

pub open spec fn all_occupied<T>(s: Seq<Option<T>>) -> bool {
    forall|i: int| 0 <= i < s.len() ==> #[trigger] s[i] is Some
}

/// `StableGraph::new`: an empty graph.
#[verifier::external_body]
pub(crate) fn sg_new() -> (g: NodeStore)
    ensures
        node_slots(g) == Seq::<Option<Node>>::empty(),
        edge_slots(g) == Seq::<Option<(usize, usize, EdgeKind)>>::empty(),
{
    StableGraph::default()
}

/// `StableGraph::add_node`: with no vacant slot, the weight goes to a new slot at
/// the end and its index is returned. (With `usize` indices the "maximum number
/// of nodes" panic cannot occur.)
#[verifier::external_body]
pub(crate) fn sg_add_node(g: &mut NodeStore, n: Node) -> (idx: usize)
    requires
        all_occupied(node_slots(*old(g))),
    ensures
        node_slots(*final(g)) == node_slots(*old(g)).push(Some(n)),
        edge_slots(*final(g)) == edge_slots(*old(g)),
        idx == node_slots(*old(g)).len(),
{
    g.add_node(n).index()
}

/// `StableGraph::add_edge`: with no vacant edge slot, the edge goes to a new slot
/// at the end. Both endpoints must be occupied node slots (petgraph panics
/// otherwise).
#[verifier::external_body]
pub(crate) fn sg_add_edge(g: &mut NodeStore, a: usize, b: usize, k: EdgeKind)
    requires
        all_occupied(edge_slots(*old(g))),
        a < node_slots(*old(g)).len(),
        b < node_slots(*old(g)).len(),
        node_slots(*old(g))[a as int] is Some,
        node_slots(*old(g))[b as int] is Some,
    ensures
        node_slots(*final(g)) == node_slots(*old(g)),
        edge_slots(*final(g)) == edge_slots(*old(g)).push(Some((a, b, k))),
{
    g.add_edge(NodeIndex::new(a), NodeIndex::new(b), k);
}

/// `StableGraph::node_count`: the number of occupied node slots.
#[verifier::external_body]
pub(crate) fn sg_node_count(g: &NodeStore) -> (n: usize)
    requires
        all_occupied(node_slots(*g)),
    ensures
        n == node_slots(*g).len(),
{
    g.node_count()
}

/// `StableGraph::edge_count`: the number of occupied edge slots.
#[verifier::external_body]
pub(crate) fn sg_edge_count(g: &NodeStore) -> (n: usize)
    requires
        all_occupied(edge_slots(*g)),
    ensures
        n == edge_slots(*g).len(),
{
    g.edge_count()
}

/// `StableGraph::node_weight`: the weight in slot `i`, if that slot exists and
/// is occupied.
#[verifier::external_body]
pub(crate) fn sg_node_weight(g: &NodeStore, i: usize) -> (r: Option<&Node>)
    ensures
        r is Some <==> (i < node_slots(*g).len() && node_slots(*g)[i as int] is Some),
        r matches Some(n) ==> Some(*n) == node_slots(*g)[i as int],
{
    g.node_weight(NodeIndex::new(i))
}

/// `StableGraph::edge_endpoints`: source and target of the edge in slot `i`, if
/// that slot exists and is occupied.
#[verifier::external_body]
pub(crate) fn sg_edge_endpoints(g: &NodeStore, i: usize) -> (r: Option<(usize, usize)>)
    ensures
        r == (if i < edge_slots(*g).len() && edge_slots(*g)[i as int] is Some {
            Some((slot_edge(edge_slots(*g)[i as int]).0, slot_edge(edge_slots(*g)[i as int]).1))
        } else {
            None::<(usize, usize)>
        }),
{
    g.edge_endpoints(EdgeIndex::new(i)).map(|(s, t)| (s.index(), t.index()))
}

/// `StableGraph::edge_weight`: the weight of the edge in slot `i`, if that slot
/// exists and is occupied.
#[verifier::external_body]
pub(crate) fn sg_edge_weight(g: &NodeStore, i: usize) -> (r: Option<EdgeKind>)
    ensures
        r == (if i < edge_slots(*g).len() && edge_slots(*g)[i as int] is Some {
            Some(slot_edge(edge_slots(*g)[i as int]).2)
        } else {
            None::<EdgeKind>
        }),
{
    g.edge_weight(EdgeIndex::new(i)).copied()
}

/// `StableGraph::edges_connecting` on a directed graph: the weights of the edges
/// from `a` to `b` (in an order that the contract leaves open; a kind occurs in
/// the result exactly when some edge `a -> b` carries it).
#[verifier::external_body]
pub(crate) fn sg_kinds_connecting(g: &NodeStore, a: usize, b: usize) -> (r: Vec<EdgeKind>)
    requires
        a < node_slots(*g).len(),
        b < node_slots(*g).len(),
        node_slots(*g)[a as int] is Some,
        node_slots(*g)[b as int] is Some,
    ensures
        r@.to_set() == Set::new(|k: EdgeKind| exists|i: int|
            0 <= i < edge_slots(*g).len() && edge_slots(*g)[i] == Some((a, b, k))),
{
    g.edges_connecting(NodeIndex::new(a), NodeIndex::new(b)).map(|e| *e.weight()).collect()
}

/// `StableGraph::neighbors_directed(u, Outgoing)`: the targets of the edges
/// leaving `u` (in an order the contract leaves open; a target may repeat).
#[verifier::external_body]
pub(crate) fn sg_successors(g: &NodeStore, u: usize) -> (r: Vec<usize>)
    requires
        u < node_slots(*g).len(),
        node_slots(*g)[u as int] is Some,
    ensures
        r@.to_set() == Set::new(|v: usize| exists|i: int|
            0 <= i < edge_slots(*g).len() && edge_slots(*g)[i] is Some
                && slot_edge(edge_slots(*g)[i]).0 == u && slot_edge(edge_slots(*g)[i]).1 == v),
{
    g.neighbors_directed(NodeIndex::new(u), petgraph::Outgoing).map(|n| n.index()).collect()
}

/// `StableGraph::neighbors_directed(u, Incoming)`: the sources of the edges
/// entering `u` (in an order the contract leaves open; a source may repeat).
#[verifier::external_body]
pub(crate) fn sg_predecessors(g: &NodeStore, u: usize) -> (r: Vec<usize>)
    requires
        u < node_slots(*g).len(),
        node_slots(*g)[u as int] is Some,
    ensures
        r@.to_set() == Set::new(|v: usize| exists|i: int|
            0 <= i < edge_slots(*g).len() && edge_slots(*g)[i] is Some
                && slot_edge(edge_slots(*g)[i]).1 == u && slot_edge(edge_slots(*g)[i]).0 == v),
{
    g.neighbors_directed(NodeIndex::new(u), petgraph::Incoming).map(|n| n.index()).collect()
}

/// What `petgraph::algo::kosaraju_scc` returns for a graph with `n` node slots
/// and the given edges (source and target indices, in edge index order), each
/// component given by node indices.
pub uninterp spec fn kosaraju_components(n: nat, edges: Seq<(usize, usize)>) -> Seq<Seq<usize>>;

/// The component lists as sequences.
pub open spec fn comp_views(r: Seq<Vec<usize>>) -> Seq<Seq<usize>> {
    r.map_values(|c: Vec<usize>| c@)
}

pub open spec fn edge_pairs(s: Seq<Option<(usize, usize, EdgeKind)>>) -> Seq<(usize, usize)> {
    s.map_values(|o: Option<(usize, usize, EdgeKind)>| (slot_edge(o).0, slot_edge(o).1))
}

/// `p` is a path from `a` to `b` along the directed edges.
pub open spec fn is_path(edges: Seq<(usize, usize)>, p: Seq<usize>, a: usize, b: usize) -> bool {
    &&& p.len() > 0
    &&& p[0] == a
    &&& p.last() == b
    &&& forall|k: int| 0 <= k < p.len() - 1 ==> edges.contains((#[trigger] p[k], p[k + 1]))
}

/// Node `b` can be reached from node `a` along the directed edges (every
/// node reaches itself).
pub open spec fn reaches(edges: Seq<(usize, usize)>, a: usize, b: usize) -> bool {
    exists|p: Seq<usize>| #[trigger] is_path(edges, p, a, b)
}

/// Node `v` lies in one of the components.
pub open spec fn in_some(comps: Seq<Seq<usize>>, v: usize) -> bool {
    exists|i: int, a: int| 0 <= i < comps.len() && 0 <= a < comps[i].len() && #[trigger] comps[i][a] == v
}

/// `petgraph::algo::kosaraju_scc`: the strongly connected components. The
/// result is named; beyond that, as its documentation says, each element is a
/// strongly connected component: each is non-empty and holds indices of nodes
/// of the graph, every node lies in exactly one of them, once, and two nodes
/// lie in the same component exactly when each reaches the other. The order
/// of the components and within each is not stated.
#[verifier::external_body]
pub(crate) fn sg_kosaraju_scc(g: &NodeStore) -> (r: Vec<Vec<usize>>)
    requires
        all_occupied(node_slots(*g)),
        all_occupied(edge_slots(*g)),
    ensures
        comp_views(r@) == kosaraju_components(node_slots(*g).len(), edge_pairs(edge_slots(*g))),
        forall|i: int| 0 <= i < r@.len() ==> #[trigger] r@[i]@.len() > 0,
        forall|i: int, j: int| 0 <= i < r@.len() && 0 <= j < r@[i]@.len() ==> #[trigger] r@[i]@[j] < node_slots(*g).len(),
        forall|i: int, j: int, a: int, b: int|
            0 <= i < r@.len() && 0 <= j < r@.len() && 0 <= a < r@[i]@.len() && 0 <= b < r@[j]@.len() && (i != j || a != b)
                ==> #[trigger] r@[i]@[a] != #[trigger] r@[j]@[b],
        forall|v: usize| v < node_slots(*g).len() ==> #[trigger] in_some(comp_views(r@), v),
        forall|i: int, j: int, a: int, b: int|
            0 <= i < r@.len() && 0 <= j < r@.len() && 0 <= a < r@[i]@.len() && 0 <= b < r@[j]@.len()
                ==> (i == j <==> reaches(edge_pairs(edge_slots(*g)), #[trigger] r@[i]@[a], #[trigger] r@[j]@[b])
                    && reaches(edge_pairs(edge_slots(*g)), r@[j]@[b], r@[i]@[a])),
{
    petgraph::algo::kosaraju_scc(g).into_iter().map(|c| c.into_iter().map(|x| x.index()).collect()).collect()
}

/// The entries of a std `HashMap` keyed by strings, keys taken by their
/// character sequence.
pub uninterp spec fn str_map_entries(m: IdTable) -> Map<Seq<char>, usize>;

/// `HashMap::new`: an empty map.
#[verifier::external_body]
pub(crate) fn str_map_new() -> (m: IdTable)
    ensures
        str_map_entries(m).dom() == Set::<Seq<char>>::empty(),
{
    HashMap::new()
}

/// `HashMap::get`: the value stored under a key equal to `k`, if any.
#[verifier::external_body]
pub(crate) fn str_map_get(m: &IdTable, k: &str) -> (r: Option<usize>)
    ensures
        r == (if str_map_entries(*m).dom().contains(k@) { Some(str_map_entries(*m)[k@]) } else { None::<usize> }),
{
    m.get(k).copied()
}

/// `HashMap::insert`: afterwards `k` maps to `v`, all other entries unchanged.
#[verifier::external_body]
pub(crate) fn str_map_insert(m: &mut IdTable, k: String, v: usize)
    ensures
        str_map_entries(*final(m)) == str_map_entries(*old(m)).insert(k@, v),
{
    m.insert(k, v);
}

} // verus!
