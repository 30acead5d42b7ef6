//! The graph data model: nodes, edges, the graph itself and its flat form.
use std::collections::HashMap;

use petgraph::stable_graph::StableGraph;
use petgraph::Directed;
use vstd::prelude::*;

use crate::store::{
    all_occupied, edge_slots, node_slots, sg_add_edge, sg_add_node, sg_edge_count,
    sg_edge_endpoints, sg_edge_weight, sg_kosaraju_scc, kosaraju_components, comp_views, edge_pairs, sg_kinds_connecting, sg_new, sg_predecessors, sg_successors, slot_edge, sg_node_count, sg_node_weight,
    str_map_entries, str_map_get, str_map_insert, str_map_new, IdTable, NodeStore, in_some, reaches,
};

verus! {

/// What a graph node stands for.
#[derive(Debug, Clone, Copy, PartialEq, Eq, Structural)]
pub enum NodeKind {
    Module,
    Class,
    Struct,
    Function,
    Method,
    Property,
    Constant,
}

/// What a graph edge stands for.
#[derive(Debug, Clone, Copy, PartialEq, Eq, Structural)]
pub enum EdgeKind {
    Contains,
    Imports,
    Inherits,
    Calls,
    UsesType,
    ExternalDep,
    FieldType,
}

/// A node of the code graph; `id` identifies it within a graph.
#[derive(Debug)]
pub struct Node {
    pub id: String,
    pub name: String,
    pub kind: NodeKind,
    pub file: String,
    pub line: usize,
    pub is_external: bool,
    pub docstring: Option<String>,
}

impl Clone for Node {
    fn clone(&self) -> (r: Node)
        ensures
            r == *self,
    {
        let docstring = match &self.docstring {
            Some(d) => Some(d.clone()),
            None => None,
        };
        Node {
            id: self.id.clone(),
            name: self.name.clone(),
            kind: self.kind,
            file: self.file.clone(),
            line: self.line,
            is_external: self.is_external,
            docstring,
        }
    }
}

/// A directed edge between two node ids.
#[derive(Debug)]
pub struct Edge {
    pub source: String,
    pub target: String,
    pub kind: EdgeKind,
}

impl Clone for Edge {
    fn clone(&self) -> (r: Edge)
        ensures
            r == *self,
    {
        Edge { source: self.source.clone(), target: self.target.clone(), kind: self.kind }
    }
}

} // verus!

verus! {

/// The abstract contents of a code graph: nodes in index order and edges as
/// (source index, target index, kind), in insertion order.
pub struct GraphModel {
    pub nodes: Seq<Node>,
    pub edges: Seq<(usize, usize, EdgeKind)>,
}

/// An edge named by the ids of its endpoints.
pub type IdEdge = (Seq<char>, Seq<char>, EdgeKind);

impl GraphModel {
    pub open spec fn empty() -> GraphModel {
        GraphModel { nodes: Seq::empty(), edges: Seq::empty() }
    }

    /// Some node carries this id.
    pub open spec fn has_id(self, id: Seq<char>) -> bool {
        exists|i: int| 0 <= i < self.nodes.len() && #[trigger] self.nodes[i].id@ == id
    }

    /// The index of the node with this id (meaningful when `has_id(id)`).
    pub open spec fn index_of(self, id: Seq<char>) -> int {
        choose|i: int| 0 <= i < self.nodes.len() && #[trigger] self.nodes[i].id@ == id
    }

    /// No two nodes share an id.
    pub open spec fn ids_unique(self) -> bool {
        forall|i: int, j: int|
            0 <= i < self.nodes.len() && 0 <= j < self.nodes.len() && i != j
                ==> #[trigger] self.nodes[i].id@ != #[trigger] self.nodes[j].id@
    }

    /// Every edge joins two nodes of the graph and no edge occurs twice.
    pub open spec fn edges_valid(self) -> bool {
        &&& forall|i: int| 0 <= i < self.edges.len() ==> (#[trigger] self.edges[i]).0 < self.nodes.len()
            && self.edges[i].1 < self.nodes.len()
        &&& forall|i: int, j: int|
            0 <= i < self.edges.len() && 0 <= j < self.edges.len() && i != j
                ==> #[trigger] self.edges[i] != #[trigger] self.edges[j]
    }

    pub open spec fn valid(self) -> bool {
        self.ids_unique() && self.edges_valid()
    }

    /// The effect of adding a node: nothing if its id is taken, else appended.
    pub open spec fn with_node(self, n: Node) -> GraphModel {
        if self.has_id(n.id@) {
            self
        } else {
            GraphModel { nodes: self.nodes.push(n), edges: self.edges }
        }
    }

    /// The effect of adding an edge between two ids: nothing if an endpoint is
    /// missing or the same edge exists, else appended.
    pub open spec fn with_edge(self, source: Seq<char>, target: Seq<char>, kind: EdgeKind) -> GraphModel {
        if self.has_id(source) && self.has_id(target) {
            let e = (self.index_of(source) as usize, self.index_of(target) as usize, kind);
            if self.edges.contains(e) {
                self
            } else {
                GraphModel { nodes: self.nodes, edges: self.edges.push(e) }
            }
        } else {
            self
        }
    }

    /// Adding the nodes one after another, in order.
    pub open spec fn with_nodes(self, ns: Seq<Node>) -> GraphModel
        decreases ns.len(),
    {
        if ns.len() == 0 {
            self
        } else {
            self.with_nodes(ns.drop_last()).with_node(ns.last())
        }
    }

    /// Adding the edges one after another, in order.
    pub open spec fn with_edges(self, es: Seq<IdEdge>) -> GraphModel
        decreases es.len(),
    {
        if es.len() == 0 {
            self
        } else {
            let e = es.last();
            self.with_edges(es.drop_last()).with_edge(e.0, e.1, e.2)
        }
    }

    /// The edges named by the ids of their endpoints.
    pub open spec fn id_edges(self) -> Seq<IdEdge> {
        self.edges.map_values(|e: (usize, usize, EdgeKind)| (self.nodes[e.0 as int].id@, self.nodes[e.1 as int].id@, e.2))
    }
}

pub open spec fn edge_ids(es: Seq<Edge>) -> Seq<IdEdge> {
    es.map_values(|e: Edge| (e.source@, e.target@, e.kind))
}

pub open spec fn count_kind(ns: Seq<Node>, k: NodeKind) -> nat
    decreases ns.len(),
{
    if ns.len() == 0 {
        0
    } else {
        count_kind(ns.drop_last(), k) + if ns.last().kind == k { 1nat } else { 0nat }
    }
}

pub open spec fn count_external(ns: Seq<Node>) -> nat
    decreases ns.len(),
{
    if ns.len() == 0 {
        0
    } else {
        count_external(ns.drop_last()) + if ns.last().is_external { 1nat } else { 0nat }
    }
}

/// Node and edge counts of a graph, by kind.
#[derive(Debug, Clone, Copy, PartialEq, Eq, Structural)]
pub struct GraphStats {
    pub node_count: usize,
    pub edge_count: usize,
    pub module_count: usize,
    pub class_count: usize,
    pub struct_count: usize,
    pub function_count: usize,
    pub method_count: usize,
    pub property_count: usize,
    pub constant_count: usize,
    pub external_count: usize,
}

/// The statistics that `CodeGraph::stats` reports for a graph.
pub open spec fn stats_of(g: GraphModel) -> GraphStats {
    GraphStats {
        node_count: g.nodes.len() as usize,
        edge_count: g.edges.len() as usize,
        module_count: count_kind(g.nodes, NodeKind::Module) as usize,
        class_count: count_kind(g.nodes, NodeKind::Class) as usize,
        struct_count: count_kind(g.nodes, NodeKind::Struct) as usize,
        function_count: count_kind(g.nodes, NodeKind::Function) as usize,
        method_count: count_kind(g.nodes, NodeKind::Method) as usize,
        property_count: count_kind(g.nodes, NodeKind::Property) as usize,
        constant_count: count_kind(g.nodes, NodeKind::Constant) as usize,
        external_count: count_external(g.nodes) as usize,
    }
}

/// A code graph: nodes unique by id, and directed edges unique by
/// (source, target, kind).
pub struct CodeGraph {
    graph: NodeStore,
    index_map: IdTable,
}

/// The flat form of a graph: statistics, nodes and edges by id.
#[derive(Debug)]
pub struct SerializableGraph {
    pub stats: GraphStats,
    pub nodes: Vec<Node>,
    pub edges: Vec<Edge>,
}

impl View for CodeGraph {
    type V = GraphModel;

    closed spec fn view(&self) -> GraphModel {
        GraphModel {
            nodes: Seq::new(node_slots(self.graph).len(), |i: int| node_slots(self.graph)[i]->0),
            edges: Seq::new(edge_slots(self.graph).len(), |i: int| edge_slots(self.graph)[i]->0),
        }
    }
}

} // verus!

verus! {

/// With unique ids, the node carrying an id sits at `index_of` that id.
pub proof fn lemma_index_of_unique(g: GraphModel, i: int)
    requires
        g.ids_unique(),
        0 <= i < g.nodes.len(),
    ensures
        g.has_id(g.nodes[i].id@),
        g.index_of(g.nodes[i].id@) == i,
{
    let id = g.nodes[i].id@;
    assert(g.nodes[i].id@ == id);
    let j = g.index_of(id);
    assert(0 <= j < g.nodes.len() && g.nodes[j].id@ == id);
}

impl CodeGraph {
    /// The storage holds exactly the model, the id table indexes every node
    /// by its id and nothing else, ids are unique and edges valid.
    pub closed spec fn wf(&self) -> bool {
        let slots = node_slots(self.graph);
        let table = str_map_entries(self.index_map);
        &&& all_occupied(slots)
        &&& all_occupied(edge_slots(self.graph))
        &&& self@.valid()
        &&& forall|i: int| 0 <= i < slots.len() ==> #[trigger] table.dom().contains(self@.nodes[i].id@)
            && table[self@.nodes[i].id@] == i
        &&& forall|k: Seq<char>| #[trigger] table.dom().contains(k) ==> table[k] < slots.len()
            && self@.nodes[table[k] as int].id@ == k
    }

    proof fn lemma_view(&self)
        requires
            all_occupied(node_slots(self.graph)),
            all_occupied(edge_slots(self.graph)),
        ensures
            self@.nodes.len() == node_slots(self.graph).len(),
            self@.edges.len() == edge_slots(self.graph).len(),
            forall|i: int| 0 <= i < self@.nodes.len() ==> node_slots(self.graph)[i] == Some(#[trigger] self@.nodes[i]),
            forall|i: int| 0 <= i < self@.edges.len() ==> edge_slots(self.graph)[i] == Some(#[trigger] self@.edges[i]),
    {
        assert forall|i: int| 0 <= i < self@.nodes.len() implies node_slots(self.graph)[i] == Some(#[trigger] self@.nodes[i]) by {
            assert(node_slots(self.graph)[i] is Some);
        }
        assert forall|i: int| 0 <= i < self@.edges.len() implies edge_slots(self.graph)[i] == Some(#[trigger] self@.edges[i]) by {
            assert(edge_slots(self.graph)[i] is Some);
        }
    }

    /// An empty graph.
    pub fn new() -> (g: CodeGraph)
        ensures
            g.wf(),
            g@ == GraphModel::empty(),
    {
        let g = CodeGraph { graph: sg_new(), index_map: str_map_new() };
        assert(g@.nodes =~= Seq::<Node>::empty());
        assert(g@.edges =~= Seq::<(usize, usize, EdgeKind)>::empty());
        g
    }

    /// Adds a node unless a node with the same id exists; returns the index of
    /// the node with that id.
    pub fn add_node(&mut self, node: Node) -> (idx: usize)
        requires
            old(self).wf(),
        ensures
            final(self).wf(),
            final(self)@ == old(self)@.with_node(node),
            final(self)@.has_id(node.id@),
            idx == final(self)@.index_of(node.id@),
            idx < final(self)@.nodes.len(),
    {
        proof { self.lemma_view(); }
        let ghost old_model = self@;
        match str_map_get(&self.index_map, node.id.as_str()) {
            Some(i) => {
                proof {
                    lemma_index_of_unique(old_model, i as int);
                }
                return i;
            },
            None => {},
        }
        proof {
            assert(!old_model.has_id(node.id@)) by {
                if old_model.has_id(node.id@) {
                    let j = choose|j: int| 0 <= j < old_model.nodes.len() && #[trigger] old_model.nodes[j].id@ == node.id@;
                    assert(str_map_entries(self.index_map).dom().contains(old_model.nodes[j].id@));
                }
            }
        }
        let id = node.id.clone();
        let ghost n = node;
        let idx = sg_add_node(&mut self.graph, node);
        str_map_insert(&mut self.index_map, id, idx);
        proof {
            self.lemma_view();
            let new_model = self@;
            assert(new_model.nodes =~= old_model.nodes.push(n));
            assert(new_model.edges =~= old_model.edges);
            let table = str_map_entries(self.index_map);
            assert forall|i: int| 0 <= i < new_model.nodes.len() implies #[trigger] table.dom().contains(new_model.nodes[i].id@)
                && table[new_model.nodes[i].id@] == i by {
                if i < old_model.nodes.len() {
                    assert(new_model.nodes[i] == old_model.nodes[i]);
                }
            }
            assert(new_model.ids_unique()) by {
                assert forall|i: int, j: int|
                    0 <= i < new_model.nodes.len() && 0 <= j < new_model.nodes.len() && i != j
                        implies #[trigger] new_model.nodes[i].id@ != #[trigger] new_model.nodes[j].id@ by {
                    if i == old_model.nodes.len() as int {
                        assert(old_model.nodes[j].id@ == new_model.nodes[j].id@);
                    } else if j == old_model.nodes.len() as int {
                        assert(old_model.nodes[i].id@ == new_model.nodes[i].id@);
                    }
                }
            }
            lemma_index_of_unique(new_model, idx as int);
        }
        idx
    }

    /// Adds an edge between the nodes with the given ids, unless one of them
    /// is missing or the same edge exists already.
    pub fn add_edge(&mut self, source: &str, target: &str, kind: EdgeKind)
        requires
            old(self).wf(),
        ensures
            final(self).wf(),
            final(self)@ == old(self)@.with_edge(source@, target@, kind),
    {
        proof { self.lemma_view(); }
        let ghost old_model = self@;
        let s = match str_map_get(&self.index_map, source) {
            Some(i) => i,
            None => {
                proof {
                    assert(!old_model.has_id(source@)) by {
                        if old_model.has_id(source@) {
                            let j = choose|j: int| 0 <= j < old_model.nodes.len() && #[trigger] old_model.nodes[j].id@ == source@;
                            assert(str_map_entries(self.index_map).dom().contains(old_model.nodes[j].id@));
                        }
                    }
                }
                return;
            },
        };
        let t = match str_map_get(&self.index_map, target) {
            Some(i) => i,
            None => {
                proof {
                    assert(!old_model.has_id(target@)) by {
                        if old_model.has_id(target@) {
                            let j = choose|j: int| 0 <= j < old_model.nodes.len() && #[trigger] old_model.nodes[j].id@ == target@;
                            assert(str_map_entries(self.index_map).dom().contains(old_model.nodes[j].id@));
                        }
                    }
                }
                return;
            },
        };
        proof {
            lemma_index_of_unique(old_model, s as int);
            lemma_index_of_unique(old_model, t as int);
        }
        let kinds = sg_kinds_connecting(&self.graph, s, t);
        let mut found = false;
        let mut j: usize = 0;
        while j < kinds.len()
            invariant
                j <= kinds.len(),
                found <==> exists|m: int| 0 <= m < j && kinds@[m] == kind,
            decreases kinds.len() - j,
        {
            if kinds[j] == kind {
                found = true;
            }
            j = j + 1;
        }
        let ghost e = (s, t, kind);
        proof {
            assert(found <==> kinds@.contains(kind));
            assert(kinds@.contains(kind) <==> kinds@.to_set().contains(kind));
            assert(found <==> old_model.edges.contains(e)) by {
                if old_model.edges.contains(e) {
                    let m = choose|m: int| 0 <= m < old_model.edges.len() && old_model.edges[m] == e;
                    assert(edge_slots(self.graph)[m] == Some(e));
                }
                if kinds@.to_set().contains(kind) {
                    let m = choose|m: int| 0 <= m < edge_slots(self.graph).len() && edge_slots(self.graph)[m] == Some((s, t, kind));
                    assert(old_model.edges[m] == e);
                }
            }
        }
        if !found {
            sg_add_edge(&mut self.graph, s, t, kind);
            proof {
                self.lemma_view();
                let new_model = self@;
                assert(new_model.nodes =~= old_model.nodes);
                assert(new_model.edges =~= old_model.edges.push(e));
                assert(new_model.edges_valid()) by {
                    assert forall|a: int, b: int|
                        0 <= a < new_model.edges.len() && 0 <= b < new_model.edges.len() && a != b
                            implies #[trigger] new_model.edges[a] != #[trigger] new_model.edges[b] by {
                        if a == old_model.edges.len() as int {
                            assert(old_model.edges[b] == new_model.edges[b]);
                        } else if b == old_model.edges.len() as int {
                            assert(old_model.edges[a] == new_model.edges[a]);
                        }
                    }
                }
            }
        }
    }

    /// Whether a node with this id exists.
    pub fn has_node(&self, id: &str) -> (r: bool)
        requires
            self.wf(),
        ensures
            r == self@.has_id(id@),
    {
        proof { self.lemma_view(); }
        match str_map_get(&self.index_map, id) {
            Some(i) => {
                proof { lemma_index_of_unique(self@, i as int); }
                true
            },
            None => {
                proof {
                    if self@.has_id(id@) {
                        let j = choose|j: int| 0 <= j < self@.nodes.len() && #[trigger] self@.nodes[j].id@ == id@;
                        assert(str_map_entries(self.index_map).dom().contains(self@.nodes[j].id@));
                    }
                }
                false
            },
        }
    }

    /// The node with this id, if any.
    pub fn get_node(&self, id: &str) -> (r: Option<&Node>)
        requires
            self.wf(),
        ensures
            r is Some <==> self@.has_id(id@),
            r matches Some(n) ==> *n == self@.nodes[self@.index_of(id@)],
    {
        proof { self.lemma_view(); }
        match str_map_get(&self.index_map, id) {
            Some(i) => {
                proof { lemma_index_of_unique(self@, i as int); }
                sg_node_weight(&self.graph, i)
            },
            None => {
                proof {
                    if self@.has_id(id@) {
                        let j = choose|j: int| 0 <= j < self@.nodes.len() && #[trigger] self@.nodes[j].id@ == id@;
                        assert(str_map_entries(self.index_map).dom().contains(self@.nodes[j].id@));
                    }
                }
                None
            },
        }
    }

    /// The number of nodes.
    pub fn node_count(&self) -> (n: usize)
        requires
            self.wf(),
        ensures
            n == self@.nodes.len(),
    {
        proof { self.lemma_view(); }
        sg_node_count(&self.graph)
    }

    /// The number of edges.
    pub fn edge_count(&self) -> (n: usize)
        requires
            self.wf(),
        ensures
            n == self@.edges.len(),
    {
        proof { self.lemma_view(); }
        sg_edge_count(&self.graph)
    }

    /// The node at index `i`.
    pub fn node_at(&self, i: usize) -> (r: &Node)
        requires
            self.wf(),
            i < self@.nodes.len(),
        ensures
            *r == self@.nodes[i as int],
    {
        proof { self.lemma_view(); }
        match sg_node_weight(&self.graph, i) {
            Some(n) => n,
            None => vstd::pervasive::unreached(),
        }
    }

    /// The edge at index `i`, as (source index, target index, kind).
    pub fn edge_at(&self, i: usize) -> (r: (usize, usize, EdgeKind))
        requires
            self.wf(),
            i < self@.edges.len(),
        ensures
            r == self@.edges[i as int],
    {
        proof { self.lemma_view(); }
        let ends = sg_edge_endpoints(&self.graph, i);
        let kind = sg_edge_weight(&self.graph, i);
        match (ends, kind) {
            (Some((a, b)), Some(k)) => (a, b, k),
            _ => vstd::pervasive::unreached(),
        }
    }
}

} // verus!

verus! {

proof fn lemma_count_kind_push(ns: Seq<Node>, n: Node, k: NodeKind)
    ensures
        count_kind(ns.push(n), k) == count_kind(ns, k) + if n.kind == k { 1nat } else { 0nat },
        count_external(ns.push(n)) == count_external(ns) + if n.is_external { 1nat } else { 0nat },
{
    assert(ns.push(n).drop_last() =~= ns);
}

proof fn lemma_counts_bounded(ns: Seq<Node>, k: NodeKind)
    ensures
        count_kind(ns, k) <= ns.len(),
        count_external(ns) <= ns.len(),
    decreases ns.len(),
{
    if ns.len() > 0 {
        lemma_counts_bounded(ns.drop_last(), k);
    }
}

/// Every node has exactly one kind: the per-kind counts add up to the
/// number of nodes.
pub proof fn lemma_kind_counts_sum(ns: Seq<Node>)
    ensures
        count_kind(ns, NodeKind::Module) + count_kind(ns, NodeKind::Class) + count_kind(ns, NodeKind::Struct)
            + count_kind(ns, NodeKind::Function) + count_kind(ns, NodeKind::Method)
            + count_kind(ns, NodeKind::Property) + count_kind(ns, NodeKind::Constant) == ns.len(),
    decreases ns.len(),
{
    if ns.len() > 0 {
        lemma_kind_counts_sum(ns.drop_last());
    }
}

impl Default for CodeGraph {
    fn default() -> (g: CodeGraph)
        ensures
            g.wf(),
            g@ == GraphModel::empty(),
    {
        CodeGraph::new()
    }
}

impl CodeGraph {
    /// The nodes, in index order.
    pub fn nodes(&self) -> (r: Vec<Node>)
        requires
            self.wf(),
        ensures
            r@ == self@.nodes,
    {
        let n = self.node_count();
        let mut r: Vec<Node> = Vec::new();
        let mut i: usize = 0;
        while i < n
            invariant
                self.wf(),
                n == self@.nodes.len(),
                i <= n,
                r@ == self@.nodes.subrange(0, i as int),
            decreases n - i,
        {
            r.push(self.node_at(i).clone());
            i = i + 1;
            assert(r@ =~= self@.nodes.subrange(0, i as int));
        }
        assert(r@ =~= self@.nodes);
        r
    }

    /// The edges, each with its source node, target node and kind, in edge
    /// order.
    pub fn edges(&self) -> (r: Vec<(Node, Node, EdgeKind)>)
        requires
            self.wf(),
        ensures
            r@.len() == self@.edges.len(),
            forall|i: int| 0 <= i < r@.len() ==> {
                let e = #[trigger] self@.edges[i];
                r@[i] == (self@.nodes[e.0 as int], self@.nodes[e.1 as int], e.2)
            },
    {
        let m = self.edge_count();
        let mut r: Vec<(Node, Node, EdgeKind)> = Vec::new();
        let mut i: usize = 0;
        while i < m
            invariant
                self.wf(),
                m == self@.edges.len(),
                i <= m,
                r@.len() == i,
                forall|j: int| 0 <= j < i ==> {
                    let e = #[trigger] self@.edges[j];
                    r@[j] == (self@.nodes[e.0 as int], self@.nodes[e.1 as int], e.2)
                },
            decreases m - i,
        {
            let (a, b, k) = self.edge_at(i);
            proof { self.lemma_valid(); assert(self@.edges[i as int].0 < self@.nodes.len()); }
            r.push((self.node_at(a).clone(), self.node_at(b).clone(), k));
            i = i + 1;
        }
        r
    }

    /// A well-formed graph's model is valid.
    pub proof fn lemma_valid(&self)
        requires
            self.wf(),
        ensures
            self@.valid(),
    {
    }

    /// Node and edge counts by kind.
    pub fn stats(&self) -> (s: GraphStats)
        requires
            self.wf(),
        ensures
            s == stats_of(self@),
    {
        let n = self.node_count();
        let mut s = GraphStats {
            node_count: 0,
            edge_count: self.edge_count(),
            module_count: 0,
            class_count: 0,
            struct_count: 0,
            function_count: 0,
            method_count: 0,
            property_count: 0,
            constant_count: 0,
            external_count: 0,
        };
        let mut i: usize = 0;
        while i < n
            invariant
                self.wf(),
                n == self@.nodes.len(),
                i <= n,
                s.edge_count == self@.edges.len(),
                s.node_count == i,
                s.module_count == count_kind(self@.nodes.subrange(0, i as int), NodeKind::Module),
                s.class_count == count_kind(self@.nodes.subrange(0, i as int), NodeKind::Class),
                s.struct_count == count_kind(self@.nodes.subrange(0, i as int), NodeKind::Struct),
                s.function_count == count_kind(self@.nodes.subrange(0, i as int), NodeKind::Function),
                s.method_count == count_kind(self@.nodes.subrange(0, i as int), NodeKind::Method),
                s.property_count == count_kind(self@.nodes.subrange(0, i as int), NodeKind::Property),
                s.constant_count == count_kind(self@.nodes.subrange(0, i as int), NodeKind::Constant),
                s.external_count == count_external(self@.nodes.subrange(0, i as int)),
            decreases n - i,
        {
            let node = self.node_at(i);
            let ghost pre = self@.nodes.subrange(0, i as int);
            proof {
                assert(self@.nodes.subrange(0, i + 1) =~= pre.push(*node));
                lemma_count_kind_push(pre, *node, NodeKind::Module);
                lemma_count_kind_push(pre, *node, NodeKind::Class);
                lemma_count_kind_push(pre, *node, NodeKind::Struct);
                lemma_count_kind_push(pre, *node, NodeKind::Function);
                lemma_count_kind_push(pre, *node, NodeKind::Method);
                lemma_count_kind_push(pre, *node, NodeKind::Property);
                lemma_count_kind_push(pre, *node, NodeKind::Constant);
                lemma_counts_bounded(pre, NodeKind::Module);
                lemma_counts_bounded(pre, NodeKind::Class);
                lemma_counts_bounded(pre, NodeKind::Struct);
                lemma_counts_bounded(pre, NodeKind::Function);
                lemma_counts_bounded(pre, NodeKind::Method);
                lemma_counts_bounded(pre, NodeKind::Property);
                lemma_counts_bounded(pre, NodeKind::Constant);
            }
            s.node_count = s.node_count + 1;
            if node.is_external {
                s.external_count = s.external_count + 1;
            }
            match node.kind {
                NodeKind::Module => s.module_count = s.module_count + 1,
                NodeKind::Class => s.class_count = s.class_count + 1,
                NodeKind::Struct => s.struct_count = s.struct_count + 1,
                NodeKind::Function => s.function_count = s.function_count + 1,
                NodeKind::Method => s.method_count = s.method_count + 1,
                NodeKind::Property => s.property_count = s.property_count + 1,
                NodeKind::Constant => s.constant_count = s.constant_count + 1,
            }
            i = i + 1;
        }
        assert(self@.nodes.subrange(0, n as int) =~= self@.nodes);
        s
    }

    /// The flat form: statistics, the nodes in index order and the edges by
    /// the ids of their endpoints, in edge order.
    pub fn to_serializable(&self) -> (sg: SerializableGraph)
        requires
            self.wf(),
        ensures
            sg.stats == stats_of(self@),
            sg.nodes@ == self@.nodes,
            edge_ids(sg.edges@) == self@.id_edges(),
    {
        let nodes = self.nodes();
        let m = self.edge_count();
        let mut edges: Vec<Edge> = Vec::new();
        let mut i: usize = 0;
        proof { self.lemma_valid(); }
        while i < m
            invariant
                self.wf(),
                self@.valid(),
                m == self@.edges.len(),
                i <= m,
                edges@.len() == i,
                edge_ids(edges@) == self@.id_edges().subrange(0, i as int),
            decreases m - i,
        {
            let (a, b, k) = self.edge_at(i);
            let e = Edge { source: self.node_at(a).id.clone(), target: self.node_at(b).id.clone(), kind: k };
            let ghost prev = edges@;
            edges.push(e);
            proof {
                let ie = self@.id_edges();
                assert(edges@ == prev.push(e));
                assert(edge_ids(edges@)[i as int] == ie[i as int]);
                assert forall|j: int| 0 <= j < i implies edge_ids(edges@)[j] == ie[j] by {
                    assert(edges@[j] == prev[j]);
                    assert(edge_ids(prev)[j] == ie.subrange(0, i as int)[j]);
                }
            }
            i = i + 1;
            assert(edge_ids(edges@) =~= self@.id_edges().subrange(0, i as int));
        }
        assert(self@.id_edges().subrange(0, m as int) =~= self@.id_edges());
        SerializableGraph { stats: self.stats(), nodes, edges }
    }

    /// Rebuilds a graph from its flat form: the nodes are added in order, then
    /// the edges (the statistics are not read).
    pub fn from_serializable(sg: SerializableGraph) -> (g: CodeGraph)
        ensures
            g.wf(),
            g@ == GraphModel::empty().with_nodes(sg.nodes@).with_edges(edge_ids(sg.edges@)),
    {
        let mut g = CodeGraph::new();
        let SerializableGraph { stats: _, nodes, edges } = sg;
        let ghost ns = nodes@;
        let ghost es = edges@;
        let mut nodes = nodes;
        let n = nodes.len();
        let mut i: usize = 0;
        // The nodes are moved out back to front, then added front to back.
        let mut rev: Vec<Node> = Vec::new();
        while nodes.len() > 0
            invariant
                rev@.len() + nodes@.len() == n,
                n == ns.len(),
                nodes@ == ns.subrange(0, nodes@.len() as int),
                forall|j: int| 0 <= j < rev@.len() ==> rev@[j] == ns[n - 1 - j],
            decreases nodes@.len(),
        {
            let x = nodes.pop().unwrap();
            rev.push(x);
        }
        while i < n
            invariant
                g.wf(),
                n == ns.len(),
                i <= n,
                rev@.len() == n - i,
                forall|j: int| 0 <= j < rev@.len() ==> rev@[j] == ns[n - 1 - j],
                g@ == GraphModel::empty().with_nodes(ns.subrange(0, i as int)),
            decreases n - i,
        {
            let x = rev.pop().unwrap();
            proof {
                assert(x == ns[i as int]);
                assert(ns.subrange(0, i + 1).drop_last() =~= ns.subrange(0, i as int));
            }
            g.add_node(x);
            i = i + 1;
        }
        assert(ns.subrange(0, n as int) =~= ns);
        let ghost base = g@;
        let m = edges.len();
        let mut k: usize = 0;
        while k < m
            invariant
                g.wf(),
                m == es.len(),
                edges@ == es,
                k <= m,
                g@ == base.with_edges(edge_ids(es).subrange(0, k as int)),
            decreases m - k,
        {
            let e = &edges[k];
            proof {
                assert(edge_ids(es).subrange(0, k + 1).drop_last() =~= edge_ids(es).subrange(0, k as int));
            }
            g.add_edge(e.source.as_str(), e.target.as_str(), e.kind);
            k = k + 1;
        }
        assert(edge_ids(es).subrange(0, m as int) =~= edge_ids(es));
        g
    }
}

} // verus!

verus! {

/// Adding a node whose id is present changes nothing, so adding the same
/// node twice is the same as adding it once; afterwards its id is present.
pub proof fn lemma_add_node_idempotent(g: GraphModel, n: Node)
    ensures
        g.with_node(n).with_node(n) == g.with_node(n),
        g.with_node(n).has_id(n.id@),
{
    if !g.has_id(n.id@) {
        let h = g.with_node(n);
        assert(h.nodes[g.nodes.len() as int].id@ == n.id@);
    }
}

/// Adding the same edge twice is the same as adding it once.
pub proof fn lemma_add_edge_idempotent(g: GraphModel, s: Seq<char>, t: Seq<char>, k: EdgeKind)
    ensures
        g.with_edge(s, t, k).with_edge(s, t, k) == g.with_edge(s, t, k),
{
    let h = g.with_edge(s, t, k);
    if g.has_id(s) && g.has_id(t) {
        let e = (g.index_of(s) as usize, g.index_of(t) as usize, k);
        if !g.edges.contains(e) {
            assert(h.nodes == g.nodes);
            assert(h.edges[g.edges.len() as int] == e);
            assert(h.edges.contains(e));
        }
    }
}

proof fn lemma_nodes_prefix(g: GraphModel, k: int)
    requires
        g.ids_unique(),
        0 <= k <= g.nodes.len(),
    ensures
        GraphModel::empty().with_nodes(g.nodes.subrange(0, k)) == (GraphModel {
            nodes: g.nodes.subrange(0, k),
            edges: Seq::empty(),
        }),
    decreases k,
{
    let e = GraphModel::empty();
    if k == 0 {
        assert(g.nodes.subrange(0, 0) =~= Seq::<Node>::empty());
        assert(e.with_nodes(g.nodes.subrange(0, 0)) == e);
    } else {
        lemma_nodes_prefix(g, k - 1);
        let ns = g.nodes.subrange(0, k);
        assert(ns.drop_last() =~= g.nodes.subrange(0, k - 1));
        let prev = e.with_nodes(ns.drop_last());
        assert(!prev.has_id(ns.last().id@)) by {
            if prev.has_id(ns.last().id@) {
                let j = choose|j: int| 0 <= j < prev.nodes.len() && #[trigger] prev.nodes[j].id@ == ns.last().id@;
                assert(g.nodes[j].id@ == g.nodes[k - 1].id@);
            }
        }
        assert(prev.nodes.push(ns.last()) =~= ns);
    }
}

proof fn lemma_edges_prefix(g: GraphModel, k: int)
    requires
        g.valid(),
        0 <= k <= g.edges.len(),
    ensures
        (GraphModel { nodes: g.nodes, edges: Seq::empty() }).with_edges(g.id_edges().subrange(0, k)) == (GraphModel {
            nodes: g.nodes,
            edges: g.edges.subrange(0, k),
        }),
    decreases k,
{
    let base = GraphModel { nodes: g.nodes, edges: Seq::empty() };
    if k == 0 {
        assert(g.id_edges().subrange(0, 0) =~= Seq::<IdEdge>::empty());
        assert(g.edges.subrange(0, 0) =~= Seq::<(usize, usize, EdgeKind)>::empty());
    } else {
        lemma_edges_prefix(g, k - 1);
        let es = g.id_edges().subrange(0, k);
        assert(es.drop_last() =~= g.id_edges().subrange(0, k - 1));
        let prev = base.with_edges(es.drop_last());
        let raw = g.edges[k - 1];
        assert(raw.0 < g.nodes.len() && raw.1 < g.nodes.len());
        lemma_index_of_unique(prev, raw.0 as int);
        lemma_index_of_unique(prev, raw.1 as int);
        let ie = es.last();
        assert(ie == (g.nodes[raw.0 as int].id@, g.nodes[raw.1 as int].id@, raw.2));
        assert(!prev.edges.contains(raw)) by {
            if prev.edges.contains(raw) {
                let j = choose|j: int| 0 <= j < prev.edges.len() && prev.edges[j] == raw;
                assert(g.edges[j] == g.edges[k - 1]);
            }
        }
        assert(prev.edges.push(raw) =~= g.edges.subrange(0, k));
    }
}

/// Flattening a valid graph and rebuilding it from the flat form gives back
/// the same graph: the same nodes in the same order and the same edges in
/// the same order.
pub proof fn lemma_serializable_round_trip(g: GraphModel)
    requires
        g.valid(),
    ensures
        GraphModel::empty().with_nodes(g.nodes).with_edges(g.id_edges()) == g,
{
    lemma_nodes_prefix(g, g.nodes.len() as int);
    assert(g.nodes.subrange(0, g.nodes.len() as int) =~= g.nodes);
    lemma_edges_prefix(g, g.edges.len() as int);
    assert(g.id_edges().subrange(0, g.edges.len() as int) =~= g.id_edges());
    assert(g.edges.subrange(0, g.edges.len() as int) =~= g.edges);
}

} // verus!

verus! {

/// Two nodes sharing an id share an index.
pub proof fn lemma_ids_determine_index(g: GraphModel, i: int, j: int)
    requires
        g.ids_unique(),
        0 <= i < g.nodes.len(),
        0 <= j < g.nodes.len(),
        g.nodes[i].id@ == g.nodes[j].id@,
    ensures
        i == j,
{
}

impl CodeGraph {
    /// The index of the node with this id, if any.
    pub fn index_of(&self, id: &str) -> (r: Option<usize>)
        requires
            self.wf(),
        ensures
            r is Some <==> self@.has_id(id@),
            r matches Some(i) ==> i < self@.nodes.len() && self@.nodes[i as int].id@ == id@ && i == self@.index_of(id@),
    {
        proof { self.lemma_view(); }
        match str_map_get(&self.index_map, id) {
            Some(i) => {
                proof { lemma_index_of_unique(self@, i as int); }
                Some(i)
            },
            None => {
                proof {
                    if self@.has_id(id@) {
                        let j = choose|j: int| 0 <= j < self@.nodes.len() && #[trigger] self@.nodes[j].id@ == id@;
                        assert(str_map_entries(self.index_map).dom().contains(self@.nodes[j].id@));
                    }
                }
                None
            },
        }
    }

    /// Whether an edge of this kind joins the nodes with these ids.
    pub fn has_edge(&self, source: &str, target: &str, kind: EdgeKind) -> (r: bool)
        requires
            self.wf(),
        ensures
            r == self@.id_edges().contains((source@, target@, kind)),
    {
        proof { self.lemma_view(); }
        let ghost g = self@;
        let s = match self.index_of(source) {
            Some(i) => i,
            None => {
                proof {
                    if g.id_edges().contains((source@, target@, kind)) {
                        let m = choose|m: int| 0 <= m < g.id_edges().len() && g.id_edges()[m] == (source@, target@, kind);
                        assert(g.nodes[g.edges[m].0 as int].id@ == source@);
                    }
                }
                return false;
            },
        };
        let t = match self.index_of(target) {
            Some(i) => i,
            None => {
                proof {
                    if g.id_edges().contains((source@, target@, kind)) {
                        let m = choose|m: int| 0 <= m < g.id_edges().len() && g.id_edges()[m] == (source@, target@, kind);
                        assert(g.nodes[g.edges[m].1 as int].id@ == target@);
                    }
                }
                return false;
            },
        };
        let kinds = sg_kinds_connecting(&self.graph, s, t);
        let mut found = false;
        let mut j: usize = 0;
        while j < kinds.len()
            invariant
                j <= kinds.len(),
                found <==> exists|m: int| 0 <= m < j && kinds@[m] == kind,
            decreases kinds.len() - j,
        {
            if kinds[j] == kind {
                found = true;
            }
            j = j + 1;
        }
        proof {
            assert(found <==> kinds@.contains(kind));
            assert(kinds@.contains(kind) <==> kinds@.to_set().contains(kind));
            if found {
                let m = choose|m: int| 0 <= m < edge_slots(self.graph).len() && edge_slots(self.graph)[m] == Some((s, t, kind));
                assert(g.edges[m] == (s, t, kind));
                assert(g.id_edges()[m] == (source@, target@, kind));
            }
            if g.id_edges().contains((source@, target@, kind)) {
                let m = choose|m: int| 0 <= m < g.id_edges().len() && g.id_edges()[m] == (source@, target@, kind);
                let e = g.edges[m];
                assert(g.nodes[e.0 as int].id@ == source@);
                assert(g.nodes[e.1 as int].id@ == target@);
                self.lemma_valid();
                lemma_ids_determine_index(g, e.0 as int, s as int);
                lemma_ids_determine_index(g, e.1 as int, t as int);
                assert(edge_slots(self.graph)[m] == Some((s, t, kind)));
                assert(kinds@.to_set().contains(kind));
            }
        }
        found
    }
}

} // verus!

verus! {

/// Some edge joins `u` and `v`, in either direction.
/// The (source, target) index pairs of edges.
pub open spec fn edge_ends(es: Seq<(usize, usize, EdgeKind)>) -> Seq<(usize, usize)> {
    es.map_values(|e: (usize, usize, EdgeKind)| (e.0, e.1))
}

impl CodeGraph {
    /// The strongly connected components, by node index, as petgraph's
    /// `kosaraju_scc` computes them for this graph.
    pub fn strong_components(&self) -> (r: Vec<Vec<usize>>)
        requires
            self.wf(),
        ensures
            comp_views(r@) == kosaraju_components(self@.nodes.len(), edge_ends(self@.edges)),
            forall|i: int| 0 <= i < r@.len() ==> #[trigger] r@[i]@.len() > 0,
            forall|i: int, j: int| 0 <= i < r@.len() && 0 <= j < r@[i]@.len() ==> #[trigger] r@[i]@[j] < self@.nodes.len(),
            forall|i: int, j: int, a: int, b: int|
                0 <= i < r@.len() && 0 <= j < r@.len() && 0 <= a < r@[i]@.len() && 0 <= b < r@[j]@.len() && (i != j || a != b)
                    ==> #[trigger] r@[i]@[a] != #[trigger] r@[j]@[b],
            forall|v: usize| v < self@.nodes.len() ==> #[trigger] in_some(comp_views(r@), v),
            forall|i: int, j: int, a: int, b: int|
                0 <= i < r@.len() && 0 <= j < r@.len() && 0 <= a < r@[i]@.len() && 0 <= b < r@[j]@.len()
                    ==> (i == j <==> reaches(edge_ends(self@.edges), #[trigger] r@[i]@[a], #[trigger] r@[j]@[b])
                        && reaches(edge_ends(self@.edges), r@[j]@[b], r@[i]@[a])),
    {
        proof { self.lemma_view(); }
        let r = sg_kosaraju_scc(&self.graph);
        assert(edge_pairs(edge_slots(self.graph)) =~= edge_ends(self@.edges));
        r
    }
}

pub open spec fn adjacent(g: GraphModel, u: int, v: int) -> bool {
    exists|i: int| 0 <= i < g.edges.len() && ((#[trigger] g.edges[i]).0 == u && g.edges[i].1 == v || g.edges[i].0 == v && g.edges[i].1 == u)
}

impl CodeGraph {
    /// The nodes joined to node `u` by an edge in either direction: the
    /// targets of its outgoing edges, then the sources of its incoming ones
    /// (each group in an order the contract leaves open).
    pub fn neighbors(&self, u: usize) -> (r: Vec<usize>)
        requires
            self.wf(),
            u < self@.nodes.len(),
        ensures
            forall|j: int| 0 <= j < r@.len() ==> #[trigger] r@[j] < self@.nodes.len(),
            forall|v: usize| adjacent(self@, u as int, v as int) <==> r@.contains(v),
            forall|j: int| 0 <= j < r@.len() ==> adjacent(self@, u as int, #[trigger] r@[j] as int),
    {
        proof { self.lemma_view(); self.lemma_valid(); }
        let mut out = sg_successors(&self.graph, u);
        let inc = sg_predecessors(&self.graph, u);
        let ghost a = out@;
        let ghost g = self@;
        proof {
            assert forall|j: int| 0 <= j < a.len() implies adjacent(g, u as int, #[trigger] a[j] as int) && a[j] < g.nodes.len() by {
                assert(a.to_set().contains(a[j]));
                let i = choose|i: int| 0 <= i < edge_slots(self.graph).len() && edge_slots(self.graph)[i] is Some
                    && slot_edge(edge_slots(self.graph)[i]).0 == u && slot_edge(edge_slots(self.graph)[i]).1 == a[j];
                assert(g.edges[i] == slot_edge(edge_slots(self.graph)[i]));
            }
            assert forall|j: int| 0 <= j < inc@.len() implies adjacent(g, u as int, #[trigger] inc@[j] as int) && inc@[j] < g.nodes.len() by {
                assert(inc@.to_set().contains(inc@[j]));
                let i = choose|i: int| 0 <= i < edge_slots(self.graph).len() && edge_slots(self.graph)[i] is Some
                    && slot_edge(edge_slots(self.graph)[i]).1 == u && slot_edge(edge_slots(self.graph)[i]).0 == inc@[j];
                assert(g.edges[i] == slot_edge(edge_slots(self.graph)[i]));
            }
        }
        let mut k: usize = 0;
        while k < inc.len()
            invariant
                k <= inc@.len(),
                out@ == a + inc@.subrange(0, k as int),
            decreases inc@.len() - k,
        {
            out.push(inc[k]);
            k = k + 1;
            assert(out@ =~= a + inc@.subrange(0, k as int));
        }
        assert(inc@.subrange(0, inc@.len() as int) =~= inc@);
        proof {
            assert forall|j: int| 0 <= j < out@.len() implies adjacent(g, u as int, #[trigger] out@[j] as int) && out@[j] < g.nodes.len() by {
                if j < a.len() {
                    assert(out@[j] == a[j]);
                } else {
                    assert(out@[j] == inc@[j - a.len()]);
                }
            }
            assert forall|v: usize| adjacent(g, u as int, v as int) <==> out@.contains(v) by {
              if out@.contains(v) {
                let j = choose|j: int| 0 <= j < out@.len() && out@[j] == v;
                assert(adjacent(g, u as int, out@[j] as int));
              }
              if adjacent(g, u as int, v as int) {
                let i = choose|i: int| 0 <= i < g.edges.len() && ((#[trigger] g.edges[i]).0 == u && g.edges[i].1 == v || g.edges[i].0 == v && g.edges[i].1 == u);
                assert(edge_slots(self.graph)[i] == Some(g.edges[i]));
                if g.edges[i].0 == u && g.edges[i].1 == v {
                    assert(a.to_set().contains(v as usize));
                    let j = choose|j: int| 0 <= j < a.len() && a[j] == v as usize;
                    assert(out@[j] == v as usize);
                } else {
                    assert(inc@.to_set().contains(v as usize));
                    let j = choose|j: int| 0 <= j < inc@.len() && inc@[j] == v as usize;
                    assert(out@[a.len() + j] == v as usize);
                }
              }
            }
        }
        out
    }
}

} // verus!
