//! What the language front-ends share: how a file's parse may change the
//! graph and the context, and the small steps they are made of.
use vstd::prelude::*;

use crate::context::{pairs_view, call_view, calls_view, ctx_grown, lemma_ctx_grown_refl, opt_ref_str, opt_str, CallView, PendingCall, ParseContext};
use crate::model::{CodeGraph, EdgeKind, GraphModel, Node, NodeKind};
use crate::resolve::has_link;
use crate::syntax::SyntaxNode;
use crate::rust_lang::{last_where, lemma_last_where_step, of_kind};
use crate::text::{starts_with, str_eq};

verus! {

/// The graph only grew while a file was read: the old nodes and edges come
/// first, unchanged; every new node lies in `file`, is internal and has an id
/// that starts with `prefix`; every new edge is a containment edge.
pub open spec fn grown(old: GraphModel, new: GraphModel, file: Seq<char>, prefix: Seq<char>) -> bool {
    &&& old.nodes.len() <= new.nodes.len()
    &&& new.nodes.subrange(0, old.nodes.len() as int) == old.nodes
    &&& old.edges.len() <= new.edges.len()
    &&& new.edges.subrange(0, old.edges.len() as int) == old.edges
    &&& forall|i: int| old.nodes.len() <= i < new.nodes.len() ==> {
        &&& (#[trigger] new.nodes[i]).file@ == file
        &&& !new.nodes[i].is_external
        &&& starts_with(new.nodes[i].id@, prefix)
    }
    &&& forall|i: int| old.edges.len() <= i < new.edges.len() ==> (#[trigger] new.edges[i]).2 == EdgeKind::Contains
}

pub proof fn lemma_grown_refl(g: GraphModel, file: Seq<char>, prefix: Seq<char>)
    ensures
        grown(g, g, file, prefix),
{
    assert(g.nodes.subrange(0, g.nodes.len() as int) =~= g.nodes);
    assert(g.edges.subrange(0, g.edges.len() as int) =~= g.edges);
}

pub proof fn lemma_grown_trans(a: GraphModel, b: GraphModel, c: GraphModel, file: Seq<char>, prefix: Seq<char>)
    requires
        grown(a, b, file, prefix),
        grown(b, c, file, prefix),
    ensures
        grown(a, c, file, prefix),
{
    assert(c.nodes.subrange(0, a.nodes.len() as int) =~= b.nodes.subrange(0, a.nodes.len() as int));
    assert(c.edges.subrange(0, a.edges.len() as int) =~= b.edges.subrange(0, a.edges.len() as int));
    assert forall|i: int| a.nodes.len() <= i < c.nodes.len() implies {
        &&& (#[trigger] c.nodes[i]).file@ == file
        &&& !c.nodes[i].is_external
        &&& starts_with(c.nodes[i].id@, prefix)
    } by {
        if i < b.nodes.len() {
            assert(c.nodes.subrange(0, b.nodes.len() as int)[i] == c.nodes[i]);
        }
    }
    assert forall|i: int| a.edges.len() <= i < c.edges.len() implies (#[trigger] c.edges[i]).2 == EdgeKind::Contains by {
        if i < b.edges.len() {
            assert(c.edges.subrange(0, b.edges.len() as int)[i] == c.edges[i]);
        }
    }
}

/// A prefix of a prefix is a prefix.
pub proof fn lemma_starts_with_trans(a: Seq<char>, b: Seq<char>, c: Seq<char>)
    requires
        starts_with(a, b),
        starts_with(b, c),
    ensures
        starts_with(a, c),
{
    assert(a.subrange(0, c.len() as int) =~= b.subrange(0, c.len() as int));
}

/// A sequence starts with each of its heads.
pub proof fn lemma_starts_with_concat(a: Seq<char>, b: Seq<char>)
    ensures
        starts_with(a + b, a),
{
    assert((a + b).subrange(0, a.len() as int) =~= a);
}

/// Whether a syntax node has the given kind.
pub fn kind_is(n: &SyntaxNode, k: &str) -> (r: bool)
    ensures
        r == (n.kind@ == k@),
{
    str_eq(n.kind.as_str(), k)
}

/// Adds a node of the file being read and returns nothing.
pub fn add_file_node(
    graph: &mut CodeGraph,
    id: String,
    name: String,
    kind: NodeKind,
    file: String,
    line: usize,
    docstring: Option<String>,
    Ghost(prefix): Ghost<Seq<char>>,
)
    requires
        old(graph).wf(),
        starts_with(id@, prefix),
    ensures
        final(graph).wf(),
        final(graph)@ == old(graph)@.with_node((Node { id, name, kind, file, line, is_external: false, docstring })),
        final(graph)@.has_id(id@),
        declared(old(graph)@, final(graph)@, id@, kind),
        forall|j: int| old(graph)@.nodes.len() <= j < final(graph)@.nodes.len()
            ==> (#[trigger] final(graph)@.nodes[j]).id@ == id@ && final(graph)@.nodes[j].kind == kind,
        grown(old(graph)@, final(graph)@, file@, prefix),
{
    let ghost id_view = id@;
    let ghost file_view = file@;
    let node = Node { id, name, kind, file, line, is_external: false, docstring };
    let ghost n = node;
    graph.add_node(node);
    proof {
        let o = old(graph)@;
        let g = graph@;
        if o.has_id(id_view) {
            lemma_grown_refl(o, file_view, prefix);
        } else {
            assert(g.nodes =~= o.nodes.push(n));
            assert(g.nodes.subrange(0, o.nodes.len() as int) =~= o.nodes);
            assert(g.edges.subrange(0, o.edges.len() as int) =~= o.edges);
            graph.lemma_valid();
            let last = g.nodes.len() - 1;
            assert(g.nodes[last].id@ == id_view);
            crate::model::lemma_index_of_unique(g, last);
        }
    }
}

/// Adds a containment edge between two ids.
pub fn add_contains(graph: &mut CodeGraph, parent: &str, child: &str, Ghost(file): Ghost<Seq<char>>, Ghost(prefix): Ghost<Seq<char>>)
    requires
        old(graph).wf(),
    ensures
        final(graph).wf(),
        final(graph)@ == old(graph)@.with_edge(parent@, child@, EdgeKind::Contains),
        grown(old(graph)@, final(graph)@, file, prefix),
{
    graph.add_edge(parent, child, EdgeKind::Contains);
    proof {
        let o = old(graph)@;
        let g = graph@;
        assert(g.nodes.subrange(0, o.nodes.len() as int) =~= o.nodes);
        assert(g.edges.subrange(0, o.edges.len() as int) =~= o.edges);
    }
}

/// Records a call site.
pub fn push_call(ctx: &mut ParseContext, call: PendingCall)
    ensures
        ctx_grown(*old(ctx), *final(ctx)),
        final(ctx).pending_calls@ == old(ctx).pending_calls@.push(call),
        final(ctx).pending_inherits@ == old(ctx).pending_inherits@,
        final(ctx).pending_uses_type@ == old(ctx).pending_uses_type@,
        final(ctx).pending_mods@ == old(ctx).pending_mods@,
        final(ctx).imports@ == old(ctx).imports@,
        final(ctx).alias_map@ == old(ctx).alias_map@,
        final(ctx).local_var_types@ == old(ctx).local_var_types@,
        final(ctx).class_fields@ == old(ctx).class_fields@,
{
    ctx.pending_calls.push(call);
    assert(calls_view(ctx.pending_calls@).subrange(0, old(ctx).pending_calls@.len() as int) =~= calls_view(old(ctx).pending_calls@));
    proof { lemma_ctx_grown_refl(*old(ctx)); }
}

/// Records an inheritance (child id, parent name).
pub fn push_inherit(ctx: &mut ParseContext, child: String, parent: String)
    ensures
        ctx_grown(*old(ctx), *final(ctx)),
        final(ctx).pending_inherits@ == old(ctx).pending_inherits@.push((child, parent)),
        final(ctx).pending_calls@ == old(ctx).pending_calls@,
        final(ctx).pending_uses_type@ == old(ctx).pending_uses_type@,
        final(ctx).pending_mods@ == old(ctx).pending_mods@,
        final(ctx).imports@ == old(ctx).imports@,
        final(ctx).alias_map@ == old(ctx).alias_map@,
        final(ctx).local_var_types@ == old(ctx).local_var_types@,
        final(ctx).class_fields@ == old(ctx).class_fields@,
{
    ctx.pending_inherits.push((child, parent));
    assert(pairs_view(ctx.pending_inherits@).subrange(0, old(ctx).pending_inherits@.len() as int) =~= pairs_view(old(ctx).pending_inherits@));
    proof { lemma_ctx_grown_refl(*old(ctx)); }
}

/// Records a type use (user id, type name).
pub fn push_uses_type(ctx: &mut ParseContext, user: String, ty: String)
    ensures
        ctx_grown(*old(ctx), *final(ctx)),
        final(ctx).pending_uses_type@ == old(ctx).pending_uses_type@.push((user, ty)),
        final(ctx).pending_calls@ == old(ctx).pending_calls@,
        final(ctx).pending_inherits@ == old(ctx).pending_inherits@,
        final(ctx).pending_mods@ == old(ctx).pending_mods@,
        final(ctx).imports@ == old(ctx).imports@,
        final(ctx).alias_map@ == old(ctx).alias_map@,
        final(ctx).local_var_types@ == old(ctx).local_var_types@,
        final(ctx).class_fields@ == old(ctx).class_fields@,
{
    ctx.pending_uses_type.push((user, ty));
    assert(pairs_view(ctx.pending_uses_type@).subrange(0, old(ctx).pending_uses_type@.len() as int) =~= pairs_view(old(ctx).pending_uses_type@));
    proof { lemma_ctx_grown_refl(*old(ctx)); }
}

/// Records a `mod name;` declaration (parent module id, module name).
pub fn push_mod(ctx: &mut ParseContext, parent: String, name: String)
    ensures
        ctx_grown(*old(ctx), *final(ctx)),
        final(ctx).pending_mods@ == old(ctx).pending_mods@.push((parent, name)),
        final(ctx).pending_calls@ == old(ctx).pending_calls@,
        final(ctx).pending_inherits@ == old(ctx).pending_inherits@,
        final(ctx).pending_uses_type@ == old(ctx).pending_uses_type@,
        final(ctx).imports@ == old(ctx).imports@,
        final(ctx).alias_map@ == old(ctx).alias_map@,
        final(ctx).local_var_types@ == old(ctx).local_var_types@,
        final(ctx).class_fields@ == old(ctx).class_fields@,
{
    ctx.pending_mods.push((parent, name));
    assert(pairs_view(ctx.pending_mods@).subrange(0, old(ctx).pending_mods@.len() as int) =~= pairs_view(old(ctx).pending_mods@));
    proof { lemma_ctx_grown_refl(*old(ctx)); }
}

/// A fresh context for a file.
pub fn new_context(module_id: String, file: String) -> (ctx: ParseContext)
    ensures
        ctx.module_id == module_id,
        ctx.file == file,
        ctx.imports@.len() == 0,
        ctx.alias_map@.len() == 0,
        ctx.pending_calls@.len() == 0,
        ctx.pending_inherits@.len() == 0,
        ctx.pending_uses_type@.len() == 0,
        ctx.pending_mods@.len() == 0,
        ctx.local_var_types@.len() == 0,
        ctx.class_fields@.len() == 0,
{
    ParseContext {
        module_id,
        file,
        imports: crate::context::StrMap::new(),
        alias_map: crate::context::StrMap::new(),
        pending_calls: Vec::new(),
        pending_inherits: Vec::new(),
        pending_uses_type: Vec::new(),
        local_var_types: crate::context::PairMap::new(),
        class_fields: crate::context::PairMap::new(),
        pending_mods: Vec::new(),
    }
}

} // verus!

verus! {

/// Reading a declaration leaves the imports and aliases as they were.
pub open spec fn imports_kept(old: ParseContext, new: ParseContext) -> bool {
    new.imports@ == old.imports@ && new.alias_map@ == old.alias_map@
}

/// Only the pending calls changed, by appending.
pub open spec fn only_calls_added(old: ParseContext, new: ParseContext, added: Seq<CallView>) -> bool {
    &&& calls_view(new.pending_calls@) == calls_view(old.pending_calls@) + added
    &&& new.module_id == old.module_id
    &&& new.file == old.file
    &&& new.imports == old.imports
    &&& new.alias_map == old.alias_map
    &&& new.pending_inherits == old.pending_inherits
    &&& new.pending_uses_type == old.pending_uses_type
    &&& new.pending_mods == old.pending_mods
    &&& new.local_var_types == old.local_var_types
    &&& new.class_fields == old.class_fields
}

/// Adding nothing is allowed.
pub proof fn lemma_only_calls_refl(c: ParseContext)
    ensures
        only_calls_added(c, c, Seq::empty()),
{
    assert(calls_view(c.pending_calls@) + Seq::<CallView>::empty() =~= calls_view(c.pending_calls@));
}

/// Appending calls composes.
pub proof fn lemma_only_calls_trans(a: ParseContext, b: ParseContext, c: ParseContext, x: Seq<CallView>, y: Seq<CallView>)
    requires
        only_calls_added(a, b, x),
        only_calls_added(b, c, y),
    ensures
        only_calls_added(a, c, x + y),
{
    assert(calls_view(a.pending_calls@) + x + y =~= calls_view(a.pending_calls@) + (x + y));
}

/// Appending calls is growth of the context.
pub proof fn lemma_only_calls_grown(a: ParseContext, b: ParseContext, x: Seq<CallView>)
    requires
        only_calls_added(a, b, x),
    ensures
        ctx_grown(a, b),
{
    let n = a.pending_calls@.len();
    assert(calls_view(b.pending_calls@).len() == b.pending_calls@.len());
    assert(calls_view(a.pending_calls@).len() == n);
    assert(calls_view(b.pending_calls@).subrange(0, n as int) =~= calls_view(a.pending_calls@));
    lemma_ctx_grown_refl(a);
    assert(pairs_view(b.pending_inherits@) == pairs_view(a.pending_inherits@));
    assert(pairs_view(b.pending_uses_type@) == pairs_view(a.pending_uses_type@));
    assert(pairs_view(b.pending_mods@) == pairs_view(a.pending_mods@));
}

/// Records a call site built from strings.
pub fn record_call(ctx: &mut ParseContext, caller: &str, callee: String, object: Option<String>, in_class: Option<&str>)
    ensures
        only_calls_added(*old(ctx), *final(ctx), seq![(caller@, callee@, opt_str(object), opt_ref_str(in_class))]),
{
    let ic = match in_class {
        Some(s) => Some(s.to_string()),
        None => None,
    };
    let call = PendingCall { caller_id: caller.to_string(), callee_name: callee, object, in_class: ic };
    let ghost v = call_view(call);
    ctx.pending_calls.push(call);
    assert(calls_view(ctx.pending_calls@) =~= calls_view(old(ctx).pending_calls@) + seq![v]);
}

} // verus!

verus! {

/// What every walk over a file's syntax keeps: the graph only grew with
/// nodes of `file` under the file's module id and containment edges, and the
/// context only grew.
pub open spec fn walked(og: GraphModel, g: GraphModel, oc: ParseContext, c: ParseContext, file: Seq<char>) -> bool {
    grown(og, g, file, oc.module_id@) && ctx_grown(oc, c)
}

pub proof fn lemma_walked_refl(g: GraphModel, c: ParseContext, file: Seq<char>)
    ensures
        walked(g, g, c, c, file),
{
    lemma_grown_refl(g, file, c.module_id@);
    lemma_ctx_grown_refl(c);
}

pub proof fn lemma_walked_trans(
    g1: GraphModel, g2: GraphModel, g3: GraphModel,
    c1: ParseContext, c2: ParseContext, c3: ParseContext, file: Seq<char>,
)
    requires
        walked(g1, g2, c1, c2, file),
        walked(g2, g3, c2, c3, file),
    ensures
        walked(g1, g3, c1, c3, file),
{
    lemma_grown_trans(g1, g2, g3, file, c1.module_id@);
    crate::context::lemma_ctx_grown_trans(c1, c2, c3);
}

/// The id `base` + `sep` + `name`; it keeps every prefix of `base`.
pub fn child_id(base: &str, sep: &str, name: &str, Ghost(prefix): Ghost<Seq<char>>) -> (r: String)
    ensures
        r@ == base@ + sep@ + name@,
        starts_with(base@, prefix) ==> starts_with(r@, prefix),
{
    let r = crate::text::cat3(base, sep, name);
    proof {
        assert(r@ =~= base@ + (sep@ + name@));
        lemma_starts_with_concat(base@, sep@ + name@);
        if starts_with(base@, prefix) {
            lemma_starts_with_trans(r@, base@, prefix);
        }
    }
    r
}

} // verus!

verus! {

/// The 1-based line of a syntax node: `row + 1` (the largest row is kept as
/// it is, a row no source reaches).
pub open spec fn line_at(n: SyntaxNode) -> int {
    if n.row < usize::MAX { n.row + 1 } else { n.row as int }
}

/// The 1-based line of a syntax node (see `line_at`).
pub fn line_of(n: &SyntaxNode) -> (r: usize)
    ensures
        n.row < usize::MAX ==> r == n.row + 1,
        r == line_at(*n),
{
    if n.row < usize::MAX {
        n.row + 1
    } else {
        n.row
    }
}

/// The index of the last child of kind `k`, if any.
pub fn last_child_of_kind(node: &SyntaxNode, k: &str) -> (r: Option<usize>)
    ensures
        r is None ==> last_where(node.children@, of_kind(k@)) < 0,
        r matches Some(i) ==> i as int == last_where(node.children@, of_kind(k@)) && i < node.children@.len()
            && node.children@[i as int].kind@ == k@,
{
    let mut found: Option<usize> = None;
    let mut i: usize = 0;
    while i < node.children.len()
        invariant
            i <= node.children@.len(),
            found is None ==> last_where(node.children@.subrange(0, i as int), of_kind(k@)) < 0,
            found matches Some(j) ==> j as int == last_where(node.children@.subrange(0, i as int), of_kind(k@)) && j < i
                && node.children@[j as int].kind@ == k@,
        decreases node.children@.len() - i,
    {
        proof {
            lemma_last_where_step(node.children@, of_kind(k@), i as int);
            assert(of_kind(k@)(node.children@[i as int]) == (node.children@[i as int].kind@ == k@));
        }
        if kind_is(&node.children[i], k) {
            found = Some(i);
        }
        i = i + 1;
    }
    assert(node.children@.subrange(0, node.children@.len() as int) =~= node.children@);
    found
}

} // verus!

verus! {

pub proof fn lemma_starts_with_refl(a: Seq<char>)
    ensures
        starts_with(a, a),
{
    assert(a.subrange(0, a.len() as int) =~= a);
}

} // verus!

verus! {

/// Growth keeps every id.
pub proof fn lemma_grown_keeps_id(a: GraphModel, b: GraphModel, file: Seq<char>, prefix: Seq<char>, id: Seq<char>)
    requires
        grown(a, b, file, prefix),
        a.has_id(id),
    ensures
        b.has_id(id),
{
    let k = choose|k: int| 0 <= k < a.nodes.len() && #[trigger] a.nodes[k].id@ == id;
    assert(b.nodes.subrange(0, a.nodes.len() as int)[k] == b.nodes[k]);
}

/// The node with id `id` is present in `new`, and, when `old` lacked that
/// id, it has kind `kind`.
pub open spec fn declared(old: GraphModel, new: GraphModel, id: Seq<char>, kind: NodeKind) -> bool {
    &&& new.has_id(id)
    &&& !old.has_id(id) ==> new.nodes[new.index_of(id)].kind == kind
}

/// The kind of a function node: a method when it has an owner type, else a
/// function.
pub open spec fn member_kind(owner: Option<Seq<char>>) -> NodeKind {
    if owner is Some { NodeKind::Method } else { NodeKind::Function }
}

/// Further growth keeps a declaration.
pub proof fn lemma_declared_grown(a: GraphModel, b: GraphModel, c: GraphModel, file: Seq<char>, prefix: Seq<char>, id: Seq<char>, kind: NodeKind)
    requires
        declared(a, b, id, kind),
        grown(b, c, file, prefix),
        c.valid(),
    ensures
        declared(a, c, id, kind),
{
    lemma_grown_keeps_id(b, c, file, prefix, id);
    if !a.has_id(id) {
        let ib = b.index_of(id);
        assert(c.nodes.subrange(0, b.nodes.len() as int)[ib] == c.nodes[ib]);
        crate::model::lemma_index_of_unique(c, ib);
    }
}

/// The id starts with one of `bases`.
pub open spec fn prefixed_by(id: Seq<char>, bases: Set<Seq<char>>) -> bool {
    exists|x: Seq<char>| #[trigger] bases.contains(x) && starts_with(id, x)
}

/// Every node `b` has beyond `a` has an id that starts with one of `bases`.
pub open spec fn grown_within(a: GraphModel, b: GraphModel, bases: Set<Seq<char>>) -> bool {
    forall|v: int| a.nodes.len() <= v < b.nodes.len() ==> prefixed_by((#[trigger] b.nodes[v]).id@, bases)
}

/// Nodes that all carry the id `x` lie within `{x}`.
pub proof fn lemma_grown_within_one(a: GraphModel, b: GraphModel, x: Seq<char>)
    requires
        forall|j: int| a.nodes.len() <= j < b.nodes.len() ==> (#[trigger] b.nodes[j]).id@ == x,
    ensures
        grown_within(a, b, set![x]),
{
    lemma_starts_with_refl(x);
    assert forall|v: int| a.nodes.len() <= v < b.nodes.len() implies prefixed_by((#[trigger] b.nodes[v]).id@, set![x]) by {
        assert(set![x].contains(x));
    }
}

/// Growth within `S` then within `T` is growth within both.
pub proof fn lemma_grown_within_trans(a: GraphModel, b: GraphModel, c: GraphModel, file: Seq<char>, prefix: Seq<char>, s: Set<Seq<char>>, t: Set<Seq<char>>)
    requires
        a.nodes.len() <= b.nodes.len(),
        grown_within(a, b, s),
        grown(b, c, file, prefix),
        grown_within(b, c, t),
    ensures
        grown_within(a, c, s.union(t)),
{
    assert forall|v: int| a.nodes.len() <= v < c.nodes.len() implies prefixed_by((#[trigger] c.nodes[v]).id@, s.union(t)) by {
        if v < b.nodes.len() {
            assert(c.nodes.subrange(0, b.nodes.len() as int)[v] == c.nodes[v]);
            assert(prefixed_by(b.nodes[v].id@, s));
            let x = choose|x: Seq<char>| #[trigger] s.contains(x) && starts_with(b.nodes[v].id@, x);
            assert(s.union(t).contains(x));
        } else {
            assert(prefixed_by(c.nodes[v].id@, t));
            let x = choose|x: Seq<char>| #[trigger] t.contains(x) && starts_with(c.nodes[v].id@, x);
            assert(s.union(t).contains(x));
        }
    }
}

/// Growth within `S` is growth within any larger set.
pub proof fn lemma_grown_within_mono(a: GraphModel, b: GraphModel, s: Set<Seq<char>>, t: Set<Seq<char>>)
    requires
        grown_within(a, b, s),
        s.subset_of(t),
    ensures
        grown_within(a, b, t),
{
    assert forall|v: int| a.nodes.len() <= v < b.nodes.len() implies prefixed_by((#[trigger] b.nodes[v]).id@, t) by {
        let x = choose|x: Seq<char>| #[trigger] s.contains(x) && starts_with(b.nodes[v].id@, x);
        assert(t.contains(x));
    }
}

/// A graph that grew only within `bases` lacks every id that none of them
/// begins, unless it had the id before.
pub proof fn lemma_grown_within_lacks(a: GraphModel, b: GraphModel, file: Seq<char>, prefix: Seq<char>, bases: Set<Seq<char>>, id: Seq<char>)
    requires
        grown(a, b, file, prefix),
        grown_within(a, b, bases),
        !a.has_id(id),
        !prefixed_by(id, bases),
    ensures
        !b.has_id(id),
{
    if b.has_id(id) {
        let v = choose|v: int| 0 <= v < b.nodes.len() && #[trigger] b.nodes[v].id@ == id;
        if v < a.nodes.len() {
            assert(b.nodes.subrange(0, a.nodes.len() as int)[v] == b.nodes[v]);
            assert(a.nodes[v].id@ == id);
        } else {
            assert(prefixed_by(b.nodes[v].id@, bases));
        }
    }
}

/// The node `id` was there before (in `a`), or it is new in `b` and carries
/// the given name, file, line and docstring, and is internal.
pub open spec fn node_fields(a: GraphModel, b: GraphModel, id: Seq<char>, name: Seq<char>, file: Seq<char>, line: int, doc: Option<Seq<char>>) -> bool {
    !a.has_id(id) ==> {
        let n = b.nodes[b.index_of(id)];
        &&& n.name@ == name
        &&& n.file@ == file
        &&& n.line == line
        &&& !n.is_external
        &&& opt_str(n.docstring) == doc
    }
}

/// Further growth keeps a new node's fields.
pub proof fn lemma_node_fields_grown(a: GraphModel, b: GraphModel, c: GraphModel, file: Seq<char>, prefix: Seq<char>, id: Seq<char>,
    name: Seq<char>, f: Seq<char>, line: int, doc: Option<Seq<char>>)
    requires
        node_fields(a, b, id, name, f, line, doc),
        b.has_id(id),
        grown(b, c, file, prefix),
        c.valid(),
    ensures
        node_fields(a, c, id, name, f, line, doc),
{
    if !a.has_id(id) {
        let ib = b.index_of(id);
        assert(0 <= ib < b.nodes.len() && b.nodes[ib].id@ == id);
        assert(c.nodes.subrange(0, b.nodes.len() as int)[ib] == c.nodes[ib]);
        crate::model::lemma_index_of_unique(c, ib);
    }
}

/// Growth keeps every link.
pub proof fn lemma_grown_keeps_link(a: GraphModel, b: GraphModel, file: Seq<char>, prefix: Seq<char>, s: Seq<char>, t: Seq<char>, k: EdgeKind)
    requires
        a.valid(),
        grown(a, b, file, prefix),
        has_link(a, s, t, k),
    ensures
        has_link(b, s, t, k),
{
    let i = choose|i: int| 0 <= i < a.id_edges().len() && a.id_edges()[i] == (s, t, k);
    assert(b.edges.subrange(0, a.edges.len() as int)[i] == b.edges[i]);
    let e = a.edges[i];
    assert(b.nodes.subrange(0, a.nodes.len() as int)[e.0 as int] == b.nodes[e.0 as int]);
    assert(b.nodes.subrange(0, a.nodes.len() as int)[e.1 as int] == b.nodes[e.1 as int]);
    assert(b.id_edges()[i] == (s, t, k));
}

/// Adds a declaration: a node with id `parent + sep + name` in the file and a
/// containment edge from `parent`; returns the id.
pub fn add_declaration(
    graph: &mut CodeGraph,
    parent: &str,
    sep: &str,
    name: String,
    kind: NodeKind,
    rel_path: &str,
    line: usize,
    docstring: Option<String>,
    Ghost(prefix): Ghost<Seq<char>>,
) -> (id: String)
    requires
        old(graph).wf(),
        starts_with(parent@, prefix),
    ensures
        final(graph).wf(),
        id@ == parent@ + sep@ + name@,
        starts_with(id@, prefix),
        final(graph)@.has_id(id@),
        declared(old(graph)@, final(graph)@, id@, kind),
        forall|j: int| old(graph)@.nodes.len() <= j < final(graph)@.nodes.len()
            ==> (#[trigger] final(graph)@.nodes[j]).id@ == id@ && final(graph)@.nodes[j].kind == kind,
        grown(old(graph)@, final(graph)@, rel_path@, prefix),
        node_fields(old(graph)@, final(graph)@, id@, name@, rel_path@, line as int, opt_str(docstring)),
        old(graph)@.has_id(parent@) ==> has_link(final(graph)@, parent@, id@, EdgeKind::Contains),
        links_within(old(graph)@, final(graph)@, set![id@], set![(parent@, id@)]),
{
    let ghost name_v = name@;
    let ghost doc_v = opt_str(docstring);
    let id = child_id(parent, sep, name.as_str(), Ghost(prefix));
    add_file_node(graph, id.clone(), name, kind, rel_path.to_string(), line, docstring, Ghost(prefix));
    let ghost g1 = graph@;
    proof {
        graph.lemma_valid();
        if !old(graph)@.has_id(id@) {
            assert(g1.nodes == old(graph)@.nodes.push(g1.nodes.last()));
            crate::model::lemma_index_of_unique(g1, g1.nodes.len() - 1);
        }
        if old(graph)@.has_id(parent@) {
            lemma_grown_keeps_id(old(graph)@, g1, rel_path@, prefix, parent@);
        }
    }
    let _n = graph.node_count();
    add_contains(graph, parent, id.as_str(), Ghost(rel_path@), Ghost(prefix));
    proof {
        if old(graph)@.has_id(parent@) {
            crate::resolve::lemma_with_edge_links(g1, parent@, id@, EdgeKind::Contains);
        }
        assert(graph@.nodes == g1.nodes);
        lemma_grown_trans(old(graph)@, g1, graph@, rel_path@, prefix);
        graph.lemma_valid();
        lemma_declared_grown(old(graph)@, g1, graph@, rel_path@, prefix, id@, kind);
        crate::resolve::lemma_with_edge_made_to(g1, parent@, id@, EdgeKind::Contains);
        assert(g1.edges == old(graph)@.edges);
        assert forall|e: int| old(graph)@.edges.len() <= e < graph@.edges.len()
            implies set![(parent@, id@)].contains(((#[trigger] graph@.id_edges()[e]).0, graph@.id_edges()[e].1)) by {
            assert(graph@.id_edges()[e] == (parent@, id@, EdgeKind::Contains));
        }
    }
    id
}

/// Every node added from `a` to `b` has an id in `ids`, and every edge
/// added joins, from source to target, the two ids of a pair in `links`.
pub open spec fn links_within(a: GraphModel, b: GraphModel, ids: Set<Seq<char>>, links: Set<(Seq<char>, Seq<char>)>) -> bool {
    &&& forall|v: int| a.nodes.len() <= v < b.nodes.len() ==> ids.contains((#[trigger] b.nodes[v]).id@)
    &&& forall|e: int| a.edges.len() <= e < b.edges.len() ==> links.contains(((#[trigger] b.id_edges()[e]).0, b.id_edges()[e].1))
}

pub proof fn lemma_links_within_refl(g: GraphModel, ids: Set<Seq<char>>, links: Set<(Seq<char>, Seq<char>)>)
    ensures
        links_within(g, g, ids, links),
{
}

pub proof fn lemma_links_within_weaken(
    a: GraphModel, b: GraphModel,
    ids1: Set<Seq<char>>, links1: Set<(Seq<char>, Seq<char>)>,
    ids2: Set<Seq<char>>, links2: Set<(Seq<char>, Seq<char>)>,
)
    requires
        links_within(a, b, ids1, links1),
        ids1.subset_of(ids2),
        links1.subset_of(links2),
    ensures
        links_within(a, b, ids2, links2),
{
}

/// Growth within bounds, one step after another, stays within both.
pub proof fn lemma_links_within_trans(
    a: GraphModel, b: GraphModel, c: GraphModel,
    ids1: Set<Seq<char>>, links1: Set<(Seq<char>, Seq<char>)>,
    ids2: Set<Seq<char>>, links2: Set<(Seq<char>, Seq<char>)>,
)
    requires
        b.valid(),
        a.nodes.len() <= b.nodes.len(),
        a.edges.len() <= b.edges.len(),
        b.nodes.len() <= c.nodes.len(),
        c.nodes.subrange(0, b.nodes.len() as int) == b.nodes,
        b.edges.len() <= c.edges.len(),
        c.edges.subrange(0, b.edges.len() as int) == b.edges,
        links_within(a, b, ids1, links1),
        links_within(b, c, ids2, links2),
    ensures
        links_within(a, c, ids1.union(ids2), links1.union(links2)),
{
    assert forall|v: int| a.nodes.len() <= v < c.nodes.len() implies ids1.union(ids2).contains((#[trigger] c.nodes[v]).id@) by {
        if v < b.nodes.len() {
            assert(c.nodes.subrange(0, b.nodes.len() as int)[v] == c.nodes[v]);
        }
    }
    assert forall|e: int| a.edges.len() <= e < c.edges.len()
        implies links1.union(links2).contains(((#[trigger] c.id_edges()[e]).0, c.id_edges()[e].1)) by {
        if e < b.edges.len() {
            assert(c.edges.subrange(0, b.edges.len() as int)[e] == c.edges[e]);
            let ed = b.edges[e];
            assert(c.nodes.subrange(0, b.nodes.len() as int)[ed.0 as int] == c.nodes[ed.0 as int]);
            assert(c.nodes.subrange(0, b.nodes.len() as int)[ed.1 as int] == c.nodes[ed.1 as int]);
            assert(c.id_edges()[e] == b.id_edges()[e]);
        }
    }
}

/// One declaration's bound, with its id as the target of its link.
pub proof fn lemma_links_single(a: GraphModel, b: GraphModel, p: Seq<char>, id: Seq<char>)
    requires
        links_within(a, b, set![id], set![(p, id)]),
    ensures
        links_within(a, b, link_targets(set![(p, id)]), set![(p, id)]),
{
    assert(set![(p, id)].contains((p, id)));
    assert(set![id].subset_of(link_targets(set![(p, id)])));
    lemma_links_within_weaken(a, b, set![id], set![(p, id)], link_targets(set![(p, id)]), set![(p, id)]);
}

/// Two steps of growth, each within its links and their targets, stay
/// within the union of the links and its targets.
pub proof fn lemma_links_then(
    a: GraphModel, b: GraphModel, c: GraphModel,
    l1: Set<(Seq<char>, Seq<char>)>, l2: Set<(Seq<char>, Seq<char>)>,
    file: Seq<char>, p1: Seq<char>, p2: Seq<char>,
)
    requires
        b.valid(),
        grown(a, b, file, p1),
        grown(b, c, file, p2),
        links_within(a, b, link_targets(l1), l1),
        links_within(b, c, link_targets(l2), l2),
    ensures
        links_within(a, c, link_targets(l1.union(l2)), l1.union(l2)),
{
    lemma_links_within_trans(a, b, c, link_targets(l1), l1, link_targets(l2), l2);
    lemma_link_targets_mono(l1, l1.union(l2));
    lemma_link_targets_mono(l2, l1.union(l2));
    lemma_links_within_weaken(a, c, link_targets(l1).union(link_targets(l2)), l1.union(l2), link_targets(l1.union(l2)), l1.union(l2));
}

/// The ids a set of (parent, child) links leads to.
pub open spec fn link_targets(l: Set<(Seq<char>, Seq<char>)>) -> Set<Seq<char>> {
    Set::new(|id: Seq<char>| exists|p: Seq<char>| #[trigger] l.contains((p, id)))
}

pub proof fn lemma_link_targets_mono(l1: Set<(Seq<char>, Seq<char>)>, l2: Set<(Seq<char>, Seq<char>)>)
    requires
        l1.subset_of(l2),
    ensures
        link_targets(l1).subset_of(link_targets(l2)),
{
    assert forall|id: Seq<char>| link_targets(l1).contains(id) implies link_targets(l2).contains(id) by {
        let p = choose|p: Seq<char>| #[trigger] l1.contains((p, id));
        assert(l2.contains((p, id)));
    }
}

} // verus!

verus! {

/// The texts of the children of kind `k1` or `k2`, in order.
pub open spec fn kind_texts(cs: Seq<SyntaxNode>, k1: Seq<char>, k2: Seq<char>) -> Seq<Seq<char>>
    decreases cs.len(),
{
    if cs.len() == 0 {
        Seq::empty()
    } else {
        kind_texts(cs.drop_last(), k1, k2) + if cs.last().kind@ == k1 || cs.last().kind@ == k2 {
            seq![cs.last().text@]
        } else {
            Seq::empty()
        }
    }
}

/// For each child of kind `outer`, in order, the texts of its children of
/// kind `k1` or `k2`.
pub open spec fn inner_texts(cs: Seq<SyntaxNode>, outer: Seq<char>, k1: Seq<char>, k2: Seq<char>) -> Seq<Seq<char>>
    decreases cs.len(),
{
    if cs.len() == 0 {
        Seq::empty()
    } else {
        inner_texts(cs.drop_last(), outer, k1, k2) + if cs.last().kind@ == outer {
            kind_texts(cs.last().children@, k1, k2)
        } else {
            Seq::empty()
        }
    }
}

pub open spec fn texts_view(v: Seq<String>) -> Seq<Seq<char>> {
    v.map_values(|s: String| s@)
}

fn push_text(out: &mut Vec<String>, t: String)
    ensures
        texts_view(final(out)@) == texts_view(old(out)@).push(t@),
{
    out.push(t);
    assert(texts_view(out@) =~= texts_view(old(out)@).push(t@));
}

/// Appends the texts of the children of kind `k1` or `k2` (see
/// `kind_texts`).
pub fn kind_texts_of(node: &SyntaxNode, k1: &str, k2: &str, out: &mut Vec<String>)
    ensures
        texts_view(final(out)@) == texts_view(old(out)@) + kind_texts(node.children@, k1@, k2@),
{
    let mut i: usize = 0;
    assert(texts_view(out@) =~= texts_view(old(out)@) + kind_texts(node.children@.subrange(0, 0), k1@, k2@));
    while i < node.children.len()
        invariant
            i <= node.children@.len(),
            texts_view(out@) == texts_view(old(out)@) + kind_texts(node.children@.subrange(0, i as int), k1@, k2@),
        decreases node.children@.len() - i,
    {
        let c = &node.children[i];
        assert(node.children@.subrange(0, i + 1).drop_last() =~= node.children@.subrange(0, i as int));
        if kind_is(c, k1) || kind_is(c, k2) {
            push_text(out, c.text.clone());
        }
        assert(texts_view(out@) =~= texts_view(old(out)@) + kind_texts(node.children@.subrange(0, i + 1), k1@, k2@));
        i = i + 1;
    }
    assert(node.children@.subrange(0, node.children@.len() as int) =~= node.children@);
}

/// Appends, for each child of kind `outer`, the texts of its children of
/// kind `k1` or `k2` (see `inner_texts`).
pub fn inner_texts_of(node: &SyntaxNode, outer: &str, k1: &str, k2: &str, out: &mut Vec<String>)
    ensures
        texts_view(final(out)@) == texts_view(old(out)@) + inner_texts(node.children@, outer@, k1@, k2@),
{
    let mut i: usize = 0;
    assert(texts_view(out@) =~= texts_view(old(out)@) + inner_texts(node.children@.subrange(0, 0), outer@, k1@, k2@));
    while i < node.children.len()
        invariant
            i <= node.children@.len(),
            texts_view(out@) == texts_view(old(out)@) + inner_texts(node.children@.subrange(0, i as int), outer@, k1@, k2@),
        decreases node.children@.len() - i,
    {
        let c = &node.children[i];
        assert(node.children@.subrange(0, i + 1).drop_last() =~= node.children@.subrange(0, i as int));
        let ghost before = texts_view(out@);
        if kind_is(c, outer) {
            kind_texts_of(c, k1, k2, out);
        }
        assert(texts_view(out@) =~= texts_view(old(out)@) + inner_texts(node.children@.subrange(0, i + 1), outer@, k1@, k2@));
        i = i + 1;
    }
    assert(node.children@.subrange(0, node.children@.len() as int) =~= node.children@);
}

/// Each of `seconds` paired with `first`, in order.
pub open spec fn paired(first: Seq<char>, seconds: Seq<Seq<char>>) -> Seq<(Seq<char>, Seq<char>)> {
    seconds.map_values(|b: Seq<char>| (first, b))
}

/// Records that `user` uses each of `types`, in order.
pub fn push_uses_types(ctx: &mut ParseContext, user: &str, types: &Vec<String>)
    ensures
        ctx_grown(*old(ctx), *final(ctx)),
        pairs_view(final(ctx).pending_uses_type@) == pairs_view(old(ctx).pending_uses_type@) + paired(user@, texts_view(types@)),
        final(ctx).pending_calls@ == old(ctx).pending_calls@,
        final(ctx).pending_inherits@ == old(ctx).pending_inherits@,
        final(ctx).pending_mods@ == old(ctx).pending_mods@,
        final(ctx).imports@ == old(ctx).imports@,
        final(ctx).alias_map@ == old(ctx).alias_map@,
        final(ctx).local_var_types@ == old(ctx).local_var_types@,
        final(ctx).class_fields@ == old(ctx).class_fields@,
{
    proof { lemma_ctx_grown_refl(*ctx); }
    let ghost ts = texts_view(types@);
    let mut k: usize = 0;
    assert(pairs_view(ctx.pending_uses_type@) =~= pairs_view(old(ctx).pending_uses_type@) + paired(user@, ts.subrange(0, 0)));
    while k < types.len()
        invariant
            k <= types@.len(),
            ts == texts_view(types@),
            ctx_grown(*old(ctx), *ctx),
            pairs_view(ctx.pending_uses_type@) == pairs_view(old(ctx).pending_uses_type@) + paired(user@, ts.subrange(0, k as int)),
            ctx.pending_calls@ == old(ctx).pending_calls@,
            ctx.pending_inherits@ == old(ctx).pending_inherits@,
            ctx.pending_mods@ == old(ctx).pending_mods@,
            ctx.imports@ == old(ctx).imports@,
            ctx.alias_map@ == old(ctx).alias_map@,
            ctx.local_var_types@ == old(ctx).local_var_types@,
            ctx.class_fields@ == old(ctx).class_fields@,
        decreases types@.len() - k,
    {
        let ghost c1 = *ctx;
        let u = user.to_string();
        let t = types[k].clone();
        let ghost pair = (u@, t@);
        push_uses_type(ctx, u, t);
        proof {
            crate::context::lemma_ctx_grown_trans(*old(ctx), c1, *ctx);
            assert(pairs_view(ctx.pending_uses_type@) =~= pairs_view(c1.pending_uses_type@).push(pair));
            assert(pair == (user@, types@[k as int]@));
            let pre = paired(user@, ts.subrange(0, k as int));
            assert(pairs_view(old(ctx).pending_uses_type@) + pre.push(pair) =~= (pairs_view(old(ctx).pending_uses_type@) + pre).push(pair));
            assert(paired(user@, ts.subrange(0, k + 1)) =~= paired(user@, ts.subrange(0, k as int)).push((user@, types@[k as int]@)));
        }
        k = k + 1;
    }
    assert(ts.subrange(0, types@.len() as int) =~= ts);
}

/// Records that `child` inherits from each of `bases`, in order.
pub fn push_inherits(ctx: &mut ParseContext, child: &str, bases: &Vec<String>)
    ensures
        ctx_grown(*old(ctx), *final(ctx)),
        pairs_view(final(ctx).pending_inherits@) == pairs_view(old(ctx).pending_inherits@) + paired(child@, texts_view(bases@)),
        final(ctx).pending_calls@ == old(ctx).pending_calls@,
        final(ctx).pending_uses_type@ == old(ctx).pending_uses_type@,
        final(ctx).pending_mods@ == old(ctx).pending_mods@,
        final(ctx).imports@ == old(ctx).imports@,
        final(ctx).alias_map@ == old(ctx).alias_map@,
        final(ctx).local_var_types@ == old(ctx).local_var_types@,
        final(ctx).class_fields@ == old(ctx).class_fields@,
{
    proof { lemma_ctx_grown_refl(*ctx); }
    let ghost bs = texts_view(bases@);
    let mut k: usize = 0;
    assert(pairs_view(ctx.pending_inherits@) =~= pairs_view(old(ctx).pending_inherits@) + paired(child@, bs.subrange(0, 0)));
    while k < bases.len()
        invariant
            k <= bases@.len(),
            bs == texts_view(bases@),
            ctx_grown(*old(ctx), *ctx),
            pairs_view(ctx.pending_inherits@) == pairs_view(old(ctx).pending_inherits@) + paired(child@, bs.subrange(0, k as int)),
            ctx.pending_calls@ == old(ctx).pending_calls@,
            ctx.pending_uses_type@ == old(ctx).pending_uses_type@,
            ctx.pending_mods@ == old(ctx).pending_mods@,
            ctx.imports@ == old(ctx).imports@,
            ctx.alias_map@ == old(ctx).alias_map@,
            ctx.local_var_types@ == old(ctx).local_var_types@,
            ctx.class_fields@ == old(ctx).class_fields@,
        decreases bases@.len() - k,
    {
        let ghost c1 = *ctx;
        let ch = child.to_string();
        let b = bases[k].clone();
        let ghost pair = (ch@, b@);
        push_inherit(ctx, ch, b);
        proof {
            crate::context::lemma_ctx_grown_trans(*old(ctx), c1, *ctx);
            assert(pairs_view(ctx.pending_inherits@) =~= pairs_view(c1.pending_inherits@).push(pair));
            assert(pair == (child@, bases@[k as int]@));
            let pre = paired(child@, bs.subrange(0, k as int));
            assert(pairs_view(old(ctx).pending_inherits@) + pre.push(pair) =~= (pairs_view(old(ctx).pending_inherits@) + pre).push(pair));
            assert(paired(child@, bs.subrange(0, k + 1)) =~= paired(child@, bs.subrange(0, k as int)).push((child@, bases@[k as int]@)));
        }
        k = k + 1;
    }
    assert(bs.subrange(0, bases@.len() as int) =~= bs);
}

} // verus!
