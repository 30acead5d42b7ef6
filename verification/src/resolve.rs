//! The resolution pass: names recorded by the front-ends become edges between
//! graph nodes, with external symbols added as external nodes.
use vstd::prelude::*;

use crate::context::{lookup, lookup_pair, ParseContext, PendingCall};
use crate::model::{CodeGraph, EdgeKind, GraphModel, Node, NodeKind};
use crate::store::{str_map_entries, str_map_get, str_map_insert, str_map_new, IdTable};
use crate::text::{
    char_is_uppercase, chars_of, contains_seq, first_from, lemma_first_from_bounds, has_char, has_prefix, has_seq, is_upper, last_piece, last_piece_of,
    starts_with, string_from, trim_of, trim_white,
};

verus! {

/// A character allowed in an all-caps constant name.
pub open spec fn constant_char(c: char) -> bool {
    is_upper(c) || c == '_' || ('0' <= c && c <= '9')
}

/// The last component of a name, after its last `::` or `.`, trimmed.
pub open spec fn last_component_of(name: Seq<char>) -> Seq<char> {
    trim_white(last_piece(last_piece(name, "::"@), "."@))
}

/// The kind given to an external symbol, judged on the last component of its
/// name (see `last_component_of`); an external symbol is never a module:
/// more than one byte, all upper case, `_` or digits, a constant; an
/// upper-case first character, a class; otherwise a function.
pub open spec fn external_kind(name: Seq<char>) -> NodeKind {
    let last = last_component_of(name);
    if last.len() == 0 {
        NodeKind::Function
    } else if (vstd::utf8::encode_utf8(last).len() as usize) > 1 && (forall|i: int| 0 <= i < last.len() ==> constant_char(#[trigger] last[i])) {
        NodeKind::Constant
    } else if is_upper(last[0]) {
        NodeKind::Class
    } else {
        NodeKind::Function
    }
}

/// The kind given to an external symbol (see `external_kind`).
pub fn infer_external_kind(name: &str) -> (k: NodeKind)
    ensures
        k == external_kind(name@),
        k != NodeKind::Module,
{
    let cs = chars_of(name);
    let sep = chars_of("::");
    let dot = chars_of(".");
    let piece = last_piece_of(cs.as_slice(), sep.as_slice());
    let piece2 = last_piece_of(piece.as_slice(), dot.as_slice());
    let last = trim_of(piece2.as_slice());
    if last.len() == 0 {
        return NodeKind::Function;
    }
    let last_s = string_from(last.as_slice());
    let mut all_const = true;
    let mut i: usize = 0;
    while i < last.len()
        invariant
            i <= last@.len(),
            all_const <==> forall|j: int| 0 <= j < i ==> constant_char(#[trigger] last@[j]),
        decreases last@.len() - i,
    {
        let c = last[i];
        let ok = char_is_uppercase(c) || c == '_' || ('0' <= c && c <= '9');
        if !ok {
            all_const = false;
        }
        i = i + 1;
    }
    if last_s.as_str().len() > 1 && all_const {
        return NodeKind::Constant;
    }
    if char_is_uppercase(last[0]) {
        NodeKind::Class
    } else {
        NodeKind::Function
    }
}

} // verus!

verus! {

pub open spec fn strs(v: Seq<String>) -> Seq<Seq<char>> {
    v.map_values(|s: String| s@)
}

/// Appending an id to the candidates registered under a name.
pub open spec fn reg_add(m: Map<Seq<char>, Seq<Seq<char>>>, k: Seq<char>, v: Seq<char>) -> Map<Seq<char>, Seq<Seq<char>>> {
    m.insert(k, if m.dom().contains(k) { m[k].push(v) } else { seq![v] })
}

/// The name registry of a list of nodes: each node's id is registered under
/// its name and, when different, under the last `.` segment of its id.
pub open spec fn registry_of(nodes: Seq<Node>) -> Map<Seq<char>, Seq<Seq<char>>>
    decreases nodes.len(),
{
    if nodes.len() == 0 {
        Map::empty()
    } else {
        let n = nodes.last();
        let m1 = reg_add(registry_of(nodes.drop_last()), n.name@, n.id@);
        let seg = last_piece(n.id@, "."@);
        if seg != n.name@ {
            reg_add(m1, seg, n.id@)
        } else {
            m1
        }
    }
}

/// Candidate ids by short name, built from a graph's nodes.
pub struct Resolver {
    names: IdTable,
    slots: Vec<Vec<String>>,
}

impl Resolver {
    /// Which ids are registered under which names.
    pub closed spec fn registry(&self) -> Map<Seq<char>, Seq<Seq<char>>> {
        Map::new(
            |k: Seq<char>| str_map_entries(self.names).dom().contains(k),
            |k: Seq<char>| strs(self.slots@[str_map_entries(self.names)[k] as int]@),
        )
    }

    /// Each name owns its own non-empty list of candidates.
    pub closed spec fn wf(&self) -> bool {
        let t = str_map_entries(self.names);
        &&& forall|k: Seq<char>| #[trigger] t.dom().contains(k) ==> t[k] < self.slots@.len()
            && self.slots@[t[k] as int]@.len() > 0
        &&& forall|k1: Seq<char>, k2: Seq<char>|
            #[trigger] t.dom().contains(k1) && #[trigger] t.dom().contains(k2) && k1 != k2 ==> t[k1] != t[k2]
        &&& forall|k: Seq<char>| #[trigger] t.dom().contains(k) ==> t[k] < self.slots@.len()
    }

    fn empty() -> (r: Resolver)
        ensures
            r.wf(),
            r.registry() == Map::<Seq<char>, Seq<Seq<char>>>::empty(),
    {
        let r = Resolver { names: str_map_new(), slots: Vec::new() };
        assert(r.registry() =~= Map::<Seq<char>, Seq<Seq<char>>>::empty());
        r
    }

    fn register(&mut self, k: String, id: String)
        requires
            old(self).wf(),
        ensures
            final(self).wf(),
            final(self).registry() == reg_add(old(self).registry(), k@, id@),
    {
        let ghost old_reg = self.registry();
        let ghost kv = k@;
        let ghost idv = id@;
        match str_map_get(&self.names, k.as_str()) {
            Some(i) => {
                let mut list: Vec<String> = Vec::new();
                std::mem::swap(&mut list, &mut self.slots[i]);
                let ghost old_list = list@;
                list.push(id);
                self.slots.set(i, list);
                proof {
                    let t = str_map_entries(self.names);
                    assert(strs(self.slots@[i as int]@) =~= strs(old_list).push(idv));
                    assert forall|k2: Seq<char>| t.dom().contains(k2) && k2 != kv implies
                        self.slots@[t[k2] as int] == old(self).slots@[t[k2] as int] by {}
                    assert(self.registry() =~= reg_add(old_reg, kv, idv));
                }
            },
            None => {
                let i = self.slots.len();
                let mut list: Vec<String> = Vec::new();
                list.push(id);
                self.slots.push(list);
                str_map_insert(&mut self.names, k, i);
                proof {
                    let t = str_map_entries(self.names);
                    let ot = str_map_entries(old(self).names);
                    assert(strs(self.slots@[i as int]@) =~= seq![idv]);
                    assert forall|k2: Seq<char>| ot.dom().contains(k2) implies
                        self.slots@[t[k2] as int] == old(self).slots@[ot[k2] as int] by {}
                    assert(self.registry() =~= reg_add(old_reg, kv, idv));
                }
            },
        }
    }

    /// The registry of a graph's nodes (see `registry_of`).
    pub fn build(graph: &CodeGraph) -> (r: Resolver)
        requires
            graph.wf(),
        ensures
            r.wf(),
            r.registry() == registry_of(graph@.nodes),
    {
        let mut r = Resolver::empty();
        let n = graph.node_count();
        let mut i: usize = 0;
        assert(graph@.nodes.subrange(0, 0) =~= Seq::<Node>::empty());
        while i < n
            invariant
                graph.wf(),
                n == graph@.nodes.len(),
                i <= n,
                r.wf(),
                r.registry() == registry_of(graph@.nodes.subrange(0, i as int)),
            decreases n - i,
        {
            let node = graph.node_at(i);
            let ghost ns = graph@.nodes.subrange(0, i + 1);
            assert(ns.drop_last() =~= graph@.nodes.subrange(0, i as int));
            r.register(node.name.clone(), node.id.clone());
            let ids = chars_of(node.id.as_str());
            let dot = chars_of(".");
            let seg = last_piece_of(ids.as_slice(), dot.as_slice());
            let name_chars = chars_of(node.name.as_str());
            if !crate::text::chars_eq(seg.as_slice(), name_chars.as_slice()) {
                r.register(string_from(seg.as_slice()), node.id.clone());
            }
            i = i + 1;
        }
        assert(graph@.nodes.subrange(0, n as int) =~= graph@.nodes);
        r
    }

    /// The candidates registered under a name.
    fn candidates(&self, k: &str) -> (r: Option<&Vec<String>>)
        requires
            self.wf(),
        ensures
            r is Some <==> self.registry().dom().contains(k@),
            r matches Some(v) ==> strs(v@) == self.registry()[k@] && v@.len() > 0,
    {
        match str_map_get(&self.names, k) {
            Some(i) => Some(&self.slots[i]),
            None => None,
        }
    }
}

} // verus!

verus! {

/// Every id registered for a list of nodes is the id of one of them.
pub proof fn lemma_registry_ids(nodes: Seq<Node>)
    ensures
        forall|k: Seq<char>, j: int| #![trigger registry_of(nodes)[k][j]] registry_of(nodes).dom().contains(k) && 0 <= j < registry_of(nodes)[k].len()
            ==> exists|i: int| 0 <= i < nodes.len() && #[trigger] nodes[i].id@ == registry_of(nodes)[k][j],
        forall|k: Seq<char>| #[trigger] registry_of(nodes).dom().contains(k) ==> registry_of(nodes)[k].len() > 0,
    decreases nodes.len(),
{
    if nodes.len() > 0 {
        let prev = nodes.drop_last();
        lemma_registry_ids(prev);
        let n = nodes.last();
        let last = nodes.len() - 1;
        assert(nodes[last].id@ == n.id@);
        assert forall|i: int| 0 <= i < prev.len() implies nodes[i] == prev[i] by {}
        let reg = registry_of(nodes);
        assert forall|k: Seq<char>, j: int| #![trigger reg[k][j]] reg.dom().contains(k) && 0 <= j < reg[k].len()
            implies exists|i: int| 0 <= i < nodes.len() && #[trigger] nodes[i].id@ == reg[k][j] by {
            let pr = registry_of(prev);
            if pr.dom().contains(k) && j < pr[k].len() {
                let i = choose|i: int| 0 <= i < prev.len() && #[trigger] prev[i].id@ == pr[k][j];
                assert(nodes[i].id@ == reg[k][j]);
            } else {
                assert(nodes[last].id@ == reg[k][j]);
            }
        }
    }
}

/// The id of the external node for a short name.
pub open spec fn ext_id(short: Seq<char>) -> Seq<char> {
    "__ext__."@ + short
}

/// The index of the first candidate with the given prefix, or -1.
pub open spec fn first_with_prefix(cands: Seq<Seq<char>>, p: Seq<char>) -> int
    decreases cands.len(),
{
    if cands.len() == 0 {
        -1
    } else if first_with_prefix(cands.drop_last(), p) >= 0 {
        first_with_prefix(cands.drop_last(), p)
    } else if starts_with(cands.last(), p) {
        cands.len() - 1
    } else {
        -1
    }
}

/// The index of the first candidate that is not an external id, or -1.
pub open spec fn first_internal(cands: Seq<Seq<char>>) -> int
    decreases cands.len(),
{
    if cands.len() == 0 {
        -1
    } else if first_internal(cands.drop_last()) >= 0 {
        first_internal(cands.drop_last())
    } else if !starts_with(cands.last(), "__ext__."@) {
        cands.len() - 1
    } else {
        -1
    }
}

/// Among several candidates, the first one inside the current module, else
/// the first one.
pub open spec fn choose_candidate(cands: Seq<Seq<char>>, module_id: Seq<char>) -> Seq<char> {
    if cands.len() == 1 {
        cands[0]
    } else if first_with_prefix(cands, module_id) >= 0 {
        cands[first_with_prefix(cands, module_id)]
    } else {
        cands[0]
    }
}

/// The name after alias resolution.
pub open spec fn dealiased(ctx: ParseContext, name: Seq<char>) -> Seq<char> {
    match lookup(ctx.alias_map@, name) {
        Some(r) => r,
        None => name,
    }
}

/// Where a name resolves from: an import naming an existing node; else the
/// registry entry of the (de-aliased) name; else, for a path, the first
/// internal candidate of its last `::` component; else the external node of
/// that component.
pub open spec fn resolution(reg: Map<Seq<char>, Seq<Seq<char>>>, ctx: ParseContext, g: GraphModel, name: Seq<char>) -> Seq<char> {
    let imp = lookup(ctx.imports@, name);
    if imp is Some && g.has_id(imp->0) {
        imp->0
    } else {
        let r = dealiased(ctx, name);
        if reg.dom().contains(r) && reg[r].len() > 0 {
            choose_candidate(reg[r], ctx.module_id@)
        } else {
            let short = last_piece(r, "::"@);
            if short != r && reg.dom().contains(short) && first_internal(reg[short]) >= 0 {
                reg[short][first_internal(reg[short])]
            } else {
                ext_id(short)
            }
        }
    }
}

/// The external node for a short name and the full name it was inferred from.
pub open spec fn is_ext_node(n: Node, short: Seq<char>, full: Seq<char>) -> bool {
    &&& n.id@ == ext_id(short)
    &&& n.name@ == short
    &&& n.kind == external_kind(full)
    &&& n.file@ == Seq::<char>::empty()
    &&& n.line == 0
    &&& n.is_external
    &&& n.docstring is None
}

/// Makes sure the external node for `short` exists (inferring its kind from
/// `full`) and returns its id.
fn ensure_external(short: &[char], full: &str, graph: &mut CodeGraph) -> (r: String)
    requires
        old(graph).wf(),
    ensures
        final(graph).wf(),
        r@ == ext_id(short@),
        final(graph)@.has_id(r@),
        old(graph)@.has_id(r@) ==> final(graph)@ == old(graph)@,
        !old(graph)@.has_id(r@) ==> exists|n: Node| is_ext_node(n, short@, full@) && final(graph)@ == old(graph)@.with_node(n),
{
    let mut idc = chars_of("__ext__.");
    crate::text::append_chars(&mut idc, short);
    let id = string_from(idc.as_slice());
    if graph.has_node(id.as_str()) {
        return id;
    }
    let node = Node {
        id: id.clone(),
        name: string_from(short),
        kind: infer_external_kind(full),
        file: String::new(),
        line: 0,
        is_external: true,
        docstring: None,
    };
    graph.add_node(node);
    id
}

/// Every registered id names a node of the graph.
pub open spec fn registered_in(reg: Map<Seq<char>, Seq<Seq<char>>>, g: GraphModel) -> bool {
    forall|k: Seq<char>, j: int| #![trigger reg[k][j]] reg.dom().contains(k) && 0 <= j < reg[k].len() ==> g.has_id(reg[k][j])
}

impl Resolver {
    /// Resolves a name recorded in a file's context to a node id (see
    /// `resolution`), adding the external node when the name resolves to
    /// one that is missing.
    pub fn resolve_name(&self, name: &str, ctx: &ParseContext, graph: &mut CodeGraph) -> (r: Option<String>)
        requires
            self.wf(),
            old(graph).wf(),
            registered_in(self.registry(), old(graph)@),
        ensures
            final(graph).wf(),
            r matches Some(id) && id@ == resolution(self.registry(), *ctx, old(graph)@, name@),
            final(graph)@.has_id(resolution(self.registry(), *ctx, old(graph)@, name@)),
            ({
                let id = resolution(self.registry(), *ctx, old(graph)@, name@);
                let short = last_piece(dealiased(*ctx, name@), "::"@);
                if id == ext_id(short) && !old(graph)@.has_id(id) {
                    exists|n: Node| is_ext_node(n, short, dealiased(*ctx, name@)) && final(graph)@ == old(graph)@.with_node(n)
                } else {
                    final(graph)@ == old(graph)@
                }
            }),
    {
        let ghost reg = self.registry();
        let ghost g = graph@;
        match ctx.imports.get(name) {
            Some(full) => {
                if graph.has_node(full.as_str()) {
                    return Some(full.clone());
                }
            },
            None => {},
        }
        let resolved: &str = match ctx.alias_map.get(name) {
            Some(target) => target.as_str(),
            None => name,
        };
        assert(resolved@ == dealiased(*ctx, name@));
        let ghost imp = lookup(ctx.imports@, name@);
        assert(!(imp is Some && g.has_id(imp->0)));
        match self.candidates(resolved) {
            Some(cands) => {
                proof {
                    assert(strs(cands@)[0] == cands@[0]@);
                    assert(graph@.has_id(reg[resolved@][0]));
                }
                if cands.len() == 1 {
                    return Some(cands[0].clone());
                }
                let mut i: usize = 0;
                let module = chars_of(ctx.module_id.as_str());
                while i < cands.len()
                    invariant
                        i <= cands@.len(),
                        cands@.len() > 1,
                        strs(cands@) == reg[resolved@],
                        reg.dom().contains(resolved@),
                        reg == self.registry(),
                        *graph == *old(graph),
                        graph.wf(),
                        g == old(graph)@,
                        registered_in(reg, g),
                        resolved@ == dealiased(*ctx, name@),
                        imp == lookup(ctx.imports@, name@),
                        !(imp is Some && g.has_id(imp->0)),
                        module@ == ctx.module_id@,
                        first_with_prefix(strs(cands@).subrange(0, i as int), ctx.module_id@) == -1,
                    decreases cands@.len() - i,
                {
                    let c = chars_of(cands[i].as_str());
                    let hit = has_prefix(c.as_slice(), module.as_slice());
                    proof {
                        assert(strs(cands@).subrange(0, i + 1).drop_last() =~= strs(cands@).subrange(0, i as int));
                        assert(strs(cands@)[i as int] == cands@[i as int]@);
                    }
                    if hit {
                        proof {
                            lemma_first_with_prefix_extend(strs(cands@), ctx.module_id@, i as int);
                            assert(graph@.has_id(reg[resolved@][i as int]));
                        }
                        return Some(cands[i].clone());
                    }
                    i = i + 1;
                }
                assert(strs(cands@).subrange(0, cands@.len() as int) =~= strs(cands@));
                return Some(cands[0].clone());
            },
            None => {},
        }
        let rc = chars_of(resolved);
        let sep = chars_of("::");
        let short = last_piece_of(rc.as_slice(), sep.as_slice());
        if !crate::text::chars_eq(short.as_slice(), rc.as_slice()) {
            let short_s = string_from(short.as_slice());
            match self.candidates(short_s.as_str()) {
                Some(cands) => {
                    let ext = chars_of("__ext__.");
                    let mut i: usize = 0;
                    while i < cands.len()
                        invariant
                            i <= cands@.len(),
                            strs(cands@) == reg[short@],
                            reg.dom().contains(short@),
                            reg == self.registry(),
                            *graph == *old(graph),
                            graph.wf(),
                            g == old(graph)@,
                            registered_in(reg, g),
                            resolved@ == dealiased(*ctx, name@),
                            imp == lookup(ctx.imports@, name@),
                            !(imp is Some && g.has_id(imp->0)),
                            !(reg.dom().contains(resolved@) && reg[resolved@].len() > 0),
                            short@ == last_piece(resolved@, "::"@),
                            short@ != resolved@,
                            ext@ == "__ext__."@,
                            first_internal(strs(cands@).subrange(0, i as int)) == -1,
                        decreases cands@.len() - i,
                    {
                        let c = chars_of(cands[i].as_str());
                        proof {
                            assert(strs(cands@).subrange(0, i + 1).drop_last() =~= strs(cands@).subrange(0, i as int));
                            assert(strs(cands@)[i as int] == cands@[i as int]@);
                        }
                        if !has_prefix(c.as_slice(), ext.as_slice()) {
                            proof {
                                lemma_first_internal_extend(strs(cands@), i as int);
                                assert(graph@.has_id(reg[short@][i as int]));
                            }
                            return Some(cands[i].clone());
                        }
                        i = i + 1;
                    }
                    assert(strs(cands@).subrange(0, cands@.len() as int) =~= strs(cands@));
                },
                None => {},
            }
        }
        let id = ensure_external(short.as_slice(), resolved, graph);
        Some(id)
    }
}

proof fn lemma_first_with_prefix_extend(cands: Seq<Seq<char>>, p: Seq<char>, i: int)
    requires
        0 <= i < cands.len(),
        first_with_prefix(cands.subrange(0, i), p) == -1,
        starts_with(cands[i], p),
    ensures
        first_with_prefix(cands, p) == i,
    decreases cands.len(),
{
    if cands.len() > i + 1 {
        assert(cands.drop_last().subrange(0, i) =~= cands.subrange(0, i));
        lemma_first_with_prefix_extend(cands.drop_last(), p, i);
    } else {
        assert(cands.drop_last() =~= cands.subrange(0, i));
    }
}

proof fn lemma_first_internal_extend(cands: Seq<Seq<char>>, i: int)
    requires
        0 <= i < cands.len(),
        first_internal(cands.subrange(0, i)) == -1,
        !starts_with(cands[i], "__ext__."@),
    ensures
        first_internal(cands) == i,
    decreases cands.len(),
{
    if cands.len() > i + 1 {
        assert(cands.drop_last().subrange(0, i) =~= cands.subrange(0, i));
        lemma_first_internal_extend(cands.drop_last(), i);
    } else {
        assert(cands.drop_last() =~= cands.subrange(0, i));
    }
}

} // verus!

verus! {

/// The shape of a node that resolution adds: external, with the id
/// `__ext__.` + its name, no file, line 0 and no docstring.
pub open spec fn ext_shaped(n: Node) -> bool {
    &&& n.is_external
    &&& n.id@ == ext_id(n.name@)
    &&& n.kind == external_kind(n.name@)
    &&& starts_with(n.id@, "__ext__."@)
    &&& n.file@ == Seq::<char>::empty()
    &&& n.line == 0
    &&& n.docstring is None
}

/// An edge that resolution may add to `g`: never a field-type edge, and an
/// external-dependency edge only towards an external (`__ext__.`) node.
pub open spec fn ext_edge_ok(g: GraphModel, e: (usize, usize, EdgeKind)) -> bool {
    &&& e.2 != EdgeKind::FieldType
    &&& e.2 == EdgeKind::ExternalDep ==> e.1 < g.nodes.len() && starts_with(g.nodes[e.1 as int].id@, "__ext__."@)
}

/// The graph only grew during resolution: old nodes and edges come first,
/// unchanged; every new node is an external node (see `ext_shaped`); every
/// new edge is allowed (see `ext_edge_ok`).
pub open spec fn ext_grown(old: GraphModel, new: GraphModel) -> bool {
    &&& old.nodes.len() <= new.nodes.len()
    &&& new.nodes.subrange(0, old.nodes.len() as int) == old.nodes
    &&& old.edges.len() <= new.edges.len()
    &&& new.edges.subrange(0, old.edges.len() as int) == old.edges
    &&& forall|i: int| old.nodes.len() <= i < new.nodes.len() ==> ext_shaped(#[trigger] new.nodes[i])
    &&& forall|i: int| old.edges.len() <= i < new.edges.len() ==> ext_edge_ok(new, #[trigger] new.edges[i])
}

pub proof fn lemma_ext_grown_refl(g: GraphModel)
    ensures
        ext_grown(g, g),
{
    assert(g.nodes.subrange(0, g.nodes.len() as int) =~= g.nodes);
    assert(g.edges.subrange(0, g.edges.len() as int) =~= g.edges);
}

pub proof fn lemma_ext_grown_trans(a: GraphModel, b: GraphModel, c: GraphModel)
    requires
        ext_grown(a, b),
        ext_grown(b, c),
    ensures
        ext_grown(a, c),
{
    assert(c.nodes.subrange(0, a.nodes.len() as int) =~= b.nodes.subrange(0, a.nodes.len() as int));
    assert(c.edges.subrange(0, a.edges.len() as int) =~= b.edges.subrange(0, a.edges.len() as int));
    assert forall|i: int| a.nodes.len() <= i < c.nodes.len() implies ext_shaped(#[trigger] c.nodes[i]) by {
        if i < b.nodes.len() {
            assert(c.nodes.subrange(0, b.nodes.len() as int)[i] == c.nodes[i]);
        }
    }
    assert forall|i: int| a.edges.len() <= i < c.edges.len() implies ext_edge_ok(c, #[trigger] c.edges[i]) by {
        if i < b.edges.len() {
            assert(c.edges.subrange(0, b.edges.len() as int)[i] == c.edges[i]);
            let e = b.edges[i];
            assert(ext_edge_ok(b, e));
            if e.2 == EdgeKind::ExternalDep {
                assert(c.nodes.subrange(0, b.nodes.len() as int)[e.1 as int] == c.nodes[e.1 as int]);
            }
        }
    }
}

/// Adding an allowed edge is growth.
pub proof fn lemma_ext_grown_edge(g: GraphModel, s: Seq<char>, t: Seq<char>, k: EdgeKind)
    requires
        g.valid(),
        g.nodes.len() <= usize::MAX,
        k != EdgeKind::FieldType,
        k == EdgeKind::ExternalDep ==> starts_with(t, "__ext__."@),
    ensures
        ext_grown(g, g.with_edge(s, t, k)),
{
    let h = g.with_edge(s, t, k);
    assert(h.nodes.subrange(0, g.nodes.len() as int) =~= g.nodes);
    assert(h.edges.subrange(0, g.edges.len() as int) =~= g.edges);
    if h.edges.len() > g.edges.len() {
        let it = g.index_of(t);
        assert(0 <= it < g.nodes.len() && g.nodes[it].id@ == t);
        assert(ext_edge_ok(h, h.edges[g.edges.len() as int]));
    }
}

/// The last piece of a last piece is itself.
proof fn lemma_last_piece_idem(s: Seq<char>, p: Seq<char>)
    ensures
        last_piece(last_piece(s, p), p) == last_piece(s, p),
    decreases s.len(),
{
    let i = first_from(s, p, 0);
    lemma_first_from_bounds(s, p, 0);
    if p.len() > 0 && i >= 0 {
        lemma_last_piece_idem(s.skip(i + p.len()), p);
    }
}

/// Adding an external node, named by the last `::` piece of the full name
/// its kind was inferred from, is growth.
pub proof fn lemma_ext_grown_node(g: GraphModel, n: Node, short: Seq<char>, full: Seq<char>)
    requires
        is_ext_node(n, short, full),
        short == last_piece(full, "::"@),
    ensures
        ext_grown(g, g.with_node(n)),
{
    lemma_last_piece_idem(full, "::"@);
    assert(last_component_of(short) == last_component_of(full));
    let h = g.with_node(n);
    assert(h.nodes.subrange(0, g.nodes.len() as int) =~= g.nodes);
    assert(h.edges.subrange(0, g.edges.len() as int) =~= g.edges);
    crate::front::lemma_starts_with_concat("__ext__."@, short);
    assert forall|i: int| g.edges.len() <= i < h.edges.len() implies ext_edge_ok(h, #[trigger] h.edges[i]) by {}
}

/// Registered ids stay in a graph that grows.
pub proof fn lemma_registered_grown(reg: Map<Seq<char>, Seq<Seq<char>>>, a: GraphModel, b: GraphModel)
    requires
        registered_in(reg, a),
        ext_grown(a, b),
    ensures
        registered_in(reg, b),
{
    assert forall|k: Seq<char>, j: int| #![trigger reg[k][j]] reg.dom().contains(k) && 0 <= j < reg[k].len() implies b.has_id(reg[k][j]) by {
        assert(a.has_id(reg[k][j]));
        let i = choose|i: int| 0 <= i < a.nodes.len() && #[trigger] a.nodes[i].id@ == reg[k][j];
        assert(b.nodes.subrange(0, a.nodes.len() as int)[i] == b.nodes[i]);
    }
}

/// The graph has an edge of kind `k` from the node with id `s` to the node
/// with id `t`.
pub open spec fn has_link(g: GraphModel, s: Seq<char>, t: Seq<char>, k: EdgeKind) -> bool {
    g.id_edges().contains((s, t, k))
}

/// `user` is linked in `b`, by an edge of kind `k`, to what `name` resolves
/// to (see `resolution`) in some graph that lies between `a` and `b`.
pub open spec fn linked_between(
    reg: Map<Seq<char>, Seq<Seq<char>>>,
    ctx: ParseContext,
    a: GraphModel,
    b: GraphModel,
    user: Seq<char>,
    name: Seq<char>,
    k: EdgeKind,
) -> bool {
    exists|m: GraphModel| #[trigger] ext_grown(a, m) && ext_grown(m, b) && has_link(b, user, resolution(reg, ctx, m, name), k)
}

/// An edge added between two existing ids is there afterwards.
pub proof fn lemma_with_edge_links(g: GraphModel, s: Seq<char>, t: Seq<char>, k: EdgeKind)
    requires
        g.valid(),
        g.nodes.len() <= usize::MAX,
        g.has_id(s),
        g.has_id(t),
    ensures
        has_link(g.with_edge(s, t, k), s, t, k),
{
    let h = g.with_edge(s, t, k);
    let is = g.index_of(s);
    let it = g.index_of(t);
    assert(0 <= is < g.nodes.len() && g.nodes[is].id@ == s);
    assert(0 <= it < g.nodes.len() && g.nodes[it].id@ == t);
    let e = (is as usize, it as usize, k);
    assert(e.0 as int == is && e.1 as int == it);
    let i = if g.edges.contains(e) {
        choose|i: int| 0 <= i < g.edges.len() && g.edges[i] == e
    } else {
        g.edges.len() as int
    };
    assert(h.edges[i] == e);
    assert(h.nodes == g.nodes);
    assert(h.id_edges()[i] == (s, t, k));
}

/// Growth keeps every link.
pub proof fn lemma_ext_grown_keeps_link(a: GraphModel, b: GraphModel, s: Seq<char>, t: Seq<char>, k: EdgeKind)
    requires
        a.valid(),
        ext_grown(a, b),
        has_link(a, s, t, k),
    ensures
        has_link(b, s, t, k),
{
    let i = choose|i: int| 0 <= i < a.id_edges().len() && a.id_edges()[i] == (s, t, k);
    assert(b.edges.subrange(0, a.edges.len() as int)[i] == b.edges[i]);
    let e = a.edges[i];
    assert(b.nodes.subrange(0, a.nodes.len() as int)[e.0 as int] == b.nodes[e.0 as int]);
    assert(b.nodes.subrange(0, a.nodes.len() as int)[e.1 as int] == b.nodes[e.1 as int]);
    assert(b.id_edges()[i] == (s, t, k));
}

/// A link made between `a` and `b` is still one between `a` and a later `c`.
pub proof fn lemma_linked_between_extend(
    reg: Map<Seq<char>, Seq<Seq<char>>>,
    ctx: ParseContext,
    a: GraphModel,
    b: GraphModel,
    c: GraphModel,
    user: Seq<char>,
    name: Seq<char>,
    k: EdgeKind,
)
    requires
        b.valid(),
        ext_grown(b, c),
        linked_between(reg, ctx, a, b, user, name, k),
    ensures
        linked_between(reg, ctx, a, c, user, name, k),
{
    let m = choose|m: GraphModel| #[trigger] ext_grown(a, m) && ext_grown(m, b) && has_link(b, user, resolution(reg, ctx, m, name), k);
    lemma_ext_grown_trans(m, b, c);
    lemma_ext_grown_keeps_link(b, c, user, resolution(reg, ctx, m, name), k);
    assert(ext_grown(a, m) && ext_grown(m, c) && has_link(c, user, resolution(reg, ctx, m, name), k));
}

/// The name a call site is resolved by: for a call on a receiver whose type
/// is known (as a field of the enclosing class, else as a local of the
/// caller), `Type.method`; else the called name.
pub open spec fn call_target_name(ctx: ParseContext, pc: PendingCall) -> Seq<char> {
    match pc.object {
        Some(obj) => match receiver_type(ctx, pc, obj@) {
            Some(tp) => tp + "."@ + pc.callee_name@,
            None => pc.callee_name@,
        },
        None => pc.callee_name@,
    }
}

/// The enclosing class of a call site (empty outside a class).
pub open spec fn call_owner(pc: PendingCall) -> Seq<char> {
    match pc.in_class {
        Some(c) => c@,
        None => Seq::empty(),
    }
}

/// The known type of a receiver: a field of the enclosing class, else a
/// local of the caller.
pub open spec fn receiver_type(ctx: ParseContext, pc: PendingCall, obj: Seq<char>) -> Option<Seq<char>> {
    match lookup_pair(ctx.class_fields@, call_owner(pc), obj) {
        Some(t) => Some(t),
        None => lookup_pair(ctx.local_var_types@, pc.caller_id@, obj),
    }
}

/// The class a receiver's type names: the preferred candidate (see
/// `choose_candidate`) registered under the de-aliased type name, if any.
pub open spec fn type_class(reg: Map<Seq<char>, Seq<Seq<char>>>, ctx: ParseContext, tp: Seq<char>) -> Option<Seq<char>> {
    let r = dealiased(ctx, tp);
    if reg.dom().contains(r) && reg[r].len() > 0 {
        Some(choose_candidate(reg[r], ctx.module_id@))
    } else {
        None
    }
}

/// The method node a call on a receiver of known type reaches in graph `g`:
/// the node `Class.method`, else `Class::method`, of the class the type
/// names, when the graph has it.
pub open spec fn method_node(reg: Map<Seq<char>, Seq<Seq<char>>>, ctx: ParseContext, g: GraphModel, pc: PendingCall) -> Option<Seq<char>> {
    match pc.object {
        Some(obj) => match receiver_type(ctx, pc, obj@) {
            Some(tp) => match type_class(reg, ctx, tp) {
                Some(c) => if g.has_id(c + "."@ + pc.callee_name@) {
                    Some(c + "."@ + pc.callee_name@)
                } else if g.has_id(c + "::"@ + pc.callee_name@) {
                    Some(c + "::"@ + pc.callee_name@)
                } else {
                    None
                },
                None => None,
            },
            None => None,
        },
        None => None,
    }
}

/// Where a call site resolves in graph `g`: the method node of its
/// receiver's class (see `method_node`), else what its target name resolves
/// to (see `call_target_name` and `resolution`).
pub open spec fn call_resolution(reg: Map<Seq<char>, Seq<Seq<char>>>, ctx: ParseContext, g: GraphModel, pc: PendingCall) -> Seq<char> {
    match method_node(reg, ctx, g, pc) {
        Some(id) => id,
        None => resolution(reg, ctx, g, call_target_name(ctx, pc)),
    }
}

/// The caller of `pc` is linked in `b`, by a call edge, to where the call
/// resolves (see `call_resolution`) in some graph that lies between `a` and
/// `b`.
pub open spec fn call_linked_between(reg: Map<Seq<char>, Seq<Seq<char>>>, ctx: ParseContext, a: GraphModel, b: GraphModel, pc: PendingCall) -> bool {
    exists|m: GraphModel| #[trigger] ext_grown(a, m) && ext_grown(m, b) && has_link(b, pc.caller_id@, call_resolution(reg, ctx, m, pc), EdgeKind::Calls)
}

/// A call link made between `a` and `b` is still one between `a` and a later `c`.
pub proof fn lemma_call_linked_extend(reg: Map<Seq<char>, Seq<Seq<char>>>, ctx: ParseContext, a: GraphModel, b: GraphModel, c: GraphModel, pc: PendingCall)
    requires
        b.valid(),
        ext_grown(b, c),
        call_linked_between(reg, ctx, a, b, pc),
    ensures
        call_linked_between(reg, ctx, a, c, pc),
{
    let m = choose|m: GraphModel| #[trigger] ext_grown(a, m) && ext_grown(m, b) && has_link(b, pc.caller_id@, call_resolution(reg, ctx, m, pc), EdgeKind::Calls);
    lemma_ext_grown_trans(m, b, c);
    lemma_ext_grown_keeps_link(b, c, pc.caller_id@, call_resolution(reg, ctx, m, pc), EdgeKind::Calls);
    assert(ext_grown(a, m) && ext_grown(m, c) && has_link(c, pc.caller_id@, call_resolution(reg, ctx, m, pc), EdgeKind::Calls));
}

/// A call link made between `b` and `c` is one between any earlier `a` and `c`.
pub proof fn lemma_call_linked_shift(reg: Map<Seq<char>, Seq<Seq<char>>>, ctx: ParseContext, a: GraphModel, b: GraphModel, c: GraphModel, pc: PendingCall)
    requires
        ext_grown(a, b),
        call_linked_between(reg, ctx, b, c, pc),
    ensures
        call_linked_between(reg, ctx, a, c, pc),
{
    let m = choose|m: GraphModel| #[trigger] ext_grown(b, m) && ext_grown(m, c) && has_link(c, pc.caller_id@, call_resolution(reg, ctx, m, pc), EdgeKind::Calls);
    lemma_ext_grown_trans(a, b, m);
    assert(ext_grown(a, m) && ext_grown(m, c) && has_link(c, pc.caller_id@, call_resolution(reg, ctx, m, pc), EdgeKind::Calls));
}

/// A link made between `b` and `c` is one between any earlier `a` and `c`.
pub proof fn lemma_linked_between_shift(
    reg: Map<Seq<char>, Seq<Seq<char>>>,
    ctx: ParseContext,
    a: GraphModel,
    b: GraphModel,
    c: GraphModel,
    user: Seq<char>,
    name: Seq<char>,
    k: EdgeKind,
)
    requires
        ext_grown(a, b),
        linked_between(reg, ctx, b, c, user, name, k),
    ensures
        linked_between(reg, ctx, a, c, user, name, k),
{
    let m = choose|m: GraphModel| #[trigger] ext_grown(b, m) && ext_grown(m, c) && has_link(c, user, resolution(reg, ctx, m, name), k);
    lemma_ext_grown_trans(a, b, m);
    assert(ext_grown(a, m) && ext_grown(m, c) && has_link(c, user, resolution(reg, ctx, m, name), k));
}

/// Every inherited type, used type and call site of every file, whose user
/// is a node of the graph before resolution, is linked to what its name
/// resolves to; every `mod` declaration of a registered name, whose parent is
/// such a node, is linked to the module it names; and every import of a
/// file whose module is such a node is linked to where it resolves.
pub closed spec fn all_linked(reg: Map<Seq<char>, Seq<Seq<char>>>, ctxs: Seq<ParseContext>, n: int, a: GraphModel, b: GraphModel) -> bool {
    &&& forall|i: int, j: int| 0 <= i < n && 0 <= j < ctxs[i].pending_mods@.len()
        && reg.dom().contains((#[trigger] ctxs[i].pending_mods@[j]).1@) && a.has_id(ctxs[i].pending_mods@[j].0@)
        ==> has_link(b, ctxs[i].pending_mods@[j].0@, mod_target(reg, internal_modules(a.nodes), ctxs[i].pending_mods@[j].1@), EdgeKind::Contains)
    &&& forall|i: int, j: int| 0 <= i < n && 0 <= j < ctxs[i].imports@.len() && a.has_id(ctxs[i].module_id@)
        ==> import_linked_between(reg, a, b, ctxs[i].module_id@, (#[trigger] ctxs[i].imports@[j]).1)
    &&& forall|i: int, j: int| 0 <= i < n && 0 <= j < ctxs[i].pending_inherits@.len()
        && a.has_id((#[trigger] ctxs[i].pending_inherits@[j]).0@)
        ==> linked_between(reg, ctxs[i], a, b, ctxs[i].pending_inherits@[j].0@, ctxs[i].pending_inherits@[j].1@, EdgeKind::Inherits)
    &&& forall|i: int, j: int| 0 <= i < n && 0 <= j < ctxs[i].pending_uses_type@.len()
        && a.has_id((#[trigger] ctxs[i].pending_uses_type@[j]).0@)
        ==> linked_between(reg, ctxs[i], a, b, ctxs[i].pending_uses_type@[j].0@, ctxs[i].pending_uses_type@[j].1@, EdgeKind::UsesType)
    &&& forall|i: int, j: int| 0 <= i < n && 0 <= j < ctxs[i].pending_calls@.len()
        && a.has_id((#[trigger] ctxs[i].pending_calls@[j]).caller_id@)
        ==> call_linked_between(reg, ctxs[i], a, b, ctxs[i].pending_calls@[j])
}

/// What `all_linked` promises, spelled out: each `mod` declaration of a
/// registered name is linked to the module it names, each import to where it
/// resolves, and each inherited type, used type and call site to what its
/// name resolves to, whenever its user is a node of `a`.
pub proof fn lemma_all_linked(reg: Map<Seq<char>, Seq<Seq<char>>>, ctxs: Seq<ParseContext>, n: int, a: GraphModel, b: GraphModel)
    requires
        all_linked(reg, ctxs, n, a, b),
    ensures
        (forall|i: int, j: int| 0 <= i < n && 0 <= j < ctxs[i].pending_mods@.len()
        && reg.dom().contains((#[trigger] ctxs[i].pending_mods@[j]).1@) && a.has_id(ctxs[i].pending_mods@[j].0@)
        ==> has_link(b, ctxs[i].pending_mods@[j].0@, mod_target(reg, internal_modules(a.nodes), ctxs[i].pending_mods@[j].1@), EdgeKind::Contains)),
        (forall|i: int, j: int| 0 <= i < n && 0 <= j < ctxs[i].imports@.len() && a.has_id(ctxs[i].module_id@)
        ==> import_linked_between(reg, a, b, ctxs[i].module_id@, (#[trigger] ctxs[i].imports@[j]).1)),
        (forall|i: int, j: int| 0 <= i < n && 0 <= j < ctxs[i].pending_inherits@.len()
        && a.has_id((#[trigger] ctxs[i].pending_inherits@[j]).0@)
        ==> linked_between(reg, ctxs[i], a, b, ctxs[i].pending_inherits@[j].0@, ctxs[i].pending_inherits@[j].1@, EdgeKind::Inherits)),
        (forall|i: int, j: int| 0 <= i < n && 0 <= j < ctxs[i].pending_uses_type@.len()
        && a.has_id((#[trigger] ctxs[i].pending_uses_type@[j]).0@)
        ==> linked_between(reg, ctxs[i], a, b, ctxs[i].pending_uses_type@[j].0@, ctxs[i].pending_uses_type@[j].1@, EdgeKind::UsesType)),
        (forall|i: int, j: int| 0 <= i < n && 0 <= j < ctxs[i].pending_calls@.len()
        && a.has_id((#[trigger] ctxs[i].pending_calls@[j]).caller_id@)
        ==> call_linked_between(reg, ctxs[i], a, b, ctxs[i].pending_calls@[j])),
{
}

/// The index of the first candidate in `mods`, or -1.
pub open spec fn first_in(cands: Seq<Seq<char>>, mods: Set<Seq<char>>) -> int
    decreases cands.len(),
{
    if cands.len() == 0 {
        -1
    } else if first_in(cands.drop_last(), mods) >= 0 {
        first_in(cands.drop_last(), mods)
    } else if mods.contains(cands.last()) {
        cands.len() - 1
    } else {
        -1
    }
}

proof fn lemma_first_in_extend(cands: Seq<Seq<char>>, mods: Set<Seq<char>>, i: int)
    requires
        0 <= i < cands.len(),
        first_in(cands.subrange(0, i), mods) == -1,
        mods.contains(cands[i]),
    ensures
        first_in(cands, mods) == i,
    decreases cands.len(),
{
    if cands.len() > i + 1 {
        assert(cands.drop_last().subrange(0, i) =~= cands.subrange(0, i));
        lemma_first_in_extend(cands.drop_last(), mods, i);
    } else {
        assert(cands.drop_last() =~= cands.subrange(0, i));
    }
}

/// The ids of the internal (not external) module nodes of a list of nodes.
pub open spec fn internal_modules(nodes: Seq<Node>) -> Set<Seq<char>> {
    Set::new(|id: Seq<char>| exists|k: int| 0 <= k < nodes.len() && (#[trigger] nodes[k]).id@ == id
        && nodes[k].kind == NodeKind::Module && !nodes[k].is_external)
}

/// The module a `mod name;` declaration names: the first candidate of that
/// name that is an internal module, else the first candidate.
pub open spec fn mod_target(reg: Map<Seq<char>, Seq<Seq<char>>>, mods: Set<Seq<char>>, name: Seq<char>) -> Seq<char> {
    let c = reg[name];
    if first_in(c, mods) >= 0 {
        c[first_in(c, mods)]
    } else {
        c[0]
    }
}

/// Where an import of `path` links a file's module, as resolved in graph
/// `g`: the node of that id, by an import edge; else the first internal
/// candidate of the path's last `::` component, by an import edge; else that
/// component's external node, by an external-dependency edge.
pub open spec fn import_link(reg: Map<Seq<char>, Seq<Seq<char>>>, g: GraphModel, path: Seq<char>) -> (Seq<char>, EdgeKind) {
    if g.has_id(path) {
        (path, EdgeKind::Imports)
    } else {
        let short = last_piece(path, "::"@);
        if reg.dom().contains(short) && first_internal(reg[short]) >= 0 {
            (reg[short][first_internal(reg[short])], EdgeKind::Imports)
        } else {
            (ext_id(short), EdgeKind::ExternalDep)
        }
    }
}

/// `user` is linked in `b` to where an import of `path` resolves (see
/// `import_link`) in some graph that lies between `a` and `b`.
pub open spec fn import_linked_between(reg: Map<Seq<char>, Seq<Seq<char>>>, a: GraphModel, b: GraphModel, user: Seq<char>, path: Seq<char>) -> bool {
    exists|m: GraphModel| #[trigger] ext_grown(a, m) && ext_grown(m, b)
        && has_link(b, user, import_link(reg, m, path).0, import_link(reg, m, path).1)
}

/// An import link made between `a` and `b` is still one between `a` and a
/// later `c`.
pub proof fn lemma_import_linked_extend(reg: Map<Seq<char>, Seq<Seq<char>>>, a: GraphModel, b: GraphModel, c: GraphModel, user: Seq<char>, path: Seq<char>)
    requires
        b.valid(),
        ext_grown(b, c),
        import_linked_between(reg, a, b, user, path),
    ensures
        import_linked_between(reg, a, c, user, path),
{
    let m = choose|m: GraphModel| #[trigger] ext_grown(a, m) && ext_grown(m, b)
        && has_link(b, user, import_link(reg, m, path).0, import_link(reg, m, path).1);
    lemma_ext_grown_trans(m, b, c);
    lemma_ext_grown_keeps_link(b, c, user, import_link(reg, m, path).0, import_link(reg, m, path).1);
    assert(ext_grown(a, m) && ext_grown(m, c) && has_link(c, user, import_link(reg, m, path).0, import_link(reg, m, path).1));
}

/// An import link made between `b` and `c` is one between any earlier `a`
/// and `c`.
pub proof fn lemma_import_linked_shift(reg: Map<Seq<char>, Seq<Seq<char>>>, a: GraphModel, b: GraphModel, c: GraphModel, user: Seq<char>, path: Seq<char>)
    requires
        ext_grown(a, b),
        import_linked_between(reg, b, c, user, path),
    ensures
        import_linked_between(reg, a, c, user, path),
{
    let m = choose|m: GraphModel| #[trigger] ext_grown(b, m) && ext_grown(m, c)
        && has_link(c, user, import_link(reg, m, path).0, import_link(reg, m, path).1);
    lemma_ext_grown_trans(a, b, m);
    assert(ext_grown(a, m) && ext_grown(m, c) && has_link(c, user, import_link(reg, m, path).0, import_link(reg, m, path).1));
}

/// `m` lies between `a` and `b`: grown from `a` and grown into `b`.
pub open spec fn between(a: GraphModel, m: GraphModel, b: GraphModel) -> bool {
    ext_grown(a, m) && ext_grown(m, b)
}

/// The edge `(s, t, k)` is one that resolving a file's context makes when
/// its names are resolved in graph `m`: a `mod` declaration's containment
/// edge, an inherited or used type's edge or a call's edge (see
/// `resolution`), or the module's import or external-dependency edge (see
/// `import_link`).
pub open spec fn edge_made(reg: Map<Seq<char>, Seq<Seq<char>>>, mods: Set<Seq<char>>, ctx: ParseContext, m: GraphModel, e: (Seq<char>, Seq<char>, EdgeKind)) -> bool {
    let s = e.0;
    let t = e.1;
    let k = e.2;
    ||| k == EdgeKind::Contains && exists|j: int| 0 <= j < ctx.pending_mods@.len() && (#[trigger] ctx.pending_mods@[j]).0@ == s
        && reg.dom().contains(ctx.pending_mods@[j].1@) && t == mod_target(reg, mods, ctx.pending_mods@[j].1@)
    ||| k == EdgeKind::Inherits && exists|j: int| 0 <= j < ctx.pending_inherits@.len() && (#[trigger] ctx.pending_inherits@[j]).0@ == s
        && t == resolution(reg, ctx, m, ctx.pending_inherits@[j].1@)
    ||| k == EdgeKind::UsesType && exists|j: int| 0 <= j < ctx.pending_uses_type@.len() && (#[trigger] ctx.pending_uses_type@[j]).0@ == s
        && t == resolution(reg, ctx, m, ctx.pending_uses_type@[j].1@)
    ||| k == EdgeKind::Calls && exists|j: int| 0 <= j < ctx.pending_calls@.len() && (#[trigger] ctx.pending_calls@[j]).caller_id@ == s
        && t == call_resolution(reg, ctx, m, ctx.pending_calls@[j])
    ||| s == ctx.module_id@ && exists|j: int| 0 <= j < ctx.imports@.len() && import_link(reg, m, (#[trigger] ctx.imports@[j]).1) == (t, k)
}

/// The node id is one that resolving a file's context may add when its
/// names are resolved in graph `m`: the target of an inherited or used type,
/// of a call, or of an import.
pub open spec fn node_made(reg: Map<Seq<char>, Seq<Seq<char>>>, ctx: ParseContext, m: GraphModel, id: Seq<char>) -> bool {
    ||| exists|j: int| 0 <= j < ctx.pending_inherits@.len() && id == resolution(reg, ctx, m, (#[trigger] ctx.pending_inherits@[j]).1@)
    ||| exists|j: int| 0 <= j < ctx.pending_uses_type@.len() && id == resolution(reg, ctx, m, (#[trigger] ctx.pending_uses_type@[j]).1@)
    ||| exists|j: int| 0 <= j < ctx.pending_calls@.len() && id == call_resolution(reg, ctx, m, #[trigger] ctx.pending_calls@[j])
    ||| exists|j: int| 0 <= j < ctx.imports@.len() && id == import_link(reg, m, (#[trigger] ctx.imports@[j]).1).0
}

/// Edge `e` of `b` was made by resolving `ctx` in some graph between `a`
/// and `b`.
pub open spec fn edge_made_between(reg: Map<Seq<char>, Seq<Seq<char>>>, mods: Set<Seq<char>>, ctx: ParseContext, a: GraphModel, b: GraphModel, e: int) -> bool {
    exists|m: GraphModel| between(a, m, b) && #[trigger] edge_made(reg, mods, ctx, m, b.id_edges()[e])
}

/// Node `v` of `b` was made by resolving `ctx` in some graph between `a`
/// and `b`.
pub open spec fn node_made_between(reg: Map<Seq<char>, Seq<Seq<char>>>, ctx: ParseContext, a: GraphModel, b: GraphModel, v: int) -> bool {
    exists|m: GraphModel| between(a, m, b) && #[trigger] node_made(reg, ctx, m, b.nodes[v].id@)
}

/// Everything `b` has beyond `a` was made by resolving `ctx` (see
/// `edge_made` and `node_made`) in some graph between `a` and `b`.
pub open spec fn made_by(reg: Map<Seq<char>, Seq<Seq<char>>>, mods: Set<Seq<char>>, ctx: ParseContext, a: GraphModel, b: GraphModel) -> bool {
    &&& forall|e: int| a.edges.len() <= e < b.edges.len() ==> #[trigger] edge_made_between(reg, mods, ctx, a, b, e)
    &&& forall|v: int| a.nodes.len() <= v < b.nodes.len() ==> #[trigger] node_made_between(reg, ctx, a, b, v)
}

/// Everything `b` has beyond `a` was made by resolving one of the first `n`
/// contexts in some graph between `a` and `b`.
pub open spec fn made_by_all(reg: Map<Seq<char>, Seq<Seq<char>>>, mods: Set<Seq<char>>, ctxs: Seq<ParseContext>, n: int, a: GraphModel, b: GraphModel) -> bool {
    &&& forall|e: int| a.edges.len() <= e < b.edges.len() ==> #[trigger] edge_made_by_one(reg, mods, ctxs, n, a, b, e)
    &&& forall|v: int| a.nodes.len() <= v < b.nodes.len() ==> #[trigger] node_made_by_one(reg, ctxs, n, a, b, v)
}

/// Edge `e` of `b` was made by one of the first `n` contexts.
pub open spec fn edge_made_by_one(reg: Map<Seq<char>, Seq<Seq<char>>>, mods: Set<Seq<char>>, ctxs: Seq<ParseContext>, n: int, a: GraphModel, b: GraphModel, e: int) -> bool {
    exists|i: int| 0 <= i < n && #[trigger] edge_made_between(reg, mods, ctxs[i], a, b, e)
}

/// Node `v` of `b` was made by one of the first `n` contexts.
pub open spec fn node_made_by_one(reg: Map<Seq<char>, Seq<Seq<char>>>, ctxs: Seq<ParseContext>, n: int, a: GraphModel, b: GraphModel, v: int) -> bool {
    exists|i: int| 0 <= i < n && #[trigger] node_made_between(reg, ctxs[i], a, b, v)
}

/// What one step adds: every new edge is `(s, t, k)` and every new node has
/// the id `t`.
pub open spec fn made_to(a: GraphModel, b: GraphModel, s: Seq<char>, t: Seq<char>, k: EdgeKind) -> bool {
    &&& forall|e: int| #![trigger b.id_edges()[e]] a.edges.len() <= e < b.edges.len() ==> #[trigger] b.id_edges()[e] == (s, t, k)
    &&& forall|v: int| #![trigger b.nodes[v]] a.nodes.len() <= v < b.nodes.len() ==> (#[trigger] b.nodes[v]).id@ == t
}

/// Adding an edge between ids `s` and `t` adds nothing but that edge.
pub proof fn lemma_with_edge_made_to(g: GraphModel, s: Seq<char>, t: Seq<char>, k: EdgeKind)
    requires
        g.nodes.len() <= usize::MAX,
    ensures
        made_to(g, g.with_edge(s, t, k), s, t, k),
{
    let h = g.with_edge(s, t, k);
    assert(h.nodes == g.nodes);
    assert forall|e: int| #![trigger h.id_edges()[e]] g.edges.len() <= e < h.edges.len() implies h.id_edges()[e] == (s, t, k) by {
        let is = g.index_of(s);
        let it = g.index_of(t);
        assert(0 <= is < g.nodes.len() && g.nodes[is].id@ == s);
        assert(0 <= it < g.nodes.len() && g.nodes[it].id@ == t);
        assert(h.edges[e] == (is as usize, it as usize, k));
        assert(h.edges[e].0 as int == is && h.edges[e].1 as int == it);
    }
}

/// Adding a node adds nothing but a node of its id.
pub proof fn lemma_with_node_made_to(g: GraphModel, n: Node, s: Seq<char>, k: EdgeKind)
    ensures
        made_to(g, g.with_node(n), s, n.id@, k),
{
}

/// Two steps that each add only `(s, t, k)` and nodes of id `t` add only those.
pub proof fn lemma_made_to_trans(a: GraphModel, b: GraphModel, c: GraphModel, s: Seq<char>, t: Seq<char>, k: EdgeKind)
    requires
        b.valid(),
        ext_grown(a, b),
        ext_grown(b, c),
        made_to(a, b, s, t, k),
        made_to(b, c, s, t, k),
    ensures
        made_to(a, c, s, t, k),
{
    assert forall|e: int| #![trigger c.id_edges()[e]] a.edges.len() <= e < c.edges.len() implies c.id_edges()[e] == (s, t, k) by {
        if e < b.edges.len() {
            lemma_ext_grown_keeps_id_edge(b, c, e);
            assert(b.id_edges()[e] == (s, t, k));
        }
    }
    assert forall|v: int| #![trigger c.nodes[v]] a.nodes.len() <= v < c.nodes.len() implies c.nodes[v].id@ == t by {
        if v < b.nodes.len() {
            assert(c.nodes.subrange(0, b.nodes.len() as int)[v] == c.nodes[v]);
            assert(b.nodes[v].id@ == t);
        }
    }
}

/// Growth keeps the ids of old edges.
pub proof fn lemma_ext_grown_keeps_id_edge(a: GraphModel, b: GraphModel, e: int)
    requires
        a.valid(),
        ext_grown(a, b),
        0 <= e < a.edges.len(),
    ensures
        b.id_edges()[e] == a.id_edges()[e],
{
    assert(b.edges.subrange(0, a.edges.len() as int)[e] == b.edges[e]);
    let x = a.edges[e];
    assert(b.nodes.subrange(0, a.nodes.len() as int)[x.0 as int] == b.nodes[x.0 as int]);
    assert(b.nodes.subrange(0, a.nodes.len() as int)[x.1 as int] == b.nodes[x.1 as int]);
}

pub proof fn lemma_made_by_refl(reg: Map<Seq<char>, Seq<Seq<char>>>, mods: Set<Seq<char>>, ctx: ParseContext, a: GraphModel)
    ensures
        made_by(reg, mods, ctx, a, a),
{
}

/// A step that adds only `(s, t, k)` and nodes with id `t`, both made by
/// `ctx` in the graph the step starts from, is made by `ctx`.
pub proof fn lemma_made_to(reg: Map<Seq<char>, Seq<Seq<char>>>, mods: Set<Seq<char>>, ctx: ParseContext, a: GraphModel, b: GraphModel, s: Seq<char>, t: Seq<char>, k: EdgeKind)
    requires
        ext_grown(a, b),
        made_to(a, b, s, t, k),
        b.edges.len() > a.edges.len() ==> edge_made(reg, mods, ctx, a, (s, t, k)),
        b.nodes.len() > a.nodes.len() ==> node_made(reg, ctx, a, t),
    ensures
        made_by(reg, mods, ctx, a, b),
{
    lemma_ext_grown_refl(a);
    assert(between(a, a, b));
    assert forall|e: int| a.edges.len() <= e < b.edges.len() implies #[trigger] edge_made_between(reg, mods, ctx, a, b, e) by {
        assert(b.id_edges()[e] == (s, t, k));
        assert(edge_made(reg, mods, ctx, a, b.id_edges()[e]));
    }
    assert forall|v: int| a.nodes.len() <= v < b.nodes.len() implies #[trigger] node_made_between(reg, ctx, a, b, v) by {
        assert(b.nodes[v].id@ == t);
        assert(node_made(reg, ctx, a, b.nodes[v].id@));
    }
}

/// Made-by composes along growth.
pub proof fn lemma_made_by_trans(reg: Map<Seq<char>, Seq<Seq<char>>>, mods: Set<Seq<char>>, ctx: ParseContext, a: GraphModel, b: GraphModel, c: GraphModel)
    requires
        b.valid(),
        ext_grown(a, b),
        ext_grown(b, c),
        made_by(reg, mods, ctx, a, b),
        made_by(reg, mods, ctx, b, c),
    ensures
        made_by(reg, mods, ctx, a, c),
{
    assert forall|e: int| a.edges.len() <= e < c.edges.len() implies #[trigger] edge_made_between(reg, mods, ctx, a, c, e) by {
        lemma_edge_made_between_extend(reg, mods, ctx, a, b, c, e);
    }
    assert forall|v: int| a.nodes.len() <= v < c.nodes.len() implies #[trigger] node_made_between(reg, ctx, a, c, v) by {
        lemma_node_made_between_extend(reg, ctx, a, b, c, v);
    }
}

proof fn lemma_edge_made_between_extend(reg: Map<Seq<char>, Seq<Seq<char>>>, mods: Set<Seq<char>>, ctx: ParseContext, a: GraphModel, b: GraphModel, c: GraphModel, e: int)
    requires
        b.valid(),
        ext_grown(a, b),
        ext_grown(b, c),
        a.edges.len() <= e < c.edges.len(),
        e < b.edges.len() ==> edge_made_between(reg, mods, ctx, a, b, e),
        e >= b.edges.len() ==> edge_made_between(reg, mods, ctx, b, c, e),
    ensures
        edge_made_between(reg, mods, ctx, a, c, e),
{
    if e < b.edges.len() {
        lemma_ext_grown_keeps_id_edge(b, c, e);
        let m = choose|m: GraphModel| between(a, m, b) && #[trigger] edge_made(reg, mods, ctx, m, b.id_edges()[e]);
        lemma_ext_grown_trans(m, b, c);
        assert(between(a, m, c) && edge_made(reg, mods, ctx, m, c.id_edges()[e]));
    } else {
        let m = choose|m: GraphModel| between(b, m, c) && #[trigger] edge_made(reg, mods, ctx, m, c.id_edges()[e]);
        lemma_ext_grown_trans(a, b, m);
        assert(between(a, m, c) && edge_made(reg, mods, ctx, m, c.id_edges()[e]));
    }
}

proof fn lemma_node_made_between_extend(reg: Map<Seq<char>, Seq<Seq<char>>>, ctx: ParseContext, a: GraphModel, b: GraphModel, c: GraphModel, v: int)
    requires
        ext_grown(a, b),
        ext_grown(b, c),
        a.nodes.len() <= v < c.nodes.len(),
        v < b.nodes.len() ==> node_made_between(reg, ctx, a, b, v),
        v >= b.nodes.len() ==> node_made_between(reg, ctx, b, c, v),
    ensures
        node_made_between(reg, ctx, a, c, v),
{
    if v < b.nodes.len() {
        assert(c.nodes.subrange(0, b.nodes.len() as int)[v] == c.nodes[v]);
        let m = choose|m: GraphModel| between(a, m, b) && #[trigger] node_made(reg, ctx, m, b.nodes[v].id@);
        lemma_ext_grown_trans(m, b, c);
        assert(between(a, m, c) && node_made(reg, ctx, m, c.nodes[v].id@));
    } else {
        let m = choose|m: GraphModel| between(b, m, c) && #[trigger] node_made(reg, ctx, m, c.nodes[v].id@);
        lemma_ext_grown_trans(a, b, m);
        assert(between(a, m, c) && node_made(reg, ctx, m, c.nodes[v].id@));
    }
}

/// Adding what one more context made keeps everything made by the
/// contexts so far.
pub proof fn lemma_made_by_all_step(reg: Map<Seq<char>, Seq<Seq<char>>>, mods: Set<Seq<char>>, ctxs: Seq<ParseContext>, i: int, a: GraphModel, b: GraphModel, c: GraphModel)
    requires
        0 <= i < ctxs.len(),
        b.valid(),
        ext_grown(a, b),
        ext_grown(b, c),
        made_by_all(reg, mods, ctxs, i, a, b),
        made_by(reg, mods, ctxs[i], b, c),
    ensures
        made_by_all(reg, mods, ctxs, i + 1, a, c),
{
    assert forall|e: int| a.edges.len() <= e < c.edges.len() implies #[trigger] edge_made_by_one(reg, mods, ctxs, i + 1, a, c, e) by {
        if e < b.edges.len() {
            assert(edge_made_by_one(reg, mods, ctxs, i, a, b, e));
            let x = choose|x: int| 0 <= x < i && #[trigger] edge_made_between(reg, mods, ctxs[x], a, b, e);
            lemma_edge_made_between_extend(reg, mods, ctxs[x], a, b, c, e);
            assert(edge_made_between(reg, mods, ctxs[x], a, c, e));
        } else {
            assert(edge_made_between(reg, mods, ctxs[i], b, c, e));
            lemma_edge_made_between_extend(reg, mods, ctxs[i], a, b, c, e);
            assert(edge_made_between(reg, mods, ctxs[i], a, c, e));
        }
    }
    assert forall|v: int| a.nodes.len() <= v < c.nodes.len() implies #[trigger] node_made_by_one(reg, ctxs, i + 1, a, c, v) by {
        if v < b.nodes.len() {
            assert(node_made_by_one(reg, ctxs, i, a, b, v));
            let x = choose|x: int| 0 <= x < i && #[trigger] node_made_between(reg, ctxs[x], a, b, v);
            lemma_node_made_between_extend(reg, ctxs[x], a, b, c, v);
            assert(node_made_between(reg, ctxs[x], a, c, v));
        } else {
            assert(node_made_between(reg, ctxs[i], b, c, v));
            lemma_node_made_between_extend(reg, ctxs[i], a, b, c, v);
            assert(node_made_between(reg, ctxs[i], a, c, v));
        }
    }
}

impl Resolver {
    /// Resolves `name` and links `user` to it with an edge of `kind`.
    fn link(&self, user: &str, name: &str, kind: EdgeKind, ctx: &ParseContext, graph: &mut CodeGraph)
        requires
            self.wf(),
            old(graph).wf(),
            registered_in(self.registry(), old(graph)@),
            kind != EdgeKind::FieldType,
            kind != EdgeKind::ExternalDep,
        ensures
            final(graph).wf(),
            ext_grown(old(graph)@, final(graph)@),
            registered_in(self.registry(), final(graph)@),
            old(graph)@.has_id(user@) ==> has_link(final(graph)@, user@, resolution(self.registry(), *ctx, old(graph)@, name@), kind),
            made_to(old(graph)@, final(graph)@, user@, resolution(self.registry(), *ctx, old(graph)@, name@), kind),
    {
        let ghost g0 = graph@;
        let ghost id = resolution(self.registry(), *ctx, g0, name@);
        let target = self.resolve_name(name, ctx, graph);
        proof {
            let short = last_piece(dealiased(*ctx, name@), "::"@);
            if id == ext_id(short) && !g0.has_id(id) {
                let n = choose|n: Node| is_ext_node(n, short, dealiased(*ctx, name@)) && graph@ == g0.with_node(n);
                lemma_ext_grown_node(g0, n, short, dealiased(*ctx, name@));
                lemma_with_node_made_to(g0, n, user@, kind);
            } else {
                lemma_ext_grown_refl(g0);
            }
        }
        let ghost g1 = graph@;
        let _n = graph.node_count();
        proof {
            graph.lemma_valid();
            if g0.has_id(user@) {
                lemma_ext_grown_keeps_id(g0, g1, user@);
            }
        }
        match target {
            Some(t) => {
                graph.add_edge(user, t.as_str(), kind);
                proof {
                    lemma_ext_grown_edge(g1, user@, t@, kind);
                    lemma_ext_grown_trans(g0, g1, graph@);
                    lemma_with_edge_made_to(g1, user@, t@, kind);
                    lemma_made_to_trans(g0, g1, graph@, user@, id, kind);
                    if g0.has_id(user@) {
                        lemma_with_edge_links(g1, user@, t@, kind);
                    }
                }
            },
            None => {},
        }
        proof { lemma_registered_grown(self.registry(), g0, graph@); }
    }

    /// Links each (user, name) pair of a list with an edge of `kind`.
    fn link_all(&self, pairs: &Vec<(String, String)>, kind: EdgeKind, ctx: &ParseContext, graph: &mut CodeGraph, Ghost(mods): Ghost<Set<Seq<char>>>)
        requires
            self.wf(),
            old(graph).wf(),
            registered_in(self.registry(), old(graph)@),
            kind == EdgeKind::Inherits && pairs@ == ctx.pending_inherits@
                || kind == EdgeKind::UsesType && pairs@ == ctx.pending_uses_type@,
        ensures
            final(graph).wf(),
            ext_grown(old(graph)@, final(graph)@),
            registered_in(self.registry(), final(graph)@),
            forall|j: int| 0 <= j < pairs@.len() && old(graph)@.has_id((#[trigger] pairs@[j]).0@)
                ==> linked_between(self.registry(), *ctx, old(graph)@, final(graph)@, pairs@[j].0@, pairs@[j].1@, kind),
            made_by(self.registry(), mods, *ctx, old(graph)@, final(graph)@),
    {
        proof {
            lemma_ext_grown_refl(graph@);
            lemma_made_by_refl(self.registry(), mods, *ctx, graph@);
        }
        let mut i: usize = 0;
        while i < pairs.len()
            invariant
                self.wf(),
                graph.wf(),
                i <= pairs@.len(),
                registered_in(self.registry(), graph@),
                ext_grown(old(graph)@, graph@),
                kind == EdgeKind::Inherits && pairs@ == ctx.pending_inherits@
                    || kind == EdgeKind::UsesType && pairs@ == ctx.pending_uses_type@,
                forall|j: int| 0 <= j < i && old(graph)@.has_id((#[trigger] pairs@[j]).0@)
                    ==> linked_between(self.registry(), *ctx, old(graph)@, graph@, pairs@[j].0@, pairs@[j].1@, kind),
                made_by(self.registry(), mods, *ctx, old(graph)@, graph@),
            decreases pairs@.len() - i,
        {
            let ghost g0 = graph@;
            proof {
                graph.lemma_valid();
                if old(graph)@.has_id(pairs@[i as int].0@) {
                    lemma_ext_grown_keeps_id(old(graph)@, g0, pairs@[i as int].0@);
                }
            }
            self.link(pairs[i].0.as_str(), pairs[i].1.as_str(), kind, ctx, graph);
            proof {
                let reg = self.registry();
                let u = pairs@[i as int].0@;
                let t = resolution(reg, *ctx, g0, pairs@[i as int].1@);
                if kind == EdgeKind::Inherits {
                    assert(ctx.pending_inherits@[i as int] == pairs@[i as int]);
                    assert(edge_made(reg, mods, *ctx, g0, (u, t, kind)));
                    assert(node_made(reg, *ctx, g0, t));
                } else {
                    assert(ctx.pending_uses_type@[i as int] == pairs@[i as int]);
                    assert(edge_made(reg, mods, *ctx, g0, (u, t, kind)));
                    assert(node_made(reg, *ctx, g0, t));
                }
                lemma_made_to(reg, mods, *ctx, g0, graph@, u, t, kind);
                lemma_made_by_trans(reg, mods, *ctx, old(graph)@, g0, graph@);
                lemma_ext_grown_trans(old(graph)@, g0, graph@);
                assert forall|j: int| 0 <= j < i + 1 && old(graph)@.has_id((#[trigger] pairs@[j]).0@)
                    implies linked_between(self.registry(), *ctx, old(graph)@, graph@, pairs@[j].0@, pairs@[j].1@, kind) by {
                    if j < i {
                        lemma_linked_between_extend(self.registry(), *ctx, old(graph)@, g0, graph@, pairs@[j].0@, pairs@[j].1@, kind);
                    } else {
                        lemma_ext_grown_refl(graph@);
                        assert(ext_grown(old(graph)@, g0) && ext_grown(g0, graph@)
                            && has_link(graph@, pairs@[j].0@, resolution(self.registry(), *ctx, g0, pairs@[j].1@), kind));
                    }
                }
            }
            i = i + 1;
        }
    }

    /// The preferred candidate registered under a name (see
    /// `choose_candidate`), if any.
    fn preferred_candidate(&self, k: &str, module_id: &str) -> (r: Option<String>)
        requires
            self.wf(),
        ensures
            r is Some <==> self.registry().dom().contains(k@) && self.registry()[k@].len() > 0,
            r matches Some(c) ==> c@ == choose_candidate(self.registry()[k@], module_id@),
    {
        let ghost reg = self.registry();
        match self.candidates(k) {
            Some(cands) => {
                proof { assert(strs(cands@)[0] == cands@[0]@); }
                if cands.len() == 1 {
                    return Some(cands[0].clone());
                }
                let module = chars_of(module_id);
                let mut i: usize = 0;
                while i < cands.len()
                    invariant
                        i <= cands@.len(),
                        cands@.len() > 1,
                        strs(cands@) == reg[k@],
                        reg == self.registry(),
                        reg.dom().contains(k@),
                        module@ == module_id@,
                        first_with_prefix(strs(cands@).subrange(0, i as int), module_id@) == -1,
                    decreases cands@.len() - i,
                {
                    let c = chars_of(cands[i].as_str());
                    proof {
                        assert(strs(cands@).subrange(0, i + 1).drop_last() =~= strs(cands@).subrange(0, i as int));
                        assert(strs(cands@)[i as int] == cands@[i as int]@);
                    }
                    if has_prefix(c.as_slice(), module.as_slice()) {
                        proof { lemma_first_with_prefix_extend(strs(cands@), module_id@, i as int); }
                        return Some(cands[i].clone());
                    }
                    i = i + 1;
                }
                assert(strs(cands@).subrange(0, cands@.len() as int) =~= strs(cands@));
                Some(cands[0].clone())
            },
            None => None,
        }
    }

    /// Links each call site to its callee: a method call on a receiver whose
    /// type is known (as a field of the enclosing class, else as a local of
    /// the caller) reaches the method node of the class that type names (see
    /// `method_node`), else it is looked up as `Type.method`.
    fn link_calls(&self, ctx: &ParseContext, graph: &mut CodeGraph, Ghost(mods): Ghost<Set<Seq<char>>>)
        requires
            self.wf(),
            old(graph).wf(),
            registered_in(self.registry(), old(graph)@),
        ensures
            final(graph).wf(),
            ext_grown(old(graph)@, final(graph)@),
            registered_in(self.registry(), final(graph)@),
            forall|j: int| 0 <= j < ctx.pending_calls@.len() && old(graph)@.has_id((#[trigger] ctx.pending_calls@[j]).caller_id@)
                ==> call_linked_between(self.registry(), *ctx, old(graph)@, final(graph)@, ctx.pending_calls@[j]),
            made_by(self.registry(), mods, *ctx, old(graph)@, final(graph)@),
    {
        proof {
            lemma_ext_grown_refl(graph@);
            lemma_made_by_refl(self.registry(), mods, *ctx, graph@);
        }
        let ghost reg = self.registry();
        let mut i: usize = 0;
        while i < ctx.pending_calls.len()
            invariant
                self.wf(),
                reg == self.registry(),
                graph.wf(),
                i <= ctx.pending_calls@.len(),
                registered_in(reg, graph@),
                ext_grown(old(graph)@, graph@),
                forall|j: int| 0 <= j < i && old(graph)@.has_id((#[trigger] ctx.pending_calls@[j]).caller_id@)
                    ==> call_linked_between(reg, *ctx, old(graph)@, graph@, ctx.pending_calls@[j]),
                made_by(reg, mods, *ctx, old(graph)@, graph@),
            decreases ctx.pending_calls@.len() - i,
        {
            let pc = &ctx.pending_calls[i];
            let ghost g0 = graph@;
            proof { reveal_strlit(""); }
            let mut method: Option<String> = None;
            let callee: String = match &pc.object {
                Some(obj) => {
                    let owner: &str = match &pc.in_class {
                        Some(c) => c.as_str(),
                        None => "",
                    };
                    assert(owner@ == call_owner(*pc));
                    let found = match ctx.class_fields.get(owner, obj.as_str()) {
                        Some(t) => Some(t),
                        None => ctx.local_var_types.get(pc.caller_id.as_str(), obj.as_str()),
                    };
                    let ghost fv = receiver_type(*ctx, *pc, obj@);
                    assert(found is Some <==> fv is Some);
                    match found {
                        Some(tp) => {
                            assert(fv == Some(tp@));
                            let tr: &str = match ctx.alias_map.get(tp.as_str()) {
                                Some(t) => t.as_str(),
                                None => tp.as_str(),
                            };
                            assert(tr@ == dealiased(*ctx, tp@));
                            match self.preferred_candidate(tr, ctx.module_id.as_str()) {
                                Some(cls) => {
                                    let dotted = crate::text::cat3(cls.as_str(), ".", pc.callee_name.as_str());
                                    if graph.has_node(dotted.as_str()) {
                                        method = Some(dotted);
                                    } else {
                                        let pathed = crate::text::cat3(cls.as_str(), "::", pc.callee_name.as_str());
                                        if graph.has_node(pathed.as_str()) {
                                            method = Some(pathed);
                                        }
                                    }
                                },
                                None => {},
                            }
                            crate::text::cat3(tp.as_str(), ".", pc.callee_name.as_str())
                        },
                        None => pc.callee_name.clone(),
                    }
                },
                None => pc.callee_name.clone(),
            };
            assert(callee@ == call_target_name(*ctx, *pc));
            assert(method is Some <==> method_node(reg, *ctx, g0, *pc) is Some);
            assert(method matches Some(m) ==> method_node(reg, *ctx, g0, *pc) == Some(m@));
            proof {
                graph.lemma_valid();
                if old(graph)@.has_id(pc.caller_id@) {
                    lemma_ext_grown_keeps_id(old(graph)@, g0, pc.caller_id@);
                }
            }
            let ghost t = call_resolution(reg, *ctx, g0, *pc);
            match method {
                Some(mid) => {
                    let _n = graph.node_count();
                    graph.add_edge(pc.caller_id.as_str(), mid.as_str(), EdgeKind::Calls);
                    proof {
                        assert(t == mid@);
                        lemma_ext_grown_edge(g0, pc.caller_id@, mid@, EdgeKind::Calls);
                        lemma_with_edge_made_to(g0, pc.caller_id@, mid@, EdgeKind::Calls);
                        if g0.has_id(pc.caller_id@) {
                            lemma_with_edge_links(g0, pc.caller_id@, mid@, EdgeKind::Calls);
                        }
                        lemma_registered_grown(reg, g0, graph@);
                    }
                },
                None => {
                    self.link(pc.caller_id.as_str(), callee.as_str(), EdgeKind::Calls, ctx, graph);
                    proof { assert(t == resolution(reg, *ctx, g0, callee@)); }
                },
            }
            proof {
                assert(ctx.pending_calls@[i as int] == *pc);
                assert(made_to(g0, graph@, pc.caller_id@, t, EdgeKind::Calls));
                assert(g0.has_id(pc.caller_id@) ==> has_link(graph@, pc.caller_id@, t, EdgeKind::Calls));
                assert(edge_made(reg, mods, *ctx, g0, (pc.caller_id@, t, EdgeKind::Calls)));
                assert(node_made(reg, *ctx, g0, t));
                lemma_made_to(reg, mods, *ctx, g0, graph@, pc.caller_id@, t, EdgeKind::Calls);
                lemma_made_by_trans(reg, mods, *ctx, old(graph)@, g0, graph@);
                lemma_ext_grown_trans(old(graph)@, g0, graph@);
                assert forall|j: int| 0 <= j < i + 1 && old(graph)@.has_id((#[trigger] ctx.pending_calls@[j]).caller_id@)
                    implies call_linked_between(reg, *ctx, old(graph)@, graph@, ctx.pending_calls@[j]) by {
                    if j < i {
                        lemma_call_linked_extend(reg, *ctx, old(graph)@, g0, graph@, ctx.pending_calls@[j]);
                    } else {
                        lemma_ext_grown_refl(graph@);
                        assert(ext_grown(old(graph)@, g0) && ext_grown(g0, graph@)
                            && has_link(graph@, pc.caller_id@, call_resolution(reg, *ctx, g0, *pc), EdgeKind::Calls));
                    }
                }
            }
            i = i + 1;
        }
    }

    /// Links each `mod name;` declaration to the module it names (see
    /// `mod_target`), through a containment edge.
    fn link_mods(&self, ctx: &ParseContext, modules: &IdTable, graph: &mut CodeGraph)
        requires
            self.wf(),
            old(graph).wf(),
            registered_in(self.registry(), old(graph)@),
        ensures
            final(graph).wf(),
            ext_grown(old(graph)@, final(graph)@),
            registered_in(self.registry(), final(graph)@),
            forall|j: int| 0 <= j < ctx.pending_mods@.len() && self.registry().dom().contains((#[trigger] ctx.pending_mods@[j]).1@)
                && old(graph)@.has_id(ctx.pending_mods@[j].0@)
                ==> has_link(final(graph)@, ctx.pending_mods@[j].0@,
                    mod_target(self.registry(), str_map_entries(*modules).dom(), ctx.pending_mods@[j].1@), EdgeKind::Contains),
            made_by(self.registry(), str_map_entries(*modules).dom(), *ctx, old(graph)@, final(graph)@),
    {
        proof { lemma_ext_grown_refl(graph@); }
        let ghost reg = self.registry();
        let ghost mods = str_map_entries(*modules).dom();
        proof { lemma_made_by_refl(reg, mods, *ctx, graph@); }
        let mut i: usize = 0;
        while i < ctx.pending_mods.len()
            invariant
                self.wf(),
                reg == self.registry(),
                mods == str_map_entries(*modules).dom(),
                i <= ctx.pending_mods@.len(),
                graph.wf(),
                registered_in(reg, graph@),
                ext_grown(old(graph)@, graph@),
                forall|j: int| 0 <= j < i && reg.dom().contains((#[trigger] ctx.pending_mods@[j]).1@)
                    && old(graph)@.has_id(ctx.pending_mods@[j].0@)
                    ==> has_link(graph@, ctx.pending_mods@[j].0@, mod_target(reg, mods, ctx.pending_mods@[j].1@), EdgeKind::Contains),
                made_by(reg, mods, *ctx, old(graph)@, graph@),
            decreases ctx.pending_mods@.len() - i,
        {
            let (parent, mod_name) = (&ctx.pending_mods[i].0, &ctx.pending_mods[i].1);
            let ghost g0 = graph@;
            proof { graph.lemma_valid(); }
            match self.candidates(mod_name.as_str()) {
                Some(cands) => {
                    let mut target: usize = 0;
                    let mut j: usize = 0;
                    let mut found = false;
                    while j < cands.len() && !found
                        invariant
                            j <= cands@.len(),
                            cands@.len() > 0,
                            target < cands@.len(),
                            mods == str_map_entries(*modules).dom(),
                            found ==> first_in(strs(cands@), mods) == target,
                            !found ==> first_in(strs(cands@).subrange(0, j as int), mods) == -1 && target == 0,
                        decreases cands@.len() - j,
                    {
                        proof {
                            assert(strs(cands@).subrange(0, j + 1).drop_last() =~= strs(cands@).subrange(0, j as int));
                            assert(strs(cands@)[j as int] == cands@[j as int]@);
                        }
                        if str_map_get(modules, cands[j].as_str()).is_some() {
                            proof { lemma_first_in_extend(strs(cands@), mods, j as int); }
                            target = j;
                            found = true;
                        }
                        j = j + 1;
                    }
                    proof {
                        if !found {
                            assert(strs(cands@).subrange(0, cands@.len() as int) =~= strs(cands@));
                        }
                        assert(strs(cands@)[target as int] == cands@[target as int]@);
                        assert(cands@[target as int]@ == mod_target(reg, mods, mod_name@));
                        assert(g0.has_id(reg[mod_name@][target as int]));
                        graph.lemma_valid();
                    }
                    let _n = graph.node_count();
                    graph.add_edge(parent.as_str(), cands[target].as_str(), EdgeKind::Contains);
                    proof {
                        let t = cands@[target as int]@;
                        lemma_with_edge_made_to(g0, parent@, t, EdgeKind::Contains);
                        assert(ctx.pending_mods@[i as int].0@ == parent@ && ctx.pending_mods@[i as int].1@ == mod_name@);
                        assert(edge_made(reg, mods, *ctx, g0, (parent@, t, EdgeKind::Contains)));
                        lemma_ext_grown_edge(g0, parent@, cands@[target as int]@, EdgeKind::Contains);
                        lemma_made_to(reg, mods, *ctx, g0, graph@, parent@, t, EdgeKind::Contains);
                        if old(graph)@.has_id(parent@) {
                            lemma_ext_grown_keeps_id(old(graph)@, g0, parent@);
                            lemma_with_edge_links(g0, parent@, cands@[target as int]@, EdgeKind::Contains);
                        }
                    }
                },
                None => {
                    proof {
                        lemma_ext_grown_refl(g0);
                        lemma_made_by_refl(reg, mods, *ctx, g0);
                    }
                },
            }
            proof {
                graph.lemma_valid();
                lemma_made_by_trans(reg, mods, *ctx, old(graph)@, g0, graph@);
                lemma_ext_grown_trans(old(graph)@, g0, graph@);
                lemma_registered_grown(reg, g0, graph@);
                assert forall|j: int| 0 <= j < i + 1 && reg.dom().contains((#[trigger] ctx.pending_mods@[j]).1@)
                    && old(graph)@.has_id(ctx.pending_mods@[j].0@)
                    implies has_link(graph@, ctx.pending_mods@[j].0@, mod_target(reg, mods, ctx.pending_mods@[j].1@), EdgeKind::Contains) by {
                    if j < i {
                        lemma_ext_grown_keeps_link(g0, graph@, ctx.pending_mods@[j].0@, mod_target(reg, mods, ctx.pending_mods@[j].1@), EdgeKind::Contains);
                    }
                }
            }
            i = i + 1;
        }
    }

    /// Links a file's module to what it imports, once per imported path: an
    /// existing node of that id; else the first internal candidate of the
    /// path's last component; else that component's external node, through
    /// an external-dependency edge (see `import_link`).
    fn link_imports(&self, ctx: &ParseContext, graph: &mut CodeGraph, Ghost(mods): Ghost<Set<Seq<char>>>)
        requires
            self.wf(),
            old(graph).wf(),
            registered_in(self.registry(), old(graph)@),
        ensures
            final(graph).wf(),
            ext_grown(old(graph)@, final(graph)@),
            registered_in(self.registry(), final(graph)@),
            forall|j: int| 0 <= j < ctx.imports@.len() && old(graph)@.has_id(ctx.module_id@)
                ==> import_linked_between(self.registry(), old(graph)@, final(graph)@, ctx.module_id@, (#[trigger] ctx.imports@[j]).1),
            made_by(self.registry(), mods, *ctx, old(graph)@, final(graph)@),
    {
        proof {
            lemma_ext_grown_refl(graph@);
            lemma_made_by_refl(self.registry(), mods, *ctx, graph@);
        }
        let ghost reg = self.registry();
        let ghost user = ctx.module_id@;
        let mut seen = str_map_new();
        let mut i: usize = 0;
        while i < ctx.imports.entries.len()
            invariant
                self.wf(),
                reg == self.registry(),
                user == ctx.module_id@,
                graph.wf(),
                i <= ctx.imports@.len(),
                ctx.imports@.len() == ctx.imports.entries@.len(),
                registered_in(reg, graph@),
                ext_grown(old(graph)@, graph@),
                forall|j: int| 0 <= j < i ==> str_map_entries(seen).dom().contains(#[trigger] ctx.imports@[j].1),
                forall|p: Seq<char>| #[trigger] str_map_entries(seen).dom().contains(p) && old(graph)@.has_id(user)
                    ==> import_linked_between(reg, old(graph)@, graph@, user, p),
                made_by(reg, mods, *ctx, old(graph)@, graph@),
            decreases ctx.imports.entries@.len() - i,
        {
            let full_path = &ctx.imports.entries[i].1;
            assert(full_path@ == ctx.imports@[i as int].1);
            i = i + 1;
            if str_map_get(&seen, full_path.as_str()).is_some() {
                continue;
            }
            let ghost g0 = graph@;
            let _n0 = graph.node_count();
            proof {
                graph.lemma_valid();
                if old(graph)@.has_id(user) {
                    lemma_ext_grown_keeps_id(old(graph)@, g0, user);
                }
            }
            let ghost target = import_link(reg, g0, full_path@);
            if graph.has_node(full_path.as_str()) {
                graph.add_edge(ctx.module_id.as_str(), full_path.as_str(), EdgeKind::Imports);
                proof {
                    lemma_with_edge_made_to(g0, user, full_path@, EdgeKind::Imports);
                    lemma_ext_grown_edge(g0, user, full_path@, EdgeKind::Imports);
                    if old(graph)@.has_id(user) {
                        lemma_with_edge_links(g0, user, full_path@, EdgeKind::Imports);
                    }
                }
            } else {
                let fc = chars_of(full_path.as_str());
                let sep = chars_of("::");
                let short = last_piece_of(fc.as_slice(), sep.as_slice());
                let short_s = string_from(short.as_slice());
                let mut internal: Option<usize> = None;
                let mut hit_cands: Option<&Vec<String>> = None;
                match self.candidates(short_s.as_str()) {
                    Some(cands) => {
                        let ext = chars_of("__ext__.");
                        let mut j: usize = 0;
                        while j < cands.len() && internal.is_none()
                            invariant
                                j <= cands@.len(),
                                ext@ == "__ext__."@,
                                internal matches Some(k) ==> k < cands@.len() && first_internal(strs(cands@)) == k,
                                internal is None ==> first_internal(strs(cands@).subrange(0, j as int)) == -1,
                            decreases cands@.len() - j,
                        {
                            let c = chars_of(cands[j].as_str());
                            proof {
                                assert(strs(cands@).subrange(0, j + 1).drop_last() =~= strs(cands@).subrange(0, j as int));
                                assert(strs(cands@)[j as int] == cands@[j as int]@);
                            }
                            if !has_prefix(c.as_slice(), ext.as_slice()) {
                                proof { lemma_first_internal_extend(strs(cands@), j as int); }
                                internal = Some(j);
                            }
                            j = j + 1;
                        }
                        proof {
                            if internal is None {
                                assert(strs(cands@).subrange(0, cands@.len() as int) =~= strs(cands@));
                            }
                        }
                        hit_cands = Some(cands);
                    },
                    None => {},
                }
                match (internal, hit_cands) {
                    (Some(k), Some(cands)) => {
                        proof {
                            assert(strs(cands@)[k as int] == cands@[k as int]@);
                            assert(g0.has_id(reg[short@][k as int]));
                        }
                        graph.add_edge(ctx.module_id.as_str(), cands[k].as_str(), EdgeKind::Imports);
                        proof {
                            lemma_with_edge_made_to(g0, user, cands@[k as int]@, EdgeKind::Imports);
                            lemma_ext_grown_edge(g0, user, cands@[k as int]@, EdgeKind::Imports);
                            if old(graph)@.has_id(user) {
                                lemma_with_edge_links(g0, user, cands@[k as int]@, EdgeKind::Imports);
                            }
                        }
                    },
                    _ => {
                        let ext_node_id = ensure_external(short.as_slice(), full_path.as_str(), graph);
                        let ghost g1 = graph@;
                        let _n1 = graph.node_count();
                        proof {
                            if !g0.has_id(ext_id(short@)) {
                                let n = choose|n: Node| is_ext_node(n, short@, full_path@) && g1 == g0.with_node(n);
                                lemma_ext_grown_node(g0, n, short@, full_path@);
                                lemma_with_node_made_to(g0, n, user, EdgeKind::ExternalDep);
                            } else {
                                lemma_ext_grown_refl(g0);
                            }
                            graph.lemma_valid();
                            if old(graph)@.has_id(user) {
                                lemma_ext_grown_keeps_id(g0, g1, user);
                            }
                        }
                        graph.add_edge(ctx.module_id.as_str(), ext_node_id.as_str(), EdgeKind::ExternalDep);
                        proof {
                            crate::front::lemma_starts_with_concat("__ext__."@, short@);
                            lemma_ext_grown_edge(g1, user, ext_node_id@, EdgeKind::ExternalDep);
                            lemma_ext_grown_trans(g0, g1, graph@);
                            lemma_with_edge_made_to(g1, user, ext_node_id@, EdgeKind::ExternalDep);
                            lemma_made_to_trans(g0, g1, graph@, user, ext_node_id@, EdgeKind::ExternalDep);
                            if old(graph)@.has_id(user) {
                                lemma_with_edge_links(g1, user, ext_node_id@, EdgeKind::ExternalDep);
                            }
                        }
                    },
                }
            }
            let ghost seen0 = str_map_entries(seen);
            str_map_insert(&mut seen, full_path.clone(), 0);
            proof {
                assert(made_to(g0, graph@, user, target.0, target.1));
                assert(ctx.imports@[i - 1].1 == full_path@);
                assert(edge_made(reg, mods, *ctx, g0, (user, target.0, target.1)));
                assert(node_made(reg, *ctx, g0, target.0));
                lemma_made_to(reg, mods, *ctx, g0, graph@, user, target.0, target.1);
                lemma_made_by_trans(reg, mods, *ctx, old(graph)@, g0, graph@);
                lemma_ext_grown_trans(old(graph)@, g0, graph@);
                lemma_registered_grown(reg, g0, graph@);
                lemma_ext_grown_refl(graph@);
                assert forall|p: Seq<char>| #[trigger] str_map_entries(seen).dom().contains(p) && old(graph)@.has_id(user)
                    implies import_linked_between(reg, old(graph)@, graph@, user, p) by {
                    if p == full_path@ {
                        assert(has_link(graph@, user, target.0, target.1));
                        assert(ext_grown(old(graph)@, g0) && ext_grown(g0, graph@)
                            && has_link(graph@, user, import_link(reg, g0, p).0, import_link(reg, g0, p).1));
                    } else {
                        assert(seen0.dom().contains(p));
                        lemma_import_linked_extend(reg, old(graph)@, g0, graph@, user, p);
                    }
                }
            }
        }
    }

    /// The resolution pass over all files' contexts: with a registry of the
    /// graph as the front-ends left it, links `mod` declarations, inherited
    /// types, used types, calls and imports, in that order per file.
    pub fn resolve_all(ctxs: Vec<ParseContext>, graph: &mut CodeGraph)
        requires
            old(graph).wf(),
        ensures
            final(graph).wf(),
            ext_grown(old(graph)@, final(graph)@),
            all_linked(registry_of(old(graph)@.nodes), ctxs@, ctxs@.len() as int, old(graph)@, final(graph)@),
            made_by_all(registry_of(old(graph)@.nodes), internal_modules(old(graph)@.nodes), ctxs@, ctxs@.len() as int, old(graph)@, final(graph)@),
    {
        let resolver = Resolver::build(graph);
        proof {
            lemma_registry_ids(graph@.nodes);
            let reg = resolver.registry();
            assert forall|k: Seq<char>, j: int| #![trigger reg[k][j]] reg.dom().contains(k) && 0 <= j < reg[k].len() implies graph@.has_id(reg[k][j]) by {
                let i = choose|i: int| 0 <= i < graph@.nodes.len() && #[trigger] graph@.nodes[i].id@ == reg[k][j];
            }
            lemma_ext_grown_refl(graph@);
        }
        let mut modules = str_map_new();
        let n = graph.node_count();
        let mut m: usize = 0;
        assert(str_map_entries(modules).dom() =~= internal_modules(graph@.nodes.subrange(0, 0)));
        while m < n
            invariant
                graph.wf(),
                *graph == *old(graph),
                n == graph@.nodes.len(),
                m <= n,
                str_map_entries(modules).dom() == internal_modules(graph@.nodes.subrange(0, m as int)),
            decreases n - m,
        {
            let node = graph.node_at(m);
            let ghost d0 = str_map_entries(modules).dom();
            let ghost pre = graph@.nodes.subrange(0, m as int);
            let ghost nxt = graph@.nodes.subrange(0, m + 1);
            if node.kind == NodeKind::Module && !node.is_external {
                str_map_insert(&mut modules, node.id.clone(), m);
            }
            proof {
                assert forall|id: Seq<char>| #[trigger] internal_modules(nxt).contains(id) == str_map_entries(modules).dom().contains(id) by {
                    if internal_modules(nxt).contains(id) {
                        let k = choose|k: int| 0 <= k < nxt.len() && (#[trigger] nxt[k]).id@ == id
                            && nxt[k].kind == NodeKind::Module && !nxt[k].is_external;
                        if k < m {
                            assert(pre[k] == nxt[k]);
                            assert(internal_modules(pre).contains(id));
                        }
                    }
                    if d0.contains(id) {
                        let k = choose|k: int| 0 <= k < pre.len() && (#[trigger] pre[k]).id@ == id
                            && pre[k].kind == NodeKind::Module && !pre[k].is_external;
                        assert(nxt[k] == pre[k]);
                    }
                    if str_map_entries(modules).dom().contains(id) && !d0.contains(id) {
                        assert(nxt[m as int] == *node);
                    }
                }
                assert(str_map_entries(modules).dom() =~= internal_modules(nxt));
            }
            m = m + 1;
        }
        assert(graph@.nodes.subrange(0, n as int) =~= graph@.nodes);
        let mut i: usize = 0;
        while i < ctxs.len()
            invariant
                resolver.wf(),
                graph.wf(),
                i <= ctxs@.len(),
                resolver.registry() == registry_of(old(graph)@.nodes),
                registered_in(resolver.registry(), graph@),
                ext_grown(old(graph)@, graph@),
                all_linked(resolver.registry(), ctxs@, i as int, old(graph)@, graph@),
                made_by_all(resolver.registry(), internal_modules(old(graph)@.nodes), ctxs@, i as int, old(graph)@, graph@),
                str_map_entries(modules).dom() == internal_modules(old(graph)@.nodes),
            decreases ctxs@.len() - i,
        {
            let ctx = &ctxs[i];
            let ghost reg = resolver.registry();
            let ghost og = old(graph)@;
            let ghost g0 = graph@;
            proof { graph.lemma_valid(); }
            resolver.link_mods(ctx, &modules, graph);
            let ghost g1 = graph@;
            proof { graph.lemma_valid(); }
            resolver.link_all(&ctx.pending_inherits, EdgeKind::Inherits, ctx, graph, Ghost(internal_modules(old(graph)@.nodes)));
            let ghost g2 = graph@;
            proof { graph.lemma_valid(); }
            resolver.link_all(&ctx.pending_uses_type, EdgeKind::UsesType, ctx, graph, Ghost(internal_modules(old(graph)@.nodes)));
            let ghost g3 = graph@;
            proof { graph.lemma_valid(); }
            resolver.link_calls(ctx, graph, Ghost(internal_modules(old(graph)@.nodes)));
            let ghost g4 = graph@;
            proof { graph.lemma_valid(); }
            resolver.link_imports(ctx, graph, Ghost(internal_modules(old(graph)@.nodes)));
            proof {
                let g5 = graph@;
                lemma_ext_grown_trans(og, g0, g1);
                lemma_ext_grown_trans(og, g1, g2);
                lemma_ext_grown_trans(og, g2, g3);
                lemma_ext_grown_trans(og, g3, g4);
                lemma_ext_grown_trans(og, g4, g5);
                lemma_ext_grown_trans(g0, g1, g2);
                lemma_ext_grown_trans(g0, g2, g3);
                lemma_ext_grown_trans(g0, g3, g4);
                lemma_ext_grown_trans(g0, g4, g5);
                lemma_ext_grown_trans(g2, g3, g4);
                lemma_ext_grown_trans(g2, g4, g5);
                lemma_ext_grown_trans(g3, g4, g5);
                let c = ctxs@[i as int];
                assert(*ctx == c);
                let mods = internal_modules(og.nodes);
                lemma_made_by_trans(reg, mods, c, g0, g1, g2);
                lemma_made_by_trans(reg, mods, c, g0, g2, g3);
                lemma_made_by_trans(reg, mods, c, g0, g3, g4);
                lemma_made_by_trans(reg, mods, c, g0, g4, g5);
                lemma_made_by_all_step(reg, mods, ctxs@, i as int, og, g0, g5);
                assert forall|a: int, j: int| 0 <= a < i + 1 && 0 <= j < ctxs@[a].pending_mods@.len()
                    && reg.dom().contains((#[trigger] ctxs@[a].pending_mods@[j]).1@) && og.has_id(ctxs@[a].pending_mods@[j].0@)
                    implies has_link(g5, ctxs@[a].pending_mods@[j].0@, mod_target(reg, mods, ctxs@[a].pending_mods@[j].1@), EdgeKind::Contains) by {
                    let u = ctxs@[a].pending_mods@[j].0@;
                    let t = mod_target(reg, mods, ctxs@[a].pending_mods@[j].1@);
                    if a < i {
                        lemma_ext_grown_keeps_link(g0, g5, u, t, EdgeKind::Contains);
                    } else {
                        lemma_ext_grown_trans(g1, g2, g3);
                        lemma_ext_grown_trans(g1, g3, g4);
                        lemma_ext_grown_trans(g1, g4, g5);
                        lemma_ext_grown_keeps_link(g1, g5, u, t, EdgeKind::Contains);
                    }
                }
                assert forall|a: int, j: int| 0 <= a < i + 1 && 0 <= j < ctxs@[a].imports@.len() && og.has_id(ctxs@[a].module_id@)
                    implies import_linked_between(reg, og, g5, ctxs@[a].module_id@, (#[trigger] ctxs@[a].imports@[j]).1) by {
                    let u = ctxs@[a].module_id@;
                    let p = ctxs@[a].imports@[j].1;
                    if a < i {
                        lemma_import_linked_extend(reg, og, g0, g5, u, p);
                    } else {
                        lemma_ext_grown_keeps_id(og, g4, u);
                        lemma_import_linked_shift(reg, og, g4, g5, u, p);
                    }
                }
                assert forall|a: int, j: int| 0 <= a < i + 1 && 0 <= j < ctxs@[a].pending_inherits@.len()
                    && og.has_id((#[trigger] ctxs@[a].pending_inherits@[j]).0@)
                    implies linked_between(reg, ctxs@[a], og, g5, ctxs@[a].pending_inherits@[j].0@, ctxs@[a].pending_inherits@[j].1@, EdgeKind::Inherits) by {
                    let u = ctxs@[a].pending_inherits@[j].0@;
                    let nm = ctxs@[a].pending_inherits@[j].1@;
                    if a < i {
                        lemma_linked_between_extend(reg, ctxs@[a], og, g0, g5, u, nm, EdgeKind::Inherits);
                    } else {
                        lemma_ext_grown_keeps_id(og, g1, u);
                        lemma_linked_between_shift(reg, c, og, g1, g2, u, nm, EdgeKind::Inherits);
                        lemma_linked_between_extend(reg, c, og, g2, g5, u, nm, EdgeKind::Inherits);
                    }
                }
                assert forall|a: int, j: int| 0 <= a < i + 1 && 0 <= j < ctxs@[a].pending_uses_type@.len()
                    && og.has_id((#[trigger] ctxs@[a].pending_uses_type@[j]).0@)
                    implies linked_between(reg, ctxs@[a], og, g5, ctxs@[a].pending_uses_type@[j].0@, ctxs@[a].pending_uses_type@[j].1@, EdgeKind::UsesType) by {
                    let u = ctxs@[a].pending_uses_type@[j].0@;
                    let nm = ctxs@[a].pending_uses_type@[j].1@;
                    if a < i {
                        lemma_linked_between_extend(reg, ctxs@[a], og, g0, g5, u, nm, EdgeKind::UsesType);
                    } else {
                        lemma_ext_grown_keeps_id(og, g2, u);
                        lemma_linked_between_shift(reg, c, og, g2, g3, u, nm, EdgeKind::UsesType);
                        lemma_linked_between_extend(reg, c, og, g3, g5, u, nm, EdgeKind::UsesType);
                    }
                }
                assert forall|a: int, j: int| 0 <= a < i + 1 && 0 <= j < ctxs@[a].pending_calls@.len()
                    && og.has_id((#[trigger] ctxs@[a].pending_calls@[j]).caller_id@)
                    implies call_linked_between(reg, ctxs@[a], og, g5, ctxs@[a].pending_calls@[j]) by {
                    let pcj = ctxs@[a].pending_calls@[j];
                    if a < i {
                        lemma_call_linked_extend(reg, ctxs@[a], og, g0, g5, pcj);
                    } else {
                        lemma_ext_grown_keeps_id(og, g3, pcj.caller_id@);
                        lemma_call_linked_shift(reg, c, og, g3, g4, pcj);
                        lemma_call_linked_extend(reg, c, og, g4, g5, pcj);
                    }
                }
            }
            i = i + 1;
        }
    }
}

} // verus!

verus! {

/// Resolution keeps every id.
pub proof fn lemma_ext_grown_keeps_id(a: GraphModel, b: GraphModel, id: Seq<char>)
    requires
        ext_grown(a, b),
        a.has_id(id),
    ensures
        b.has_id(id),
{
    let k = choose|k: int| 0 <= k < a.nodes.len() && #[trigger] a.nodes[k].id@ == id;
    assert(b.nodes.subrange(0, a.nodes.len() as int)[k] == b.nodes[k]);
}

} // verus!
