//! The Python front-end: modules, classes (dataclass fields included),
//! functions, methods, properties, constants, imports, typed variables and
//! call sites of a Python source file.
use vstd::prelude::*;

use crate::context::{
    calls_view, ctx_grown, lemma_ctx_grown_refl, lemma_ctx_grown_trans, lemma_store_all_push, opt_ref_str, opt_str, pairs_view, store, store_all,
    store_pair, CallView, Language, ParseContext,
};
use crate::front::{
    links_within, link_targets, lemma_links_within_refl, lemma_links_single, lemma_links_then, lemma_links_within_trans,
    add_contains, add_declaration, add_file_node, declared, lemma_declared_grown, grown, kind_is, last_child_of_kind, lemma_grown_keeps_id, lemma_grown_refl,
    lemma_grown_trans, lemma_only_calls_grown, lemma_only_calls_refl, lemma_only_calls_trans, lemma_starts_with_refl,
    lemma_walked_refl, lemma_walked_trans, line_of, new_context, only_calls_added, push_inherits, push_uses_type, record_call, walked,
    paired, inner_texts, inner_texts_of, texts_view, node_fields, lemma_node_fields_grown, lemma_grown_keeps_link, line_at,
};
use crate::model::{CodeGraph, EdgeKind, GraphModel, NodeKind};
use crate::resolve::has_link;
use crate::rust_lang::{first_named, first_named_text, first_where, lemma_first_where_prefix, lemma_first_where_step};
use crate::syntax::{describes, grammar_accepted, parse_source, ts_preorder, ParseError, SyntaxNode};
use crate::text::{
    chars_of, first_piece, first_piece_of, has_char, has_suffix, join, join_of, last_piece, last_piece_of, pieces, pieces_of,
    replace_all, replace_of, starts_with, ends_with, str_eq, string_from, strip_leading, strip_leading_of, strip_trailing,
    strip_trailing_of, trim_of, trim_white,
};
use crate::typescript::{orig_alias, unquote};

verus! {

/// The module id of a Python file: the path without its `.py` ending, with
/// `.` for `/` and `\`, without leading dots.
pub open spec fn py_module_id(rel: Seq<char>) -> Seq<char> {
    let a = strip_trailing(rel, ".py"@);
    strip_leading(replace_all(replace_all(a, "/"@, "."@), "\\"@, "."@), "."@)
}

/// The module id of a Python file (see `py_module_id`).
pub fn path_to_module_id(rel_path: &str) -> (r: String)
    ensures
        r@ == py_module_id(rel_path@),
{
    let rel = chars_of(rel_path);
    let py = chars_of(".py");
    let slash = chars_of("/");
    let backslash = chars_of("\\");
    let dot = chars_of(".");
    let a = strip_trailing_of(rel.as_slice(), py.as_slice());
    let b1 = replace_of(a.as_slice(), slash.as_slice(), dot.as_slice());
    let b = replace_of(b1.as_slice(), backslash.as_slice(), dot.as_slice());
    let c = strip_leading_of(b.as_slice(), dot.as_slice());
    string_from(c.as_slice())
}

/// A docstring's text: quotes trimmed from both ends (`"` then `'`), then
/// leading and trailing triple quotes, then white space.
pub open spec fn clean_docstring(s: Seq<char>) -> Seq<char> {
    let a = strip_trailing(strip_leading(unquote(s), "\"\"\""@), "\"\"\""@);
    trim_white(strip_trailing(strip_leading(a, "'''"@), "'''"@))
}

/// The text of a docstring (see `clean_docstring`).
pub fn clean_docstring_of(s: &str) -> (r: String)
    ensures
        r@ == clean_docstring(s@),
{
    let cs = chars_of(s);
    let dq = chars_of("\"");
    let sq = chars_of("'");
    let tdq = chars_of("\"\"\"");
    let tsq = chars_of("'''");
    let a = strip_leading_of(cs.as_slice(), dq.as_slice());
    let b = strip_trailing_of(a.as_slice(), dq.as_slice());
    let c = strip_leading_of(b.as_slice(), sq.as_slice());
    let d = strip_trailing_of(c.as_slice(), sq.as_slice());
    let e = strip_leading_of(d.as_slice(), tdq.as_slice());
    let f = strip_trailing_of(e.as_slice(), tdq.as_slice());
    let g = strip_leading_of(f.as_slice(), tsq.as_slice());
    let h = strip_trailing_of(g.as_slice(), tsq.as_slice());
    let t = trim_of(h.as_slice());
    string_from(t.as_slice())
}

/// A module's docstring: a string that is the first child of the module's
/// first child, an expression statement.
pub open spec fn module_docstring(root: SyntaxNode) -> Option<Seq<char>> {
    if root.children@.len() > 0 && root.children@[0].kind@ == "expression_statement"@
        && root.children@[0].children@.len() > 0 && root.children@[0].children@[0].kind@ == "string"@ {
        Some(clean_docstring(root.children@[0].children@[0].text@))
    } else {
        None
    }
}

/// A module's docstring (see `module_docstring`).
pub fn extract_module_docstring(root: &SyntaxNode) -> (r: Option<String>)
    ensures
        opt_str(r) == module_docstring(*root),
{
    if root.children.len() > 0 && kind_is(&root.children[0], "expression_statement") {
        let first = &root.children[0];
        if first.children.len() > 0 && kind_is(&first.children[0], "string") {
            return Some(clean_docstring_of(first.children[0].text.as_str()));
        }
    }
    None
}

/// The first string directly inside an expression statement among the
/// children, as a docstring.
pub open spec fn first_string_doc(cs: Seq<SyntaxNode>) -> Option<Seq<char>>
    decreases cs.len(),
{
    if cs.len() == 0 {
        None
    } else if first_string_doc(cs.drop_last()) is Some {
        first_string_doc(cs.drop_last())
    } else if cs.last().kind@ == "expression_statement"@ && first_where(cs.last().children@, crate::rust_lang::of_kind("string"@)) >= 0 {
        Some(clean_docstring(cs.last().children@[first_where(cs.last().children@, crate::rust_lang::of_kind("string"@))].text@))
    } else {
        None
    }
}

/// The docstring of a class or function body (see `first_string_doc`).
pub fn get_first_string_child(node: &SyntaxNode) -> (r: Option<String>)
    ensures
        opt_str(r) == first_string_doc(node.children@),
{
    let mut i: usize = 0;
    while i < node.children.len()
        invariant
            i <= node.children@.len(),
            first_string_doc(node.children@.subrange(0, i as int)) is None,
        decreases node.children@.len() - i,
    {
        let child = &node.children[i];
        let ghost cs = node.children@.subrange(0, i + 1);
        assert(cs.drop_last() =~= node.children@.subrange(0, i as int));
        if kind_is(child, "expression_statement") {
            let mut j: usize = 0;
            while j < child.children.len()
                invariant
                    j <= child.children@.len(),
                    i < node.children@.len(),
                    *child == node.children@[i as int],
                    child.kind@ == "expression_statement"@,
                    cs == node.children@.subrange(0, i + 1),
                    cs.drop_last() == node.children@.subrange(0, i as int),
                    first_string_doc(node.children@.subrange(0, i as int)) is None,
                    first_where(child.children@.subrange(0, j as int), crate::rust_lang::of_kind("string"@)) == -1,
                decreases child.children@.len() - j,
            {
                proof {
                    lemma_first_where_step(child.children@, crate::rust_lang::of_kind("string"@), j as int);
                    assert(crate::rust_lang::of_kind("string"@)(child.children@[j as int]) == (child.children@[j as int].kind@ == "string"@));
                }
                if kind_is(&child.children[j], "string") {
                    proof { lemma_first_where_prefix(child.children@, crate::rust_lang::of_kind("string"@), j as int); }
                    let doc = clean_docstring_of(child.children[j].text.as_str());
                    assert(cs.last() == *child);
                    assert(first_string_doc(cs) == Some(doc@));
                    proof { lemma_first_string_doc_prefix(node.children@, i as int); }
                    return Some(doc);
                }
                j = j + 1;
            }
            assert(child.children@.subrange(0, child.children@.len() as int) =~= child.children@);
        }
        i = i + 1;
    }
    assert(node.children@.subrange(0, node.children@.len() as int) =~= node.children@);
    None
}

/// A docstring found among a prefix is the docstring of the whole.
proof fn lemma_first_string_doc_prefix(cs: Seq<SyntaxNode>, i: int)
    requires
        0 <= i < cs.len(),
        first_string_doc(cs.subrange(0, i + 1)) is Some,
    ensures
        first_string_doc(cs) == first_string_doc(cs.subrange(0, i + 1)),
    decreases cs.len(),
{
    if cs.len() > i + 1 {
        assert(cs.drop_last().subrange(0, i + 1) =~= cs.subrange(0, i + 1));
        lemma_first_string_doc_prefix(cs.drop_last(), i);
    } else {
        assert(cs.subrange(0, i + 1) =~= cs);
    }
}

/// The decorators of a definition, without their `@`.
pub open spec fn decorators(cs: Seq<SyntaxNode>) -> Seq<Seq<char>>
    decreases cs.len(),
{
    if cs.len() == 0 {
        Seq::empty()
    } else {
        decorators(cs.drop_last()) + if cs.last().kind@ == "decorator"@ {
            seq![strip_leading(cs.last().text@, "@"@)]
        } else {
            Seq::empty()
        }
    }
}

/// The decorators of a definition (see `decorators`).
pub fn get_decorators(node: &SyntaxNode) -> (r: Vec<String>)
    ensures
        r@.map_values(|s: String| s@) == decorators(node.children@),
{
    let mut r: Vec<String> = Vec::new();
    let at = chars_of("@");
    let mut i: usize = 0;
    while i < node.children.len()
        invariant
            i <= node.children@.len(),
            at@ == "@"@,
            r@.map_values(|s: String| s@) == decorators(node.children@.subrange(0, i as int)),
        decreases node.children@.len() - i,
    {
        let child = &node.children[i];
        assert(node.children@.subrange(0, i + 1).drop_last() =~= node.children@.subrange(0, i as int));
        if kind_is(child, "decorator") {
            let t = chars_of(child.text.as_str());
            let d = string_from(strip_leading_of(t.as_slice(), at.as_slice()).as_slice());
            let ghost r0 = r@;
            r.push(d);
            assert(r@.map_values(|s: String| s@) =~= r0.map_values(|s: String| s@).push(d@));
        }
        assert(r@.map_values(|s: String| s@) =~= decorators(node.children@.subrange(0, i + 1)));
        i = i + 1;
    }
    assert(node.children@.subrange(0, node.children@.len() as int) =~= node.children@);
    r
}

} // verus!

verus! {

use crate::rust_lang::{last_where, lemma_last_where_step, of_kind};
use crate::typescript::last_child_of_kind_exact;
use crate::front::imports_kept;

/// The imported name and alias of `import X as Y`: the first non-empty dotted
/// name, and the text of the last identifier (or the empty text).
pub open spec fn aliased_pair(cs: Seq<SyntaxNode>) -> (Seq<char>, Seq<char>) {
    let a = last_where(cs, of_kind("identifier"@));
    (first_named(cs, "dotted_name"@), if a < 0 { Seq::empty() } else { cs[a].text@ })
}

/// What `import X, Y as Z` stores in the import table: `X` under itself, and
/// an aliased module under its (non-empty) alias.
pub open spec fn py_import_stores(cs: Seq<SyntaxNode>) -> Seq<(Seq<char>, Seq<char>)>
    decreases cs.len(),
{
    if cs.len() == 0 {
        Seq::empty()
    } else {
        let c = cs.last();
        let here = if c.kind@ == "dotted_name"@ {
            seq![(c.text@, c.text@)]
        } else if c.kind@ == "aliased_import"@ && aliased_pair(c.children@).1.len() > 0 {
            seq![(aliased_pair(c.children@).1, aliased_pair(c.children@).0)]
        } else {
            Seq::empty()
        };
        py_import_stores(cs.drop_last()) + here
    }
}

/// What `import X as Y` stores in the alias table: the module under its
/// (non-empty) alias.
pub open spec fn py_alias_stores(cs: Seq<SyntaxNode>) -> Seq<(Seq<char>, Seq<char>)>
    decreases cs.len(),
{
    if cs.len() == 0 {
        Seq::empty()
    } else {
        let c = cs.last();
        let here = if c.kind@ == "aliased_import"@ && aliased_pair(c.children@).1.len() > 0 {
            seq![(aliased_pair(c.children@).1, aliased_pair(c.children@).0)]
        } else {
            Seq::empty()
        };
        py_alias_stores(cs.drop_last()) + here
    }
}

fn aliased_pair_of(node: &SyntaxNode) -> (r: (String, String))
    ensures
        (r.0@, r.1@) == aliased_pair(node.children@),
{
    let orig = first_named_text(node, "dotted_name");
    let alias = match last_child_of_kind_exact(node, "identifier") {
        Some(i) => node.children[i].text.clone(),
        None => String::new(),
    };
    (orig, alias)
}

/// Records `import X` and `import X as Y` (see `py_import_stores` and
/// `py_alias_stores`).
pub fn parse_import(node: &SyntaxNode, ctx: &mut ParseContext)
    ensures
        final(ctx).imports@ == store_all(old(ctx).imports@, py_import_stores(node.children@)),
        final(ctx).alias_map@ == store_all(old(ctx).alias_map@, py_alias_stores(node.children@)),
        final(ctx).module_id == old(ctx).module_id,
        final(ctx).file == old(ctx).file,
        final(ctx).pending_calls == old(ctx).pending_calls,
        final(ctx).pending_inherits@ == old(ctx).pending_inherits@,
        final(ctx).pending_uses_type == old(ctx).pending_uses_type,
        final(ctx).pending_mods == old(ctx).pending_mods,
        final(ctx).local_var_types == old(ctx).local_var_types,
        final(ctx).class_fields == old(ctx).class_fields,
{
    let ghost imp0 = old(ctx).imports@;
    let ghost al0 = old(ctx).alias_map@;
    let mut i: usize = 0;
    while i < node.children.len()
        invariant
            i <= node.children@.len(),
            ctx.imports@ == store_all(imp0, py_import_stores(node.children@.subrange(0, i as int))),
            ctx.alias_map@ == store_all(al0, py_alias_stores(node.children@.subrange(0, i as int))),
            ctx.module_id == old(ctx).module_id,
            ctx.file == old(ctx).file,
            ctx.pending_calls == old(ctx).pending_calls,
            ctx.pending_inherits@ == old(ctx).pending_inherits@,
            ctx.pending_uses_type == old(ctx).pending_uses_type,
            ctx.pending_mods == old(ctx).pending_mods,
            ctx.local_var_types == old(ctx).local_var_types,
            ctx.class_fields == old(ctx).class_fields,
        decreases node.children@.len() - i,
    {
        let child = &node.children[i];
        let ghost pre = node.children@.subrange(0, i as int);
        assert(node.children@.subrange(0, i + 1).drop_last() =~= pre);
        assert(node.children@.subrange(0, i + 1).last() == *child);
        if kind_is(child, "dotted_name") {
            ctx.imports.insert(child.text.clone(), child.text.clone());
            proof {
                reveal_strlit("dotted_name");
                reveal_strlit("aliased_import");
                assert("dotted_name"@.len() != "aliased_import"@.len());
                lemma_store_all_push(imp0, py_import_stores(pre), child.text@, child.text@);
                assert(py_import_stores(node.children@.subrange(0, i + 1)) =~= py_import_stores(pre).push((child.text@, child.text@)));
                assert(py_alias_stores(node.children@.subrange(0, i + 1)) =~= py_alias_stores(pre));
            }
        } else if kind_is(child, "aliased_import") {
            let (orig, alias) = aliased_pair_of(child);
            if !alias.as_str().is_empty() {
                ctx.alias_map.insert(alias.clone(), orig.clone());
                ctx.imports.insert(alias.clone(), orig.clone());
                proof {
                    lemma_store_all_push(imp0, py_import_stores(pre), alias@, orig@);
                    lemma_store_all_push(al0, py_alias_stores(pre), alias@, orig@);
                    reveal_strlit("dotted_name");
                    reveal_strlit("aliased_import");
                    assert("dotted_name"@.len() != "aliased_import"@.len());
                    assert(py_import_stores(node.children@.subrange(0, i + 1)) =~= py_import_stores(pre).push((alias@, orig@)));
                    assert(py_alias_stores(node.children@.subrange(0, i + 1)) =~= py_alias_stores(pre).push((alias@, orig@)));
                }
            } else {
                proof {
                    reveal_strlit("dotted_name");
                    reveal_strlit("aliased_import");
                    assert("dotted_name"@.len() != "aliased_import"@.len());
                }
                assert(py_import_stores(node.children@.subrange(0, i + 1)) =~= py_import_stores(pre));
                assert(py_alias_stores(node.children@.subrange(0, i + 1)) =~= py_alias_stores(pre));
            }
        } else {
            assert(py_import_stores(node.children@.subrange(0, i + 1)) =~= py_import_stores(pre));
            assert(py_alias_stores(node.children@.subrange(0, i + 1)) =~= py_alias_stores(pre));
        }
        i = i + 1;
    }
    assert(node.children@.subrange(0, node.children@.len() as int) =~= node.children@);
}

/// A name imported by `from M import ...`: the name and its alias, if any.
pub type FromName = (Seq<char>, Option<Seq<char>>);

/// What the children of `from M import ...` give, read in order: the number
/// of `.` tokens, the module name (the first non-empty dotted name before
/// the `import` keyword, or the last dotted name inside an import prefix or a
/// list of imported names), the imported names (after `import`: each dotted name,
/// each aliased import with a non-empty imported name, and each identifier),
/// and whether the `import` keyword was passed.
pub open spec fn from_state(cs: Seq<SyntaxNode>) -> (nat, Seq<char>, Seq<FromName>, bool)
    decreases cs.len(),
{
    if cs.len() == 0 {
        (0, Seq::empty(), Seq::empty(), false)
    } else {
        let (d, m, ns, seen) = from_state(cs.drop_last());
        let c = cs.last();
        if c.kind@ == "."@ {
            (d + 1, m, ns, seen)
        } else if c.kind@ == "import"@ {
            (d, m, ns, true)

        } else if c.kind@ == "dotted_name"@ && seen {
            (d, m, ns.push((c.text@, None)), seen)
        } else if c.kind@ == "dotted_name"@ && m.len() == 0 {
            (d, c.text@, ns, seen)
        } else if c.kind@ == "import_from_as_names"@ || c.kind@ == "import_prefix"@ {
            let k = last_where(c.children@, of_kind("dotted_name"@));
            (d, if k < 0 { m } else { c.children@[k].text@ }, ns, seen)
        } else if c.kind@ == "aliased_import"@ {
            let (o, a) = aliased_pair(c.children@);
            if o.len() > 0 { (d, m, ns.push((o, if a.len() == 0 { None } else { Some(a) })), seen) } else { (d, m, ns, seen) }
        } else if c.kind@ == "identifier"@ {
            (d, m, ns.push((c.text@, None)), seen)
        } else {
            (d, m, ns, seen)
        }
    }
}

/// The module a `from` import names: with `dots` leading dots, the module id
/// loses its last `dots` components (all of them when it has fewer) and the
/// module name, if any, is appended after a `.`.
pub open spec fn from_module(module_id: Seq<char>, dots: nat, m: Seq<char>) -> Seq<char> {
    if dots > 0 {
        let parts = pieces(module_id, "."@);
        let keep = if parts.len() >= dots { parts.len() - dots } else { 0 };
        let base = join(parts.subrange(0, keep as int), "."@);
        if m.len() == 0 { base } else { base + "."@ + m }
    } else {
        m
    }
}

/// What `from M import ...` stores in the import table: the module under its
/// own name when nothing is named, else each name under its alias (or
/// itself) mapped to `module.name`.
pub open spec fn from_entries(module_id: Seq<char>, cs: Seq<SyntaxNode>) -> Seq<(Seq<char>, Seq<char>)> {
    let (d, m, ns, _) = from_state(cs);
    let full = from_module(module_id, d, m);
    if ns.len() == 0 {
        seq![(full, full)]
    } else {
        ns.map_values(|p: FromName| (match p.1 { Some(a) => a, None => p.0 }, full + "."@ + p.0))
    }
}

pub open spec fn from_names_view(v: Seq<(String, Option<String>)>) -> Seq<FromName> {
    v.map_values(|p: (String, Option<String>)| (p.0@, opt_str(p.1)))
}

fn from_module_of(module_id: &str, dots: usize, m: &str) -> (r: String)
    ensures
        r@ == from_module(module_id@, dots as nat, m@),
{
    if dots > 0 {
        let mc = chars_of(module_id);
        let dot = chars_of(".");
        proof { reveal_strlit("."); }
        let mut parts = pieces_of(mc.as_slice(), dot.as_slice());
        let ghost ps = parts@.map_values(|v: Vec<char>| v@);
        let keep = if parts.len() >= dots { parts.len() - dots } else { 0 };
        parts.truncate(keep);
        assert(parts@.map_values(|v: Vec<char>| v@) =~= ps.subrange(0, keep as int));
        let base = join_of(&parts, dot.as_slice());
        if m.is_empty() {
            string_from(base.as_slice())
        } else {
            let a = crate::text::cat(base.as_slice(), dot.as_slice());
            let b = crate::text::cat(a.as_slice(), chars_of(m).as_slice());
            string_from(b.as_slice())
        }
    } else {
        m.to_string()
    }
}

/// Records `from M import A, B as C` (see `from_entries`).
pub fn parse_import_from(node: &SyntaxNode, ctx: &mut ParseContext, module_id: &str)
    ensures
        final(ctx).imports@ == store_all(old(ctx).imports@, from_entries(module_id@, node.children@)),
        final(ctx).module_id == old(ctx).module_id,
        final(ctx).file == old(ctx).file,
        final(ctx).alias_map == old(ctx).alias_map,
        final(ctx).pending_calls == old(ctx).pending_calls,
        final(ctx).pending_inherits@ == old(ctx).pending_inherits@,
        final(ctx).pending_uses_type == old(ctx).pending_uses_type,
        final(ctx).pending_mods == old(ctx).pending_mods,
        final(ctx).local_var_types == old(ctx).local_var_types,
        final(ctx).class_fields == old(ctx).class_fields,
{
    let mut dots: usize = 0;
    let mut module_name = String::new();
    let mut names: Vec<(String, Option<String>)> = Vec::new();
    let mut seen_import = false;
    let mut i: usize = 0;
    while i < node.children.len()
        invariant
            i <= node.children@.len(),
            dots <= i,
            from_state(node.children@.subrange(0, i as int)) == (dots as nat, module_name@, from_names_view(names@), seen_import),
        decreases node.children@.len() - i,
    {
        let child = &node.children[i];
        let ghost pre = node.children@.subrange(0, i as int);
        assert(node.children@.subrange(0, i + 1).drop_last() =~= pre);
        assert(node.children@.subrange(0, i + 1).last() == *child);
        if kind_is(child, ".") {
            dots = dots + 1;
        } else if kind_is(child, "import") {
            seen_import = true;
        } else if kind_is(child, "dotted_name") && seen_import {
            let ghost n0 = names@;
            names.push((child.text.clone(), None));
            assert(from_names_view(names@) =~= from_names_view(n0).push((child.text@, None)));
        } else if kind_is(child, "dotted_name") && module_name.as_str().is_empty() {
            module_name = child.text.clone();
        } else if kind_is(child, "import_from_as_names") || kind_is(child, "import_prefix") {
            match last_child_of_kind_exact(child, "dotted_name") {
                Some(k) => {
                    module_name = child.children[k].text.clone();
                },
                None => {},
            }
        } else if kind_is(child, "aliased_import") {
            let (o, a) = aliased_pair_of(child);
            if !o.as_str().is_empty() {
                let alias = if a.as_str().is_empty() { None } else { Some(a) };
                let ghost n0 = names@;
                names.push((o, alias));
                assert(from_names_view(names@) =~= from_names_view(n0).push((names@[n0.len() as int].0@, opt_str(names@[n0.len() as int].1))));
            }
        } else if kind_is(child, "identifier") {
            let ghost n0 = names@;
            names.push((child.text.clone(), None));
            assert(from_names_view(names@) =~= from_names_view(n0).push((child.text@, None)));
        }
        i = i + 1;
    }
    assert(node.children@.subrange(0, node.children@.len() as int) =~= node.children@);
    let full = from_module_of(module_id, dots, module_name.as_str());
    let ghost base = old(ctx).imports@;
    let ghost entries = from_entries(module_id@, node.children@);
    if names.len() == 0 {
        ctx.imports.insert(full.clone(), full);
        proof {
            lemma_store_all_push(base, Seq::empty(), full@, full@);
            assert(entries =~= Seq::<(Seq<char>, Seq<char>)>::empty().push((full@, full@)));
        }
        return;
    }
    let dot = chars_of(".");
    let mut j: usize = 0;
    assert(entries.subrange(0, 0) =~= Seq::<(Seq<char>, Seq<char>)>::empty());
    while j < names.len()
        invariant
            j <= names@.len(),
            names@.len() > 0,
            dot@ == "."@,
            from_state(node.children@).2 == from_names_view(names@),
            full@ == from_module(module_id@, from_state(node.children@).0, from_state(node.children@).1),
            entries == from_entries(module_id@, node.children@),
            ctx.imports@ == store_all(base, entries.subrange(0, j as int)),
            ctx.module_id == old(ctx).module_id,
            ctx.file == old(ctx).file,
            ctx.alias_map == old(ctx).alias_map,
            ctx.pending_calls == old(ctx).pending_calls,
            ctx.pending_inherits@ == old(ctx).pending_inherits@,
            ctx.pending_uses_type == old(ctx).pending_uses_type,
            ctx.pending_mods == old(ctx).pending_mods,
            ctx.local_var_types == old(ctx).local_var_types,
            ctx.class_fields == old(ctx).class_fields,
        decreases names@.len() - j,
    {
        let name = &names[j].0;
        let key = match &names[j].1 {
            Some(a) => a.clone(),
            None => name.clone(),
        };
        let path = crate::text::cat3(full.as_str(), ".", name.as_str());
        let ghost pre = entries.subrange(0, j as int);
        proof {
            assert(from_names_view(names@)[j as int] == (names@[j as int].0@, opt_str(names@[j as int].1)));
            assert(entries[j as int] == (key@, path@));
            assert(entries.subrange(0, j + 1) =~= pre.push((key@, path@)));
        }
        ctx.imports.insert(key, path);
        proof { lemma_store_all_push(base, pre, entries[j as int].0, entries[j as int].1); }
        j = j + 1;
    }
    assert(entries.subrange(0, names@.len() as int) =~= entries);
}

} // verus!

verus! {

use crate::context::{apply_binding, binding_uses, bindings_applied, lemma_bindings_refl, lemma_bindings_trans, lemma_bindings_grown, Binding};

pub open spec fn is_py_callee(c: SyntaxNode) -> bool {
    c.kind@ == "attribute"@ || c.kind@ == "identifier"@
}

pub open spec fn py_callee_nodes() -> spec_fn(SyntaxNode) -> bool {
    |c: SyntaxNode| is_py_callee(c)
}

/// The call a `call` node records: its first attribute or identifier child
/// names the callee. An attribute `obj.method` calls its second identifier
/// (when non-empty) on its first; an identifier is called directly when
/// non-empty.
pub open spec fn py_call_calls(n: SyntaxNode, caller: Seq<char>, in_class: Option<Seq<char>>) -> Seq<CallView> {
    let i = first_where(n.children@, py_callee_nodes());
    if i < 0 {
        Seq::empty()
    } else {
        let c = n.children@[i];
        if c.kind@ == "attribute"@ {
            let (obj, method) = orig_alias(c.children@);
            if method.len() > 0 { seq![(caller, method, Some(obj), in_class)] } else { Seq::empty() }
        } else {
            if c.text@.len() > 0 { seq![(caller, c.text@, None, in_class)] } else { Seq::empty() }
        }
    }
}

/// Records the call of a `call` node (see `py_call_calls`).
pub fn parse_call(node: &SyntaxNode, caller_id: &str, in_class: Option<&str>, ctx: &mut ParseContext)
    ensures
        only_calls_added(*old(ctx), *final(ctx), py_call_calls(*node, caller_id@, opt_ref_str(in_class))),
{
    let mut i: usize = 0;
    while i < node.children.len()
        invariant
            i <= node.children@.len(),
            first_where(node.children@.subrange(0, i as int), py_callee_nodes()) == -1,
            *ctx == *old(ctx),
        decreases node.children@.len() - i,
    {
        let child = &node.children[i];
        proof {
            lemma_first_where_step(node.children@, py_callee_nodes(), i as int);
            assert(py_callee_nodes()(node.children@[i as int]) == is_py_callee(node.children@[i as int]));
        }
        if kind_is(child, "attribute") || kind_is(child, "identifier") {
            proof { lemma_first_where_prefix(node.children@, py_callee_nodes(), i as int); }
            if kind_is(child, "attribute") {
                let (obj, method) = crate::typescript::orig_alias_text(child);
                if !method.as_str().is_empty() {
                    record_call(ctx, caller_id, method, Some(obj), in_class);
                } else {
                    proof { lemma_only_calls_refl(*ctx); }
                }
            } else {
                if !child.text.as_str().is_empty() {
                    record_call(ctx, caller_id, child.text.clone(), None, in_class);
                } else {
                    proof { lemma_only_calls_refl(*ctx); }
                }
            }
            return;
        }
        i = i + 1;
    }
    proof {
        assert(node.children@.subrange(0, node.children@.len() as int) =~= node.children@);
        lemma_only_calls_refl(*ctx);
    }
}

/// The name and type of a typed parameter, read in order: the first
/// identifier names it (once one is non-empty); the first `type`, or an
/// identifier after the name, types it.
pub open spec fn param_pair(cs: Seq<SyntaxNode>) -> (Seq<char>, Seq<char>)
    decreases cs.len(),
{
    if cs.len() == 0 {
        (Seq::empty(), Seq::empty())
    } else {
        let (n, t) = param_pair(cs.drop_last());
        let c = cs.last();
        if c.kind@ == "identifier"@ && n.len() == 0 {
            (c.text@, t)
        } else if c.kind@ == "type"@ && t.len() == 0 {
            (n, c.text@)
        } else if c.kind@ == "identifier"@ && n.len() > 0 && t.len() == 0 {
            (n, c.text@)
        } else {
            (n, t)
        }
    }
}

/// The bindings of a parameter list: each typed parameter (with or without
/// default) whose name and type are non-empty and whose name is neither
/// `self` nor `cls`, bound in the function.
pub open spec fn param_bindings(cs: Seq<SyntaxNode>, func_id: Seq<char>) -> Seq<Binding>
    decreases cs.len(),
{
    if cs.len() == 0 {
        Seq::empty()
    } else {
        let c = cs.last();
        let (n, t) = param_pair(c.children@);
        let here = if (c.kind@ == "typed_parameter"@ || c.kind@ == "typed_default_parameter"@)
            && n.len() > 0 && t.len() > 0 && n != "self"@ && n != "cls"@ {
            seq![(false, func_id, n, t)]
        } else {
            Seq::empty()
        };
        param_bindings(cs.drop_last(), func_id) + here
    }
}

fn param_pair_of(node: &SyntaxNode) -> (r: (String, String))
    ensures
        (r.0@, r.1@) == param_pair(node.children@),
{
    let mut pname = String::new();
    let mut ptype = String::new();
    let mut i: usize = 0;
    while i < node.children.len()
        invariant
            i <= node.children@.len(),
            (pname@, ptype@) == param_pair(node.children@.subrange(0, i as int)),
        decreases node.children@.len() - i,
    {
        let c = &node.children[i];
        assert(node.children@.subrange(0, i + 1).drop_last() =~= node.children@.subrange(0, i as int));
        if kind_is(c, "identifier") && pname.as_str().is_empty() {
            pname = c.text.clone();
        } else if kind_is(c, "type") && ptype.as_str().is_empty() {
            ptype = c.text.clone();
        } else if kind_is(c, "identifier") && !pname.as_str().is_empty() && ptype.as_str().is_empty() {
            ptype = c.text.clone();
        }
        i = i + 1;
    }
    assert(node.children@.subrange(0, node.children@.len() as int) =~= node.children@);
    (pname, ptype)
}

/// Records the typed parameters of a function (see `param_bindings`).
pub fn parse_params(params: &SyntaxNode, func_id: &str, ctx: &mut ParseContext)
    ensures
        bindings_applied(*old(ctx), *final(ctx), param_bindings(params.children@, func_id@)),
{
    proof { lemma_bindings_refl(*ctx); }
    let mut i: usize = 0;
    while i < params.children.len()
        invariant
            i <= params.children@.len(),
            bindings_applied(*old(ctx), *ctx, param_bindings(params.children@.subrange(0, i as int), func_id@)),
        decreases params.children@.len() - i,
    {
        let child = &params.children[i];
        let ghost pre = params.children@.subrange(0, i as int);
        let ghost c0 = *ctx;
        assert(params.children@.subrange(0, i + 1).drop_last() =~= pre);
        assert(params.children@.subrange(0, i + 1).last() == *child);
        if kind_is(child, "typed_parameter") || kind_is(child, "typed_default_parameter") {
            let (pname, ptype) = param_pair_of(child);
            if !pname.as_str().is_empty() && !ptype.as_str().is_empty() && !str_eq(pname.as_str(), "self") && !str_eq(pname.as_str(), "cls") {
                apply_binding(ctx, false, func_id.to_string(), pname, ptype);
                proof {
                    lemma_bindings_trans(*old(ctx), c0, *ctx, param_bindings(pre, func_id@), seq![(false, func_id@, param_pair(child.children@).0, param_pair(child.children@).1)]);
                }
            } else {
                proof {
                    lemma_bindings_refl(*ctx);
                    lemma_bindings_trans(*old(ctx), c0, *ctx, param_bindings(pre, func_id@), Seq::empty());
                    assert(param_bindings(pre, func_id@) + Seq::<Binding>::empty() =~= param_bindings(pre, func_id@));
                }
            }
        } else {
            proof {
                lemma_bindings_refl(*ctx);
                lemma_bindings_trans(*old(ctx), c0, *ctx, param_bindings(pre, func_id@), Seq::empty());
                assert(param_bindings(pre, func_id@) + Seq::<Binding>::empty() =~= param_bindings(pre, func_id@));
            }
        }
        i = i + 1;
    }
    assert(params.children@.subrange(0, params.children@.len() as int) =~= params.children@);
}

} // verus!

verus! {

use crate::text::{find_from, first_from, sub_chars, lemma_first_from_bounds};

/// The binding of a dataclass field written as text `name: Type = default`:
/// the trimmed text before the first `:` names the field, the trimmed text
/// after it up to the first `=` types it; none without a `:` or a type.
pub open spec fn text_field_bindings(text: Seq<char>, class_id: Seq<char>) -> Seq<Binding> {
    let k = first_from(text, seq![':'], 0);
    if k < 0 {
        Seq::empty()
    } else {
        let field = trim_white(text.subrange(0, k));
        let ty = trim_white(first_piece(text.skip(k + 1), seq!['=']));
        if ty.len() > 0 { seq![(true, class_id, field, ty)] } else { Seq::empty() }
    }
}

/// Records a dataclass field given as an expression statement (see
/// `text_field_bindings`).
pub fn parse_dataclass_field(node: &SyntaxNode, class_id: &str, ctx: &mut ParseContext)
    ensures
        bindings_applied(*old(ctx), *final(ctx), text_field_bindings(node.text@, class_id@)),
{
    let text = chars_of(node.text.as_str());
    let colon = crate::text::single(':');
    match find_from(text.as_slice(), colon.as_slice(), 0) {
        Some(k) => {
            proof { lemma_first_from_bounds(text@, seq![':'], 0); }
            assert(colon@ == seq![':']);
            let n = text.len();
            assert(k + 1 <= n);
            let before = sub_chars(text.as_slice(), 0, k);
            let after = sub_chars(text.as_slice(), k + 1, n);
            assert(after@ =~= text@.skip(k + 1));
            let field = trim_of(before.as_slice());
            let eq = crate::text::single('=');
            let ty = trim_of(first_piece_of(after.as_slice(), eq.as_slice()).as_slice());
            if ty.len() > 0 {
                apply_binding(ctx, true, class_id.to_string(), string_from(field.as_slice()), string_from(ty.as_slice()));
            } else {
                proof { lemma_bindings_refl(*ctx); }
            }
        },
        None => {
            proof { lemma_bindings_refl(*ctx); }
        },
    }
}

/// The field and type of an annotated dataclass field, read in order: the
/// first identifier names it (once one is non-empty); after that, the first
/// `type`, identifier or attribute types it.
pub open spec fn annotated_field(cs: Seq<SyntaxNode>) -> (Seq<char>, Seq<char>)
    decreases cs.len(),
{
    if cs.len() == 0 {
        (Seq::empty(), Seq::empty())
    } else {
        let (f, t) = annotated_field(cs.drop_last());
        let c = cs.last();
        if c.kind@ == "identifier"@ && f.len() == 0 {
            (c.text@, t)
        } else if (c.kind@ == "type"@ || c.kind@ == "identifier"@ || c.kind@ == "attribute"@) && t.len() == 0 && f.len() > 0 {
            (f, c.text@)
        } else {
            (f, t)
        }
    }
}

pub open spec fn annotated_field_bindings(cs: Seq<SyntaxNode>, class_id: Seq<char>) -> Seq<Binding> {
    let (f, t) = annotated_field(cs);
    if f.len() > 0 && t.len() > 0 { seq![(true, class_id, f, t)] } else { Seq::empty() }
}

/// Records an annotated dataclass field (see `annotated_field`).
pub fn parse_dataclass_annotated_field(node: &SyntaxNode, class_id: &str, ctx: &mut ParseContext)
    ensures
        bindings_applied(*old(ctx), *final(ctx), annotated_field_bindings(node.children@, class_id@)),
{
    let mut field_name = String::new();
    let mut ty_text = String::new();
    let mut i: usize = 0;
    while i < node.children.len()
        invariant
            i <= node.children@.len(),
            (field_name@, ty_text@) == annotated_field(node.children@.subrange(0, i as int)),
        decreases node.children@.len() - i,
    {
        let c = &node.children[i];
        assert(node.children@.subrange(0, i + 1).drop_last() =~= node.children@.subrange(0, i as int));
        if kind_is(c, "identifier") && field_name.as_str().is_empty() {
            field_name = c.text.clone();
        } else if (kind_is(c, "type") || kind_is(c, "identifier") || kind_is(c, "attribute")) && ty_text.as_str().is_empty()
            && !field_name.as_str().is_empty() {
            ty_text = c.text.clone();
        }
        i = i + 1;
    }
    assert(node.children@.subrange(0, node.children@.len() as int) =~= node.children@);
    if !field_name.as_str().is_empty() && !ty_text.as_str().is_empty() {
        apply_binding(ctx, true, class_id.to_string(), field_name, ty_text);
    } else {
        proof { lemma_bindings_refl(*ctx); }
    }
}

/// The texts of the identifier children, in order.
pub open spec fn ident_texts(cs: Seq<SyntaxNode>) -> Seq<Seq<char>>
    decreases cs.len(),
{
    if cs.len() == 0 {
        Seq::empty()
    } else {
        ident_texts(cs.drop_last()) + if cs.last().kind@ == "identifier"@ { seq![cs.last().text@] } else { Seq::empty() }
    }
}

fn ident_texts_of(node: &SyntaxNode) -> (r: Vec<String>)
    ensures
        r@.map_values(|s: String| s@) == ident_texts(node.children@),
{
    let mut r: Vec<String> = Vec::new();
    let mut i: usize = 0;
    while i < node.children.len()
        invariant
            i <= node.children@.len(),
            r@.map_values(|s: String| s@) == ident_texts(node.children@.subrange(0, i as int)),
        decreases node.children@.len() - i,
    {
        let c = &node.children[i];
        assert(node.children@.subrange(0, i + 1).drop_last() =~= node.children@.subrange(0, i as int));
        if kind_is(c, "identifier") {
            let ghost r0 = r@;
            r.push(c.text.clone());
            assert(r@.map_values(|s: String| s@) =~= r0.map_values(|s: String| s@).push(c.text@));
        }
        assert(r@.map_values(|s: String| s@) =~= ident_texts(node.children@.subrange(0, i + 1)));
        i = i + 1;
    }
    assert(node.children@.subrange(0, node.children@.len() as int) =~= node.children@);
    r
}

/// `self.x` as an attribute: the second identifier when the first is `self`.
pub open spec fn self_attr(n: SyntaxNode) -> Option<Seq<char>> {
    let p = ident_texts(n.children@);
    if p.len() >= 2 && p[0] == "self"@ { Some(p[1]) } else { None }
}

fn self_attr_of(n: &SyntaxNode) -> (r: Option<String>)
    ensures
        opt_str(r) == self_attr(*n),
{
    let parts = ident_texts_of(n);
    let ghost pv = parts@.map_values(|s: String| s@);
    if parts.len() >= 2 && str_eq(parts[0].as_str(), "self") {
        assert(pv[0] == parts@[0]@);
        Some(parts[1].clone())
    } else {
        proof {
            if parts@.len() >= 2 {
                assert(pv[0] == parts@[0]@);
            }
        }
        None
    }
}

/// The variable an assignment binds: `self.x` (as `self.x`, a field) or a
/// plain identifier.
pub open spec fn assign_target(lhs: SyntaxNode) -> Option<(Seq<char>, bool)> {
    if lhs.kind@ == "attribute"@ {
        match self_attr(lhs) {
            Some(x) => Some(("self."@ + x, true)),
            None => None,
        }
    } else if lhs.kind@ == "identifier"@ {
        Some((lhs.text@, false))
    } else {
        None
    }
}

pub open spec fn target_view(t: Option<(String, bool)>) -> Option<(Seq<char>, bool)> {
    match t {
        Some(p) => Some((p.0@, p.1)),
        None => None,
    }
}

/// The type a right-hand side gives: the name called by a `call` node (its
/// first identifier or attribute child), when non-empty.
pub open spec fn call_type(rhs: SyntaxNode) -> Option<Seq<char>> {
    let i = first_where(rhs.children@, py_callee_nodes());
    if rhs.kind@ == "call"@ && i >= 0 && rhs.children@[i].text@.len() > 0 {
        Some(rhs.children@[i].text@)
    } else {
        None
    }
}

/// The binding of an assignment `target = Type(...)` with at least three
/// children: a `self.x` target binds field `x` of the enclosing class (none
/// outside a class), another target a local of the function.
pub open spec fn assign_bindings(n: SyntaxNode, func_id: Seq<char>, in_class: Option<Seq<char>>) -> Seq<Binding> {
    let cs = n.children@;
    if cs.len() < 3 {
        Seq::empty()
    } else {
        match (assign_target(cs[0]), call_type(cs.last())) {
            (Some((v, true)), Some(t)) => match in_class {
                Some(c) => seq![(true, c, strip_leading(v, "self."@), t)],
                None => Seq::empty(),
            },
            (Some((v, false)), Some(t)) => seq![(false, func_id, v, t)],
            _ => Seq::empty(),
        }
    }
}

fn call_type_of(rhs: &SyntaxNode) -> (r: Option<String>)
    ensures
        opt_str(r) == call_type(*rhs),
{
    if !kind_is(rhs, "call") {
        return None;
    }
    let mut i: usize = 0;
    while i < rhs.children.len()
        invariant
            i <= rhs.children@.len(),
            rhs.kind@ == "call"@,
            first_where(rhs.children@.subrange(0, i as int), py_callee_nodes()) == -1,
        decreases rhs.children@.len() - i,
    {
        let c = &rhs.children[i];
        proof {
            lemma_first_where_step(rhs.children@, py_callee_nodes(), i as int);
            assert(py_callee_nodes()(rhs.children@[i as int]) == is_py_callee(rhs.children@[i as int]));
        }
        if kind_is(c, "identifier") || kind_is(c, "attribute") {
            proof { lemma_first_where_prefix(rhs.children@, py_callee_nodes(), i as int); }
            if c.text.as_str().is_empty() {
                return None;
            }
            return Some(c.text.clone());
        }
        i = i + 1;
    }
    assert(rhs.children@.subrange(0, rhs.children@.len() as int) =~= rhs.children@);
    None
}

/// Records the type an assignment gives its target (see `assign_bindings`).
pub fn parse_assignment_in_func(node: &SyntaxNode, func_id: &str, in_class: Option<&str>, ctx: &mut ParseContext)
    ensures
        bindings_applied(*old(ctx), *final(ctx), assign_bindings(*node, func_id@, opt_ref_str(in_class))),
{
    proof { lemma_bindings_refl(*ctx); }
    let n = node.children.len();
    if n < 3 {
        return;
    }
    let lhs = &node.children[0];
    let rhs = &node.children[n - 1];
    let target: Option<(String, bool)> = if kind_is(lhs, "attribute") {
        match self_attr_of(lhs) {
            Some(x) => {
                let pre = chars_of("self.");
                let v = crate::text::cat(pre.as_slice(), chars_of(x.as_str()).as_slice());
                Some((string_from(v.as_slice()), true))
            },
            None => None,
        }
    } else if kind_is(lhs, "identifier") {
        Some((lhs.text.clone(), false))
    } else {
        None
    };
    assert(target_view(target) == assign_target(node.children@[0]));
    let tp = call_type_of(rhs);
    assert(opt_str(tp) == call_type(node.children@.last()));
    match (target, tp) {
        (Some((var, true)), Some(t)) => {
            match in_class {
                Some(c) => {
                    let vc = chars_of(var.as_str());
                    let pre = chars_of("self.");
                    let field = string_from(strip_leading_of(vc.as_slice(), pre.as_slice()).as_slice());
                    apply_binding(ctx, true, c.to_string(), field, t);
                },
                None => {},
            }
        },
        (Some((var, false)), Some(t)) => {
            apply_binding(ctx, false, func_id.to_string(), var, t);
        },
        _ => {},
    }
}

} // verus!

verus! {

/// What an annotated assignment gives, read in order: the variable (from
/// `self.x`, a field, or from the first identifier) and its type (the first
/// `type`, or an identifier after the variable).
pub open spec fn annotated_state(cs: Seq<SyntaxNode>) -> (Option<Seq<char>>, bool, Option<Seq<char>>)
    decreases cs.len(),
{
    if cs.len() == 0 {
        (None, false, None)
    } else {
        let (v, s, t) = annotated_state(cs.drop_last());
        let c = cs.last();
        if c.kind@ == "attribute"@ && v is None {
            match self_attr(c) {
                Some(x) => (Some(x), true, t),
                None => (v, s, t),
            }
        } else if c.kind@ == "identifier"@ && v is None {
            (Some(c.text@), s, t)
        } else if c.kind@ == "type"@ && t is None {
            (v, s, Some(c.text@))
        } else if c.kind@ == "identifier"@ && v is Some && t is None {
            (v, s, Some(c.text@))
        } else {
            (v, s, t)
        }
    }
}

/// The binding of an annotated assignment: a `self.x` field of the enclosing
/// class (none outside a class) or a local of the function.
pub open spec fn annotated_bindings(cs: Seq<SyntaxNode>, func_id: Seq<char>, in_class: Option<Seq<char>>) -> Seq<Binding> {
    match annotated_state(cs) {
        (Some(v), true, Some(t)) => match in_class {
            Some(c) => seq![(true, c, v, t)],
            None => Seq::empty(),
        },
        (Some(v), false, Some(t)) => seq![(false, func_id, v, t)],
        _ => Seq::empty(),
    }
}

pub open spec fn opt3_view(s: (Option<String>, bool, Option<String>)) -> (Option<Seq<char>>, bool, Option<Seq<char>>) {
    (opt_str(s.0), s.1, opt_str(s.2))
}

/// Records the type an annotated assignment gives its variable (see
/// `annotated_bindings`).
pub fn parse_annotated_assignment(node: &SyntaxNode, func_id: &str, in_class: Option<&str>, ctx: &mut ParseContext)
    ensures
        bindings_applied(*old(ctx), *final(ctx), annotated_bindings(node.children@, func_id@, opt_ref_str(in_class))),
{
    let mut var_name: Option<String> = None;
    let mut is_self = false;
    let mut ty_text: Option<String> = None;
    let mut i: usize = 0;
    while i < node.children.len()
        invariant
            i <= node.children@.len(),
            opt3_view((var_name, is_self, ty_text)) == annotated_state(node.children@.subrange(0, i as int)),
        decreases node.children@.len() - i,
    {
        let c = &node.children[i];
        assert(node.children@.subrange(0, i + 1).drop_last() =~= node.children@.subrange(0, i as int));
        if kind_is(c, "attribute") && var_name.is_none() {
            match self_attr_of(c) {
                Some(x) => {
                    var_name = Some(x);
                    is_self = true;
                },
                None => {},
            }
        } else if kind_is(c, "identifier") && var_name.is_none() {
            var_name = Some(c.text.clone());
        } else if kind_is(c, "type") && ty_text.is_none() {
            ty_text = Some(c.text.clone());
        } else if kind_is(c, "identifier") && var_name.is_some() && ty_text.is_none() {
            ty_text = Some(c.text.clone());
        }
        i = i + 1;
    }
    assert(node.children@.subrange(0, node.children@.len() as int) =~= node.children@);
    proof { lemma_bindings_refl(*ctx); }
    match (var_name, ty_text) {
        (Some(v), Some(t)) => {
            if is_self {
                match in_class {
                    Some(c) => {
                        apply_binding(ctx, true, c.to_string(), v, t);
                    },
                    None => {},
                }
            } else {
                apply_binding(ctx, false, func_id.to_string(), v, t);
            }
        },
        _ => {},
    }
}

} // verus!

verus! {

use crate::text::{is_upper, char_is_uppercase};

/// A constant's name: every character uppercase or `_`, and more than one
/// byte long.
pub open spec fn is_constant_name(s: Seq<char>) -> bool {
    &&& forall|i: int| 0 <= i < s.len() ==> is_upper(#[trigger] s[i]) || s[i] == '_'
    &&& (vstd::utf8::encode_utf8(s).len() as usize) > 1
}

fn is_constant_name_of(s: &str) -> (r: bool)
    ensures
        r == is_constant_name(s@),
{
    let cs = chars_of(s);
    let mut i: usize = 0;
    while i < cs.len()
        invariant
            i <= cs@.len(),
            cs@ == s@,
            forall|j: int| 0 <= j < i ==> is_upper(#[trigger] cs@[j]) || cs@[j] == '_',
        decreases cs@.len() - i,
    {
        if !(char_is_uppercase(cs[i]) || cs[i] == '_') {
            return false;
        }
        i = i + 1;
    }
    s.len() > 1
}

/// The constant an assignment child of a module-level expression statement
/// defines: its first child is an identifier with a constant name.
pub open spec fn constant_defined(c: SyntaxNode) -> bool {
    &&& c.kind@ == "assignment"@
    &&& c.children@.len() > 0
    &&& c.children@[0].kind@ == "identifier"@
    &&& is_constant_name(c.children@[0].text@)
}

/// Reads a module-level expression statement: each assignment to a constant
/// name adds a constant node `module.NAME` with a containment edge from the
/// module.
pub fn parse_constant(node: &SyntaxNode, module_id: &str, rel_path: &str, graph: &mut CodeGraph, Ghost(prefix): Ghost<Seq<char>>)
    requires
        old(graph).wf(),
        starts_with(module_id@, prefix),
    ensures
        final(graph).wf(),
        grown(old(graph)@, final(graph)@, rel_path@, prefix),
        forall|k: int| 0 <= k < node.children@.len() && constant_defined(#[trigger] node.children@[k])
            ==> declared(old(graph)@, final(graph)@, module_id@ + "."@ + node.children@[k].children@[0].text@, NodeKind::Constant),
        links_within(old(graph)@, final(graph)@, link_targets(py_constant_links(*node, module_id@)), py_constant_links(*node, module_id@)),
{
    proof { lemma_grown_refl(graph@, rel_path@, prefix); }
    let ghost lc = py_constant_links(*node, module_id@);
    let mut i: usize = 0;
    while i < node.children.len()
        invariant
            i <= node.children@.len(),
            graph.wf(),
            starts_with(module_id@, prefix),
            grown(old(graph)@, graph@, rel_path@, prefix),
            forall|k: int| 0 <= k < i && constant_defined(#[trigger] node.children@[k])
                ==> declared(old(graph)@, graph@, module_id@ + "."@ + node.children@[k].children@[0].text@, NodeKind::Constant),
            forall|j: int| old(graph)@.nodes.len() <= j < graph@.nodes.len() ==> (#[trigger] graph@.nodes[j]).kind == NodeKind::Constant,
            lc == py_constant_links(*node, module_id@),
            links_within(old(graph)@, graph@, link_targets(lc), lc),
        decreases node.children@.len() - i,
    {
        let child = &node.children[i];
        if kind_is(child, "assignment") && child.children.len() > 0 && kind_is(&child.children[0], "identifier") {
            let name = child.children[0].text.clone();
            if is_constant_name_of(name.as_str()) {
                let line = line_of(node);
                proof { graph.lemma_valid(); }
                let ghost g0 = graph@;
                let id = add_declaration(graph, module_id, ".", name, NodeKind::Constant, rel_path, line, None, Ghost(prefix));
                proof {
                    assert(node.children@[i as int] == *child);
                    assert(constant_defined(node.children@[i as int]));
                    assert(lc.contains((module_id@, id@)));
                    lemma_links_single(g0, graph@, module_id@, id@);
                    lemma_links_then(old(graph)@, g0, graph@, lc, set![(module_id@, id@)], rel_path@, prefix, prefix);
                    assert(lc.union(set![(module_id@, id@)]) =~= lc);
                    lemma_grown_trans(old(graph)@, g0, graph@, rel_path@, prefix);
                    graph.lemma_valid();
                    assert forall|k: int| 0 <= k < i && constant_defined(#[trigger] node.children@[k])
                        implies declared(old(graph)@, graph@, module_id@ + "."@ + node.children@[k].children@[0].text@, NodeKind::Constant) by {
                        lemma_declared_grown(old(graph)@, g0, graph@, rel_path@, prefix, module_id@ + "."@ + node.children@[k].children@[0].text@, NodeKind::Constant);
                    }
                    assert forall|j: int| old(graph)@.nodes.len() <= j < graph@.nodes.len() implies (#[trigger] graph@.nodes[j]).kind == NodeKind::Constant by {
                        if j < g0.nodes.len() {
                            assert(graph@.nodes.subrange(0, g0.nodes.len() as int)[j] == graph@.nodes[j]);
                        }
                    }
                    if !old(graph)@.has_id(id@) && g0.has_id(id@) {
                        let j = g0.index_of(id@);
                        assert(0 <= j < g0.nodes.len() && g0.nodes[j].id@ == id@);
                        if j < old(graph)@.nodes.len() {
                            assert(g0.nodes.subrange(0, old(graph)@.nodes.len() as int)[j] == g0.nodes[j]);
                            assert(old(graph)@.nodes[j].id@ == id@);
                        }
                        assert(graph@.nodes.subrange(0, g0.nodes.len() as int)[j] == graph@.nodes[j]);
                        crate::model::lemma_index_of_unique(graph@, j);
                    }
                }
            }
        }
        i = i + 1;
    }
}

/// Whether a decorator list marks a property: `property`, or a name ending
/// in `.getter` or `.setter`.
pub open spec fn marks_property(ds: Seq<Seq<char>>) -> bool {
    exists|i: int| 0 <= i < ds.len() && (#[trigger] ds[i] == "property"@ || ends_with(ds[i], ".getter"@) || ends_with(ds[i], ".setter"@))
}

fn marks_property_of(ds: &Vec<String>) -> (r: bool)
    ensures
        r == marks_property(ds@.map_values(|s: String| s@)),
{
    let ghost v = ds@.map_values(|s: String| s@);
    let getter = chars_of(".getter");
    let setter = chars_of(".setter");
    let mut i: usize = 0;
    while i < ds.len()
        invariant
            i <= ds@.len(),
            v == ds@.map_values(|s: String| s@),
            getter@ == ".getter"@,
            setter@ == ".setter"@,
            forall|j: int| 0 <= j < i ==> !(#[trigger] v[j] == "property"@ || ends_with(v[j], ".getter"@) || ends_with(v[j], ".setter"@)),
        decreases ds@.len() - i,
    {
        let d = chars_of(ds[i].as_str());
        assert(v[i as int] == ds@[i as int]@);
        if str_eq(ds[i].as_str(), "property") || has_suffix(d.as_slice(), getter.as_slice()) || has_suffix(d.as_slice(), setter.as_slice()) {
            return true;
        }
        i = i + 1;
    }
    false
}

/// Whether a decorator list holds `dataclass`.
pub open spec fn marks_dataclass(ds: Seq<Seq<char>>) -> bool {
    ds.contains("dataclass"@)
}

fn marks_dataclass_of(ds: &Vec<String>) -> (r: bool)
    ensures
        r == marks_dataclass(ds@.map_values(|s: String| s@)),
{
    let ghost v = ds@.map_values(|s: String| s@);
    let mut i: usize = 0;
    while i < ds.len()
        invariant
            i <= ds@.len(),
            v == ds@.map_values(|s: String| s@),
            forall|j: int| 0 <= j < i ==> #[trigger] v[j] != "dataclass"@,
        decreases ds@.len() - i,
    {
        assert(v[i as int] == ds@[i as int]@);
        if str_eq(ds[i].as_str(), "dataclass") {
            return true;
        }
        i = i + 1;
    }
    false
}

/// The node a function is contained in: its class, else its enclosing
/// function, else its module.
pub open spec fn py_fn_parent(module_id: Seq<char>, parent_class: Option<Seq<char>>, parent_func: Option<Seq<char>>) -> Seq<char> {
    match parent_class {
        Some(c) => c,
        None => match parent_func {
            Some(f) => f,
            None => module_id,
        },
    }
}

/// The docstring of a definition: the first string of its last block, if any.
pub open spec fn py_block_doc(cs: Seq<SyntaxNode>) -> Option<Seq<char>> {
    let b = last_where(cs, of_kind("block"@));
    if b >= 0 { first_string_doc(cs[b].children@) } else { None }
}

/// The id of a function: under its class, else under its enclosing
/// function, else under its module, joined by `.`.
pub open spec fn py_fn_id(module_id: Seq<char>, parent_class: Option<Seq<char>>, parent_func: Option<Seq<char>>, name: Seq<char>) -> Seq<char> {
    match parent_class {
        Some(c) => c + "."@ + name,
        None => match parent_func {
            Some(f) => f + "."@ + name,
            None => module_id + "."@ + name,
        },
    }
}

/// The kind of a function node: a property when its decorators mark one, a
/// method inside a class, else a function.
pub open spec fn py_fn_kind(cs: Seq<SyntaxNode>, parent_class: Option<Seq<char>>) -> NodeKind {
    if marks_property(decorators(cs)) {
        NodeKind::Property
    } else if parent_class is Some {
        NodeKind::Method
    } else {
        NodeKind::Function
    }
}

/// What a Python walk may assume: a well-formed graph, and module, class and
/// function ids under the file's module id.
pub open spec fn py_walk_pre(graph: CodeGraph, ctx: ParseContext, module_id: Seq<char>, parent_class: Option<Seq<char>>, parent_func: Option<Seq<char>>) -> bool {
    &&& graph.wf()
    &&& starts_with(module_id, ctx.module_id@)
    &&& parent_class matches Some(c) ==> starts_with(c, ctx.module_id@)
    &&& parent_func matches Some(f) ==> starts_with(f, ctx.module_id@)
}

/// The declared return type a function records as a type use: the text of
/// its last `type` child without leading `->` and white space, unless empty
/// or `None`.
pub open spec fn return_use(cs: Seq<SyntaxNode>) -> Option<Seq<char>> {
    let i = last_where(cs, of_kind("type"@));
    if i < 0 {
        None
    } else {
        let t = trim_white(strip_leading(cs[i].text@, "->"@));
        if t.len() > 0 && t != "None"@ { Some(t) } else { None }
    }
}

/// A return annotation of `None` is no type use: whatever a definition's
/// children, the type use recorded for its return is never `None`, so the
/// uses a definition records first never pair its id with `None` for its
/// return.
pub proof fn lemma_none_return_is_no_use(cs: Seq<SyntaxNode>, func_id: Seq<char>)
    ensures
        return_use(cs) != Some("None"@),
        return_use(cs) is Some ==> leading_uses(cs, func_id)[0] == (func_id, return_use(cs)->0)
            && leading_uses(cs, func_id)[0].1 != "None"@,
{
}

fn return_use_of(node: &SyntaxNode) -> (r: Option<String>)
    ensures
        opt_str(r) == return_use(node.children@),
{
    match last_child_of_kind_exact(node, "type") {
        Some(i) => {
            let t = chars_of(node.children[i].text.as_str());
            let arrow = chars_of("->");
            let s = trim_of(strip_leading_of(t.as_slice(), arrow.as_slice()).as_slice());
            let st = string_from(s.as_slice());
            if s.len() > 0 && !str_eq(st.as_str(), "None") {
                Some(st)
            } else {
                None
            }
        },
        None => None,
    }
}

/// The type uses a function definition records before reading its body:
/// its return type, then its typed parameters (see `param_bindings`), each
/// as used by `func_id`.
pub open spec fn leading_uses(cs: Seq<SyntaxNode>, func_id: Seq<char>) -> Seq<(Seq<char>, Seq<char>)> {
    let p = last_where(cs, of_kind("parameters"@));
    (match return_use(cs) {
        Some(t) => seq![(func_id, t)],
        None => Seq::empty(),
    }) + if p >= 0 { binding_uses(param_bindings(cs[p].children@, func_id)) } else { Seq::empty() }
}

/// Reads a function definition: adds a node (named by its first non-empty
/// identifier, see `py_fn_id`) of kind property (by its decorators), method
/// (inside a class) or function, with its docstring and a containment edge
/// from its class, enclosing function or module; records its return type,
/// its typed parameters, and what its body holds (see `parse_function_body`).
pub fn parse_function(
    node: &SyntaxNode,
    module_id: &str,
    rel_path: &str,
    graph: &mut CodeGraph,
    ctx: &mut ParseContext,
    parent_class: Option<&str>,
    parent_func: Option<&str>,
)
    requires
        py_walk_pre(*old(graph), *old(ctx), module_id@, opt_ref_str(parent_class), opt_ref_str(parent_func)),
    ensures
        final(graph).wf(),
        links_within(old(graph)@, final(graph)@,
            link_targets(py_fn_links(*node, module_id@, opt_ref_str(parent_class), opt_ref_str(parent_func))),
            py_fn_links(*node, module_id@, opt_ref_str(parent_class), opt_ref_str(parent_func))),
        walked(old(graph)@, final(graph)@, *old(ctx), *final(ctx), rel_path@),
        final(ctx).pending_inherits@ == old(ctx).pending_inherits@,
        first_named(node.children@, "identifier"@).len() > 0 ==> declared(old(graph)@, final(graph)@,
            py_fn_id(module_id@, opt_ref_str(parent_class), opt_ref_str(parent_func), first_named(node.children@, "identifier"@)),
            py_fn_kind(node.children@, opt_ref_str(parent_class)),
        ),
        ({
            let lead = leading_uses(node.children@,
                py_fn_id(module_id@, opt_ref_str(parent_class), opt_ref_str(parent_func), first_named(node.children@, "identifier"@)));
            first_named(node.children@, "identifier"@).len() > 0 ==> {
                &&& old(ctx).pending_uses_type@.len() + lead.len() <= final(ctx).pending_uses_type@.len()
                &&& pairs_view(final(ctx).pending_uses_type@).subrange(0, (old(ctx).pending_uses_type@.len() + lead.len()) as int)
                    == pairs_view(old(ctx).pending_uses_type@) + lead
            }
        }),
        first_named(node.children@, "identifier"@).len() == 0 ==> *final(ctx) == *old(ctx) && final(graph)@ == old(graph)@,
        imports_kept(*old(ctx), *final(ctx)),
        first_named(node.children@, "identifier"@).len() > 0 ==> calls_view(final(ctx).pending_calls@)
            == calls_view(old(ctx).pending_calls@) + py_fn_calls(*node, module_id@, opt_ref_str(parent_class), opt_ref_str(parent_func)),
        ({
            let id = py_fn_id(module_id@, opt_ref_str(parent_class), opt_ref_str(parent_func), first_named(node.children@, "identifier"@));
            let parent = py_fn_parent(module_id@, opt_ref_str(parent_class), opt_ref_str(parent_func));
            first_named(node.children@, "identifier"@).len() > 0 ==> {
                &&& node_fields(old(graph)@, final(graph)@, id, first_named(node.children@, "identifier"@), rel_path@, line_at(*node), py_block_doc(node.children@))
                &&& old(graph)@.has_id(parent) ==> has_link(final(graph)@, parent, id, EdgeKind::Contains)
            }
        }),
        ({
            let b = last_where(node.children@, of_kind("block"@));
            let id = py_fn_id(module_id@, opt_ref_str(parent_class), opt_ref_str(parent_func), first_named(node.children@, "identifier"@));
            first_named(node.children@, "identifier"@).len() > 0 && b >= 0 ==>
                forall|k: int| 0 <= k < node.children@[b].children@.len()
                    && (#[trigger] nested_fn_id(node.children@[b].children@[k], module_id@, opt_ref_str(parent_class), id)) is Some
                    ==> final(graph)@.has_id(nested_fn_id(node.children@[b].children@[k], module_id@, opt_ref_str(parent_class), id)->0)
        }),
    decreases node, 1nat,
{
    let ghost prefix = ctx.module_id@;
    proof { lemma_walked_refl(graph@, *ctx, rel_path@); }
    let line = line_of(node);
    let decorators = get_decorators(node);
    let is_property = marks_property_of(&decorators);
    let name = first_named_text(node, "identifier");
    let ret = return_use_of(node);
    let params = last_child_of_kind_exact(node, "parameters");
    let body = last_child_of_kind_exact(node, "block");
    if name.as_str().is_empty() {
        proof { lemma_links_within_refl(graph@, Set::empty(), Set::empty()); }
        return;
    }
    let parent_id: &str = match parent_class {
        Some(c) => c,
        None => match parent_func {
            Some(f) => f,
            None => module_id,
        },
    };
    let kind = if is_property {
        NodeKind::Property
    } else if parent_class.is_some() {
        NodeKind::Method
    } else {
        NodeKind::Function
    };
    let docstring = match body {
        Some(b) => get_first_string_child(&node.children[b]),
        None => None,
    };
    assert(opt_str(docstring) == py_block_doc(node.children@));
    let func_id = add_declaration(graph, parent_id, ".", name, kind, rel_path, line, docstring, Ghost(prefix));
    let ghost g1 = graph@;
    proof {
        graph.lemma_valid();
        lemma_links_single(old(graph)@, g1, parent_id@, func_id@);
    }
    let ghost own = set![(parent_id@, func_id@)];
    let ghost c0 = *ctx;
    let ghost ret_uses: Seq<(Seq<char>, Seq<char>)> = match return_use(node.children@) {
        Some(t) => seq![(func_id@, t)],
        None => Seq::empty(),
    };
    match ret {
        Some(t) => {
            push_uses_type(ctx, func_id.clone(), t);
            assert(pairs_view(ctx.pending_uses_type@) =~= pairs_view(c0.pending_uses_type@) + ret_uses);
        },
        None => {
            proof { lemma_ctx_grown_refl(c0); }
            assert(pairs_view(ctx.pending_uses_type@) =~= pairs_view(c0.pending_uses_type@) + ret_uses);
        },
    }
    let ghost c1 = *ctx;
    match params {
        Some(p) => {
            parse_params(&node.children[p], func_id.as_str(), ctx);
            proof { lemma_bindings_grown(c1, *ctx, param_bindings(node.children@[p as int].children@, func_id@)); }
        },
        None => {
            proof { lemma_ctx_grown_refl(c1); }
        },
    }
    let ghost lead = leading_uses(node.children@, func_id@);
    assert(pairs_view(ctx.pending_uses_type@) =~= pairs_view(c0.pending_uses_type@) + lead);
    let ghost c3 = *ctx;
    proof {
        lemma_ctx_grown_trans(c0, c1, *ctx);
        lemma_grown_refl(g1, rel_path@, prefix);
    }
    match body {
        Some(b) => {
            let ghost c2 = *ctx;
            parse_function_body(&node.children[b], module_id, rel_path, graph, ctx, parent_class, func_id.as_str());
            proof {
                let bl = py_body_links(node.children@[b as int], node.children@[b as int].children@.len() as int, module_id@,
                    opt_ref_str(parent_class), func_id@);
                lemma_links_then(old(graph)@, g1, graph@, own, bl, rel_path@, prefix, prefix);
                assert(py_fn_links(*node, module_id@, opt_ref_str(parent_class), opt_ref_str(parent_func)) == own.union(bl));
                lemma_ctx_grown_trans(c0, c2, *ctx);
                graph.lemma_valid();
                lemma_declared_grown(old(graph)@, g1, graph@, rel_path@, prefix, func_id@, py_fn_kind(node.children@, opt_ref_str(parent_class)));
            }
        },
        None => {
            assert(py_fn_links(*node, module_id@, opt_ref_str(parent_class), opt_ref_str(parent_func)) == own);
        },
    }
    proof {
        lemma_grown_trans(old(graph)@, g1, graph@, rel_path@, prefix);
        graph.lemma_valid();
        lemma_node_fields_grown(old(graph)@, g1, graph@, rel_path@, prefix, func_id@, first_named(node.children@, "identifier"@),
            rel_path@, line_at(*node), py_block_doc(node.children@));
        if old(graph)@.has_id(parent_id@) {
            lemma_grown_keeps_link(g1, graph@, rel_path@, prefix, parent_id@, func_id@, EdgeKind::Contains);
        }
        assert(ctx_grown(c3, *ctx)) by {
            if body is None {
                lemma_ctx_grown_refl(c3);
            }
        }
        assert(pairs_view(ctx.pending_uses_type@).subrange(0, c3.pending_uses_type@.len() as int) == pairs_view(c3.pending_uses_type@));
    }
}

/// The id of the node a statement of a function body declares, if any: a
/// named nested function (see `py_fn_id`).
/// The containment links, as (parent id, child id), reading a function
/// definition adds when it is named: the function under its parent (see
/// `py_fn_parent`), and those of its body (see `py_body_links`).
pub open spec fn py_fn_links(c: SyntaxNode, module_id: Seq<char>, parent_class: Option<Seq<char>>, parent_func: Option<Seq<char>>) -> Set<(Seq<char>, Seq<char>)>
    decreases c, 1int, 0int,
{
    let name = first_named(c.children@, "identifier"@);
    let b = last_where(c.children@, of_kind("block"@));
    let id = py_fn_id(module_id, parent_class, parent_func, name);
    if name.len() == 0 {
        Set::empty()
    } else if 0 <= b < c.children@.len() {
        set![(py_fn_parent(module_id, parent_class, parent_func), id)].union(
            py_body_links(c.children@[b], c.children@[b].children@.len() as int, module_id, parent_class, id))
    } else {
        set![(py_fn_parent(module_id, parent_class, parent_func), id)]
    }
}

/// The links reading the first `n` statements of a function body adds:
/// those of nested function definitions, and of the statements inside `if`,
/// `for`, `while`, `try` and `with` statements.
pub open spec fn py_body_links(node: SyntaxNode, n: int, module_id: Seq<char>, parent_class: Option<Seq<char>>, func_id: Seq<char>) -> Set<(Seq<char>, Seq<char>)>
    decreases node, 0int, n,
{
    if n <= 0 || n > node.children@.len() {
        Set::empty()
    } else {
        let c = node.children@[n - 1];
        py_body_links(node, n - 1, module_id, parent_class, func_id).union(
            if c.kind@ == "function_definition"@ {
                py_fn_links(c, module_id, parent_class, Some(func_id))
            } else if py_compound(c) {
                py_body_links(c, c.children@.len() as int, module_id, parent_class, func_id)
            } else {
                Set::empty()
            })
    }
}

pub open spec fn nested_fn_id(c: SyntaxNode, module_id: Seq<char>, parent_class: Option<Seq<char>>, func_id: Seq<char>) -> Option<Seq<char>> {
    if c.kind@ == "function_definition"@ && first_named(c.children@, "identifier"@).len() > 0 {
        Some(py_fn_id(module_id, parent_class, Some(func_id), first_named(c.children@, "identifier"@)))
    } else {
        None
    }
}

/// The statements a function body reads before nested definitions are not
/// definitions.
proof fn lemma_body_kinds_distinct()
    ensures
        "expression_statement"@ != "function_definition"@,
        "assignment"@ != "function_definition"@,
        "annotated_assignment"@ != "function_definition"@,
{
    reveal_strlit("expression_statement");
    reveal_strlit("function_definition");
    reveal_strlit("assignment");
    reveal_strlit("annotated_assignment");
    assert("expression_statement"@[0] != "function_definition"@[0]);
    assert("assignment"@[0] != "function_definition"@[0]);
    assert("annotated_assignment"@[0] != "function_definition"@[0]);
}

/// The calls the direct `call` children of an expression statement record,
/// in order (see `py_call_calls`).
pub open spec fn py_expr_calls(cs: Seq<SyntaxNode>, caller: Seq<char>, in_class: Option<Seq<char>>) -> Seq<CallView>
    decreases cs.len(),
{
    if cs.len() == 0 {
        Seq::empty()
    } else {
        py_expr_calls(cs.drop_last(), caller, in_class) + (
            if cs.last().kind@ == "call"@ { py_call_calls(cs.last(), caller, in_class) } else { Seq::empty() })
    }
}

/// A statement whose body is read like a function body.
pub open spec fn py_compound(c: SyntaxNode) -> bool {
    c.kind@ == "if_statement"@ || c.kind@ == "for_statement"@ || c.kind@ == "while_statement"@
        || c.kind@ == "try_statement"@ || c.kind@ == "with_statement"@
}

/// The calls that reading a function definition records: those of its last
/// block, read as the body of the function's node (see `py_body_calls`),
/// when it is named.
pub open spec fn py_fn_calls(c: SyntaxNode, module_id: Seq<char>, parent_class: Option<Seq<char>>, parent_func: Option<Seq<char>>) -> Seq<CallView>
    decreases c, 1int, 0int,
{
    let name = first_named(c.children@, "identifier"@);
    let b = last_where(c.children@, of_kind("block"@));
    if name.len() > 0 && 0 <= b < c.children@.len() {
        py_body_calls(c.children@[b], c.children@[b].children@.len() as int, module_id, parent_class,
            py_fn_id(module_id, parent_class, parent_func, name))
    } else {
        Seq::empty()
    }
}

/// The calls that reading the first `n` statements of a function body
/// records, in order: those of expression statements, of nested functions
/// and of the bodies of compound statements.
pub open spec fn py_body_calls(node: SyntaxNode, n: int, module_id: Seq<char>, parent_class: Option<Seq<char>>, func_id: Seq<char>) -> Seq<CallView>
    decreases node, 0int, n,
{
    if n <= 0 || n > node.children@.len() {
        Seq::empty()
    } else {
        let c = node.children@[n - 1];
        py_body_calls(node, n - 1, module_id, parent_class, func_id) + (
            if c.kind@ == "expression_statement"@ {
                py_expr_calls(c.children@, func_id, parent_class)
            } else if c.kind@ == "function_definition"@ {
                py_fn_calls(c, module_id, parent_class, Some(func_id))
            } else if py_compound(c) {
                py_body_calls(c, c.children@.len() as int, module_id, parent_class, func_id)
            } else {
                Seq::empty()
            })
    }
}

proof fn lemma_compound_kinds_distinct()
    ensures
        "assignment"@ != "if_statement"@,
        "assignment"@ != "for_statement"@,
        "assignment"@ != "while_statement"@,
        "assignment"@ != "try_statement"@,
        "assignment"@ != "with_statement"@,
        "annotated_assignment"@ != "if_statement"@,
        "annotated_assignment"@ != "for_statement"@,
        "annotated_assignment"@ != "while_statement"@,
        "annotated_assignment"@ != "try_statement"@,
        "annotated_assignment"@ != "with_statement"@,
        "assignment"@ != "expression_statement"@,
        "annotated_assignment"@ != "expression_statement"@,
{
    reveal_strlit("assignment");
    reveal_strlit("annotated_assignment");
    reveal_strlit("if_statement");
    reveal_strlit("for_statement");
    reveal_strlit("while_statement");
    reveal_strlit("try_statement");
    reveal_strlit("with_statement");
    reveal_strlit("expression_statement");
    assert("assignment"@[0] != "if_statement"@[0]);
    assert("assignment"@[0] != "for_statement"@[0]);
    assert("assignment"@[0] != "while_statement"@[0]);
    assert("assignment"@[0] != "try_statement"@[0]);
    assert("assignment"@[0] != "with_statement"@[0]);
    assert("annotated_assignment"@[0] != "if_statement"@[0]);
    assert("annotated_assignment"@[0] != "for_statement"@[0]);
    assert("annotated_assignment"@[0] != "while_statement"@[0]);
    assert("annotated_assignment"@[0] != "try_statement"@[0]);
    assert("annotated_assignment"@[0] != "with_statement"@[0]);
    assert("assignment"@[0] != "expression_statement"@[0]);
    assert("annotated_assignment"@[0] != "expression_statement"@[0]);
}

/// Reads a function body: calls and assignments of expression statements,
/// assignments and annotated assignments (typed variables and fields),
/// nested functions, and the bodies of `if`, `for`, `while`, `try` and `with`
/// statements.
#[verifier::spinoff_prover]
pub fn parse_function_body(
    node: &SyntaxNode,
    module_id: &str,
    rel_path: &str,
    graph: &mut CodeGraph,
    ctx: &mut ParseContext,
    parent_class: Option<&str>,
    func_id: &str,
)
    requires
        py_walk_pre(*old(graph), *old(ctx), module_id@, opt_ref_str(parent_class), Some(func_id@)),
    ensures
        final(graph).wf(),
        links_within(old(graph)@, final(graph)@,
            link_targets(py_body_links(*node, node.children@.len() as int, module_id@, opt_ref_str(parent_class), func_id@)),
            py_body_links(*node, node.children@.len() as int, module_id@, opt_ref_str(parent_class), func_id@)),
        walked(old(graph)@, final(graph)@, *old(ctx), *final(ctx), rel_path@),
        final(ctx).pending_inherits@ == old(ctx).pending_inherits@,
        imports_kept(*old(ctx), *final(ctx)),
        calls_view(final(ctx).pending_calls@) == calls_view(old(ctx).pending_calls@)
            + py_body_calls(*node, node.children@.len() as int, module_id@, opt_ref_str(parent_class), func_id@),
        forall|k: int| 0 <= k < node.children@.len() && (#[trigger] nested_fn_id(node.children@[k], module_id@, opt_ref_str(parent_class), func_id@)) is Some
            ==> final(graph)@.has_id(nested_fn_id(node.children@[k], module_id@, opt_ref_str(parent_class), func_id@)->0),
    decreases node, 0nat,
{
    let ghost prefix = ctx.module_id@;
    let ghost pc = opt_ref_str(parent_class);
    proof { lemma_walked_refl(graph@, *ctx, rel_path@); }
    let mut i: usize = 0;
    while i < node.children.len()
        invariant
            i <= node.children@.len(),
            graph.wf(),
            pc == opt_ref_str(parent_class),
            ctx.module_id@ == prefix,
            old(ctx).module_id@ == prefix,
            py_walk_pre(*graph, *ctx, module_id@, opt_ref_str(parent_class), Some(func_id@)),
            walked(old(graph)@, graph@, *old(ctx), *ctx, rel_path@),
            ctx.pending_inherits@ == old(ctx).pending_inherits@,
            imports_kept(*old(ctx), *ctx),
            calls_view(ctx.pending_calls@) == calls_view(old(ctx).pending_calls@)
                + py_body_calls(*node, i as int, module_id@, pc, func_id@),
            forall|k: int| 0 <= k < i && (#[trigger] nested_fn_id(node.children@[k], module_id@, pc, func_id@)) is Some
                ==> graph@.has_id(nested_fn_id(node.children@[k], module_id@, pc, func_id@)->0),
            links_within(old(graph)@, graph@, link_targets(py_body_links(*node, i as int, module_id@, pc, func_id@)),
                py_body_links(*node, i as int, module_id@, pc, func_id@)),
        decreases node.children@.len() - i,
    {
        let child = &node.children[i];
        let ghost g0 = graph@;
        let ghost c0 = *ctx;
        let ghost item = nested_fn_id(*child, module_id@, pc, func_id@);
        proof {
            graph.lemma_valid();
            lemma_walked_refl(g0, c0, rel_path@);
            lemma_body_kinds_distinct();
            lemma_compound_kinds_distinct();
        }
        if kind_is(child, "expression_statement") {
            let mut j: usize = 0;
            while j < child.children.len()
                invariant
                    j <= child.children@.len(),
                    ctx_grown(c0, *ctx),
                    ctx.pending_inherits@ == c0.pending_inherits@,
                    imports_kept(c0, *ctx),
                    calls_view(ctx.pending_calls@) == calls_view(c0.pending_calls@)
                        + py_expr_calls(child.children@.subrange(0, j as int), func_id@, pc),
                    pc == opt_ref_str(parent_class),
                decreases child.children@.len() - j,
            {
                let c = &child.children[j];
                let ghost c1 = *ctx;
                proof {
                    assert(child.children@.subrange(0, j + 1).drop_last() =~= child.children@.subrange(0, j as int));
                    assert(child.children@.subrange(0, j + 1).last() == *c);
                }
                if kind_is(c, "call") {
                    parse_call(c, func_id, parent_class, ctx);
                    proof { lemma_only_calls_grown(c1, *ctx, py_call_calls(*c, func_id@, opt_ref_str(parent_class))); }
                } else if kind_is(c, "assignment") {
                    parse_assignment_in_func(c, func_id, parent_class, ctx);
                    proof { lemma_bindings_grown(c1, *ctx, assign_bindings(*c, func_id@, opt_ref_str(parent_class))); }
                } else {
                    proof { lemma_ctx_grown_refl(c1); }
                }
                proof {
                    lemma_ctx_grown_trans(c0, c1, *ctx);
                    assert(calls_view(ctx.pending_calls@) =~= calls_view(c0.pending_calls@)
                        + py_expr_calls(child.children@.subrange(0, j + 1), func_id@, pc));
                }
                j = j + 1;
            }
            assert(child.children@.subrange(0, child.children@.len() as int) =~= child.children@);
        } else if kind_is(child, "assignment") {
            parse_assignment_in_func(child, func_id, parent_class, ctx);
            proof { lemma_bindings_grown(c0, *ctx, assign_bindings(*child, func_id@, opt_ref_str(parent_class))); }
        } else if kind_is(child, "annotated_assignment") {
            parse_annotated_assignment(child, func_id, parent_class, ctx);
            proof { lemma_bindings_grown(c0, *ctx, annotated_bindings(child.children@, func_id@, opt_ref_str(parent_class))); }
        } else if kind_is(child, "function_definition") {
            parse_function(child, module_id, rel_path, graph, ctx, parent_class, Some(func_id));
        } else if kind_is(child, "if_statement") || kind_is(child, "for_statement") || kind_is(child, "while_statement")
            || kind_is(child, "try_statement") || kind_is(child, "with_statement") {
            parse_function_body(child, module_id, rel_path, graph, ctx, parent_class, func_id);
        }
        proof {
            assert(node.children@[i as int] == *child);
            assert(calls_view(ctx.pending_calls@) =~= calls_view(old(ctx).pending_calls@)
                + py_body_calls(*node, i + 1, module_id@, pc, func_id@));
            assert(links_within(old(graph)@, graph@, link_targets(py_body_links(*node, i + 1, module_id@, pc, func_id@)),
                py_body_links(*node, i + 1, module_id@, pc, func_id@))) by {
                let il = if child.kind@ == "function_definition"@ {
                    py_fn_links(*child, module_id@, pc, Some(func_id@))
                } else if py_compound(*child) {
                    py_body_links(*child, child.children@.len() as int, module_id@, pc, func_id@)
                } else {
                    Set::empty()
                };
                if graph@ == g0 {
                    lemma_links_within_refl(graph@, link_targets(il), il);
                }
                assert(links_within(g0, graph@, link_targets(il), il));
                lemma_links_then(old(graph)@, g0, graph@, py_body_links(*node, i as int, module_id@, pc, func_id@), il, rel_path@, prefix, prefix);
                assert(py_body_links(*node, i + 1, module_id@, pc, func_id@) == py_body_links(*node, i as int, module_id@, pc, func_id@).union(il));
            }
            lemma_walked_trans(old(graph)@, g0, graph@, *old(ctx), c0, *ctx, rel_path@);
            assert(item is Some ==> graph@.has_id(item->0));
            assert forall|k: int| 0 <= k < i + 1 && (#[trigger] nested_fn_id(node.children@[k], module_id@, pc, func_id@)) is Some
                implies graph@.has_id(nested_fn_id(node.children@[k], module_id@, pc, func_id@)->0) by {
                if k < i {
                    lemma_grown_keeps_id(g0, graph@, rel_path@, prefix, nested_fn_id(node.children@[k], module_id@, pc, func_id@)->0);
                }
            }
        }
        i = i + 1;
    }
}

} // verus!

verus! {

/// The id of the node a statement of a class body declares, if any: a named
/// method `class.name`.
pub open spec fn py_method_id(c: SyntaxNode, class_id: Seq<char>) -> Option<Seq<char>> {
    if c.kind@ == "function_definition"@ && first_named(c.children@, "identifier"@).len() > 0 {
        Some(class_id + "."@ + first_named(c.children@, "identifier"@))
    } else {
        None
    }
}

/// Reads a class definition: adds a class node `module.Name` (named by its
/// first non-empty identifier) with its docstring and a containment edge from
/// the module, records that it inherits from each base, and reads its body:
/// methods, and for a `@dataclass` its annotated fields.
pub fn parse_class(node: &SyntaxNode, module_id: &str, rel_path: &str, graph: &mut CodeGraph, ctx: &mut ParseContext)
    requires
        py_walk_pre(*old(graph), *old(ctx), module_id@, None, None),
    ensures
        final(graph).wf(),
        links_within(old(graph)@, final(graph)@, link_targets(py_class_links(*node, module_id@)), py_class_links(*node, module_id@)),
        walked(old(graph)@, final(graph)@, *old(ctx), *final(ctx), rel_path@),
        first_named(node.children@, "identifier"@).len() > 0
            ==> declared(old(graph)@, final(graph)@, module_id@ + "."@ + first_named(node.children@, "identifier"@), NodeKind::Class),
        pairs_view(final(ctx).pending_inherits@) == pairs_view(old(ctx).pending_inherits@) + (
            if first_named(node.children@, "identifier"@).len() > 0 {
                paired(module_id@ + "."@ + first_named(node.children@, "identifier"@),
                    inner_texts(node.children@, "argument_list"@, "identifier"@, "attribute"@))
            } else {
                Seq::empty()
            }),
        ({
            let b = last_where(node.children@, of_kind("block"@));
            let class_id = module_id@ + "."@ + first_named(node.children@, "identifier"@);
            first_named(node.children@, "identifier"@).len() > 0 && b >= 0 ==>
                forall|k: int| 0 <= k < node.children@[b].children@.len()
                    && (#[trigger] py_method_id(node.children@[b].children@[k], class_id)) is Some
                    ==> final(graph)@.has_id(py_method_id(node.children@[b].children@[k], class_id)->0)
        }),
        imports_kept(*old(ctx), *final(ctx)),
        ({
            let name = first_named(node.children@, "identifier"@);
            let class_id = module_id@ + "."@ + name;
            let b = last_where(node.children@, of_kind("block"@));
            name.len() > 0 ==> {
                &&& node_fields(old(graph)@, final(graph)@, class_id, name, rel_path@, line_at(*node), py_block_doc(node.children@))
                &&& old(graph)@.has_id(module_id@) ==> has_link(final(graph)@, module_id@, class_id, EdgeKind::Contains)
                &&& b >= 0 ==> forall|k: int| 0 <= k < node.children@[b].children@.len()
                    && (#[trigger] py_method_id(node.children@[b].children@[k], class_id)) is Some
                    ==> has_link(final(graph)@, class_id, py_method_id(node.children@[b].children@[k], class_id)->0, EdgeKind::Contains)
            }
        }),
{
    let ghost prefix = ctx.module_id@;
    proof { lemma_walked_refl(graph@, *ctx, rel_path@); }
    let line = line_of(node);
    let decorators = get_decorators(node);
    let is_dataclass = marks_dataclass_of(&decorators);
    let name = first_named_text(node, "identifier");
    let mut bases: Vec<String> = Vec::new();
    inner_texts_of(node, "argument_list", "identifier", "attribute", &mut bases);
    assert(texts_view(bases@) =~= inner_texts(node.children@, "argument_list"@, "identifier"@, "attribute"@));
    let body = last_child_of_kind_exact(node, "block");
    if name.as_str().is_empty() {
        assert(pairs_view(ctx.pending_inherits@) =~= pairs_view(old(ctx).pending_inherits@) + Seq::empty());
        proof { lemma_links_within_refl(graph@, Set::empty(), Set::empty()); }
        return;
    }
    let docstring = match body {
        Some(b) => get_first_string_child(&node.children[b]),
        None => None,
    };
    let ghost name_v = name@;
    assert(opt_str(docstring) == py_block_doc(node.children@));
    let class_id = add_declaration(graph, module_id, ".", name, NodeKind::Class, rel_path, line, docstring, Ghost(prefix));
    let ghost g1 = graph@;
    proof {
        graph.lemma_valid();
        lemma_links_single(old(graph)@, g1, module_id@, class_id@);
    }
    let ghost own = set![(module_id@, class_id@)];
    push_inherits(ctx, class_id.as_str(), &bases);
    proof { lemma_grown_refl(g1, rel_path@, prefix); }
    match body {
        Some(b) => {
            let blk = &node.children[b];
            let ghost c1 = *ctx;
            proof { lemma_walked_refl(g1, c1, rel_path@); }
            let mut i: usize = 0;
            while i < blk.children.len()
                invariant
                    i <= blk.children@.len(),
                    graph.wf(),
                    ctx.module_id@ == prefix,
                    c1.module_id@ == prefix,
                    starts_with(module_id@, prefix),
                    starts_with(class_id@, prefix),
                    walked(g1, graph@, c1, *ctx, rel_path@),
                    ctx.pending_inherits@ == c1.pending_inherits@,
                    imports_kept(c1, *ctx),
                    g1.has_id(class_id@),
                    forall|k: int| 0 <= k < i && (#[trigger] py_method_id(blk.children@[k], class_id@)) is Some
                        ==> graph@.has_id(py_method_id(blk.children@[k], class_id@)->0),
                    forall|k: int| 0 <= k < i && (#[trigger] py_method_id(blk.children@[k], class_id@)) is Some
                        ==> has_link(graph@, class_id@, py_method_id(blk.children@[k], class_id@)->0, EdgeKind::Contains),
                    links_within(g1, graph@, link_targets(py_methods_links(*blk, i as int, module_id@, class_id@)),
                        py_methods_links(*blk, i as int, module_id@, class_id@)),
                decreases blk.children@.len() - i,
            {
                let child = &blk.children[i];
                let ghost g2 = graph@;
                let ghost c2 = *ctx;
                let ghost il = if child.kind@ == "function_definition"@ {
                    py_fn_links(*child, module_id@, Some(class_id@), None)
                } else {
                    Set::empty()
                };
                proof {
                    lemma_walked_refl(g2, c2, rel_path@);
                    graph.lemma_valid();
                    lemma_grown_keeps_id(g1, g2, rel_path@, prefix, class_id@);
                }
                if kind_is(child, "function_definition") {
                    parse_function(child, module_id, rel_path, graph, ctx, Some(class_id.as_str()), None);
                } else if kind_is(child, "expression_statement") && is_dataclass {
                    parse_dataclass_field(child, class_id.as_str(), ctx);
                    proof { lemma_bindings_grown(c2, *ctx, text_field_bindings(child.text@, class_id@)); }
                } else if kind_is(child, "annotated_assignment") && is_dataclass {
                    parse_dataclass_annotated_field(child, class_id.as_str(), ctx);
                    proof { lemma_bindings_grown(c2, *ctx, annotated_field_bindings(child.children@, class_id@)); }
                }
                proof {
                    if graph@ == g2 {
                        lemma_links_within_refl(graph@, link_targets(il), il);
                    }
                    assert(links_within(g2, graph@, link_targets(il), il));
                    lemma_links_then(g1, g2, graph@, py_methods_links(*blk, i as int, module_id@, class_id@), il, rel_path@, prefix, prefix);
                    assert(blk.children@[i as int] == *child);
                    assert(py_methods_links(*blk, i + 1, module_id@, class_id@)
                        == py_methods_links(*blk, i as int, module_id@, class_id@).union(il));
                    lemma_walked_trans(g1, g2, graph@, c1, c2, *ctx, rel_path@);
                    assert forall|k: int| 0 <= k < i + 1 && (#[trigger] py_method_id(blk.children@[k], class_id@)) is Some
                        implies graph@.has_id(py_method_id(blk.children@[k], class_id@)->0) by {
                        if k < i {
                            lemma_grown_keeps_id(g2, graph@, rel_path@, prefix, py_method_id(blk.children@[k], class_id@)->0);
                        }
                    }
                    assert forall|k: int| 0 <= k < i + 1 && (#[trigger] py_method_id(blk.children@[k], class_id@)) is Some
                        implies has_link(graph@, class_id@, py_method_id(blk.children@[k], class_id@)->0, EdgeKind::Contains) by {
                        if k < i {
                            lemma_grown_keeps_link(g2, graph@, rel_path@, prefix, class_id@, py_method_id(blk.children@[k], class_id@)->0, EdgeKind::Contains);
                        }
                    }
                }
                i = i + 1;
            }
            proof {
                graph.lemma_valid();
                lemma_declared_grown(old(graph)@, g1, graph@, rel_path@, prefix, class_id@, NodeKind::Class);
                lemma_ctx_grown_trans(*old(ctx), c1, *ctx);
                let ml = py_methods_links(*blk, blk.children@.len() as int, module_id@, class_id@);
                lemma_links_then(old(graph)@, g1, graph@, own, ml, rel_path@, prefix, prefix);
                assert(py_class_links(*node, module_id@) == own.union(ml));
            }
        },
        None => {
            assert(py_class_links(*node, module_id@) == own);
        },
    }
    proof {
        lemma_grown_trans(old(graph)@, g1, graph@, rel_path@, prefix);
        graph.lemma_valid();
        lemma_node_fields_grown(old(graph)@, g1, graph@, rel_path@, prefix, class_id@, name_v, rel_path@, line_at(*node), py_block_doc(node.children@));
        if old(graph)@.has_id(module_id@) {
            lemma_grown_keeps_link(g1, graph@, rel_path@, prefix, module_id@, class_id@, EdgeKind::Contains);
        }
    }
}

/// The links reading a class definition adds when it is named: the class
/// under its module, and the methods of its body under the class.
pub open spec fn py_class_links(c: SyntaxNode, module_id: Seq<char>) -> Set<(Seq<char>, Seq<char>)> {
    let name = first_named(c.children@, "identifier"@);
    let b = last_where(c.children@, of_kind("block"@));
    if name.len() == 0 {
        Set::empty()
    } else if 0 <= b < c.children@.len() {
        set![(module_id, module_id + "."@ + name)].union(
            py_methods_links(c.children@[b], c.children@[b].children@.len() as int, module_id, module_id + "."@ + name))
    } else {
        set![(module_id, module_id + "."@ + name)]
    }
}

/// The links reading the methods among the first `n` statements of a class
/// body adds.
pub open spec fn py_methods_links(blk: SyntaxNode, n: int, module_id: Seq<char>, class_id: Seq<char>) -> Set<(Seq<char>, Seq<char>)>
    decreases n,
{
    if n <= 0 || n > blk.children@.len() {
        Set::empty()
    } else {
        py_methods_links(blk, n - 1, module_id, class_id).union(
            if blk.children@[n - 1].kind@ == "function_definition"@ {
                py_fn_links(blk.children@[n - 1], module_id, Some(class_id), None)
            } else {
                Set::empty()
            })
    }
}

/// The links the constant assignments of a module-level expression
/// statement add: each constant under its module.
pub open spec fn py_constant_links(c: SyntaxNode, module_id: Seq<char>) -> Set<(Seq<char>, Seq<char>)> {
    Set::new(|l: (Seq<char>, Seq<char>)| exists|k: int| 0 <= k < c.children@.len() && #[trigger] constant_defined(c.children@[k])
        && l == (module_id, module_id + "."@ + c.children@[k].children@[0].text@))
}

/// The links reading the first `n` statements of a module adds: those of
/// its classes, functions and constants.
pub open spec fn py_module_links(node: SyntaxNode, n: int, module_id: Seq<char>) -> Set<(Seq<char>, Seq<char>)>
    decreases n,
{
    if n <= 0 || n > node.children@.len() {
        Set::empty()
    } else {
        let c = node.children@[n - 1];
        py_module_links(node, n - 1, module_id).union(
            if c.kind@ == "class_definition"@ {
                py_class_links(c, module_id)
            } else if c.kind@ == "function_definition"@ {
                py_fn_links(c, module_id, None, None)
            } else if c.kind@ == "expression_statement"@ {
                py_constant_links(c, module_id)
            } else {
                Set::empty()
            })
    }
}

/// The id of the node a statement of a module declares, if any: a named
/// class or function.
pub open spec fn py_item_id(c: SyntaxNode, module_id: Seq<char>) -> Option<Seq<char>> {
    if (c.kind@ == "class_definition"@ || c.kind@ == "function_definition"@) && first_named(c.children@, "identifier"@).len() > 0 {
        Some(module_id + "."@ + first_named(c.children@, "identifier"@))
    } else {
        None
    }
}

/// The kinds of statements that declare nodes are distinct names.
proof fn lemma_item_kinds_distinct()
    ensures
        "class_definition"@ != "function_definition"@,
        "class_definition"@ != "expression_statement"@,
        "function_definition"@ != "expression_statement"@,
        "import_statement"@ != "class_definition"@,
        "import_statement"@ != "function_definition"@,
        "import_statement"@ != "expression_statement"@,
        "import_from_statement"@ != "class_definition"@,
        "import_from_statement"@ != "function_definition"@,
        "import_from_statement"@ != "expression_statement"@,
{
    reveal_strlit("class_definition");
    reveal_strlit("function_definition");
    reveal_strlit("expression_statement");
    reveal_strlit("import_statement");
    reveal_strlit("import_from_statement");
    assert("class_definition"@[0] != "function_definition"@[0]);
    assert("class_definition"@[0] != "expression_statement"@[0]);
    assert("function_definition"@[0] != "expression_statement"@[0]);
    assert("import_statement"@[0] != "class_definition"@[0]);
    assert("import_statement"@[0] != "function_definition"@[0]);
    assert("import_statement"@[0] != "expression_statement"@[0]);
    assert("import_from_statement"@[0] != "class_definition"@[0]);
    assert("import_from_statement"@[0] != "function_definition"@[0]);
    assert("import_from_statement"@[0] != "expression_statement"@[0]);
}

/// The imports a module's statements record on top of `imp`, in order: the
/// entries of each `import` statement and of each `from` import.
pub open spec fn py_module_imports(cs: Seq<SyntaxNode>, module_id: Seq<char>, imp: Seq<(Seq<char>, Seq<char>)>) -> Seq<(Seq<char>, Seq<char>)>
    decreases cs.len(),
{
    if cs.len() == 0 {
        imp
    } else {
        let prev = py_module_imports(cs.drop_last(), module_id, imp);
        let c = cs.last();
        if c.kind@ == "import_statement"@ {
            store_all(prev, py_import_stores(c.children@))
        } else if c.kind@ == "import_from_statement"@ {
            store_all(prev, from_entries(module_id, c.children@))
        } else {
            prev
        }
    }
}

/// The aliases a module's `import X as Y` statements record on top of `al`,
/// in order.
pub open spec fn py_module_aliases(cs: Seq<SyntaxNode>, al: Seq<(Seq<char>, Seq<char>)>) -> Seq<(Seq<char>, Seq<char>)>
    decreases cs.len(),
{
    if cs.len() == 0 {
        al
    } else {
        let prev = py_module_aliases(cs.drop_last(), al);
        let c = cs.last();
        if c.kind@ == "import_statement"@ {
            store_all(prev, py_alias_stores(c.children@))
        } else {
            prev
        }
    }
}

/// The base classes a module's class definitions record, in order: each
/// named class paired with the bases of its argument list.
pub open spec fn py_module_inherits(cs: Seq<SyntaxNode>, module_id: Seq<char>) -> Seq<(Seq<char>, Seq<char>)>
    decreases cs.len(),
{
    if cs.len() == 0 {
        Seq::empty()
    } else {
        let c = cs.last();
        py_module_inherits(cs.drop_last(), module_id) + (
            if c.kind@ == "class_definition"@ && first_named(c.children@, "identifier"@).len() > 0 {
                paired(module_id + "."@ + first_named(c.children@, "identifier"@),
                    inner_texts(c.children@, "argument_list"@, "identifier"@, "attribute"@))
            } else {
                Seq::empty()
            })
    }
}

/// Reads the statements of a module: imports, `from` imports, classes,
/// functions, and module-level constants.
pub fn process_module(node: &SyntaxNode, module_id: &str, rel_path: &str, graph: &mut CodeGraph, ctx: &mut ParseContext)
    requires
        py_walk_pre(*old(graph), *old(ctx), module_id@, None, None),
    ensures
        final(graph).wf(),
        links_within(old(graph)@, final(graph)@, link_targets(py_module_links(*node, node.children@.len() as int, module_id@)),
            py_module_links(*node, node.children@.len() as int, module_id@)),
        walked(old(graph)@, final(graph)@, *old(ctx), *final(ctx), rel_path@),
        final(ctx).imports@ == py_module_imports(node.children@, module_id@, old(ctx).imports@),
        final(ctx).alias_map@ == py_module_aliases(node.children@, old(ctx).alias_map@),
        pairs_view(final(ctx).pending_inherits@) == pairs_view(old(ctx).pending_inherits@) + py_module_inherits(node.children@, module_id@),
        forall|k: int| 0 <= k < node.children@.len() && (#[trigger] py_item_id(node.children@[k], module_id@)) is Some
            ==> final(graph)@.has_id(py_item_id(node.children@[k], module_id@)->0),
        old(graph)@.has_id(module_id@) ==> forall|k: int| 0 <= k < node.children@.len() && (#[trigger] py_item_id(node.children@[k], module_id@)) is Some
            ==> has_link(final(graph)@, module_id@, py_item_id(node.children@[k], module_id@)->0, EdgeKind::Contains),
        forall|k: int, l: int| 0 <= k < node.children@.len() && node.children@[k].kind@ == "expression_statement"@
            && 0 <= l < node.children@[k].children@.len() && constant_defined(#[trigger] node.children@[k].children@[l])
            ==> final(graph)@.has_id(module_id@ + "."@ + node.children@[k].children@[l].children@[0].text@),
{
    let ghost prefix = ctx.module_id@;
    proof { lemma_walked_refl(graph@, *ctx, rel_path@); }
    assert(node.children@.subrange(0, 0) =~= Seq::<SyntaxNode>::empty());
    let mut i: usize = 0;
    while i < node.children.len()
        invariant
            i <= node.children@.len(),
            graph.wf(),
            ctx.module_id@ == prefix,
            old(ctx).module_id@ == prefix,
            starts_with(module_id@, prefix),
            walked(old(graph)@, graph@, *old(ctx), *ctx, rel_path@),
            ctx.imports@ == py_module_imports(node.children@.subrange(0, i as int), module_id@, old(ctx).imports@),
            ctx.alias_map@ == py_module_aliases(node.children@.subrange(0, i as int), old(ctx).alias_map@),
            pairs_view(ctx.pending_inherits@) == pairs_view(old(ctx).pending_inherits@) + py_module_inherits(node.children@.subrange(0, i as int), module_id@),
            forall|k: int| 0 <= k < i && (#[trigger] py_item_id(node.children@[k], module_id@)) is Some
                ==> graph@.has_id(py_item_id(node.children@[k], module_id@)->0),
            old(graph)@.has_id(module_id@) ==> forall|k: int| 0 <= k < i && (#[trigger] py_item_id(node.children@[k], module_id@)) is Some
                ==> has_link(graph@, module_id@, py_item_id(node.children@[k], module_id@)->0, EdgeKind::Contains),
            forall|k: int, l: int| 0 <= k < i && node.children@[k].kind@ == "expression_statement"@
                && 0 <= l < node.children@[k].children@.len() && constant_defined(#[trigger] node.children@[k].children@[l])
                ==> graph@.has_id(module_id@ + "."@ + node.children@[k].children@[l].children@[0].text@),
            links_within(old(graph)@, graph@, link_targets(py_module_links(*node, i as int, module_id@)), py_module_links(*node, i as int, module_id@)),
        decreases node.children@.len() - i,
    {
        let child = &node.children[i];
        let ghost g0 = graph@;
        let ghost c0 = *ctx;
        let ghost item = py_item_id(*child, module_id@);
        let ghost il = if child.kind@ == "class_definition"@ {
            py_class_links(*child, module_id@)
        } else if child.kind@ == "function_definition"@ {
            py_fn_links(*child, module_id@, None, None)
        } else if child.kind@ == "expression_statement"@ {
            py_constant_links(*child, module_id@)
        } else {
            Set::empty()
        };
        proof {
            lemma_walked_refl(g0, c0, rel_path@);
            lemma_item_kinds_distinct();
            graph.lemma_valid();
            if old(graph)@.has_id(module_id@) {
                lemma_grown_keeps_id(old(graph)@, g0, rel_path@, prefix, module_id@);
            }
        }
        if kind_is(child, "import_statement") {
            parse_import(child, ctx);
            proof {
                assert(calls_view(ctx.pending_calls@) == calls_view(c0.pending_calls@));
                lemma_ctx_grown_refl(c0);
            }
        } else if kind_is(child, "import_from_statement") {
            parse_import_from(child, ctx, module_id);
            proof {
                assert(calls_view(ctx.pending_calls@) == calls_view(c0.pending_calls@));
                lemma_ctx_grown_refl(c0);
            }
        } else if kind_is(child, "class_definition") {
            parse_class(child, module_id, rel_path, graph, ctx);
        } else if kind_is(child, "function_definition") {
            parse_function(child, module_id, rel_path, graph, ctx, None, None);
        } else if kind_is(child, "expression_statement") {
            parse_constant(child, module_id, rel_path, graph, Ghost(prefix));
        }
        proof {
            if graph@ == g0 {
                lemma_links_within_refl(graph@, link_targets(il), il);
            }
            assert(links_within(g0, graph@, link_targets(il), il));
            lemma_links_then(old(graph)@, g0, graph@, py_module_links(*node, i as int, module_id@), il, rel_path@, prefix, prefix);
            assert(node.children@[i as int] == *child);
            assert(py_module_links(*node, i + 1, module_id@) == py_module_links(*node, i as int, module_id@).union(il));
            assert(node.children@.subrange(0, i + 1).drop_last() =~= node.children@.subrange(0, i as int));
            assert(node.children@.subrange(0, i + 1).last() == *child);
            assert(pairs_view(ctx.pending_inherits@) =~= pairs_view(old(ctx).pending_inherits@) + py_module_inherits(node.children@.subrange(0, i + 1), module_id@));
            lemma_walked_trans(old(graph)@, g0, graph@, *old(ctx), c0, *ctx, rel_path@);
            assert(item is Some ==> graph@.has_id(item->0));
            if old(graph)@.has_id(module_id@) {
                assert(item is Some ==> has_link(graph@, module_id@, item->0, EdgeKind::Contains));
                assert forall|k: int| 0 <= k < i + 1 && (#[trigger] py_item_id(node.children@[k], module_id@)) is Some
                    implies has_link(graph@, module_id@, py_item_id(node.children@[k], module_id@)->0, EdgeKind::Contains) by {
                    if k < i {
                        lemma_grown_keeps_link(g0, graph@, rel_path@, prefix, module_id@, py_item_id(node.children@[k], module_id@)->0, EdgeKind::Contains);
                    }
                }
            }
            assert forall|k: int| 0 <= k < i + 1 && (#[trigger] py_item_id(node.children@[k], module_id@)) is Some
                implies graph@.has_id(py_item_id(node.children@[k], module_id@)->0) by {
                if k < i {
                    lemma_grown_keeps_id(g0, graph@, rel_path@, prefix, py_item_id(node.children@[k], module_id@)->0);
                }
            }
            assert forall|k: int, l: int| 0 <= k < i + 1 && node.children@[k].kind@ == "expression_statement"@
                && 0 <= l < node.children@[k].children@.len() && constant_defined(#[trigger] node.children@[k].children@[l])
                implies graph@.has_id(module_id@ + "."@ + node.children@[k].children@[l].children@[0].text@) by {
                if k < i {
                    lemma_grown_keeps_id(g0, graph@, rel_path@, prefix, module_id@ + "."@ + node.children@[k].children@[l].children@[0].text@);
                }
            }
        }
        i = i + 1;
    }
    assert(node.children@.subrange(0, node.children@.len() as int) =~= node.children@);
}

/// What a Python module's tree `t` at the path `rel` makes of the graph
/// `a`, giving the graph `b` and the context `ctx`.
pub open spec fn py_read(t: SyntaxNode, rel: Seq<char>, a: GraphModel, b: GraphModel, ctx: ParseContext) -> bool {
    &&& ctx.module_id@ == py_module_id(rel)
    &&& ctx.file@ == rel
    &&& ctx.imports@ == py_module_imports(t.children@, py_module_id(rel), Seq::empty())
    &&& ctx.alias_map@ == py_module_aliases(t.children@, Seq::empty())
    &&& pairs_view(ctx.pending_inherits@) == py_module_inherits(t.children@, py_module_id(rel))
    &&& declared(a, b, py_module_id(rel), NodeKind::Module)
    &&& grown(a, b, rel, py_module_id(rel))
    &&& forall|k: int| 0 <= k < t.children@.len() && (#[trigger] py_item_id(t.children@[k], py_module_id(rel))) is Some
            ==> b.has_id(py_item_id(t.children@[k], py_module_id(rel))->0)
    &&& forall|k: int| 0 <= k < t.children@.len() && (#[trigger] py_item_id(t.children@[k], py_module_id(rel))) is Some
            ==> has_link(b, py_module_id(rel), py_item_id(t.children@[k], py_module_id(rel))->0, EdgeKind::Contains)
    &&& !a.has_id(py_module_id(rel)) ==> ({
            let n = b.nodes[a.nodes.len() as int];
            &&& n.id@ == py_module_id(rel)
            &&& n.kind == NodeKind::Module
            &&& n.file@ == rel
            &&& n.line == 1
            &&& !n.is_external
        })
    &&& links_within(a, b, link_targets(py_module_links(t, t.children@.len() as int, py_module_id(rel))).insert(py_module_id(rel)),
            py_module_links(t, t.children@.len() as int, py_module_id(rel)))
}

/// Reads a Python syntax tree: adds the module node (named by the last `.`
/// component of the module id, with the module docstring) and everything
/// `process_module` finds, and returns the context for the resolution pass.
pub fn parse_tree(root: &SyntaxNode, rel_path: &str, graph: &mut CodeGraph) -> (ctx: ParseContext)
    requires
        old(graph).wf(),
    ensures
        final(graph).wf(),
        py_read(*root, rel_path@, old(graph)@, final(graph)@, ctx),
{
    let module_id = path_to_module_id(rel_path);
    let cs = chars_of(module_id.as_str());
    let dot = chars_of(".");
    let name = string_from(last_piece_of(cs.as_slice(), dot.as_slice()).as_slice());
    let doc = extract_module_docstring(root);
    proof { lemma_starts_with_refl(module_id@); }
    add_file_node(graph, module_id.clone(), name, NodeKind::Module, rel_path.to_string(), 1, doc, Ghost(module_id@));
    let ghost g1 = graph@;
    proof {
        graph.lemma_valid();
        assert(links_within(old(graph)@, g1, set![module_id@], Set::empty()));
    }
    let mut ctx = new_context(module_id.clone(), rel_path.to_string());
    assert(ctx.imports@ =~= Seq::empty());
    assert(ctx.alias_map@ =~= Seq::empty());
    let ghost c0 = ctx;
    process_module(root, module_id.as_str(), rel_path, graph, &mut ctx);
    assert(pairs_view(c0.pending_inherits@) =~= Seq::empty());
    assert(pairs_view(ctx.pending_inherits@) =~= py_module_inherits(root.children@, module_id@));
    proof {
        lemma_grown_trans(old(graph)@, g1, graph@, rel_path@, module_id@);
        graph.lemma_valid();
        lemma_declared_grown(old(graph)@, g1, graph@, rel_path@, module_id@, module_id@, NodeKind::Module);
        if !old(graph)@.has_id(module_id@) {
            assert(graph@.nodes.subrange(0, g1.nodes.len() as int)[old(graph)@.nodes.len() as int] == graph@.nodes[old(graph)@.nodes.len() as int]);
        }
        let l = py_module_links(*root, root.children@.len() as int, module_id@);
        lemma_links_within_trans(old(graph)@, g1, graph@, set![module_id@], Set::empty(), link_targets(l), l);
        assert(set![module_id@].union(link_targets(l)) =~= link_targets(l).insert(module_id@));
        assert(Set::<(Seq<char>, Seq<char>)>::empty().union(l) =~= l);
    }
    ctx
}

/// What the tree that tree-sitter's grammar of `lang` gives for `source`
/// makes of the graph `a` at the path `rel`: a tree that the listing of the
/// source describes (see `syntax::describes`; there is at most one, see
/// `syntax::lemma_describes_unique`) reads as `b` and `ctx`.
pub open spec fn py_parsed(source: Seq<char>, lang: Language, rel: Seq<char>, a: GraphModel, b: GraphModel, ctx: ParseContext) -> bool {
    exists|t: SyntaxNode| describes(t, ts_preorder(source, lang)) && #[trigger] py_read(t, rel, a, b, ctx)
}

/// Parses a Python source file and reads it (see `parse_tree`); fails when
/// the parser yields no tree.
pub fn parse_file(source: &str, rel_path: &str, graph: &mut CodeGraph) -> (r: Result<ParseContext, ParseError>)
    requires
        old(graph).wf(),
    ensures
        final(graph).wf(),
        r is Ok ==> declared(old(graph)@, final(graph)@, py_module_id(rel_path@), NodeKind::Module),
        r matches Ok(ctx) ==> ctx.module_id@ == py_module_id(rel_path@) && ctx.file@ == rel_path@,
        r is Ok && !old(graph)@.has_id(py_module_id(rel_path@)) ==> ({
            let n = final(graph)@.nodes[old(graph)@.nodes.len() as int];
            &&& n.id@ == py_module_id(rel_path@)
            &&& n.kind == NodeKind::Module
            &&& n.file@ == rel_path@
            &&& n.line == 1
            &&& !n.is_external
        }),
        r is Err <==> !grammar_accepted(Language::Python),
        r matches Err(e) ==> e == ParseError::LanguageError(Language::Python),
        r is Err ==> final(graph)@ == old(graph)@,
        r matches Ok(ctx) ==> py_parsed(source@, Language::Python, rel_path@, old(graph)@, final(graph)@, ctx),
        grown(old(graph)@, final(graph)@, rel_path@, py_module_id(rel_path@)),
{
    match parse_source(source, Language::Python) {
        Ok(root) => {
            let ctx = parse_tree(&root, rel_path, graph);
            assert(py_parsed(source@, Language::Python, rel_path@, old(graph)@, graph@, ctx)) by {
                assert(describes(root, ts_preorder(source@, Language::Python)));
                assert(py_read(root, rel_path@, old(graph)@, graph@, ctx));
            }
            Ok(ctx)
        },
        Err(e) => {
            proof { lemma_grown_refl(graph@, rel_path@, py_module_id(rel_path@)); }
            Err(e)
        },
    }
}

} // verus!
