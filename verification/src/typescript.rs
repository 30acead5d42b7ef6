//! The TypeScript and JavaScript front-end: classes, interfaces, type
//! aliases, enums, functions (declared or bound to a constant), methods,
//! imports and call sites.
use vstd::prelude::*;

use crate::context::{calls_view, opt_ref_str, CallView, ParseContext, Language, lemma_store_all_push, store_all, ctx_grown, lemma_ctx_grown_refl, lemma_ctx_grown_trans};
use crate::front::{
    links_within, link_targets, lemma_links_within_refl, lemma_links_single, lemma_links_then, lemma_links_within_trans,
    add_contains, add_file_node, child_id, grown, kind_is, last_child_of_kind, lemma_grown_refl, lemma_grown_trans,
    lemma_only_calls_grown, lemma_only_calls_refl, lemma_only_calls_trans, lemma_starts_with_refl, lemma_walked_refl,
    lemma_walked_trans, line_of, new_context, only_calls_added, record_call, walked,
};
use crate::model::{CodeGraph, GraphModel, NodeKind};
use crate::rust_lang::{first_where, last_where, lemma_first_where_bounds, lemma_first_where_next, lemma_first_where_prefix, lemma_first_where_step, lemma_last_where_step, of_kind};
use crate::syntax::{describes, grammar_accepted, parse_source, ts_preorder, ParseError, SyntaxNode};
use crate::text::{
    lemma_ends_with_concat, lemma_strip_trailing_absent, lemma_strip_trailing_concat, ends_with,
    chars_of, has_prefix, join, join_of, last_piece, last_piece_of, pieces, pieces_of, replace_all, replace_of, starts_with,
    str_eq, string_from, strip_leading, strip_leading_of, strip_trailing, strip_trailing_of,
};

verus! {

/// Whether a file is TypeScript or plain JavaScript.
#[derive(Debug, Clone, Copy, PartialEq, Eq, Structural)]
pub enum JsVariant {
    TypeScript,
    JavaScript,
}

/// The module id of a TypeScript or JavaScript file: the path without its
/// `.tsx`, `.ts`, `.jsx` or `.js` ending, with `/` for `\`, without leading
/// `/`.
pub open spec fn ts_module_id(rel: Seq<char>) -> Seq<char> {
    let a = strip_trailing(strip_trailing(strip_trailing(strip_trailing(rel, ".tsx"@), ".ts"@), ".jsx"@), ".js"@);
    strip_leading(replace_all(a, "\\"@, "/"@), "/"@)
}

/// The module id carries no source extension: a path with none of the
/// extensions `.tsx`, `.ts`, `.jsx`, `.js` gets the same module id with any
/// one of them added (so `src/App.tsx` and `src/App.ts` are both `src/App`).
pub proof fn lemma_module_id_drops_extension(p: Seq<char>)
    requires
        !ends_with(p, ".tsx"@),
        !ends_with(p, ".ts"@),
        !ends_with(p, ".jsx"@),
        !ends_with(p, ".js"@),
    ensures
        ts_module_id(p + ".tsx"@) == ts_module_id(p),
        ts_module_id(p + ".ts"@) == ts_module_id(p),
        ts_module_id(p + ".jsx"@) == ts_module_id(p),
        ts_module_id(p + ".js"@) == ts_module_id(p),
{
    reveal_strlit(".tsx");
    reveal_strlit(".ts");
    reveal_strlit(".jsx");
    reveal_strlit(".js");
    lemma_strip_trailing_absent(p, ".tsx"@);
    lemma_strip_trailing_absent(p, ".ts"@);
    lemma_strip_trailing_absent(p, ".jsx"@);
    lemma_strip_trailing_absent(p, ".js"@);
    // `p.tsx`: the `.tsx` goes; then nothing else.
    lemma_strip_trailing_concat(p, ".tsx"@);
    // `p.ts`: not `.tsx` (last character), then the `.ts` goes.
    assert(!ends_with(p + ".ts"@, ".tsx"@)) by {
        let q = p + ".ts"@;
        if ends_with(q, ".tsx"@) {
            assert(q.subrange(q.len() - 4, q.len() as int)[3] == q[q.len() - 1]);
        }
    }
    lemma_strip_trailing_absent(p + ".ts"@, ".tsx"@);
    lemma_strip_trailing_concat(p, ".ts"@);
    // `p.jsx`: not `.tsx` nor `.ts`, then the `.jsx` goes.
    lemma_ends_with_concat(p, ".jsx"@, ".tsx"@);
    assert(".jsx"@[1] != ".tsx"@[1]);
    lemma_strip_trailing_absent(p + ".jsx"@, ".tsx"@);
    lemma_ends_with_concat(p, ".jsx"@, ".ts"@);
    assert(".jsx"@.subrange(1, 4)[2] != ".ts"@[2]);
    lemma_strip_trailing_absent(p + ".jsx"@, ".ts"@);
    lemma_strip_trailing_concat(p, ".jsx"@);
    // `p.js`: not `.tsx`, `.ts` nor `.jsx`, then the `.js` goes.
    assert(!ends_with(p + ".js"@, ".tsx"@)) by {
        let q = p + ".js"@;
        if ends_with(q, ".tsx"@) {
            assert(q.subrange(q.len() - 4, q.len() as int)[3] == q[q.len() - 1]);
        }
    }
    lemma_strip_trailing_absent(p + ".js"@, ".tsx"@);
    lemma_ends_with_concat(p, ".js"@, ".ts"@);
    assert(".js"@[1] != ".ts"@[1]);
    lemma_strip_trailing_absent(p + ".js"@, ".ts"@);
    assert(!ends_with(p + ".js"@, ".jsx"@)) by {
        let q = p + ".js"@;
        if ends_with(q, ".jsx"@) {
            assert(q.subrange(q.len() - 4, q.len() as int)[3] == q[q.len() - 1]);
        }
    }
    lemma_strip_trailing_absent(p + ".js"@, ".jsx"@);
    lemma_strip_trailing_concat(p, ".js"@);
}

/// The module id of a TypeScript or JavaScript file (see `ts_module_id`).
pub fn path_to_module_id(rel_path: &str) -> (r: String)
    ensures
        r@ == ts_module_id(rel_path@),
{
    let rel = chars_of(rel_path);
    let tsx = chars_of(".tsx");
    let ts = chars_of(".ts");
    let jsx = chars_of(".jsx");
    let js = chars_of(".js");
    let backslash = chars_of("\\");
    let slash = chars_of("/");
    let a1 = strip_trailing_of(rel.as_slice(), tsx.as_slice());
    let a2 = strip_trailing_of(a1.as_slice(), ts.as_slice());
    let a3 = strip_trailing_of(a2.as_slice(), jsx.as_slice());
    let a = strip_trailing_of(a3.as_slice(), js.as_slice());
    let b = replace_of(a.as_slice(), backslash.as_slice(), slash.as_slice());
    let c = strip_leading_of(b.as_slice(), slash.as_slice());
    string_from(c.as_slice())
}

/// The text of the first child of kind `k1` or `k2` whose text is not empty,
/// or the empty text.
pub open spec fn first_named2(cs: Seq<SyntaxNode>, k1: Seq<char>, k2: Seq<char>) -> Seq<char>
    decreases cs.len(),
{
    if cs.len() == 0 {
        Seq::empty()
    } else if first_named2(cs.drop_last(), k1, k2).len() > 0 {
        first_named2(cs.drop_last(), k1, k2)
    } else if cs.last().kind@ == k1 || cs.last().kind@ == k2 {
        cs.last().text@
    } else {
        Seq::empty()
    }
}

/// The text of the first child of kind `k1` or `k2` with a non-empty text
/// (see `first_named2`).
pub fn first_named2_text(node: &SyntaxNode, k1: &str, k2: &str) -> (r: String)
    ensures
        r@ == first_named2(node.children@, k1@, k2@),
{
    let mut name = String::new();
    let mut i: usize = 0;
    while i < node.children.len()
        invariant
            i <= node.children@.len(),
            name@ == first_named2(node.children@.subrange(0, i as int), k1@, k2@),
        decreases node.children@.len() - i,
    {
        let child = &node.children[i];
        assert(node.children@.subrange(0, i + 1).drop_last() =~= node.children@.subrange(0, i as int));
        if (kind_is(child, k1) || kind_is(child, k2)) && name.as_str().is_empty() {
            name = child.text.clone();
        }
        i = i + 1;
    }
    assert(node.children@.subrange(0, node.children@.len() as int) =~= node.children@);
    name
}

} // verus!

verus! {

pub open spec fn is_ts_callee(c: SyntaxNode) -> bool {
    c.kind@ == "identifier"@ || c.kind@ == "member_expression"@
}

pub open spec fn ts_callee_nodes() -> spec_fn(SyntaxNode) -> bool {
    |c: SyntaxNode| is_ts_callee(c)
}

/// The property named by a member expression: the text of its last
/// property identifier, or the empty text.
pub open spec fn member_prop(cs: Seq<SyntaxNode>) -> Seq<char> {
    let i = last_where(cs, of_kind("property_identifier"@));
    if i < 0 { Seq::empty() } else { cs[i].text@ }
}

/// The call a call expression records: its first identifier or member
/// expression child names the callee. A non-empty identifier is called
/// directly; a member expression calls its last property (when non-empty) on
/// its first non-empty identifier, the receiver.
pub open spec fn ts_plain_calls(n: SyntaxNode, caller: Seq<char>, in_class: Option<Seq<char>>) -> Seq<CallView> {
    let i = first_where(n.children@, ts_callee_nodes());
    if i < 0 {
        Seq::empty()
    } else {
        let c = n.children@[i];
        if c.kind@ == "identifier"@ {
            if c.text@.len() > 0 { seq![(caller, c.text@, None, in_class)] } else { Seq::empty() }
        } else {
            let prop = member_prop(c.children@);
            let obj = crate::rust_lang::first_named(c.children@, "identifier"@);
            if prop.len() > 0 {
                seq![(caller, prop, if obj.len() == 0 { None } else { Some(obj) }, in_class)]
            } else {
                Seq::empty()
            }
        }
    }
}

/// The calls of the call expressions among the children of an `await`.
pub open spec fn awaited_calls(cs: Seq<SyntaxNode>, caller: Seq<char>, in_class: Option<Seq<char>>) -> Seq<CallView>
    decreases cs.len(),
{
    if cs.len() == 0 {
        Seq::empty()
    } else {
        awaited_calls(cs.drop_last(), caller, in_class) + if cs.last().kind@ == "call_expression"@ {
            ts_plain_calls(cs.last(), caller, in_class)
        } else {
            Seq::empty()
        }
    }
}

/// The calls a call or `await` expression records.
pub open spec fn ts_call_calls(n: SyntaxNode, caller: Seq<char>, in_class: Option<Seq<char>>) -> Seq<CallView> {
    if n.kind@ == "await_expression"@ {
        awaited_calls(n.children@, caller, in_class)
    } else {
        ts_plain_calls(n, caller, in_class)
    }
}

/// Records the call of a call expression (see `ts_plain_calls`).
fn collect_plain_call(node: &SyntaxNode, caller_id: &str, in_class: Option<&str>, ctx: &mut ParseContext)
    ensures
        only_calls_added(*old(ctx), *final(ctx), ts_plain_calls(*node, caller_id@, opt_ref_str(in_class))),
{
    let mut i: usize = 0;
    while i < node.children.len()
        invariant
            i <= node.children@.len(),
            first_where(node.children@.subrange(0, i as int), ts_callee_nodes()) == -1,
            *ctx == *old(ctx),
        decreases node.children@.len() - i,
    {
        let child = &node.children[i];
        proof {
            lemma_first_where_step(node.children@, ts_callee_nodes(), i as int);
            assert(ts_callee_nodes()(node.children@[i as int]) == is_ts_callee(node.children@[i as int]));
        }
        if kind_is(child, "identifier") {
            proof { lemma_first_where_prefix(node.children@, ts_callee_nodes(), i as int); }
            if !child.text.as_str().is_empty() {
                record_call(ctx, caller_id, child.text.clone(), None, in_class);
            } else {
                proof { lemma_only_calls_refl(*ctx); }
            }
            return;
        } else if kind_is(child, "member_expression") {
            proof { lemma_first_where_prefix(node.children@, ts_callee_nodes(), i as int); }
            let obj = crate::rust_lang::first_named_text(child, "identifier");
            let prop_at = last_child_of_kind_exact(child, "property_identifier");
            match prop_at {
                Some(p) => {
                    let prop = child.children[p].text.clone();
                    if !prop.as_str().is_empty() {
                        let object = if obj.as_str().is_empty() { None } else { Some(obj) };
                        record_call(ctx, caller_id, prop, object, in_class);
                    } else {
                        proof { lemma_only_calls_refl(*ctx); }
                    }
                },
                None => {
                    proof { lemma_only_calls_refl(*ctx); }
                },
            }
            return;
        }
        i = i + 1;
    }
    proof {
        assert(node.children@.subrange(0, node.children@.len() as int) =~= node.children@);
        lemma_only_calls_refl(*ctx);
    }
}

/// The index of the last child of kind `k` (see `last_where`).
pub fn last_child_of_kind_exact(node: &SyntaxNode, k: &str) -> (r: Option<usize>)
    ensures
        r is None ==> last_where(node.children@, of_kind(k@)) < 0,
        r matches Some(i) ==> i as int == last_where(node.children@, of_kind(k@)) && i < node.children@.len(),
{
    let mut found: Option<usize> = None;
    let mut i: usize = 0;
    while i < node.children.len()
        invariant
            i <= node.children@.len(),
            found is None ==> last_where(node.children@.subrange(0, i as int), of_kind(k@)) < 0,
            found matches Some(j) ==> j as int == last_where(node.children@.subrange(0, i as int), of_kind(k@)) && j < i,
        decreases node.children@.len() - i,
    {
        proof {
            lemma_last_where_step(node.children@, of_kind(k@), i as int);
            assert(of_kind(k@)(node.children@[i as int]) == (node.children@[i as int].kind@ == k@));
        }
        if kind_is(&node.children[i], k) {
            found = Some(i);
        }
        i = i + 1;
    }
    assert(node.children@.subrange(0, node.children@.len() as int) =~= node.children@);
    found
}

/// Records the calls of a call or `await` expression (see `ts_call_calls`).
pub fn collect_calls(node: &SyntaxNode, caller_id: &str, in_class: Option<&str>, ctx: &mut ParseContext)
    ensures
        only_calls_added(*old(ctx), *final(ctx), ts_call_calls(*node, caller_id@, opt_ref_str(in_class))),
{
    if kind_is(node, "await_expression") {
        let mut i: usize = 0;
        proof { lemma_only_calls_refl(*ctx); }
        while i < node.children.len()
            invariant
                i <= node.children@.len(),
                only_calls_added(*old(ctx), *ctx, awaited_calls(node.children@.subrange(0, i as int), caller_id@, opt_ref_str(in_class))),
            decreases node.children@.len() - i,
        {
            let child = &node.children[i];
            let ghost before = *ctx;
            let ghost cs = node.children@.subrange(0, i + 1);
            assert(cs.drop_last() =~= node.children@.subrange(0, i as int));
            assert(cs.last() == node.children@[i as int]);
            if kind_is(child, "call_expression") {
                collect_plain_call(child, caller_id, in_class, ctx);
            } else {
                proof { lemma_only_calls_refl(*ctx); }
            }
            proof {
                let it = opt_ref_str(in_class);
                let here = if cs.last().kind@ == "call_expression"@ { ts_plain_calls(cs.last(), caller_id@, it) } else { Seq::empty() };
                lemma_only_calls_trans(*old(ctx), before, *ctx, awaited_calls(node.children@.subrange(0, i as int), caller_id@, it), here);
            }
            i = i + 1;
        }
        assert(node.children@.subrange(0, node.children@.len() as int) =~= node.children@);
    } else {
        collect_plain_call(node, caller_id, in_class, ctx);
    }
}

pub open spec fn is_ts_nested(c: SyntaxNode) -> bool {
    ||| c.kind@ == "expression_statement"@
    ||| c.kind@ == "return_statement"@
    ||| c.kind@ == "if_statement"@
    ||| c.kind@ == "for_statement"@
    ||| c.kind@ == "while_statement"@
    ||| c.kind@ == "try_statement"@
    ||| c.kind@ == "catch_clause"@
    ||| c.kind@ == "block"@
    ||| c.kind@ == "statement_block"@
    ||| c.kind@ == "arrow_function"@
    ||| c.kind@ == "lexical_declaration"@
    ||| c.kind@ == "variable_declarator"@
}

/// The calls found among the nodes of a body, in order: call and `await`
/// expressions, looking into statements, declarations, nested blocks and
/// arrow functions.
pub open spec fn ts_calls_in(cs: Seq<SyntaxNode>, caller: Seq<char>, in_class: Option<Seq<char>>) -> Seq<CallView>
    decreases cs,
{
    if cs.len() == 0 {
        Seq::empty()
    } else {
        let c = cs.last();
        let here = if c.kind@ == "call_expression"@ || c.kind@ == "await_expression"@ {
            ts_call_calls(c, caller, in_class)
        } else if is_ts_nested(c) {
            ts_calls_in(c.children@, caller, in_class)
        } else {
            Seq::empty()
        };
        ts_calls_in(cs.drop_last(), caller, in_class) + here
    }
}

/// Records the calls of a body (see `ts_calls_in`).
pub fn collect_calls_block(node: &SyntaxNode, caller_id: &str, in_class: Option<&str>, ctx: &mut ParseContext)
    ensures
        only_calls_added(*old(ctx), *final(ctx), ts_calls_in(node.children@, caller_id@, opt_ref_str(in_class))),
    decreases node,
{
    let mut i: usize = 0;
    proof { lemma_only_calls_refl(*ctx); }
    while i < node.children.len()
        invariant
            i <= node.children@.len(),
            only_calls_added(*old(ctx), *ctx, ts_calls_in(node.children@.subrange(0, i as int), caller_id@, opt_ref_str(in_class))),
        decreases node.children@.len() - i,
    {
        let child = &node.children[i];
        let ghost before = *ctx;
        let ghost cs = node.children@.subrange(0, i + 1);
        assert(cs.drop_last() =~= node.children@.subrange(0, i as int));
        assert(cs.last() == node.children@[i as int]);
        if kind_is(child, "call_expression") || kind_is(child, "await_expression") {
            collect_calls(child, caller_id, in_class, ctx);
        } else if kind_is(child, "expression_statement") || kind_is(child, "return_statement") || kind_is(child, "if_statement")
            || kind_is(child, "for_statement") || kind_is(child, "while_statement") || kind_is(child, "try_statement")
            || kind_is(child, "catch_clause") || kind_is(child, "block") || kind_is(child, "statement_block")
            || kind_is(child, "arrow_function") || kind_is(child, "lexical_declaration") || kind_is(child, "variable_declarator") {
            collect_calls_block(child, caller_id, in_class, ctx);
        } else {
            proof { lemma_only_calls_refl(*ctx); }
        }
        proof {
            let c = cs.last();
            let it = opt_ref_str(in_class);
            let here = if c.kind@ == "call_expression"@ || c.kind@ == "await_expression"@ {
                ts_call_calls(c, caller_id@, it)
            } else if is_ts_nested(c) {
                ts_calls_in(c.children@, caller_id@, it)
            } else {
                Seq::empty()
            };
            assert(ts_calls_in(cs, caller_id@, it) == ts_calls_in(node.children@.subrange(0, i as int), caller_id@, it) + here);
            lemma_only_calls_trans(*old(ctx), before, *ctx, ts_calls_in(node.children@.subrange(0, i as int), caller_id@, it), here);
        }
        i = i + 1;
    }
    assert(node.children@.subrange(0, node.children@.len() as int) =~= node.children@);
}

} // verus!

verus! {

/// A quoted module name without its quotes: `"` then `'` trimmed from both
/// ends.
pub open spec fn unquote(s: Seq<char>) -> Seq<char> {
    strip_trailing(strip_leading(strip_trailing(strip_leading(s, "\""@), "\""@), "'"@), "'"@)
}

/// The module an import names: the unquoted text of its last string child, or
/// the empty text.
pub open spec fn import_source(cs: Seq<SyntaxNode>) -> Seq<char> {
    let i = last_where(cs, of_kind("string"@));
    if i < 0 { Seq::empty() } else { unquote(cs[i].text@) }
}

/// The imported name and alias of an import specifier: the first identifier
/// child is the imported name once one is non-empty; each later identifier
/// becomes the alias.
pub open spec fn orig_alias(cs: Seq<SyntaxNode>) -> (Seq<char>, Seq<char>)
    decreases cs.len(),
{
    if cs.len() == 0 {
        (Seq::empty(), Seq::empty())
    } else {
        let (o, a) = orig_alias(cs.drop_last());
        if cs.last().kind@ == "identifier"@ {
            if o.len() == 0 { (cs.last().text@, a) } else { (o, cs.last().text@) }
        } else {
            (o, a)
        }
    }
}

/// The (local name, imported name) pairs of the specifiers of `{ A, B as C }`.
pub open spec fn specifier_names(cs: Seq<SyntaxNode>) -> Seq<(Seq<char>, Seq<char>)>
    decreases cs.len(),
{
    if cs.len() == 0 {
        Seq::empty()
    } else {
        let here = if cs.last().kind@ == "import_specifier"@ {
            let (o, a) = orig_alias(cs.last().children@);
            if o.len() > 0 { seq![(if a.len() == 0 { o } else { a }, o)] } else { Seq::empty() }
        } else {
            Seq::empty()
        };
        specifier_names(cs.drop_last()) + here
    }
}

/// The (local name, `*`) pairs of `* as NS`.
pub open spec fn namespace_names(cs: Seq<SyntaxNode>) -> Seq<(Seq<char>, Seq<char>)>
    decreases cs.len(),
{
    if cs.len() == 0 {
        Seq::empty()
    } else {
        namespace_names(cs.drop_last()) + if cs.last().kind@ == "identifier"@ {
            seq![(cs.last().text@, "*"@)]
        } else {
            Seq::empty()
        }
    }
}

/// The (local name, imported name) pairs of an import clause: a default
/// import names itself, then named and namespace imports.
pub open spec fn clause_items(cs: Seq<SyntaxNode>) -> Seq<(Seq<char>, Seq<char>)>
    decreases cs.len(),
{
    if cs.len() == 0 {
        Seq::empty()
    } else {
        let c = cs.last();
        let here = if c.kind@ == "identifier"@ {
            seq![(c.text@, c.text@)]
        } else if c.kind@ == "named_imports"@ {
            specifier_names(c.children@)
        } else if c.kind@ == "namespace_import"@ {
            namespace_names(c.children@)
        } else {
            Seq::empty()
        };
        clause_items(cs.drop_last()) + here
    }
}

/// The (local name, imported name) pairs of all import clauses of an import.
pub open spec fn import_names(cs: Seq<SyntaxNode>) -> Seq<(Seq<char>, Seq<char>)>
    decreases cs.len(),
{
    if cs.len() == 0 {
        Seq::empty()
    } else {
        import_names(cs.drop_last()) + if cs.last().kind@ == "import_clause"@ {
            clause_items(cs.last().children@)
        } else {
            Seq::empty()
        }
    }
}

/// The module an import resolves to: a relative name (starting with `.`),
/// without its leading `./`s, is taken under the directory of the importing
/// module; other names stand as they are.
pub open spec fn resolve_source(module_id: Seq<char>, src: Seq<char>) -> Seq<char> {
    if starts_with(src, "."@) {
        let parent = join(pieces(module_id, "/"@).drop_last(), "/"@);
        let rest = strip_leading(src, "./"@);
        if parent.len() == 0 { rest } else { parent + "/"@ + rest }
    } else {
        src
    }
}

/// What an import stores in the import table: nothing without a module name;
/// the module under its own name when nothing is named; else each local name
/// mapped to the module (for `*`) or to `module/name`.
pub open spec fn import_entries(module_id: Seq<char>, cs: Seq<SyntaxNode>) -> Seq<(Seq<char>, Seq<char>)> {
    let src = import_source(cs);
    let resolved = resolve_source(module_id, src);
    let names = import_names(cs);
    if src.len() == 0 {
        Seq::empty()
    } else if names.len() == 0 {
        seq![(resolved, resolved)]
    } else {
        names.map_values(|p: (Seq<char>, Seq<char>)|
            (p.0, if p.1 == "*"@ { resolved } else { resolved + "/"@ + p.1 }))
    }
}

fn unquote_of(s: &str) -> (r: String)
    ensures
        r@ == unquote(s@),
{
    let cs = chars_of(s);
    let dq = chars_of("\"");
    let sq = chars_of("'");
    let a = strip_leading_of(cs.as_slice(), dq.as_slice());
    let b = strip_trailing_of(a.as_slice(), dq.as_slice());
    let c = strip_leading_of(b.as_slice(), sq.as_slice());
    let d = strip_trailing_of(c.as_slice(), sq.as_slice());
    string_from(d.as_slice())
}

fn resolve_source_of(module_id: &str, src: &str) -> (r: String)
    ensures
        r@ == resolve_source(module_id@, src@),
{
    let s = chars_of(src);
    let dot = chars_of(".");
    if has_prefix(s.as_slice(), dot.as_slice()) {
        let m = chars_of(module_id);
        let slash = chars_of("/");
        let dot_slash = chars_of("./");
        proof { reveal_strlit("/"); }
        let mut parts = pieces_of(m.as_slice(), slash.as_slice());
        let ghost ps = parts@.map_values(|v: Vec<char>| v@);
        parts.pop();
        assert(parts@.map_values(|v: Vec<char>| v@) =~= ps.drop_last());
        let parent = join_of(&parts, slash.as_slice());
        let rest = strip_leading_of(s.as_slice(), dot_slash.as_slice());
        if parent.len() == 0 {
            string_from(rest.as_slice())
        } else {
            let a = crate::text::cat(parent.as_slice(), slash.as_slice());
            let b = crate::text::cat(a.as_slice(), rest.as_slice());
            string_from(b.as_slice())
        }
    } else {
        src.to_string()
    }
}

} // verus!

verus! {

use crate::context::pairs_view;

/// The imported name and alias of an import specifier (see `orig_alias`).
pub fn orig_alias_text(node: &SyntaxNode) -> (r: (String, String))
    ensures
        (r.0@, r.1@) == orig_alias(node.children@),
{
    let mut orig = String::new();
    let mut alias = String::new();
    let mut i: usize = 0;
    while i < node.children.len()
        invariant
            i <= node.children@.len(),
            (orig@, alias@) == orig_alias(node.children@.subrange(0, i as int)),
        decreases node.children@.len() - i,
    {
        let item = &node.children[i];
        assert(node.children@.subrange(0, i + 1).drop_last() =~= node.children@.subrange(0, i as int));
        if kind_is(item, "identifier") {
            if orig.as_str().is_empty() {
                orig = item.text.clone();
            } else {
                alias = item.text.clone();
            }
        }
        i = i + 1;
    }
    assert(node.children@.subrange(0, node.children@.len() as int) =~= node.children@);
    (orig, alias)
}

fn push_pair(out: &mut Vec<(String, String)>, a: String, b: String)
    ensures
        pairs_view(final(out)@) == pairs_view(old(out)@).push((a@, b@)),
{
    out.push((a, b));
    assert(pairs_view(out@) =~= pairs_view(old(out)@).push((a@, b@)));
}

fn specifier_names_of(node: &SyntaxNode, out: &mut Vec<(String, String)>)
    ensures
        pairs_view(final(out)@) == pairs_view(old(out)@) + specifier_names(node.children@),
{
    let mut i: usize = 0;
    assert(pairs_view(out@) =~= pairs_view(old(out)@) + specifier_names(node.children@.subrange(0, 0)));
    while i < node.children.len()
        invariant
            i <= node.children@.len(),
            pairs_view(out@) == pairs_view(old(out)@) + specifier_names(node.children@.subrange(0, i as int)),
        decreases node.children@.len() - i,
    {
        let cc = &node.children[i];
        assert(node.children@.subrange(0, i + 1).drop_last() =~= node.children@.subrange(0, i as int));
        let ghost before = pairs_view(out@);
        if kind_is(cc, "import_specifier") {
            let (orig, alias) = orig_alias_text(cc);
            if !orig.as_str().is_empty() {
                let local = if alias.as_str().is_empty() { orig.clone() } else { alias };
                push_pair(out, local, orig);
            }
        }
        assert(pairs_view(out@) =~= pairs_view(old(out)@) + specifier_names(node.children@.subrange(0, i + 1)));
        i = i + 1;
    }
    assert(node.children@.subrange(0, node.children@.len() as int) =~= node.children@);
}

fn namespace_names_of(node: &SyntaxNode, out: &mut Vec<(String, String)>)
    ensures
        pairs_view(final(out)@) == pairs_view(old(out)@) + namespace_names(node.children@),
{
    let mut i: usize = 0;
    assert(pairs_view(out@) =~= pairs_view(old(out)@) + namespace_names(node.children@.subrange(0, 0)));
    while i < node.children.len()
        invariant
            i <= node.children@.len(),
            pairs_view(out@) == pairs_view(old(out)@) + namespace_names(node.children@.subrange(0, i as int)),
        decreases node.children@.len() - i,
    {
        let cc = &node.children[i];
        assert(node.children@.subrange(0, i + 1).drop_last() =~= node.children@.subrange(0, i as int));
        if kind_is(cc, "identifier") {
            push_pair(out, cc.text.clone(), "*".to_string());
        }
        assert(pairs_view(out@) =~= pairs_view(old(out)@) + namespace_names(node.children@.subrange(0, i + 1)));
        i = i + 1;
    }
    assert(node.children@.subrange(0, node.children@.len() as int) =~= node.children@);
}

fn clause_items_of(node: &SyntaxNode, out: &mut Vec<(String, String)>)
    ensures
        pairs_view(final(out)@) == pairs_view(old(out)@) + clause_items(node.children@),
{
    let mut i: usize = 0;
    assert(pairs_view(out@) =~= pairs_view(old(out)@) + clause_items(node.children@.subrange(0, 0)));
    while i < node.children.len()
        invariant
            i <= node.children@.len(),
            pairs_view(out@) == pairs_view(old(out)@) + clause_items(node.children@.subrange(0, i as int)),
        decreases node.children@.len() - i,
    {
        let c = &node.children[i];
        assert(node.children@.subrange(0, i + 1).drop_last() =~= node.children@.subrange(0, i as int));
        if kind_is(c, "identifier") {
            push_pair(out, c.text.clone(), c.text.clone());
        } else if kind_is(c, "named_imports") {
            specifier_names_of(c, out);
        } else if kind_is(c, "namespace_import") {
            namespace_names_of(c, out);
        }
        assert(pairs_view(out@) =~= pairs_view(old(out)@) + clause_items(node.children@.subrange(0, i + 1)));
        i = i + 1;
    }
    assert(node.children@.subrange(0, node.children@.len() as int) =~= node.children@);
}

/// The (local name, imported name) pairs an import names (see `import_names`).
pub fn import_names_of(node: &SyntaxNode) -> (r: Vec<(String, String)>)
    ensures
        pairs_view(r@) == import_names(node.children@),
{
    let mut out: Vec<(String, String)> = Vec::new();
    let mut i: usize = 0;
    assert(pairs_view(out@) =~= import_names(node.children@.subrange(0, 0)));
    while i < node.children.len()
        invariant
            i <= node.children@.len(),
            pairs_view(out@) == import_names(node.children@.subrange(0, i as int)),
        decreases node.children@.len() - i,
    {
        let c = &node.children[i];
        assert(node.children@.subrange(0, i + 1).drop_last() =~= node.children@.subrange(0, i as int));
        if kind_is(c, "import_clause") {
            clause_items_of(c, &mut out);
        }
        assert(pairs_view(out@) =~= import_names(node.children@.subrange(0, i + 1)));
        i = i + 1;
    }
    assert(node.children@.subrange(0, node.children@.len() as int) =~= node.children@);
    out
}

/// Records an import declaration in the import table (see `import_entries`).
pub fn parse_import(node: &SyntaxNode, module_id: &str, ctx: &mut ParseContext)
    ensures
        final(ctx).imports@ == store_all(old(ctx).imports@, import_entries(module_id@, node.children@)),
        final(ctx).module_id == old(ctx).module_id,
        final(ctx).file == old(ctx).file,
        final(ctx).alias_map == old(ctx).alias_map,
        final(ctx).pending_calls == old(ctx).pending_calls,
        final(ctx).pending_inherits == old(ctx).pending_inherits,
        final(ctx).pending_uses_type == old(ctx).pending_uses_type,
        final(ctx).pending_mods == old(ctx).pending_mods,
        final(ctx).local_var_types == old(ctx).local_var_types,
        final(ctx).class_fields == old(ctx).class_fields,
{
    let ghost base = old(ctx).imports@;
    let source_mod = match last_child_of_kind_exact(node, "string") {
        Some(i) => unquote_of(node.children[i].text.as_str()),
        None => String::new(),
    };
    let names = import_names_of(node);
    if source_mod.as_str().is_empty() {
        assert(import_entries(module_id@, node.children@) =~= Seq::<(Seq<char>, Seq<char>)>::empty());
        return;
    }
    let resolved = resolve_source_of(module_id, source_mod.as_str());
    if names.len() == 0 {
        ctx.imports.insert(resolved.clone(), resolved);
        proof {
            lemma_store_all_push(base, Seq::empty(), resolved@, resolved@);
            assert(seq![(resolved@, resolved@)] =~= Seq::<(Seq<char>, Seq<char>)>::empty().push((resolved@, resolved@)));
        }
        return;
    }
    let ghost ns = pairs_view(names@);
    let ghost entries = import_entries(module_id@, node.children@);
    let mut j: usize = 0;
    assert(entries.subrange(0, 0) =~= Seq::<(Seq<char>, Seq<char>)>::empty());
    while j < names.len()
        invariant
            j <= names@.len(),
            ns == pairs_view(names@),
            ns == import_names(node.children@),
            resolved@ == resolve_source(module_id@, import_source(node.children@)),
            import_source(node.children@).len() > 0,
            ns.len() > 0,
            entries == import_entries(module_id@, node.children@),
            ctx.imports@ == store_all(base, entries.subrange(0, j as int)),
            ctx.module_id == old(ctx).module_id,
            ctx.file == old(ctx).file,
            ctx.alias_map == old(ctx).alias_map,
            ctx.pending_calls == old(ctx).pending_calls,
            ctx.pending_inherits == old(ctx).pending_inherits,
            ctx.pending_uses_type == old(ctx).pending_uses_type,
            ctx.pending_mods == old(ctx).pending_mods,
            ctx.local_var_types == old(ctx).local_var_types,
            ctx.class_fields == old(ctx).class_fields,
        decreases names@.len() - j,
    {
        let local = names[j].0.clone();
        let full = if str_eq(names[j].1.as_str(), "*") {
            resolved.clone()
        } else {
            crate::text::cat3(resolved.as_str(), "/", names[j].1.as_str())
        };
        let ghost pre = entries.subrange(0, j as int);
        proof {
            assert(ns[j as int] == (names@[j as int].0@, names@[j as int].1@));
            assert(entries[j as int] == (local@, full@));
            assert(entries.subrange(0, j + 1) =~= pre.push((local@, full@)));
        }
        ctx.imports.insert(local, full);
        proof { lemma_store_all_push(base, pre, entries[j as int].0, entries[j as int].1); }
        j = j + 1;
    }
    assert(entries.subrange(0, names@.len() as int) =~= entries);
}

} // verus!

verus! {

use crate::front::{add_declaration, declared, paired, inner_texts, inner_texts_of, lemma_declared_grown, lemma_grown_keeps_id, push_inherits, texts_view};
use crate::rust_lang::first_named;
use crate::front::{imports_kept, grown_within, prefixed_by, lemma_grown_within_one, lemma_grown_within_trans, lemma_grown_within_mono, lemma_grown_within_lacks};

/// The calls of a body (the last statement block among `cs`) made by
/// `caller` (none without a body).
pub open spec fn block_calls(cs: Seq<SyntaxNode>, caller: Seq<char>, in_class: Option<Seq<char>>) -> Seq<CallView> {
    let b = last_where(cs, of_kind("statement_block"@));
    if b >= 0 { ts_calls_in(cs[b].children@, caller, in_class) } else { Seq::empty() }
}

/// Whom the calls of a class member are recorded for: the method
/// `class::name`, or the class itself for a constructor or a member without
/// a name.
pub open spec fn method_caller(class_id: Seq<char>, name: Seq<char>) -> Seq<char> {
    if name.len() == 0 || name == "constructor"@ { class_id } else { class_id + "::"@ + name }
}

/// The id a named class, interface, type alias or enum declaration gives
/// its node, as a set (empty when unnamed).
pub open spec fn ts_named_base(cs: Seq<SyntaxNode>, module_id: Seq<char>) -> Set<Seq<char>> {
    let name = first_named2(cs, "type_identifier"@, "identifier"@);
    if name.len() > 0 { set![module_id + "/"@ + name] } else { Set::empty() }
}

/// Reads a method of a class body: adds a method node `class::name` (named by
/// its first non-empty property identifier or identifier) with a containment
/// edge from the class, and records the calls of its body. A constructor, or a
/// member without a name, adds no node; the calls of its body are recorded as
/// the class's own.
pub fn parse_method(node: &SyntaxNode, rel_path: &str, graph: &mut CodeGraph, ctx: &mut ParseContext, class_id: &str)
    requires
        old(graph).wf(),
        starts_with(class_id@, old(ctx).module_id@),
    ensures
        final(graph).wf(),
        links_within(old(graph)@, final(graph)@, link_targets(ts_member_link(*node, class_id@)), ts_member_link(*node, class_id@)),
        walked(old(graph)@, final(graph)@, *old(ctx), *final(ctx), rel_path@),
        final(ctx).pending_inherits == old(ctx).pending_inherits,
        first_named2(node.children@, "property_identifier"@, "identifier"@).len() > 0
            && first_named2(node.children@, "property_identifier"@, "identifier"@) != "constructor"@
            ==> declared(old(graph)@, final(graph)@, class_id@ + "::"@ + first_named2(node.children@, "property_identifier"@, "identifier"@), NodeKind::Method),
        only_calls_added(*old(ctx), *final(ctx), block_calls(node.children@, method_caller(class_id@, first_named2(node.children@, "property_identifier"@, "identifier"@)), Some(class_id@))),
        imports_kept(*old(ctx), *final(ctx)),
        grown_within(old(graph)@, final(graph)@, set![class_id@]),
{
    let ghost prefix = ctx.module_id@;
    let line = line_of(node);
    let name = first_named2_text(node, "property_identifier", "identifier");
    let body = last_child_of_kind_exact(node, "statement_block");
    if name.as_str().is_empty() || str_eq(name.as_str(), "constructor") {
        proof {
            lemma_grown_refl(graph@, rel_path@, prefix);
            lemma_links_within_refl(graph@, link_targets(ts_member_link(*node, class_id@)), ts_member_link(*node, class_id@));
        }
        match body {
            Some(b) => {
                collect_calls_block(&node.children[b], class_id, Some(class_id), ctx);
                proof { lemma_only_calls_grown(*old(ctx), *ctx, ts_calls_in(node.children@[b as int].children@, class_id@, Some(class_id@))); }
            },
            None => {
                proof {
                    lemma_ctx_grown_refl(*ctx);
                    lemma_only_calls_refl(*ctx);
                }
            },
        }
        return;
    }
    let ghost g0 = graph@;
    let method_id = add_declaration(graph, class_id, "::", name, NodeKind::Method, rel_path, line, None, Ghost(prefix));
    proof {
        lemma_links_single(g0, graph@, class_id@, method_id@);
        assert(ts_member_link(*node, class_id@) == set![(class_id@, method_id@)]);
        assert(method_id@ == class_id@ + ("::"@ + name@));
        crate::front::lemma_starts_with_concat(class_id@, "::"@ + name@);
        assert forall|v: int| g0.nodes.len() <= v < graph@.nodes.len() implies prefixed_by((#[trigger] graph@.nodes[v]).id@, set![class_id@]) by {
            assert(set![class_id@].contains(class_id@));
        }
    }
    match body {
        Some(b) => {
            collect_calls_block(&node.children[b], method_id.as_str(), Some(class_id), ctx);
            proof { lemma_only_calls_grown(*old(ctx), *ctx, ts_calls_in(node.children@[b as int].children@, method_id@, Some(class_id@))); }
        },
        None => {
            proof {
                lemma_ctx_grown_refl(*ctx);
                lemma_only_calls_refl(*ctx);
            }
        },
    }
}

/// The id of the node a member of a class body declares, if any: a method,
/// field or abstract method signature named by a non-empty property
/// identifier or identifier other than `constructor` is `class::name`.
pub open spec fn member_id(c: SyntaxNode, class_id: Seq<char>) -> Option<Seq<char>> {
    let name = first_named2(c.children@, "property_identifier"@, "identifier"@);
    if (c.kind@ == "method_definition"@ || c.kind@ == "public_field_definition"@ || c.kind@ == "abstract_method_signature"@)
        && name.len() > 0 && name != "constructor"@ {
        Some(class_id + "::"@ + name)
    } else {
        None
    }
}

/// Reads the members of a class body: methods, fields and abstract method
/// signatures (see `parse_method`).
pub fn parse_class_body(node: &SyntaxNode, rel_path: &str, graph: &mut CodeGraph, ctx: &mut ParseContext, class_id: &str)
    requires
        old(graph).wf(),
        starts_with(class_id@, old(ctx).module_id@),
    ensures
        final(graph).wf(),
        links_within(old(graph)@, final(graph)@, link_targets(ts_members_links(*node, node.children@.len() as int, class_id@)),
            ts_members_links(*node, node.children@.len() as int, class_id@)),
        walked(old(graph)@, final(graph)@, *old(ctx), *final(ctx), rel_path@),
        final(ctx).pending_inherits == old(ctx).pending_inherits,
        forall|k: int| 0 <= k < node.children@.len() && (#[trigger] member_id(node.children@[k], class_id@)) is Some
            ==> final(graph)@.has_id(member_id(node.children@[k], class_id@)->0),
        imports_kept(*old(ctx), *final(ctx)),
        grown_within(old(graph)@, final(graph)@, set![class_id@]),
{
    proof { lemma_walked_refl(graph@, *ctx, rel_path@); }
    let ghost prefix = ctx.module_id@;
    let mut i: usize = 0;
    while i < node.children.len()
        invariant
            i <= node.children@.len(),
            graph.wf(),
            ctx.module_id@ == old(ctx).module_id@,
            prefix == old(ctx).module_id@,
            starts_with(class_id@, old(ctx).module_id@),
            walked(old(graph)@, graph@, *old(ctx), *ctx, rel_path@),
            ctx.pending_inherits == old(ctx).pending_inherits,
            imports_kept(*old(ctx), *ctx),
            grown_within(old(graph)@, graph@, set![class_id@]),
            forall|k: int| 0 <= k < i && (#[trigger] member_id(node.children@[k], class_id@)) is Some
                ==> graph@.has_id(member_id(node.children@[k], class_id@)->0),
            links_within(old(graph)@, graph@, link_targets(ts_members_links(*node, i as int, class_id@)), ts_members_links(*node, i as int, class_id@)),
        decreases node.children@.len() - i,
    {
        let child = &node.children[i];
        let ghost g0 = graph@;
        let ghost il = if child.kind@ == "method_definition"@ || child.kind@ == "public_field_definition"@ || child.kind@ == "abstract_method_signature"@ {
            ts_member_link(*child, class_id@)
        } else {
            Set::empty()
        };
        proof { graph.lemma_valid(); }
        if kind_is(child, "method_definition") || kind_is(child, "public_field_definition") || kind_is(child, "abstract_method_signature") {
            let ghost c0 = *ctx;
            parse_method(child, rel_path, graph, ctx, class_id);
            proof {
                lemma_walked_trans(old(graph)@, g0, graph@, *old(ctx), c0, *ctx, rel_path@);
                lemma_grown_within_trans(old(graph)@, g0, graph@, rel_path@, prefix, set![class_id@], set![class_id@]);
                assert(set![class_id@].union(set![class_id@]) =~= set![class_id@]);
            }
        }
        proof {
            lemma_grown_refl(g0, rel_path@, prefix);
            if graph@ == g0 {
                lemma_links_within_refl(graph@, link_targets(il), il);
            }
            assert(links_within(g0, graph@, link_targets(il), il));
            assert(grown(g0, graph@, rel_path@, prefix));
            lemma_links_then(old(graph)@, g0, graph@, ts_members_links(*node, i as int, class_id@), il, rel_path@, prefix, prefix);
            assert(node.children@[i as int] == *child);
            assert(ts_members_links(*node, i + 1, class_id@) == ts_members_links(*node, i as int, class_id@).union(il));
            assert forall|k: int| 0 <= k < i + 1 && (#[trigger] member_id(node.children@[k], class_id@)) is Some
                implies graph@.has_id(member_id(node.children@[k], class_id@)->0) by {
                if k < i {
                    lemma_grown_keeps_id(g0, graph@, rel_path@, prefix, member_id(node.children@[k], class_id@)->0);
                }
            }
        }
        i = i + 1;
    }
}

/// The names a class extends: for each heritage clause, the identifiers and
/// type identifiers of its `extends` clauses.
pub open spec fn ts_class_bases(cs: Seq<SyntaxNode>) -> Seq<Seq<char>>
    decreases cs.len(),
{
    if cs.len() == 0 {
        Seq::empty()
    } else {
        ts_class_bases(cs.drop_last()) + if cs.last().kind@ == "class_heritage"@ {
            inner_texts(cs.last().children@, "extends_clause"@, "identifier"@, "type_identifier"@)
        } else {
            Seq::empty()
        }
    }
}

fn class_bases(node: &SyntaxNode) -> (r: Vec<String>)
    ensures
        texts_view(r@) == ts_class_bases(node.children@),
{
    let mut bases: Vec<String> = Vec::new();
    let mut i: usize = 0;
    assert(texts_view(bases@) =~= ts_class_bases(node.children@.subrange(0, 0)));
    while i < node.children.len()
        invariant
            i <= node.children@.len(),
            texts_view(bases@) == ts_class_bases(node.children@.subrange(0, i as int)),
        decreases node.children@.len() - i,
    {
        let child = &node.children[i];
        assert(node.children@.subrange(0, i + 1).drop_last() =~= node.children@.subrange(0, i as int));
        if kind_is(child, "class_heritage") {
            inner_texts_of(child, "extends_clause", "identifier", "type_identifier", &mut bases);
        }
        assert(texts_view(bases@) =~= ts_class_bases(node.children@.subrange(0, i + 1)));
        i = i + 1;
    }
    assert(node.children@.subrange(0, node.children@.len() as int) =~= node.children@);
    bases
}

/// Reads a class: adds a class node `module/name` (named by its first
/// non-empty type identifier or identifier) with a containment edge from the
/// module, records that it inherits from each class it extends, and reads its
/// body.
pub fn parse_class(node: &SyntaxNode, module_id: &str, rel_path: &str, graph: &mut CodeGraph, ctx: &mut ParseContext)
    requires
        old(graph).wf(),
        starts_with(module_id@, old(ctx).module_id@),
    ensures
        final(graph).wf(),
        links_within(old(graph)@, final(graph)@, link_targets(ts_class_links(*node, module_id@)), ts_class_links(*node, module_id@)),
        walked(old(graph)@, final(graph)@, *old(ctx), *final(ctx), rel_path@),
        first_named2(node.children@, "type_identifier"@, "identifier"@).len() > 0
            ==> declared(old(graph)@, final(graph)@, module_id@ + "/"@ + first_named2(node.children@, "type_identifier"@, "identifier"@), NodeKind::Class),
        pairs_view(final(ctx).pending_inherits@) == pairs_view(old(ctx).pending_inherits@) + (
            if first_named2(node.children@, "type_identifier"@, "identifier"@).len() > 0 {
                paired(module_id@ + "/"@ + first_named2(node.children@, "type_identifier"@, "identifier"@), ts_class_bases(node.children@))
            } else {
                Seq::empty()
            }),
        ({
            let b = last_where(node.children@, of_kind("class_body"@));
            let class_id = module_id@ + "/"@ + first_named2(node.children@, "type_identifier"@, "identifier"@);
            first_named2(node.children@, "type_identifier"@, "identifier"@).len() > 0 && b >= 0 ==>
                forall|k: int| 0 <= k < node.children@[b].children@.len() && (#[trigger] member_id(node.children@[b].children@[k], class_id)) is Some
                    ==> final(graph)@.has_id(member_id(node.children@[b].children@[k], class_id)->0)
        }),
        imports_kept(*old(ctx), *final(ctx)),
        grown_within(old(graph)@, final(graph)@, ts_named_base(node.children@, module_id@)),
{
    let ghost prefix = ctx.module_id@;
    proof { lemma_walked_refl(graph@, *ctx, rel_path@); }
    let line = line_of(node);
    let name = first_named2_text(node, "type_identifier", "identifier");
    let bases = class_bases(node);
    let body = last_child_of_kind_exact(node, "class_body");
    if name.as_str().is_empty() {
        assert(pairs_view(ctx.pending_inherits@) =~= pairs_view(old(ctx).pending_inherits@) + Seq::empty());
        proof { lemma_links_within_refl(graph@, Set::empty(), Set::empty()); }
        return;
    }
    let ghost g0 = graph@;
    let class_id = add_declaration(graph, module_id, "/", name, NodeKind::Class, rel_path, line, None, Ghost(prefix));
    proof {
        lemma_grown_within_one(g0, graph@, class_id@);
        lemma_links_single(g0, graph@, module_id@, class_id@);
        graph.lemma_valid();
    }
    let ghost own = set![(module_id@, class_id@)];
    push_inherits(ctx, class_id.as_str(), &bases);
    match body {
        Some(b) => {
            let ghost g1 = graph@;
            let ghost c1 = *ctx;
            parse_class_body(&node.children[b], rel_path, graph, ctx, class_id.as_str());
            proof {
                graph.lemma_valid();
                lemma_declared_grown(old(graph)@, g1, graph@, rel_path@, prefix, class_id@, NodeKind::Class);
                lemma_walked_trans(old(graph)@, g1, graph@, *old(ctx), c1, *ctx, rel_path@);
                lemma_grown_within_trans(old(graph)@, g1, graph@, rel_path@, prefix, set![class_id@], set![class_id@]);
                assert(set![class_id@].union(set![class_id@]) =~= set![class_id@]);
                let ml = ts_members_links(node.children@[b as int], node.children@[b as int].children@.len() as int, class_id@);
                lemma_links_then(old(graph)@, g1, graph@, own, ml, rel_path@, prefix, prefix);
                assert(ts_class_links(*node, module_id@) == own.union(ml));
            }
        },
        None => {
            assert(ts_class_links(*node, module_id@) == own);
        },
    }
}

} // verus!

verus! {

/// Reads an interface: adds a class node `module/name` (named by its first
/// non-empty type identifier or identifier) with a containment edge from the
/// module, and records that it inherits from each interface it extends.
pub fn parse_interface(node: &SyntaxNode, module_id: &str, rel_path: &str, graph: &mut CodeGraph, ctx: &mut ParseContext)
    requires
        old(graph).wf(),
        starts_with(module_id@, old(ctx).module_id@),
    ensures
        final(graph).wf(),
        links_within(old(graph)@, final(graph)@, link_targets(ts_type_link(*node, module_id@)), ts_type_link(*node, module_id@)),
        walked(old(graph)@, final(graph)@, *old(ctx), *final(ctx), rel_path@),
        first_named2(node.children@, "type_identifier"@, "identifier"@).len() > 0
            ==> declared(old(graph)@, final(graph)@, module_id@ + "/"@ + first_named2(node.children@, "type_identifier"@, "identifier"@), NodeKind::Class),
        pairs_view(final(ctx).pending_inherits@) == pairs_view(old(ctx).pending_inherits@) + (
            if first_named2(node.children@, "type_identifier"@, "identifier"@).len() > 0 {
                paired(module_id@ + "/"@ + first_named2(node.children@, "type_identifier"@, "identifier"@),
                    inner_texts(node.children@, "extends_type_clause"@, "type_identifier"@, "identifier"@))
            } else {
                Seq::empty()
            }),
        imports_kept(*old(ctx), *final(ctx)),
        grown_within(old(graph)@, final(graph)@, ts_named_base(node.children@, module_id@)),
{
    let ghost prefix = ctx.module_id@;
    proof { lemma_walked_refl(graph@, *ctx, rel_path@); }
    let line = line_of(node);
    let name = first_named2_text(node, "type_identifier", "identifier");
    let mut bases: Vec<String> = Vec::new();
    inner_texts_of(node, "extends_type_clause", "type_identifier", "identifier", &mut bases);
    assert(texts_view(bases@) =~= inner_texts(node.children@, "extends_type_clause"@, "type_identifier"@, "identifier"@));
    if name.as_str().is_empty() {
        assert(pairs_view(ctx.pending_inherits@) =~= pairs_view(old(ctx).pending_inherits@) + Seq::empty());
        proof { lemma_links_within_refl(graph@, Set::empty(), Set::empty()); }
        return;
    }
    let ghost g0 = graph@;
    let iface_id = add_declaration(graph, module_id, "/", name, NodeKind::Class, rel_path, line, None, Ghost(prefix));
    proof {
        lemma_grown_within_one(g0, graph@, iface_id@);
        lemma_links_single(g0, graph@, module_id@, iface_id@);
    }
    push_inherits(ctx, iface_id.as_str(), &bases);
}

/// Reads a type alias or an enum: adds a node of the given kind `module/name`
/// (named by its first non-empty type identifier or identifier) with a
/// containment edge from the module.
pub fn parse_named_type(node: &SyntaxNode, kind: NodeKind, module_id: &str, rel_path: &str, graph: &mut CodeGraph, Ghost(prefix): Ghost<Seq<char>>)
    requires
        old(graph).wf(),
        starts_with(module_id@, prefix),
    ensures
        final(graph).wf(),
        links_within(old(graph)@, final(graph)@, link_targets(ts_type_link(*node, module_id@)), ts_type_link(*node, module_id@)),
        grown(old(graph)@, final(graph)@, rel_path@, prefix),
        first_named2(node.children@, "type_identifier"@, "identifier"@).len() > 0
            ==> declared(old(graph)@, final(graph)@, module_id@ + "/"@ + first_named2(node.children@, "type_identifier"@, "identifier"@), kind),
        grown_within(old(graph)@, final(graph)@, ts_named_base(node.children@, module_id@)),
{
    proof { lemma_grown_refl(graph@, rel_path@, prefix); }
    let line = line_of(node);
    let name = first_named2_text(node, "type_identifier", "identifier");
    if name.as_str().is_empty() {
        proof { lemma_links_within_refl(graph@, Set::empty(), Set::empty()); }
        return;
    }
    let ghost g0 = graph@;
    let _id = add_declaration(graph, module_id, "/", name, kind, rel_path, line, None, Ghost(prefix));
    proof {
        lemma_grown_within_one(g0, graph@, _id@);
        lemma_links_single(g0, graph@, module_id@, _id@);
    }
}

/// Reads a type alias: a class node (see `parse_named_type`).
pub fn parse_type_alias(node: &SyntaxNode, module_id: &str, rel_path: &str, graph: &mut CodeGraph, Ghost(prefix): Ghost<Seq<char>>)
    requires
        old(graph).wf(),
        starts_with(module_id@, prefix),
    ensures
        final(graph).wf(),
        links_within(old(graph)@, final(graph)@, link_targets(ts_type_link(*node, module_id@)), ts_type_link(*node, module_id@)),
        grown(old(graph)@, final(graph)@, rel_path@, prefix),
        first_named2(node.children@, "type_identifier"@, "identifier"@).len() > 0
            ==> declared(old(graph)@, final(graph)@, module_id@ + "/"@ + first_named2(node.children@, "type_identifier"@, "identifier"@), NodeKind::Class),
        grown_within(old(graph)@, final(graph)@, ts_named_base(node.children@, module_id@)),
{
    parse_named_type(node, NodeKind::Class, module_id, rel_path, graph, Ghost(prefix));
}

/// Reads an enum: a struct node (see `parse_named_type`).
pub fn parse_enum(node: &SyntaxNode, module_id: &str, rel_path: &str, graph: &mut CodeGraph, Ghost(prefix): Ghost<Seq<char>>)
    requires
        old(graph).wf(),
        starts_with(module_id@, prefix),
    ensures
        final(graph).wf(),
        links_within(old(graph)@, final(graph)@, link_targets(ts_type_link(*node, module_id@)), ts_type_link(*node, module_id@)),
        grown(old(graph)@, final(graph)@, rel_path@, prefix),
        first_named2(node.children@, "type_identifier"@, "identifier"@).len() > 0
            ==> declared(old(graph)@, final(graph)@, module_id@ + "/"@ + first_named2(node.children@, "type_identifier"@, "identifier"@), NodeKind::Struct),
        grown_within(old(graph)@, final(graph)@, ts_named_base(node.children@, module_id@)),
{
    parse_named_type(node, NodeKind::Struct, module_id, rel_path, graph, Ghost(prefix));
}

/// The id of a function: `class::name` inside a class, else `module/name`.
pub open spec fn ts_fn_id(module_id: Seq<char>, parent_class: Option<Seq<char>>, name: Seq<char>) -> Seq<char> {
    match parent_class {
        Some(c) => c + "::"@ + name,
        None => module_id + "/"@ + name,
    }
}

/// Reads a function declaration: adds a function node (named by its first
/// non-empty identifier, see `ts_fn_id`) with a containment edge from its
/// class or module, and records the calls of its body.
pub fn parse_function(
    node: &SyntaxNode,
    module_id: &str,
    rel_path: &str,
    graph: &mut CodeGraph,
    ctx: &mut ParseContext,
    parent_class: Option<&str>,
)
    requires
        old(graph).wf(),
        starts_with(module_id@, old(ctx).module_id@),
        opt_ref_str(parent_class) matches Some(c) ==> starts_with(c, old(ctx).module_id@),
    ensures
        final(graph).wf(),
        links_within(old(graph)@, final(graph)@, link_targets(ts_fn_link(*node, module_id@, opt_ref_str(parent_class))),
            ts_fn_link(*node, module_id@, opt_ref_str(parent_class))),
        walked(old(graph)@, final(graph)@, *old(ctx), *final(ctx), rel_path@),
        first_named(node.children@, "identifier"@).len() > 0
            ==> declared(old(graph)@, final(graph)@, ts_fn_id(module_id@, opt_ref_str(parent_class), first_named(node.children@, "identifier"@)), NodeKind::Function),
        first_named(node.children@, "identifier"@).len() > 0 ==> only_calls_added(*old(ctx), *final(ctx),
            block_calls(node.children@, ts_fn_id(module_id@, opt_ref_str(parent_class), first_named(node.children@, "identifier"@)), opt_ref_str(parent_class))),
        first_named(node.children@, "identifier"@).len() == 0 ==> *final(ctx) == *old(ctx),
        imports_kept(*old(ctx), *final(ctx)),
        first_named(node.children@, "identifier"@).len() > 0 ==> grown_within(old(graph)@, final(graph)@,
            set![ts_fn_id(module_id@, opt_ref_str(parent_class), first_named(node.children@, "identifier"@))]),
        first_named(node.children@, "identifier"@).len() == 0 ==> final(graph)@ == old(graph)@,
{
    let ghost prefix = ctx.module_id@;
    proof { lemma_walked_refl(graph@, *ctx, rel_path@); }
    let line = line_of(node);
    let name = crate::rust_lang::first_named_text(node, "identifier");
    let body = last_child_of_kind_exact(node, "statement_block");
    if name.as_str().is_empty() {
        proof { lemma_links_within_refl(graph@, Set::empty(), Set::empty()); }
        return;
    }
    let (parent_id, sep): (&str, &str) = match parent_class {
        Some(c) => (c, "::"),
        None => (module_id, "/"),
    };
    let ghost g0 = graph@;
    let func_id = add_declaration(graph, parent_id, sep, name, NodeKind::Function, rel_path, line, None, Ghost(prefix));
    proof {
        lemma_grown_within_one(g0, graph@, func_id@);
        lemma_links_single(g0, graph@, parent_id@, func_id@);
    }
    match body {
        Some(b) => {
            collect_calls_block(&node.children[b], func_id.as_str(), parent_class, ctx);
            proof { lemma_only_calls_grown(*old(ctx), *ctx, ts_calls_in(node.children@[b as int].children@, func_id@, opt_ref_str(parent_class))); }
        },
        None => {
            proof {
                lemma_ctx_grown_refl(*ctx);
                lemma_only_calls_refl(*ctx);
            }
        },
    }
}

/// The index of the first child of kind `k`, if any.
pub fn first_child_of_kind(node: &SyntaxNode, k: &str) -> (r: Option<usize>)
    ensures
        r is None ==> first_where(node.children@, of_kind(k@)) < 0,
        r matches Some(i) ==> i as int == first_where(node.children@, of_kind(k@)) && i < node.children@.len(),
{
    let mut i: usize = 0;
    while i < node.children.len()
        invariant
            i <= node.children@.len(),
            first_where(node.children@.subrange(0, i as int), of_kind(k@)) == -1,
        decreases node.children@.len() - i,
    {
        proof { lemma_first_where_step(node.children@, of_kind(k@), i as int); }
        if kind_is(&node.children[i], k) {
            proof { lemma_first_where_prefix(node.children@, of_kind(k@), i as int); }
            return Some(i);
        }
        i = i + 1;
    }
    assert(node.children@.subrange(0, node.children@.len() as int) =~= node.children@);
    None
}

/// An arrow function or a function expression.
pub open spec fn is_fn_value(c: SyntaxNode) -> bool {
    c.kind@ == "arrow_function"@ || c.kind@ == "function"@
}

/// Where the body of the function a declarator binds lies: for the last
/// function child that has a statement block, that child and its first
/// statement block.
pub open spec fn declarator_body(cs: Seq<SyntaxNode>) -> Option<(int, int)>
    decreases cs.len(),
{
    if cs.len() == 0 {
        None
    } else if is_fn_value(cs.last()) && first_where(cs.last().children@, of_kind("statement_block"@)) >= 0 {
        Some((cs.len() - 1, first_where(cs.last().children@, of_kind("statement_block"@))))
    } else {
        declarator_body(cs.drop_last())
    }
}

/// The id of the function a declarator binds, if it binds a named function
/// (an arrow function or a function expression): `module/name`.
pub open spec fn declarator_id(c: SyntaxNode, module_id: Seq<char>) -> Option<Seq<char>> {
    if (exists|j: int| 0 <= j < c.children@.len() && is_fn_value(#[trigger] c.children@[j])) && first_named(c.children@, "identifier"@).len() > 0 {
        Some(module_id + "/"@ + first_named(c.children@, "identifier"@))
    } else {
        None
    }
}

/// The calls of the body of the function a declarator binds, made by
/// `caller`.
pub open spec fn declarator_calls(cs: Seq<SyntaxNode>, caller: Seq<char>) -> Seq<CallView> {
    match declarator_body(cs) {
        Some((a, b)) => ts_calls_in(cs[a].children@[b].children@, caller, None),
        None => Seq::empty(),
    }
}

proof fn lemma_declarator_body_step(cs: Seq<SyntaxNode>, j: int)
    requires
        0 <= j < cs.len(),
    ensures
        declarator_body(cs.subrange(0, j + 1)) == if is_fn_value(cs[j]) && first_where(cs[j].children@, of_kind("statement_block"@)) >= 0 {
            Some((j, first_where(cs[j].children@, of_kind("statement_block"@))))
        } else {
            declarator_body(cs.subrange(0, j))
        },
{
    assert(cs.subrange(0, j + 1).drop_last() =~= cs.subrange(0, j));
    assert(cs.subrange(0, j + 1).last() == cs[j]);
}

proof fn lemma_declarator_body_bounds(cs: Seq<SyntaxNode>)
    ensures
        declarator_body(cs) matches Some((a, b)) ==> 0 <= a < cs.len() && 0 <= b < cs[a].children@.len(),
    decreases cs.len(),
{
    if cs.len() > 0 {
        lemma_declarator_body_bounds(cs.drop_last());
        crate::rust_lang::lemma_first_where_bounds(cs.last().children@, of_kind("statement_block"@));
    }
}

/// Reads one declarator of a `const`/`let`/`var` declaration: when it binds a
/// name to an arrow function or a function expression, adds a function node
/// `module/name` with a containment edge from the module, and records the
/// calls of the function's body (see `declarator_body`). Any other
/// declarator changes nothing.
pub fn parse_declarator(child: &SyntaxNode, module_id: &str, rel_path: &str, graph: &mut CodeGraph, ctx: &mut ParseContext)
    requires
        old(graph).wf(),
        starts_with(module_id@, old(ctx).module_id@),
    ensures
        final(graph).wf(),
        declarator_id(*child, module_id@) matches Some(id) ==> links_within(old(graph)@, final(graph)@, link_targets(set![(module_id@, id)]), set![(module_id@, id)]),
        walked(old(graph)@, final(graph)@, *old(ctx), *final(ctx), rel_path@),
        declarator_id(*child, module_id@) matches Some(id) ==> declared(old(graph)@, final(graph)@, id, NodeKind::Function)
            && only_calls_added(*old(ctx), *final(ctx), declarator_calls(child.children@, id)),
        declarator_id(*child, module_id@) is None ==> *final(ctx) == *old(ctx) && final(graph)@ == old(graph)@,
        imports_kept(*old(ctx), *final(ctx)),
        declarator_id(*child, module_id@) matches Some(id) ==> grown_within(old(graph)@, final(graph)@, set![id]),
{
    let ghost prefix = ctx.module_id@;
    let ghost cs = child.children@;
    proof { lemma_walked_refl(graph@, *ctx, rel_path@); }
    let line = line_of(child);
    let name = crate::rust_lang::first_named_text(child, "identifier");
    let mut is_func = false;
    let mut body: Option<(usize, usize)> = None;
    let mut j: usize = 0;
    while j < child.children.len()
        invariant
            j <= cs.len(),
            cs == child.children@,
            is_func <==> exists|t: int| 0 <= t < j && is_fn_value(#[trigger] cs[t]),
            body is None <==> declarator_body(cs.subrange(0, j as int)) is None,
            body matches Some((p, q)) ==> declarator_body(cs.subrange(0, j as int)) == Some((p as int, q as int)),
        decreases cs.len() - j,
    {
        let c = &child.children[j];
        proof { lemma_declarator_body_step(cs, j as int); }
        if kind_is(c, "arrow_function") || kind_is(c, "function") {
            is_func = true;
            match first_child_of_kind(c, "statement_block") {
                Some(k) => {
                    body = Some((j, k));
                },
                None => {},
            }
        }
        j = j + 1;
    }
    assert(cs.subrange(0, cs.len() as int) =~= cs);
    proof { lemma_declarator_body_bounds(cs); }
    if !is_func || name.as_str().is_empty() {
        return;
    }
    let ghost g0 = graph@;
    let func_id = add_declaration(graph, module_id, "/", name, NodeKind::Function, rel_path, line, None, Ghost(prefix));
    proof {
        lemma_grown_within_one(g0, graph@, func_id@);
        lemma_links_single(g0, graph@, module_id@, func_id@);
    }
    match body {
        Some((a, b)) => {
            let blk = &child.children[a].children[b];
            assert(declarator_calls(cs, func_id@) == ts_calls_in(blk.children@, func_id@, None));
            collect_calls_block(blk, func_id.as_str(), None, ctx);
            proof { lemma_only_calls_grown(*old(ctx), *ctx, ts_calls_in(blk.children@, func_id@, None)); }
        },
        None => {
            proof {
                lemma_ctx_grown_refl(*ctx);
                lemma_only_calls_refl(*ctx);
            }
        },
    }
}

/// The ids the function-valued declarators of a variable declaration give
/// their nodes.
pub open spec fn ts_var_bases(c: SyntaxNode, module_id: Seq<char>) -> Set<Seq<char>> {
    Set::new(|x: Seq<char>| exists|l: int| 0 <= l < c.children@.len() && c.children@[l].kind@ == "variable_declarator"@
        && #[trigger] declarator_id(c.children@[l], module_id) == Some(x))
}

/// Reads a `const`/`let`/`var` declaration: each of its declarators (see
/// `parse_declarator`).
pub fn parse_variable_decl(node: &SyntaxNode, module_id: &str, rel_path: &str, graph: &mut CodeGraph, ctx: &mut ParseContext)
    requires
        old(graph).wf(),
        starts_with(module_id@, old(ctx).module_id@),
    ensures
        final(graph).wf(),
        links_within(old(graph)@, final(graph)@, link_targets(ts_var_links(*node, node.children@.len() as int, module_id@)),
            ts_var_links(*node, node.children@.len() as int, module_id@)),
        walked(old(graph)@, final(graph)@, *old(ctx), *final(ctx), rel_path@),
        forall|k: int| 0 <= k < node.children@.len() && node.children@[k].kind@ == "variable_declarator"@
            && (#[trigger] declarator_id(node.children@[k], module_id@)) is Some
            ==> final(graph)@.has_id(declarator_id(node.children@[k], module_id@)->0),
        imports_kept(*old(ctx), *final(ctx)),
        final(ctx).pending_inherits == old(ctx).pending_inherits,
        grown_within(old(graph)@, final(graph)@, ts_var_bases(*node, module_id@)),
{
    proof { lemma_walked_refl(graph@, *ctx, rel_path@); }
    let mut i: usize = 0;
    while i < node.children.len()
        invariant
            i <= node.children@.len(),
            graph.wf(),
            ctx.module_id@ == old(ctx).module_id@,
            starts_with(module_id@, old(ctx).module_id@),
            walked(old(graph)@, graph@, *old(ctx), *ctx, rel_path@),
            imports_kept(*old(ctx), *ctx),
            ctx.pending_inherits == old(ctx).pending_inherits,
            grown_within(old(graph)@, graph@, ts_var_bases(*node, module_id@)),
            links_within(old(graph)@, graph@, link_targets(ts_var_links(*node, i as int, module_id@)), ts_var_links(*node, i as int, module_id@)),
            forall|k: int| 0 <= k < i && node.children@[k].kind@ == "variable_declarator"@
                && (#[trigger] declarator_id(node.children@[k], module_id@)) is Some
                ==> graph@.has_id(declarator_id(node.children@[k], module_id@)->0),
        decreases node.children@.len() - i,
    {
        let child = &node.children[i];
        let ghost g0 = graph@;
        let ghost c0 = *ctx;
        let ghost il = if child.kind@ == "variable_declarator"@ && declarator_id(*child, module_id@) is Some {
            set![(module_id@, declarator_id(*child, module_id@)->0)]
        } else {
            Set::empty()
        };
        proof { graph.lemma_valid(); }
        if kind_is(child, "variable_declarator") {
            parse_declarator(child, module_id, rel_path, graph, ctx);
            proof {
                lemma_walked_trans(old(graph)@, g0, graph@, *old(ctx), c0, *ctx, rel_path@);
                let t = ts_var_bases(*node, module_id@);
                match declarator_id(*child, module_id@) {
                    Some(id) => {
                        assert(node.children@[i as int] == *child);
                        assert(t.contains(id));
                        lemma_grown_within_mono(g0, graph@, set![id], t);
                    },
                    None => {},
                }
                lemma_grown_within_trans(old(graph)@, g0, graph@, rel_path@, old(ctx).module_id@, t, t);
                assert(t.union(t) =~= t);
            }
        } else {
            proof { lemma_walked_refl(g0, c0, rel_path@); }
        }
        proof {
            if graph@ == g0 {
                lemma_links_within_refl(graph@, link_targets(il), il);
                lemma_walked_refl(g0, c0, rel_path@);
            }
            assert(links_within(g0, graph@, link_targets(il), il));
            lemma_links_then(old(graph)@, g0, graph@, ts_var_links(*node, i as int, module_id@), il, rel_path@, old(ctx).module_id@, old(ctx).module_id@);
            assert(node.children@[i as int] == *child);
            assert(ts_var_links(*node, i + 1, module_id@) == ts_var_links(*node, i as int, module_id@).union(il));
            assert forall|k: int| 0 <= k < i + 1 && node.children@[k].kind@ == "variable_declarator"@
                && (#[trigger] declarator_id(node.children@[k], module_id@)) is Some
                implies graph@.has_id(declarator_id(node.children@[k], module_id@)->0) by {
                if k < i {
                    lemma_grown_keeps_id(g0, graph@, rel_path@, old(ctx).module_id@, declarator_id(node.children@[k], module_id@)->0);
                }
            }
        }
        i = i + 1;
    }
}

} // verus!

verus! {

/// The link a member of a class body adds, as (parent id, child id): the
/// member under the class, when it is named and not the constructor.
pub open spec fn ts_member_link(c: SyntaxNode, class_id: Seq<char>) -> Set<(Seq<char>, Seq<char>)> {
    let name = first_named2(c.children@, "property_identifier"@, "identifier"@);
    if name.len() > 0 && name != "constructor"@ { set![(class_id, class_id + "::"@ + name)] } else { Set::empty() }
}

/// The links reading the first `n` members of a class body adds.
pub open spec fn ts_members_links(body: SyntaxNode, n: int, class_id: Seq<char>) -> Set<(Seq<char>, Seq<char>)>
    decreases n,
{
    if n <= 0 || n > body.children@.len() {
        Set::empty()
    } else {
        let c = body.children@[n - 1];
        ts_members_links(body, n - 1, class_id).union(
            if c.kind@ == "method_definition"@ || c.kind@ == "public_field_definition"@ || c.kind@ == "abstract_method_signature"@ {
                ts_member_link(c, class_id)
            } else {
                Set::empty()
            })
    }
}

/// The link a named interface, type alias or enum adds: it under its module.
pub open spec fn ts_type_link(c: SyntaxNode, module_id: Seq<char>) -> Set<(Seq<char>, Seq<char>)> {
    let name = first_named2(c.children@, "type_identifier"@, "identifier"@);
    if name.len() > 0 { set![(module_id, module_id + "/"@ + name)] } else { Set::empty() }
}

/// The links reading a class adds when it is named: the class under its
/// module, and its members under it.
pub open spec fn ts_class_links(c: SyntaxNode, module_id: Seq<char>) -> Set<(Seq<char>, Seq<char>)> {
    let name = first_named2(c.children@, "type_identifier"@, "identifier"@);
    let b = last_where(c.children@, of_kind("class_body"@));
    let id = module_id + "/"@ + name;
    if name.len() == 0 {
        Set::empty()
    } else if 0 <= b < c.children@.len() {
        set![(module_id, id)].union(ts_members_links(c.children@[b], c.children@[b].children@.len() as int, id))
    } else {
        set![(module_id, id)]
    }
}

/// The link a named function declaration adds: it under its class, else
/// its module.
pub open spec fn ts_fn_link(c: SyntaxNode, module_id: Seq<char>, parent_class: Option<Seq<char>>) -> Set<(Seq<char>, Seq<char>)> {
    let name = first_named(c.children@, "identifier"@);
    let parent = match parent_class {
        Some(p) => p,
        None => module_id,
    };
    if name.len() > 0 { set![(parent, ts_fn_id(module_id, parent_class, name))] } else { Set::empty() }
}

/// The links reading the first `n` declarators of a variable declaration
/// adds: each function-valued declarator under the module.
pub open spec fn ts_var_links(c: SyntaxNode, n: int, module_id: Seq<char>) -> Set<(Seq<char>, Seq<char>)>
    decreases n,
{
    if n <= 0 || n > c.children@.len() {
        Set::empty()
    } else {
        let d = c.children@[n - 1];
        ts_var_links(c, n - 1, module_id).union(
            if d.kind@ == "variable_declarator"@ && declarator_id(d, module_id) is Some {
                set![(module_id, declarator_id(d, module_id)->0)]
            } else {
                Set::empty()
            })
    }
}

/// The links reading a statement adds: those of a class, an interface, a
/// type alias, an enum, a function declaration, the statements of an
/// `export` statement, or a variable declaration.
pub open spec fn ts_stmt_links(c: SyntaxNode, module_id: Seq<char>, parent_class: Option<Seq<char>>) -> Set<(Seq<char>, Seq<char>)>
    decreases c, 1int, 0int,
{
    if c.kind@ == "class_declaration"@ || c.kind@ == "abstract_class_declaration"@ {
        ts_class_links(c, module_id)
    } else if c.kind@ == "interface_declaration"@ || c.kind@ == "type_alias_declaration"@ || c.kind@ == "enum_declaration"@ {
        ts_type_link(c, module_id)
    } else if c.kind@ == "function_declaration"@ || c.kind@ == "generator_function_declaration"@ {
        ts_fn_link(c, module_id, parent_class)
    } else if c.kind@ == "export_statement"@ {
        ts_links_upto(c, c.children@.len() as int, module_id, parent_class)
    } else if is_var_decl(c) {
        ts_var_links(c, c.children@.len() as int, module_id)
    } else {
        Set::empty()
    }
}

/// The links reading the first `n` statements of `node` adds.
pub open spec fn ts_links_upto(node: SyntaxNode, n: int, module_id: Seq<char>, parent_class: Option<Seq<char>>) -> Set<(Seq<char>, Seq<char>)>
    decreases node, 0int, n,
{
    if n <= 0 || n > node.children@.len() {
        Set::empty()
    } else {
        ts_links_upto(node, n - 1, module_id, parent_class).union(ts_stmt_links(node.children@[n - 1], module_id, parent_class))
    }
}

/// The id of the node a statement declares, if any: a named class, interface,
/// type alias or enum (`module/name`), or a named function (see `ts_fn_id`).
pub open spec fn ts_item_id(c: SyntaxNode, module_id: Seq<char>, parent_class: Option<Seq<char>>) -> Option<Seq<char>> {
    if c.kind@ == "class_declaration"@ || c.kind@ == "abstract_class_declaration"@ || c.kind@ == "interface_declaration"@
        || c.kind@ == "type_alias_declaration"@ || c.kind@ == "enum_declaration"@ {
        if first_named2(c.children@, "type_identifier"@, "identifier"@).len() > 0 {
            Some(module_id + "/"@ + first_named2(c.children@, "type_identifier"@, "identifier"@))
        } else {
            None
        }
    } else if c.kind@ == "function_declaration"@ || c.kind@ == "generator_function_declaration"@ {
        if first_named(c.children@, "identifier"@).len() > 0 {
            Some(ts_fn_id(module_id, parent_class, first_named(c.children@, "identifier"@)))
        } else {
            None
        }
    } else {
        None
    }
}

/// A `const`/`let` or `var` declaration.
pub open spec fn is_var_decl(c: SyntaxNode) -> bool {
    c.kind@ == "lexical_declaration"@ || c.kind@ == "variable_declaration"@
}

/// A variable declaration is none of the statements read before it.
proof fn lemma_var_decl_kind_distinct()
    ensures
        "lexical_declaration"@ != "class_declaration"@,
        "lexical_declaration"@ != "abstract_class_declaration"@,
        "lexical_declaration"@ != "interface_declaration"@,
        "lexical_declaration"@ != "type_alias_declaration"@,
        "lexical_declaration"@ != "enum_declaration"@,
        "lexical_declaration"@ != "function_declaration"@,
        "lexical_declaration"@ != "generator_function_declaration"@,
        "lexical_declaration"@ != "export_statement"@,
        "variable_declaration"@ != "class_declaration"@,
        "variable_declaration"@ != "abstract_class_declaration"@,
        "variable_declaration"@ != "interface_declaration"@,
        "variable_declaration"@ != "type_alias_declaration"@,
        "variable_declaration"@ != "enum_declaration"@,
        "variable_declaration"@ != "function_declaration"@,
        "variable_declaration"@ != "generator_function_declaration"@,
        "variable_declaration"@ != "export_statement"@,
{
    reveal_strlit("lexical_declaration");
    reveal_strlit("variable_declaration");
    reveal_strlit("export_statement");
    reveal_strlit("class_declaration");
    reveal_strlit("abstract_class_declaration");
    reveal_strlit("interface_declaration");
    reveal_strlit("type_alias_declaration");
    reveal_strlit("enum_declaration");
    reveal_strlit("function_declaration");
    reveal_strlit("generator_function_declaration");
    assert("lexical_declaration"@[0] != "class_declaration"@[0]);
    assert("lexical_declaration"@[0] != "abstract_class_declaration"@[0]);
    assert("lexical_declaration"@[0] != "interface_declaration"@[0]);
    assert("lexical_declaration"@[0] != "type_alias_declaration"@[0]);
    assert("lexical_declaration"@[0] != "enum_declaration"@[0]);
    assert("lexical_declaration"@[0] != "function_declaration"@[0]);
    assert("lexical_declaration"@[0] != "generator_function_declaration"@[0]);
    assert("lexical_declaration"@[0] != "export_statement"@[0]);
    assert("variable_declaration"@[0] != "class_declaration"@[0]);
    assert("variable_declaration"@[0] != "abstract_class_declaration"@[0]);
    assert("variable_declaration"@[0] != "interface_declaration"@[0]);
    assert("variable_declaration"@[0] != "type_alias_declaration"@[0]);
    assert("variable_declaration"@[0] != "enum_declaration"@[0]);
    assert("variable_declaration"@[0] != "function_declaration"@[0]);
    assert("variable_declaration"@[0] != "generator_function_declaration"@[0]);
    assert("variable_declaration"@[0] != "export_statement"@[0]);
}

/// An `export` statement is none of the declarations read before it.
proof fn lemma_export_kind_distinct()
    ensures
        "export_statement"@ != "class_declaration"@,
        "export_statement"@ != "abstract_class_declaration"@,
        "export_statement"@ != "interface_declaration"@,
        "export_statement"@ != "type_alias_declaration"@,
        "export_statement"@ != "enum_declaration"@,
        "export_statement"@ != "function_declaration"@,
        "export_statement"@ != "generator_function_declaration"@,
{
    reveal_strlit("export_statement");
    reveal_strlit("class_declaration");
    reveal_strlit("abstract_class_declaration");
    reveal_strlit("interface_declaration");
    reveal_strlit("type_alias_declaration");
    reveal_strlit("enum_declaration");
    reveal_strlit("function_declaration");
    reveal_strlit("generator_function_declaration");
    assert("export_statement"@[0] != "class_declaration"@[0]);
    assert("export_statement"@[0] != "abstract_class_declaration"@[0]);
    assert("export_statement"@[0] != "interface_declaration"@[0]);
    assert("export_statement"@[0] != "type_alias_declaration"@[0]);
    assert("export_statement"@[1] != "enum_declaration"@[1]);
    assert("export_statement"@[0] != "function_declaration"@[0]);
    assert("export_statement"@[0] != "generator_function_declaration"@[0]);
}

proof fn lemma_item_kinds_distinct()
    ensures
        "class_declaration"@ != "enum_declaration"@,
        "abstract_class_declaration"@ != "enum_declaration"@,
        "interface_declaration"@ != "enum_declaration"@,
        "type_alias_declaration"@ != "enum_declaration"@,
        "class_declaration"@ != "function_declaration"@,
        "abstract_class_declaration"@ != "function_declaration"@,
        "interface_declaration"@ != "function_declaration"@,
        "type_alias_declaration"@ != "function_declaration"@,
        "class_declaration"@ != "generator_function_declaration"@,
        "abstract_class_declaration"@ != "generator_function_declaration"@,
        "interface_declaration"@ != "generator_function_declaration"@,
        "type_alias_declaration"@ != "generator_function_declaration"@,
{
    reveal_strlit("class_declaration");
    reveal_strlit("abstract_class_declaration");
    reveal_strlit("interface_declaration");
    reveal_strlit("type_alias_declaration");
    reveal_strlit("enum_declaration");
    reveal_strlit("function_declaration");
    reveal_strlit("generator_function_declaration");
    assert("class_declaration"@[0] != "enum_declaration"@[0]);
    assert("abstract_class_declaration"@[0] != "enum_declaration"@[0]);
    assert("interface_declaration"@[0] != "enum_declaration"@[0]);
    assert("type_alias_declaration"@[0] != "enum_declaration"@[0]);
    assert("class_declaration"@[0] != "function_declaration"@[0]);
    assert("abstract_class_declaration"@[0] != "function_declaration"@[0]);
    assert("interface_declaration"@[0] != "function_declaration"@[0]);
    assert("type_alias_declaration"@[0] != "function_declaration"@[0]);
    assert("class_declaration"@[0] != "generator_function_declaration"@[0]);
    assert("abstract_class_declaration"@[0] != "generator_function_declaration"@[0]);
    assert("interface_declaration"@[0] != "generator_function_declaration"@[0]);
    assert("type_alias_declaration"@[0] != "generator_function_declaration"@[0]);
}

proof fn lemma_import_kind_distinct()
    ensures
        "import_statement"@ != "class_declaration"@,
        "import_statement"@ != "abstract_class_declaration"@,
        "import_statement"@ != "interface_declaration"@,
        "import_statement"@ != "type_alias_declaration"@,
        "import_statement"@ != "enum_declaration"@,
        "import_statement"@ != "function_declaration"@,
        "import_statement"@ != "generator_function_declaration"@,
        "import_statement"@ != "lexical_declaration"@,
        "import_statement"@ != "variable_declaration"@,
        "import_statement"@ != "expression_statement"@,
        "export_statement"@ != "expression_statement"@,
        "import_statement"@ != "export_statement"@,
{
    reveal_strlit("import_statement");
    reveal_strlit("class_declaration");
    reveal_strlit("abstract_class_declaration");
    reveal_strlit("interface_declaration");
    reveal_strlit("type_alias_declaration");
    reveal_strlit("enum_declaration");
    reveal_strlit("function_declaration");
    reveal_strlit("generator_function_declaration");
    reveal_strlit("lexical_declaration");
    reveal_strlit("variable_declaration");
    reveal_strlit("expression_statement");
    reveal_strlit("export_statement");
    assert("import_statement"@[0] != "class_declaration"@[0]);
    assert("import_statement"@[0] != "abstract_class_declaration"@[0]);
    assert("import_statement"@[1] != "interface_declaration"@[1]);
    assert("import_statement"@[0] != "type_alias_declaration"@[0]);
    assert("import_statement"@[0] != "enum_declaration"@[0]);
    assert("import_statement"@[0] != "function_declaration"@[0]);
    assert("import_statement"@[0] != "generator_function_declaration"@[0]);
    assert("import_statement"@[0] != "lexical_declaration"@[0]);
    assert("import_statement"@[0] != "variable_declaration"@[0]);
    assert("import_statement"@[0] != "expression_statement"@[0]);
    assert("export_statement"@[3] != "expression_statement"@[3]);
    assert("import_statement"@[0] != "export_statement"@[0]);
}

/// For a named class declaration with a body, every member of the body that
/// declares a node (see `member_id`) has its node in `g`.
pub open spec fn ts_members_in(c: SyntaxNode, module_id: Seq<char>, g: GraphModel) -> bool {
    let b = last_where(c.children@, of_kind("class_body"@));
    let name = first_named2(c.children@, "type_identifier"@, "identifier"@);
    (c.kind@ == "class_declaration"@ || c.kind@ == "abstract_class_declaration"@) && name.len() > 0 && b >= 0 ==>
        forall|k: int| 0 <= k < c.children@[b].children@.len()
            && (#[trigger] member_id(c.children@[b].children@[k], module_id + "/"@ + name)) is Some
            ==> g.has_id(member_id(c.children@[b].children@[k], module_id + "/"@ + name)->0)
}

/// Growth keeps the member nodes of a class.
pub proof fn lemma_ts_members_grown(c: SyntaxNode, module_id: Seq<char>, a: GraphModel, b: GraphModel, file: Seq<char>, prefix: Seq<char>)
    requires
        ts_members_in(c, module_id, a),
        grown(a, b, file, prefix),
    ensures
        ts_members_in(c, module_id, b),
{
    let bi = last_where(c.children@, of_kind("class_body"@));
    let name = first_named2(c.children@, "type_identifier"@, "identifier"@);
    if (c.kind@ == "class_declaration"@ || c.kind@ == "abstract_class_declaration"@) && name.len() > 0 && bi >= 0 {
        assert forall|k: int| 0 <= k < c.children@[bi].children@.len()
            && (#[trigger] member_id(c.children@[bi].children@[k], module_id + "/"@ + name)) is Some
            implies b.has_id(member_id(c.children@[bi].children@[k], module_id + "/"@ + name)->0) by {
            lemma_grown_keeps_id(a, b, file, prefix, member_id(c.children@[bi].children@[k], module_id + "/"@ + name)->0);
        }
    }
}

/// The (declaration id, base name) pairs a class or interface declaration
/// records: a named class with the bases of its heritage, a named interface
/// with the types it extends.
pub open spec fn ts_decl_bases(c: SyntaxNode, module_id: Seq<char>) -> Seq<(Seq<char>, Seq<char>)> {
    let name = first_named2(c.children@, "type_identifier"@, "identifier"@);
    if name.len() == 0 {
        Seq::empty()
    } else if c.kind@ == "class_declaration"@ || c.kind@ == "abstract_class_declaration"@ {
        paired(module_id + "/"@ + name, ts_class_bases(c.children@))
    } else if c.kind@ == "interface_declaration"@ {
        paired(module_id + "/"@ + name, inner_texts(c.children@, "extends_type_clause"@, "type_identifier"@, "identifier"@))
    } else {
        Seq::empty()
    }
}

/// The base pairs that reading the first `n` statements of `node` records,
/// in order, looking inside `export` statements.
pub open spec fn ts_bases_upto(node: SyntaxNode, n: int, module_id: Seq<char>) -> Seq<(Seq<char>, Seq<char>)>
    decreases node, n,
{
    if n <= 0 || n > node.children@.len() {
        Seq::empty()
    } else {
        let c = node.children@[n - 1];
        ts_bases_upto(node, n - 1, module_id) + (
            if c.kind@ == "export_statement"@ {
                ts_bases_upto(c, c.children@.len() as int, module_id)
            } else {
                ts_decl_bases(c, module_id)
            })
    }
}

/// The kind of node a statement's item gets (see `ts_item_id`): a struct for
/// an enum, a function for a function, else a class.
pub open spec fn ts_item_kind(c: SyntaxNode) -> NodeKind {
    if c.kind@ == "enum_declaration"@ {
        NodeKind::Struct
    } else if c.kind@ == "function_declaration"@ || c.kind@ == "generator_function_declaration"@ {
        NodeKind::Function
    } else {
        NodeKind::Class
    }
}

/// The ids that every node a statement adds begins with: its item's id, the
/// ids of a variable declaration's function-valued declarators, and those of
/// the statements inside an `export` statement.
pub open spec fn ts_stmt_bases(c: SyntaxNode, module_id: Seq<char>, parent_class: Option<Seq<char>>) -> Set<Seq<char>>
    decreases c, 1int, 0int,
{
    if c.kind@ == "export_statement"@ {
        ts_ids_upto(c, c.children@.len() as int, module_id, parent_class)
    } else if is_var_decl(c) {
        ts_var_bases(c, module_id)
    } else {
        match ts_item_id(c, module_id, parent_class) {
            Some(id) => set![id],
            None => Set::empty(),
        }
    }
}

/// The ids that every node the first `n` statements of `node` add begins
/// with (see `ts_stmt_bases`).
pub open spec fn ts_ids_upto(node: SyntaxNode, n: int, module_id: Seq<char>, parent_class: Option<Seq<char>>) -> Set<Seq<char>>
    decreases node, 0int, n,
{
    if n <= 0 || n > node.children@.len() {
        Set::empty()
    } else {
        ts_ids_upto(node, n - 1, module_id, parent_class).union(ts_stmt_bases(node.children@[n - 1], module_id, parent_class))
    }
}

/// The imports that reading the first `n` statements of `node` records on
/// top of `imp`, in order: each import statement's entries, and those
/// recorded by the statements inside an `export` statement.
pub open spec fn ts_imports_upto(node: SyntaxNode, n: int, module_id: Seq<char>, imp: Seq<(Seq<char>, Seq<char>)>) -> Seq<(Seq<char>, Seq<char>)>
    decreases node, n,
{
    if n <= 0 || n > node.children@.len() {
        imp
    } else {
        let prev = ts_imports_upto(node, n - 1, module_id, imp);
        let c = node.children@[n - 1];
        if c.kind@ == "import_statement"@ {
            store_all(prev, import_entries(module_id, c.children@))
        } else if c.kind@ == "export_statement"@ {
            ts_imports_upto(c, c.children@.len() as int, module_id, prev)
        } else {
            prev
        }
    }
}

/// Reads the statements of a file or of an `export` statement: classes,
/// interfaces, type aliases, enums, functions, exported declarations,
/// variable declarations binding functions, imports, and the calls of
/// top-level expression statements (recorded as the module's).
pub fn process_statements(
    node: &SyntaxNode,
    module_id: &str,
    rel_path: &str,
    graph: &mut CodeGraph,
    ctx: &mut ParseContext,
    parent_class: Option<&str>,
)
    requires
        old(graph).wf(),
        starts_with(module_id@, old(ctx).module_id@),
        opt_ref_str(parent_class) matches Some(c) ==> starts_with(c, old(ctx).module_id@),
    ensures
        final(graph).wf(),
        links_within(old(graph)@, final(graph)@,
            link_targets(ts_links_upto(*node, node.children@.len() as int, module_id@, opt_ref_str(parent_class))),
            ts_links_upto(*node, node.children@.len() as int, module_id@, opt_ref_str(parent_class))),
        walked(old(graph)@, final(graph)@, *old(ctx), *final(ctx), rel_path@),
        final(ctx).imports@ == ts_imports_upto(*node, node.children@.len() as int, module_id@, old(ctx).imports@),
        final(ctx).alias_map@ == old(ctx).alias_map@,
        grown_within(old(graph)@, final(graph)@, ts_ids_upto(*node, node.children@.len() as int, module_id@, opt_ref_str(parent_class))),
        forall|k: int| 0 <= k < node.children@.len() && (#[trigger] ts_item_id(node.children@[k], module_id@, opt_ref_str(parent_class))) is Some
            && !old(graph)@.has_id(ts_item_id(node.children@[k], module_id@, opt_ref_str(parent_class))->0)
            && !prefixed_by(ts_item_id(node.children@[k], module_id@, opt_ref_str(parent_class))->0, ts_ids_upto(*node, k, module_id@, opt_ref_str(parent_class)))
            ==> declared(old(graph)@, final(graph)@, ts_item_id(node.children@[k], module_id@, opt_ref_str(parent_class))->0, ts_item_kind(node.children@[k])),
        forall|k: int| 0 <= k < node.children@.len() ==> ts_members_in(#[trigger] node.children@[k], module_id@, final(graph)@),
        forall|k: int, l: int| 0 <= k < node.children@.len() && node.children@[k].kind@ == "export_statement"@ && 0 <= l < node.children@[k].children@.len()
            ==> ts_members_in(#[trigger] node.children@[k].children@[l], module_id@, final(graph)@),
        pairs_view(final(ctx).pending_inherits@) == pairs_view(old(ctx).pending_inherits@) + ts_bases_upto(*node, node.children@.len() as int, module_id@),
        forall|k: int| 0 <= k < node.children@.len() && (#[trigger] ts_item_id(node.children@[k], module_id@, opt_ref_str(parent_class))) is Some
            ==> final(graph)@.has_id(ts_item_id(node.children@[k], module_id@, opt_ref_str(parent_class))->0),
        forall|k: int, l: int| 0 <= k < node.children@.len() && node.children@[k].kind@ == "export_statement"@ && 0 <= l < node.children@[k].children@.len()
            && (#[trigger] ts_item_id(node.children@[k].children@[l], module_id@, opt_ref_str(parent_class))) is Some
            ==> final(graph)@.has_id(ts_item_id(node.children@[k].children@[l], module_id@, opt_ref_str(parent_class))->0),
        forall|k: int, l: int| 0 <= k < node.children@.len() && is_var_decl(node.children@[k]) && 0 <= l < node.children@[k].children@.len()
            && node.children@[k].children@[l].kind@ == "variable_declarator"@
            && (#[trigger] declarator_id(node.children@[k].children@[l], module_id@)) is Some
            ==> final(graph)@.has_id(declarator_id(node.children@[k].children@[l], module_id@)->0),
    decreases node,
{
    let ghost prefix = ctx.module_id@;
    let ghost pc = opt_ref_str(parent_class);
    proof { lemma_walked_refl(graph@, *ctx, rel_path@); }
    let mut i: usize = 0;
    while i < node.children.len()
        invariant
            i <= node.children@.len(),
            graph.wf(),
            pc == opt_ref_str(parent_class),
            ctx.module_id@ == prefix,
            old(ctx).module_id@ == prefix,
            starts_with(module_id@, prefix),
            opt_ref_str(parent_class) matches Some(c) ==> starts_with(c, prefix),
            walked(old(graph)@, graph@, *old(ctx), *ctx, rel_path@),
            ctx.imports@ == ts_imports_upto(*node, i as int, module_id@, old(ctx).imports@),
            ctx.alias_map@ == old(ctx).alias_map@,
            grown_within(old(graph)@, graph@, ts_ids_upto(*node, i as int, module_id@, pc)),
            links_within(old(graph)@, graph@, link_targets(ts_links_upto(*node, i as int, module_id@, pc)), ts_links_upto(*node, i as int, module_id@, pc)),
            forall|k: int| 0 <= k < i && (#[trigger] ts_item_id(node.children@[k], module_id@, pc)) is Some
                && !old(graph)@.has_id(ts_item_id(node.children@[k], module_id@, pc)->0)
                && !prefixed_by(ts_item_id(node.children@[k], module_id@, pc)->0, ts_ids_upto(*node, k, module_id@, pc))
                ==> declared(old(graph)@, graph@, ts_item_id(node.children@[k], module_id@, pc)->0, ts_item_kind(node.children@[k])),
            forall|k: int| 0 <= k < i ==> ts_members_in(#[trigger] node.children@[k], module_id@, graph@),
            forall|k: int, l: int| 0 <= k < i && node.children@[k].kind@ == "export_statement"@ && 0 <= l < node.children@[k].children@.len()
                ==> ts_members_in(#[trigger] node.children@[k].children@[l], module_id@, graph@),
            pairs_view(ctx.pending_inherits@) == pairs_view(old(ctx).pending_inherits@) + ts_bases_upto(*node, i as int, module_id@),
            forall|k: int| 0 <= k < i && (#[trigger] ts_item_id(node.children@[k], module_id@, pc)) is Some
                ==> graph@.has_id(ts_item_id(node.children@[k], module_id@, pc)->0),
            forall|k: int, l: int| 0 <= k < i && node.children@[k].kind@ == "export_statement"@ && 0 <= l < node.children@[k].children@.len()
                && (#[trigger] ts_item_id(node.children@[k].children@[l], module_id@, pc)) is Some
                ==> graph@.has_id(ts_item_id(node.children@[k].children@[l], module_id@, pc)->0),
            forall|k: int, l: int| 0 <= k < i && is_var_decl(node.children@[k]) && 0 <= l < node.children@[k].children@.len()
                && node.children@[k].children@[l].kind@ == "variable_declarator"@
                && (#[trigger] declarator_id(node.children@[k].children@[l], module_id@)) is Some
                ==> graph@.has_id(declarator_id(node.children@[k].children@[l], module_id@)->0),
        decreases node.children@.len() - i,
    {
        let child = &node.children[i];
        let ghost g0 = graph@;
        let ghost c0 = *ctx;
        let ghost item = ts_item_id(*child, module_id@, pc);
        proof {
            graph.lemma_valid();
            lemma_walked_refl(g0, c0, rel_path@);
            lemma_export_kind_distinct();
            lemma_var_decl_kind_distinct();
            lemma_import_kind_distinct();
            lemma_item_kinds_distinct();
            if item is Some && !old(graph)@.has_id(item->0) && !prefixed_by(item->0, ts_ids_upto(*node, i as int, module_id@, pc)) {
                lemma_grown_within_lacks(old(graph)@, g0, rel_path@, prefix, ts_ids_upto(*node, i as int, module_id@, pc), item->0);
            }
        }
        if kind_is(child, "class_declaration") || kind_is(child, "abstract_class_declaration") {
            parse_class(child, module_id, rel_path, graph, ctx);
        } else if kind_is(child, "interface_declaration") {
            parse_interface(child, module_id, rel_path, graph, ctx);
        } else if kind_is(child, "type_alias_declaration") {
            parse_type_alias(child, module_id, rel_path, graph, Ghost(prefix));
        } else if kind_is(child, "enum_declaration") {
            parse_enum(child, module_id, rel_path, graph, Ghost(prefix));
        } else if kind_is(child, "function_declaration") || kind_is(child, "generator_function_declaration") {
            parse_function(child, module_id, rel_path, graph, ctx, parent_class);
        } else if kind_is(child, "export_statement") {
            process_statements(child, module_id, rel_path, graph, ctx, parent_class);
        } else if kind_is(child, "lexical_declaration") || kind_is(child, "variable_declaration") {
            parse_variable_decl(child, module_id, rel_path, graph, ctx);
        } else if kind_is(child, "import_statement") {
            parse_import(child, module_id, ctx);
            proof {
                assert(calls_view(ctx.pending_calls@) == calls_view(c0.pending_calls@));
                lemma_ctx_grown_refl(c0);
            }
        } else if kind_is(child, "expression_statement") {
            let mut j: usize = 0;
            while j < child.children.len()
                invariant
                    j <= child.children@.len(),
                    ctx_grown(c0, *ctx),
                    imports_kept(c0, *ctx),
                    ctx.pending_inherits == c0.pending_inherits,
                decreases child.children@.len() - j,
            {
                let c = &child.children[j];
                if kind_is(c, "call_expression") || kind_is(c, "await_expression") {
                    let ghost c1 = *ctx;
                    collect_calls(c, module_id, None, ctx);
                    proof {
                        lemma_only_calls_grown(c1, *ctx, ts_call_calls(*c, module_id@, None));
                        lemma_ctx_grown_trans(c0, c1, *ctx);
                    }
                }
                j = j + 1;
            }
        }
        proof {
            assert(links_within(old(graph)@, graph@, link_targets(ts_links_upto(*node, i + 1, module_id@, pc)),
                ts_links_upto(*node, i + 1, module_id@, pc))) by {
                let il = ts_stmt_links(*child, module_id@, pc);
                if graph@ == g0 {
                    lemma_links_within_refl(graph@, link_targets(il), il);
                    lemma_grown_refl(g0, rel_path@, prefix);
                }
                assert(links_within(g0, graph@, link_targets(il), il));
                assert(grown(g0, graph@, rel_path@, prefix));
                lemma_links_then(old(graph)@, g0, graph@, ts_links_upto(*node, i as int, module_id@, pc), il, rel_path@, prefix, prefix);
                assert(node.children@[i as int] == *child);
                assert(ts_links_upto(*node, i + 1, module_id@, pc) == ts_links_upto(*node, i as int, module_id@, pc).union(il));
            }
            assert(c0.imports@ == ts_imports_upto(*node, i as int, module_id@, old(ctx).imports@));
            assert(node.children@[i as int] == *child);
            assert(ctx.imports@ == ts_imports_upto(*node, i + 1, module_id@, old(ctx).imports@));
            assert(grown_within(g0, graph@, ts_stmt_bases(*child, module_id@, pc)));
            lemma_grown_within_trans(old(graph)@, g0, graph@, rel_path@, prefix, ts_ids_upto(*node, i as int, module_id@, pc), ts_stmt_bases(*child, module_id@, pc));
            assert(ts_ids_upto(*node, i + 1, module_id@, pc) == ts_ids_upto(*node, i as int, module_id@, pc).union(ts_stmt_bases(*child, module_id@, pc)));
            graph.lemma_valid();
            assert forall|k: int| 0 <= k < i + 1 && (#[trigger] ts_item_id(node.children@[k], module_id@, pc)) is Some
                && !old(graph)@.has_id(ts_item_id(node.children@[k], module_id@, pc)->0)
                && !prefixed_by(ts_item_id(node.children@[k], module_id@, pc)->0, ts_ids_upto(*node, k, module_id@, pc))
                implies declared(old(graph)@, graph@, ts_item_id(node.children@[k], module_id@, pc)->0, ts_item_kind(node.children@[k])) by {
                if k < i {
                    lemma_declared_grown(old(graph)@, g0, graph@, rel_path@, prefix, ts_item_id(node.children@[k], module_id@, pc)->0, ts_item_kind(node.children@[k]));
                }
            }
            assert(ts_members_in(*child, module_id@, graph@));
            assert forall|k: int| 0 <= k < i + 1 implies ts_members_in(#[trigger] node.children@[k], module_id@, graph@) by {
                if k < i {
                    lemma_ts_members_grown(node.children@[k], module_id@, g0, graph@, rel_path@, prefix);
                }
            }
            assert forall|k: int, l: int| 0 <= k < i + 1 && node.children@[k].kind@ == "export_statement"@ && 0 <= l < node.children@[k].children@.len()
                implies ts_members_in(#[trigger] node.children@[k].children@[l], module_id@, graph@) by {
                if k < i {
                    lemma_ts_members_grown(node.children@[k].children@[l], module_id@, g0, graph@, rel_path@, prefix);
                }
            }
            assert(pairs_view(ctx.pending_inherits@) =~= pairs_view(old(ctx).pending_inherits@) + ts_bases_upto(*node, i + 1, module_id@));
            lemma_walked_trans(old(graph)@, g0, graph@, *old(ctx), c0, *ctx, rel_path@);
            assert(item is Some ==> graph@.has_id(item->0));
            assert forall|k: int| 0 <= k < i + 1 && (#[trigger] ts_item_id(node.children@[k], module_id@, pc)) is Some
                implies graph@.has_id(ts_item_id(node.children@[k], module_id@, pc)->0) by {
                if k < i {
                    lemma_grown_keeps_id(g0, graph@, rel_path@, prefix, ts_item_id(node.children@[k], module_id@, pc)->0);
                }
            }
            assert forall|k: int, l: int| 0 <= k < i + 1 && node.children@[k].kind@ == "export_statement"@ && 0 <= l < node.children@[k].children@.len()
                && (#[trigger] ts_item_id(node.children@[k].children@[l], module_id@, pc)) is Some
                implies graph@.has_id(ts_item_id(node.children@[k].children@[l], module_id@, pc)->0) by {
                if k < i {
                    lemma_grown_keeps_id(g0, graph@, rel_path@, prefix, ts_item_id(node.children@[k].children@[l], module_id@, pc)->0);
                }
            }
            assert forall|k: int, l: int| 0 <= k < i + 1 && is_var_decl(node.children@[k]) && 0 <= l < node.children@[k].children@.len()
                && node.children@[k].children@[l].kind@ == "variable_declarator"@
                && (#[trigger] declarator_id(node.children@[k].children@[l], module_id@)) is Some
                implies graph@.has_id(declarator_id(node.children@[k].children@[l], module_id@)->0) by {
                if k < i {
                    lemma_grown_keeps_id(g0, graph@, rel_path@, prefix, declarator_id(node.children@[k].children@[l], module_id@)->0);
                }
            }
        }
        i = i + 1;
    }
}

/// What a TypeScript or JavaScript module's tree `t` at the path `rel` makes of the graph
/// `a`, giving the graph `b` and the context `ctx`.
pub open spec fn ts_read(t: SyntaxNode, rel: Seq<char>, a: GraphModel, b: GraphModel, ctx: ParseContext) -> bool {
    &&& ctx.module_id@ == ts_module_id(rel)
    &&& ctx.file@ == rel
    &&& declared(a, b, ts_module_id(rel), NodeKind::Module)
    &&& grown(a, b, rel, ts_module_id(rel))
    &&& forall|k: int| 0 <= k < t.children@.len() && (#[trigger] ts_item_id(t.children@[k], ts_module_id(rel), None)) is Some
            ==> b.has_id(ts_item_id(t.children@[k], ts_module_id(rel), None)->0)
    &&& forall|k: int, l: int| 0 <= k < t.children@.len() && t.children@[k].kind@ == "export_statement"@ && 0 <= l < t.children@[k].children@.len()
            && (#[trigger] ts_item_id(t.children@[k].children@[l], ts_module_id(rel), None)) is Some
            ==> b.has_id(ts_item_id(t.children@[k].children@[l], ts_module_id(rel), None)->0)
    &&& forall|k: int, l: int| 0 <= k < t.children@.len() && is_var_decl(t.children@[k]) && 0 <= l < t.children@[k].children@.len()
            && t.children@[k].children@[l].kind@ == "variable_declarator"@
            && (#[trigger] declarator_id(t.children@[k].children@[l], ts_module_id(rel))) is Some
            ==> b.has_id(declarator_id(t.children@[k].children@[l], ts_module_id(rel))->0)
    &&& ctx.imports@ == ts_imports_upto(t, t.children@.len() as int, ts_module_id(rel), Seq::empty())
    &&& ctx.alias_map@.len() == 0
    &&& forall|k: int| 0 <= k < t.children@.len() && (#[trigger] ts_item_id(t.children@[k], ts_module_id(rel), None)) is Some
            && !a.has_id(ts_item_id(t.children@[k], ts_module_id(rel), None)->0)
            && !prefixed_by(ts_item_id(t.children@[k], ts_module_id(rel), None)->0, ts_ids_upto(t, k, ts_module_id(rel), None))
            ==> declared(a, b, ts_item_id(t.children@[k], ts_module_id(rel), None)->0, ts_item_kind(t.children@[k]))
    &&& forall|k: int| 0 <= k < t.children@.len() ==> ts_members_in(#[trigger] t.children@[k], ts_module_id(rel), b)
    &&& forall|k: int, l: int| 0 <= k < t.children@.len() && t.children@[k].kind@ == "export_statement"@ && 0 <= l < t.children@[k].children@.len()
            ==> ts_members_in(#[trigger] t.children@[k].children@[l], ts_module_id(rel), b)
    &&& pairs_view(ctx.pending_inherits@) == ts_bases_upto(t, t.children@.len() as int, ts_module_id(rel))
    &&& forall|v: int| a.nodes.len() <= v < b.nodes.len() ==> (#[trigger] b.nodes[v]).id@ == ts_module_id(rel)
            || prefixed_by(b.nodes[v].id@, ts_ids_upto(t, t.children@.len() as int, ts_module_id(rel), None))
    &&& links_within(a, b, link_targets(ts_links_upto(t, t.children@.len() as int, ts_module_id(rel), None)).insert(ts_module_id(rel)),
            ts_links_upto(t, t.children@.len() as int, ts_module_id(rel), None))
}

/// Reads a TypeScript or JavaScript syntax tree: adds the module node (named
/// by the last `/` component of the module id) and everything
/// `process_statements` finds, and returns the context for the resolution
/// pass.
pub fn parse_tree(root: &SyntaxNode, rel_path: &str, graph: &mut CodeGraph) -> (ctx: ParseContext)
    requires
        old(graph).wf(),
    ensures
        final(graph).wf(),
        ts_read(*root, rel_path@, old(graph)@, final(graph)@, ctx),
{
    let module_id = path_to_module_id(rel_path);
    let cs = chars_of(module_id.as_str());
    let slash = chars_of("/");
    let name = string_from(last_piece_of(cs.as_slice(), slash.as_slice()).as_slice());
    proof { lemma_starts_with_refl(module_id@); }
    add_file_node(graph, module_id.clone(), name, NodeKind::Module, rel_path.to_string(), 1, None, Ghost(module_id@));
    let ghost g1 = graph@;
    proof {
        graph.lemma_valid();
        assert(links_within(old(graph)@, g1, set![module_id@], Set::empty()));
    }
    let mut ctx = new_context(module_id.clone(), rel_path.to_string());
    assert(ctx.imports@ =~= Seq::empty());
    let ghost c0 = ctx;
    process_statements(root, module_id.as_str(), rel_path, graph, &mut ctx, None);
    assert(pairs_view(c0.pending_inherits@) =~= Seq::empty());
    assert(pairs_view(ctx.pending_inherits@) =~= ts_bases_upto(*root, root.children@.len() as int, module_id@));
    proof {
        assert forall|k: int| 0 <= k < root.children@.len() && (#[trigger] ts_item_id(root.children@[k], module_id@, None)) is Some
            && !old(graph)@.has_id(ts_item_id(root.children@[k], module_id@, None)->0)
            && !prefixed_by(ts_item_id(root.children@[k], module_id@, None)->0, ts_ids_upto(*root, k, module_id@, None))
            implies declared(old(graph)@, graph@, ts_item_id(root.children@[k], module_id@, None)->0, ts_item_kind(root.children@[k])) by {
            let id = ts_item_id(root.children@[k], module_id@, None)->0;
            assert(id.len() > module_id@.len());
            if g1.has_id(id) {
                let v = choose|v: int| 0 <= v < g1.nodes.len() && #[trigger] g1.nodes[v].id@ == id;
                if v < old(graph)@.nodes.len() {
                    assert(g1.nodes[v] == old(graph)@.nodes[v]);
                }
            }
        }
    }
    proof {
        lemma_grown_trans(old(graph)@, g1, graph@, rel_path@, module_id@);
        graph.lemma_valid();
        lemma_declared_grown(old(graph)@, g1, graph@, rel_path@, module_id@, module_id@, NodeKind::Module);
        let l = ts_links_upto(*root, root.children@.len() as int, module_id@, None);
        lemma_links_within_trans(old(graph)@, g1, graph@, set![module_id@], Set::empty(), link_targets(l), l);
        assert(set![module_id@].union(link_targets(l)) =~= link_targets(l).insert(module_id@));
        assert(Set::<(Seq<char>, Seq<char>)>::empty().union(l) =~= l);
        assert forall|v: int| old(graph)@.nodes.len() <= v < graph@.nodes.len() implies (#[trigger] graph@.nodes[v]).id@ == module_id@
            || prefixed_by(graph@.nodes[v].id@, ts_ids_upto(*root, root.children@.len() as int, module_id@, None)) by {
            if v < g1.nodes.len() {
                assert(graph@.nodes.subrange(0, g1.nodes.len() as int)[v] == graph@.nodes[v]);
                assert(g1.nodes[v].id@ == module_id@);
            }
        }
    }
    ctx
}

/// The language of a dialect.
pub open spec fn variant_language(v: JsVariant) -> Language {
    match v {
        JsVariant::TypeScript => Language::TypeScript,
        JsVariant::JavaScript => Language::JavaScript,
    }
}

/// What the tree that tree-sitter's grammar of `lang` gives for `source`
/// makes of the graph `a` at the path `rel`: a tree that the listing of the
/// source describes (see `syntax::describes`; there is at most one, see
/// `syntax::lemma_describes_unique`) reads as `b` and `ctx`.
pub open spec fn ts_parsed(source: Seq<char>, lang: Language, rel: Seq<char>, a: GraphModel, b: GraphModel, ctx: ParseContext) -> bool {
    exists|t: SyntaxNode| describes(t, ts_preorder(source, lang)) && #[trigger] ts_read(t, rel, a, b, ctx)
}

/// Parses a TypeScript (or, for `JavaScript`, a JavaScript) source file and
/// reads it (see `parse_tree`); fails when the parser yields no tree.
pub fn parse_file(source: &str, rel_path: &str, graph: &mut CodeGraph, variant: JsVariant) -> (r: Result<ParseContext, ParseError>)
    requires
        old(graph).wf(),
    ensures
        final(graph).wf(),
        r is Ok ==> declared(old(graph)@, final(graph)@, ts_module_id(rel_path@), NodeKind::Module),
        r matches Ok(ctx) ==> ctx.module_id@ == ts_module_id(rel_path@),
        r is Err <==> !grammar_accepted(variant_language(variant)),
        r matches Err(e) ==> e == ParseError::LanguageError(variant_language(variant)),
        r is Err ==> final(graph)@ == old(graph)@,
        r matches Ok(ctx) ==> ts_parsed(source@, variant_language(variant), rel_path@, old(graph)@, final(graph)@, ctx),
        grown(old(graph)@, final(graph)@, rel_path@, ts_module_id(rel_path@)),
{
    let lang = match variant {
        JsVariant::TypeScript => Language::TypeScript,
        JsVariant::JavaScript => Language::JavaScript,
    };
    match parse_source(source, lang) {
        Ok(root) => {
            let ctx = parse_tree(&root, rel_path, graph);
            assert(ts_parsed(source@, lang, rel_path@, old(graph)@, graph@, ctx)) by {
                assert(ts_read(root, rel_path@, old(graph)@, graph@, ctx));
            }
            Ok(ctx)
        },
        Err(e) => {
            proof { lemma_grown_refl(graph@, rel_path@, ts_module_id(rel_path@)); }
            Err(e)
        },
    }
}

} // verus!
