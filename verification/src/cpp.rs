//! The C++ front-end: classes, structs, functions, methods, prototypes,
//! includes and call sites of a C++ source or header file.
use vstd::prelude::*;

use crate::context::{calls_view, ctx_grown, lemma_ctx_grown_refl, lemma_ctx_grown_trans, lemma_store_all_push, opt_ref_str, pairs_view, store_all, CallView, Language, ParseContext};
use crate::front::{
    links_within, link_targets, lemma_links_within_refl, lemma_links_single, lemma_links_then, lemma_links_within_trans,
    add_declaration, add_file_node, declared, member_kind, lemma_declared_grown, grown, kind_is, last_child_of_kind, lemma_grown_keeps_id, lemma_grown_refl, lemma_grown_trans,
    lemma_only_calls_grown, lemma_only_calls_refl, lemma_only_calls_trans, lemma_starts_with_refl, lemma_walked_refl, lemma_walked_trans,
    line_of, new_context, only_calls_added, push_inherits, record_call, walked, paired, inner_texts, inner_texts_of, texts_view,
};
use crate::model::{CodeGraph, GraphModel, NodeKind};
use crate::rust_lang::{first_named, first_named_text, first_where, last_where, lemma_first_where_prefix, lemma_first_where_step, of_kind};
use crate::syntax::{describes, grammar_accepted, parse_source, ts_preorder, ParseError, SyntaxNode};
use crate::text::{chars_of, join, join_of, last_piece, last_piece_of, pieces, pieces_of, replace_all, replace_of, starts_with, string_from, strip_leading, strip_leading_of, strip_trailing, strip_trailing_of};
use crate::typescript::last_child_of_kind_exact;

verus! {

/// The module id of a C++ file: its path with `/` for `\`.
pub open spec fn cpp_module_id(rel: Seq<char>) -> Seq<char> {
    replace_all(rel, "\\"@, "/"@)
}

/// The module id of a C++ file (see `cpp_module_id`).
pub fn path_to_module_id(rel_path: &str) -> (r: String)
    ensures
        r@ == cpp_module_id(rel_path@),
{
    let rel = chars_of(rel_path);
    let backslash = chars_of("\\");
    let slash = chars_of("/");
    string_from(replace_of(rel.as_slice(), backslash.as_slice(), slash.as_slice()).as_slice())
}

pub open spec fn is_cpp_callee(c: SyntaxNode) -> bool {
    ||| c.kind@ == "identifier"@
    ||| c.kind@ == "field_expression"@
    ||| c.kind@ == "scoped_identifier"@
    ||| c.kind@ == "qualified_identifier"@
}

pub open spec fn cpp_callee_nodes() -> spec_fn(SyntaxNode) -> bool {
    |c: SyntaxNode| is_cpp_callee(c)
}

/// The call a call expression records: its first identifier, field
/// expression, scoped or qualified identifier child names the callee. A
/// non-empty identifier is called directly; a field expression calls its
/// last field identifier (when non-empty) on its first non-empty identifier;
/// a scoped or qualified name is called as written.
pub open spec fn cpp_call_calls(n: SyntaxNode, caller: Seq<char>, in_class: Option<Seq<char>>) -> Seq<CallView> {
    let i = first_where(n.children@, cpp_callee_nodes());
    if i < 0 {
        Seq::empty()
    } else {
        let c = n.children@[i];
        if c.kind@ == "identifier"@ {
            if c.text@.len() > 0 { seq![(caller, c.text@, None, in_class)] } else { Seq::empty() }
        } else if c.kind@ == "field_expression"@ {
            let k = last_where(c.children@, of_kind("field_identifier"@));
            let method = if k < 0 { Seq::empty() } else { c.children@[k].text@ };
            if method.len() > 0 {
                seq![(caller, method, Some(first_named(c.children@, "identifier"@)), in_class)]
            } else {
                Seq::empty()
            }
        } else {
            seq![(caller, c.text@, None, in_class)]
        }
    }
}

/// Records the call of a call expression (see `cpp_call_calls`).
pub fn parse_call_expression(node: &SyntaxNode, caller_id: &str, in_class: Option<&str>, ctx: &mut ParseContext)
    ensures
        only_calls_added(*old(ctx), *final(ctx), cpp_call_calls(*node, caller_id@, opt_ref_str(in_class))),
{
    let mut i: usize = 0;
    while i < node.children.len()
        invariant
            i <= node.children@.len(),
            first_where(node.children@.subrange(0, i as int), cpp_callee_nodes()) == -1,
            *ctx == *old(ctx),
        decreases node.children@.len() - i,
    {
        let child = &node.children[i];
        proof {
            lemma_first_where_step(node.children@, cpp_callee_nodes(), i as int);
            assert(cpp_callee_nodes()(node.children@[i as int]) == is_cpp_callee(node.children@[i as int]));
        }
        if kind_is(child, "identifier") {
            proof { lemma_first_where_prefix(node.children@, cpp_callee_nodes(), i as int); }
            if !child.text.as_str().is_empty() {
                record_call(ctx, caller_id, child.text.clone(), None, in_class);
            } else {
                proof { lemma_only_calls_refl(*ctx); }
            }
            return;
        } else if kind_is(child, "field_expression") {
            proof { lemma_first_where_prefix(node.children@, cpp_callee_nodes(), i as int); }
            let obj = first_named_text(child, "identifier");
            let method = match last_child_of_kind_exact(child, "field_identifier") {
                Some(k) => child.children[k].text.clone(),
                None => String::new(),
            };
            if !method.as_str().is_empty() {
                record_call(ctx, caller_id, method, Some(obj), in_class);
            } else {
                proof { lemma_only_calls_refl(*ctx); }
            }
            return;
        } else if kind_is(child, "scoped_identifier") || kind_is(child, "qualified_identifier") {
            proof { lemma_first_where_prefix(node.children@, cpp_callee_nodes(), i as int); }
            record_call(ctx, caller_id, child.text.clone(), None, in_class);
            return;
        }
        i = i + 1;
    }
    proof {
        assert(node.children@.subrange(0, node.children@.len() as int) =~= node.children@);
        lemma_only_calls_refl(*ctx);
    }
}

/// The calls of the call expressions among the children of an expression
/// statement.
pub open spec fn statement_calls(cs: Seq<SyntaxNode>, caller: Seq<char>, in_class: Option<Seq<char>>) -> Seq<CallView>
    decreases cs.len(),
{
    if cs.len() == 0 {
        Seq::empty()
    } else {
        statement_calls(cs.drop_last(), caller, in_class) + if cs.last().kind@ == "call_expression"@ {
            cpp_call_calls(cs.last(), caller, in_class)
        } else {
            Seq::empty()
        }
    }
}

pub open spec fn is_cpp_nested(c: SyntaxNode) -> bool {
    ||| c.kind@ == "if_statement"@
    ||| c.kind@ == "for_statement"@
    ||| c.kind@ == "while_statement"@
    ||| c.kind@ == "compound_statement"@
    ||| c.kind@ == "return_statement"@
}

/// The calls found among the nodes of a body, in order: call expressions,
/// directly or inside expression statements, looking into `if`, `for`,
/// `while`, `return` and nested blocks.
pub open spec fn cpp_calls_in(cs: Seq<SyntaxNode>, caller: Seq<char>, in_class: Option<Seq<char>>) -> Seq<CallView>
    decreases cs,
{
    if cs.len() == 0 {
        Seq::empty()
    } else {
        let c = cs.last();
        let here = if c.kind@ == "expression_statement"@ {
            statement_calls(c.children@, caller, in_class)
        } else if c.kind@ == "call_expression"@ {
            cpp_call_calls(c, caller, in_class)
        } else if is_cpp_nested(c) {
            cpp_calls_in(c.children@, caller, in_class)
        } else {
            Seq::empty()
        };
        cpp_calls_in(cs.drop_last(), caller, in_class) + here
    }
}

fn parse_statement_calls(node: &SyntaxNode, caller_id: &str, in_class: Option<&str>, ctx: &mut ParseContext)
    ensures
        only_calls_added(*old(ctx), *final(ctx), statement_calls(node.children@, caller_id@, opt_ref_str(in_class))),
{
    let mut i: usize = 0;
    proof { lemma_only_calls_refl(*ctx); }
    while i < node.children.len()
        invariant
            i <= node.children@.len(),
            only_calls_added(*old(ctx), *ctx, statement_calls(node.children@.subrange(0, i as int), caller_id@, opt_ref_str(in_class))),
        decreases node.children@.len() - i,
    {
        let child = &node.children[i];
        let ghost before = *ctx;
        let ghost cs = node.children@.subrange(0, i + 1);
        assert(cs.drop_last() =~= node.children@.subrange(0, i as int));
        assert(cs.last() == node.children@[i as int]);
        if kind_is(child, "call_expression") {
            parse_call_expression(child, caller_id, in_class, ctx);
        } else {
            proof { lemma_only_calls_refl(*ctx); }
        }
        proof {
            let it = opt_ref_str(in_class);
            let here = if cs.last().kind@ == "call_expression"@ { cpp_call_calls(cs.last(), caller_id@, it) } else { Seq::empty() };
            lemma_only_calls_trans(*old(ctx), before, *ctx, statement_calls(node.children@.subrange(0, i as int), caller_id@, it), here);
        }
        i = i + 1;
    }
    assert(node.children@.subrange(0, node.children@.len() as int) =~= node.children@);
}

/// Records the calls of a body (see `cpp_calls_in`).
pub fn parse_compound_statement(node: &SyntaxNode, caller_id: &str, in_class: Option<&str>, ctx: &mut ParseContext)
    ensures
        only_calls_added(*old(ctx), *final(ctx), cpp_calls_in(node.children@, caller_id@, opt_ref_str(in_class))),
    decreases node,
{
    let mut i: usize = 0;
    proof { lemma_only_calls_refl(*ctx); }
    while i < node.children.len()
        invariant
            i <= node.children@.len(),
            only_calls_added(*old(ctx), *ctx, cpp_calls_in(node.children@.subrange(0, i as int), caller_id@, opt_ref_str(in_class))),
        decreases node.children@.len() - i,
    {
        let child = &node.children[i];
        let ghost before = *ctx;
        let ghost cs = node.children@.subrange(0, i + 1);
        assert(cs.drop_last() =~= node.children@.subrange(0, i as int));
        assert(cs.last() == node.children@[i as int]);
        if kind_is(child, "expression_statement") {
            parse_statement_calls(child, caller_id, in_class, ctx);
        } else if kind_is(child, "call_expression") {
            parse_call_expression(child, caller_id, in_class, ctx);
        } else if kind_is(child, "if_statement") || kind_is(child, "for_statement") || kind_is(child, "while_statement")
            || kind_is(child, "compound_statement") || kind_is(child, "return_statement") {
            parse_compound_statement(child, caller_id, in_class, ctx);
        } else {
            proof { lemma_only_calls_refl(*ctx); }
        }
        proof {
            let c = cs.last();
            let it = opt_ref_str(in_class);
            let here = if c.kind@ == "expression_statement"@ {
                statement_calls(c.children@, caller_id@, it)
            } else if c.kind@ == "call_expression"@ {
                cpp_call_calls(c, caller_id@, it)
            } else if is_cpp_nested(c) {
                cpp_calls_in(c.children@, caller_id@, it)
            } else {
                Seq::empty()
            };
            assert(cpp_calls_in(cs, caller_id@, it) == cpp_calls_in(node.children@.subrange(0, i as int), caller_id@, it) + here);
            lemma_only_calls_trans(*old(ctx), before, *ctx, cpp_calls_in(node.children@.subrange(0, i as int), caller_id@, it), here);
        }
        i = i + 1;
    }
    assert(node.children@.subrange(0, node.children@.len() as int) =~= node.children@);
}

/// What an `#include` stores in the import table: `<h>` maps `h` to the
/// external id `__ext__.h`; `"h"` maps `h` to `dir/h`, `dir` being the
/// directory of the including file.
pub open spec fn include_stores(cs: Seq<SyntaxNode>, module_id: Seq<char>) -> Seq<(Seq<char>, Seq<char>)>
    decreases cs.len(),
{
    if cs.len() == 0 {
        Seq::empty()
    } else {
        let c = cs.last();
        let here = if c.kind@ == "system_lib_string"@ {
            let h = strip_trailing(strip_leading(c.text@, "<"@), ">"@);
            seq![(h, "__ext__."@ + h)]
        } else if c.kind@ == "string_literal"@ {
            let h = strip_trailing(strip_leading(c.text@, "\""@), "\""@);
            seq![(h, join(pieces(module_id, "/"@).drop_last(), "/"@) + "/"@ + h)]
        } else {
            Seq::empty()
        };
        include_stores(cs.drop_last(), module_id) + here
    }
}

/// Records an `#include` (see `include_stores`).
pub fn parse_include(node: &SyntaxNode, module_id: &str, ctx: &mut ParseContext)
    ensures
        final(ctx).imports@ == store_all(old(ctx).imports@, include_stores(node.children@, module_id@)),
        final(ctx).module_id == old(ctx).module_id,
        final(ctx).file == old(ctx).file,
        final(ctx).alias_map == old(ctx).alias_map,
        final(ctx).pending_calls == old(ctx).pending_calls,
        final(ctx).pending_inherits == old(ctx).pending_inherits,
        final(ctx).pending_uses_type == old(ctx).pending_uses_type,
        final(ctx).pending_mods == old(ctx).pending_mods,
        final(ctx).local_var_types == old(ctx).local_var_types,
        final(ctx).class_fields == old(ctx).class_fields,
{
    let ghost base = old(ctx).imports@;
    let lt = chars_of("<");
    let gt = chars_of(">");
    let dq = chars_of("\"");
    let slash = chars_of("/");
    let ext = chars_of("__ext__.");
    let m = chars_of(module_id);
    proof { reveal_strlit("/"); }
    let mut parts = pieces_of(m.as_slice(), slash.as_slice());
    let ghost ps = parts@.map_values(|v: Vec<char>| v@);
    parts.pop();
    assert(parts@.map_values(|v: Vec<char>| v@) =~= ps.drop_last());
    let dir = join_of(&parts, slash.as_slice());
    let mut i: usize = 0;
    while i < node.children.len()
        invariant
            i <= node.children@.len(),
            lt@ == "<"@,
            gt@ == ">"@,
            dq@ == "\""@,
            slash@ == "/"@,
            ext@ == "__ext__."@,
            dir@ == join(pieces(module_id@, "/"@).drop_last(), "/"@),
            ctx.imports@ == store_all(base, include_stores(node.children@.subrange(0, i as int), module_id@)),
            ctx.module_id == old(ctx).module_id,
            ctx.file == old(ctx).file,
            ctx.alias_map == old(ctx).alias_map,
            ctx.pending_calls == old(ctx).pending_calls,
            ctx.pending_inherits == old(ctx).pending_inherits,
            ctx.pending_uses_type == old(ctx).pending_uses_type,
            ctx.pending_mods == old(ctx).pending_mods,
            ctx.local_var_types == old(ctx).local_var_types,
            ctx.class_fields == old(ctx).class_fields,
        decreases node.children@.len() - i,
    {
        let child = &node.children[i];
        let ghost pre = node.children@.subrange(0, i as int);
        assert(node.children@.subrange(0, i + 1).drop_last() =~= pre);
        assert(node.children@.subrange(0, i + 1).last() == *child);
        if kind_is(child, "system_lib_string") {
            let t = chars_of(child.text.as_str());
            let h = strip_trailing_of(strip_leading_of(t.as_slice(), lt.as_slice()).as_slice(), gt.as_slice());
            let full = crate::text::cat(ext.as_slice(), h.as_slice());
            ctx.imports.insert(string_from(h.as_slice()), string_from(full.as_slice()));
            proof {
                lemma_store_all_push(base, include_stores(pre, module_id@), h@, full@);
                assert(include_stores(node.children@.subrange(0, i + 1), module_id@) =~= include_stores(pre, module_id@).push((h@, full@)));
            }
        } else if kind_is(child, "string_literal") {
            let t = chars_of(child.text.as_str());
            let h = strip_trailing_of(strip_leading_of(t.as_slice(), dq.as_slice()).as_slice(), dq.as_slice());
            let a = crate::text::cat(dir.as_slice(), slash.as_slice());
            let full = crate::text::cat(a.as_slice(), h.as_slice());
            ctx.imports.insert(string_from(h.as_slice()), string_from(full.as_slice()));
            proof {
                lemma_store_all_push(base, include_stores(pre, module_id@), h@, full@);
                assert(include_stores(node.children@.subrange(0, i + 1), module_id@) =~= include_stores(pre, module_id@).push((h@, full@)));
            }
        } else {
            assert(include_stores(node.children@.subrange(0, i + 1), module_id@) =~= include_stores(pre, module_id@));
        }
        i = i + 1;
    }
    assert(node.children@.subrange(0, node.children@.len() as int) =~= node.children@);
}

} // verus!

verus! {

pub open spec fn is_fn_name_node(c: SyntaxNode) -> bool {
    c.kind@ == "identifier"@ || c.kind@ == "qualified_identifier"@ || c.kind@ == "destructor_name"@
}

/// Reading the children of a function declarator with the name found so
/// far: while the name is empty, an identifier, qualified identifier or
/// destructor name gives it (its last `::` component).
pub open spec fn declarator_name(cs: Seq<SyntaxNode>, name: Seq<char>) -> Seq<char>
    decreases cs.len(),
{
    if cs.len() == 0 {
        name
    } else {
        let n = declarator_name(cs.drop_last(), name);
        if is_fn_name_node(cs.last()) && n.len() == 0 { last_piece(cs.last().text@, "::"@) } else { n }
    }
}

/// The name of a function definition, from its function declarators in
/// order (see `declarator_name`).
pub open spec fn cpp_fn_name(cs: Seq<SyntaxNode>) -> Seq<char>
    decreases cs.len(),
{
    if cs.len() == 0 {
        Seq::empty()
    } else {
        let n = cpp_fn_name(cs.drop_last());
        if cs.last().kind@ == "function_declarator"@ { declarator_name(cs.last().children@, n) } else { n }
    }
}

fn cpp_fn_name_of(node: &SyntaxNode) -> (r: String)
    ensures
        r@ == cpp_fn_name(node.children@),
{
    let mut name = String::new();
    let sep = chars_of("::");
    let mut i: usize = 0;
    while i < node.children.len()
        invariant
            i <= node.children@.len(),
            sep@ == "::"@,
            name@ == cpp_fn_name(node.children@.subrange(0, i as int)),
        decreases node.children@.len() - i,
    {
        let child = &node.children[i];
        assert(node.children@.subrange(0, i + 1).drop_last() =~= node.children@.subrange(0, i as int));
        if kind_is(child, "function_declarator") {
            let ghost start = name@;
            let mut j: usize = 0;
            while j < child.children.len()
                invariant
                    j <= child.children@.len(),
                    sep@ == "::"@,
                    name@ == declarator_name(child.children@.subrange(0, j as int), start),
                decreases child.children@.len() - j,
            {
                let c = &child.children[j];
                assert(child.children@.subrange(0, j + 1).drop_last() =~= child.children@.subrange(0, j as int));
                if (kind_is(c, "identifier") || kind_is(c, "qualified_identifier") || kind_is(c, "destructor_name")) && name.as_str().is_empty() {
                    let t = chars_of(c.text.as_str());
                    name = string_from(last_piece_of(t.as_slice(), sep.as_slice()).as_slice());
                }
                j = j + 1;
            }
            assert(child.children@.subrange(0, child.children@.len() as int) =~= child.children@);
        }
        i = i + 1;
    }
    assert(node.children@.subrange(0, node.children@.len() as int) =~= node.children@);
    name
}

/// The id of a C++ function: `class::name` inside a class, else
/// `module/name`.
pub open spec fn cpp_fn_id(module_id: Seq<char>, parent_class: Option<Seq<char>>, name: Seq<char>) -> Seq<char> {
    match parent_class {
        Some(c) => c + "::"@ + name,
        None => module_id + "/"@ + name,
    }
}

/// What a C++ walk may assume: a well-formed graph, and module and class ids
/// under the file's module id.
pub open spec fn cpp_walk_pre(graph: CodeGraph, ctx: ParseContext, module_id: Seq<char>, parent_class: Option<Seq<char>>) -> bool {
    &&& graph.wf()
    &&& starts_with(module_id, ctx.module_id@)
    &&& parent_class matches Some(c) ==> starts_with(c, ctx.module_id@)
}

/// The calls of a function body (the last compound statement among `cs`)
/// made by `caller` (none without a body).
pub open spec fn cpp_body_calls(cs: Seq<SyntaxNode>, caller: Seq<char>, in_class: Option<Seq<char>>) -> Seq<CallView> {
    let b = last_where(cs, of_kind("compound_statement"@));
    if b >= 0 { cpp_calls_in(cs[b].children@, caller, in_class) } else { Seq::empty() }
}

/// Reads a function definition: adds a function (or, inside a class, method)
/// node named by `cpp_fn_name` (see `cpp_fn_id`) with a containment edge
/// from its class or module, and records the calls of its body.
pub fn parse_function(node: &SyntaxNode, module_id: &str, rel_path: &str, graph: &mut CodeGraph, ctx: &mut ParseContext, parent_class: Option<&str>)
    requires
        cpp_walk_pre(*old(graph), *old(ctx), module_id@, opt_ref_str(parent_class)),
    ensures
        final(graph).wf(),
        links_within(old(graph)@, final(graph)@, link_targets(cpp_fn_link(module_id@, opt_ref_str(parent_class), cpp_fn_name(node.children@))),
            cpp_fn_link(module_id@, opt_ref_str(parent_class), cpp_fn_name(node.children@))),
        walked(old(graph)@, final(graph)@, *old(ctx), *final(ctx), rel_path@),
        final(ctx).pending_inherits@ == old(ctx).pending_inherits@,
        cpp_fn_name(node.children@).len() > 0
            ==> declared(old(graph)@, final(graph)@, cpp_fn_id(module_id@, opt_ref_str(parent_class), cpp_fn_name(node.children@)), member_kind(opt_ref_str(parent_class))),
        cpp_fn_name(node.children@).len() > 0 ==> only_calls_added(*old(ctx), *final(ctx),
            cpp_body_calls(node.children@, cpp_fn_id(module_id@, opt_ref_str(parent_class), cpp_fn_name(node.children@)), opt_ref_str(parent_class))),
        cpp_fn_name(node.children@).len() == 0 ==> *final(ctx) == *old(ctx),
{
    let ghost prefix = ctx.module_id@;
    proof { lemma_walked_refl(graph@, *ctx, rel_path@); }
    let line = line_of(node);
    let name = cpp_fn_name_of(node);
    let body = last_child_of_kind_exact(node, "compound_statement");
    if name.as_str().is_empty() {
        proof { lemma_links_within_refl(graph@, Set::empty(), Set::empty()); }
        return;
    }
    let (parent_id, sep, kind): (&str, &str, NodeKind) = match parent_class {
        Some(c) => (c, "::", NodeKind::Method),
        None => (module_id, "/", NodeKind::Function),
    };
    let func_id = add_declaration(graph, parent_id, sep, name, kind, rel_path, line, None, Ghost(prefix));
    proof { lemma_links_single(old(graph)@, graph@, parent_id@, func_id@); }
    match body {
        Some(b) => {
            parse_compound_statement(&node.children[b], func_id.as_str(), parent_class, ctx);
            proof { lemma_only_calls_grown(*old(ctx), *ctx, cpp_calls_in(node.children@[b as int].children@, func_id@, opt_ref_str(parent_class))); }
        },
        None => {
            proof {
                lemma_ctx_grown_refl(*ctx);
                lemma_only_calls_refl(*ctx);
            }
        },
    }
}

/// The name a declaration declares as a function: the first non-empty
/// identifier among the children of its function declarators.
pub open spec fn decl_name(cs: Seq<SyntaxNode>) -> Seq<char>
    decreases cs.len(),
{
    if cs.len() == 0 {
        Seq::empty()
    } else {
        let n = decl_name(cs.drop_last());
        if cs.last().kind@ == "function_declarator"@ && n.len() == 0 { first_named(cs.last().children@, "identifier"@) } else { n }
    }
}

fn decl_name_of(node: &SyntaxNode) -> (r: String)
    ensures
        r@ == decl_name(node.children@),
{
    let mut name = String::new();
    let mut i: usize = 0;
    while i < node.children.len()
        invariant
            i <= node.children@.len(),
            name@ == decl_name(node.children@.subrange(0, i as int)),
        decreases node.children@.len() - i,
    {
        let child = &node.children[i];
        assert(node.children@.subrange(0, i + 1).drop_last() =~= node.children@.subrange(0, i as int));
        if kind_is(child, "function_declarator") && name.as_str().is_empty() {
            name = first_named_text(child, "identifier");
        }
        i = i + 1;
    }
    assert(node.children@.subrange(0, node.children@.len() as int) =~= node.children@);
    name
}

/// Reads a declaration: a function prototype adds a function (or method)
/// node `cpp_fn_id` with a containment edge from its class or module, unless
/// a node with that id exists already.
pub fn parse_declaration(node: &SyntaxNode, module_id: &str, rel_path: &str, graph: &mut CodeGraph, parent_class: Option<&str>, Ghost(prefix): Ghost<Seq<char>>)
    requires
        old(graph).wf(),
        starts_with(module_id@, prefix),
        opt_ref_str(parent_class) matches Some(c) ==> starts_with(c, prefix),
    ensures
        final(graph).wf(),
        links_within(old(graph)@, final(graph)@, link_targets(cpp_fn_link(module_id@, opt_ref_str(parent_class), decl_name(node.children@))),
            cpp_fn_link(module_id@, opt_ref_str(parent_class), decl_name(node.children@))),
        grown(old(graph)@, final(graph)@, rel_path@, prefix),
        decl_name(node.children@).len() > 0
            ==> declared(old(graph)@, final(graph)@, cpp_fn_id(module_id@, opt_ref_str(parent_class), decl_name(node.children@)), member_kind(opt_ref_str(parent_class))),
        old(graph)@.has_id(cpp_fn_id(module_id@, opt_ref_str(parent_class), decl_name(node.children@))) ==> final(graph)@ == old(graph)@,
{
    proof { lemma_grown_refl(graph@, rel_path@, prefix); }
    let line = line_of(node);
    let name = decl_name_of(node);
    proof { lemma_links_within_refl(graph@, Set::empty(), Set::empty()); }
    if name.as_str().is_empty() {
        return;
    }
    let (parent_id, sep, kind): (&str, &str, NodeKind) = match parent_class {
        Some(c) => (c, "::", NodeKind::Method),
        None => (module_id, "/", NodeKind::Function),
    };
    let func_id = crate::front::child_id(parent_id, sep, name.as_str(), Ghost(prefix));
    if !graph.has_node(func_id.as_str()) {
        let _id = add_declaration(graph, parent_id, sep, name, kind, rel_path, line, None, Ghost(prefix));
        proof { lemma_links_single(old(graph)@, graph@, parent_id@, _id@); }
    }
}

} // verus!

verus! {

/// Reads the members of a class or struct body: function definitions and
/// declarations, as members of `class_id`.
pub fn parse_class_body(node: &SyntaxNode, module_id: &str, rel_path: &str, graph: &mut CodeGraph, ctx: &mut ParseContext, class_id: &str)
    requires
        cpp_walk_pre(*old(graph), *old(ctx), module_id@, Some(class_id@)),
    ensures
        final(graph).wf(),
        links_within(old(graph)@, final(graph)@, link_targets(cpp_members_links(*node, node.children@.len() as int, module_id@, class_id@)),
            cpp_members_links(*node, node.children@.len() as int, module_id@, class_id@)),
        walked(old(graph)@, final(graph)@, *old(ctx), *final(ctx), rel_path@),
        final(ctx).pending_inherits@ == old(ctx).pending_inherits@,
{
    let ghost prefix = ctx.module_id@;
    proof { lemma_walked_refl(graph@, *ctx, rel_path@); }
    let mut i: usize = 0;
    while i < node.children.len()
        invariant
            i <= node.children@.len(),
            graph.wf(),
            ctx.module_id@ == prefix,
            old(ctx).module_id@ == prefix,
            starts_with(module_id@, prefix),
            starts_with(class_id@, prefix),
            walked(old(graph)@, graph@, *old(ctx), *ctx, rel_path@),
            ctx.pending_inherits@ == old(ctx).pending_inherits@,
            links_within(old(graph)@, graph@, link_targets(cpp_members_links(*node, i as int, module_id@, class_id@)),
                cpp_members_links(*node, i as int, module_id@, class_id@)),
        decreases node.children@.len() - i,
    {
        let child = &node.children[i];
        let ghost g0 = graph@;
        let ghost c0 = *ctx;
        let ghost il = if child.kind@ == "function_definition"@ {
            cpp_fn_link(module_id@, Some(class_id@), cpp_fn_name(child.children@))
        } else if child.kind@ == "declaration"@ {
            cpp_fn_link(module_id@, Some(class_id@), decl_name(child.children@))
        } else {
            Set::empty()
        };
        proof {
            lemma_walked_refl(g0, c0, rel_path@);
            graph.lemma_valid();
        }
        if kind_is(child, "function_definition") {
            parse_function(child, module_id, rel_path, graph, ctx, Some(class_id));
        } else if kind_is(child, "declaration") {
            parse_declaration(child, module_id, rel_path, graph, Some(class_id), Ghost(prefix));
        }
        proof {
            if graph@ == g0 {
                lemma_links_within_refl(graph@, link_targets(il), il);
            }
            assert(links_within(g0, graph@, link_targets(il), il));
            lemma_walked_trans(old(graph)@, g0, graph@, *old(ctx), c0, *ctx, rel_path@);
            lemma_links_then(old(graph)@, g0, graph@, cpp_members_links(*node, i as int, module_id@, class_id@), il, rel_path@, prefix, prefix);
            assert(node.children@[i as int] == *child);
            assert(cpp_members_links(*node, i + 1, module_id@, class_id@) == cpp_members_links(*node, i as int, module_id@, class_id@).union(il));
        }
        i = i + 1;
    }
}

/// Reads a class or struct specifier: adds a node of the given kind
/// `module/Name` (named by its first non-empty type identifier) with a
/// containment edge from the module, records its base classes (for a class)
/// and reads its body.
pub fn parse_record(node: &SyntaxNode, kind: NodeKind, with_bases: bool, module_id: &str, rel_path: &str, graph: &mut CodeGraph, ctx: &mut ParseContext)
    requires
        cpp_walk_pre(*old(graph), *old(ctx), module_id@, None),
    ensures
        final(graph).wf(),
        links_within(old(graph)@, final(graph)@, link_targets(cpp_record_links(*node, module_id@)), cpp_record_links(*node, module_id@)),
        walked(old(graph)@, final(graph)@, *old(ctx), *final(ctx), rel_path@),
        first_named(node.children@, "type_identifier"@).len() > 0
            ==> declared(old(graph)@, final(graph)@, module_id@ + "/"@ + first_named(node.children@, "type_identifier"@), kind),
        pairs_view(final(ctx).pending_inherits@) == pairs_view(old(ctx).pending_inherits@) + (
            if first_named(node.children@, "type_identifier"@).len() > 0 && with_bases {
                paired(module_id@ + "/"@ + first_named(node.children@, "type_identifier"@),
                    inner_texts(node.children@, "base_class_clause"@, "type_identifier"@, "type_identifier"@))
            } else {
                Seq::empty()
            }),
{
    let ghost prefix = ctx.module_id@;
    proof { lemma_walked_refl(graph@, *ctx, rel_path@); }
    let line = line_of(node);
    let name = first_named_text(node, "type_identifier");
    let mut bases: Vec<String> = Vec::new();
    if with_bases {
        inner_texts_of(node, "base_class_clause", "type_identifier", "type_identifier", &mut bases);
    }
    assert(texts_view(bases@) =~= if with_bases {
        inner_texts(node.children@, "base_class_clause"@, "type_identifier"@, "type_identifier"@)
    } else {
        Seq::empty()
    });
    let body = last_child_of_kind(node, "field_declaration_list");
    if name.as_str().is_empty() {
        assert(pairs_view(ctx.pending_inherits@) =~= pairs_view(old(ctx).pending_inherits@) + Seq::empty());
        proof { lemma_links_within_refl(graph@, Set::empty(), Set::empty()); }
        return;
    }
    let class_id = add_declaration(graph, module_id, "/", name, kind, rel_path, line, None, Ghost(prefix));
    let ghost g1 = graph@;
    proof {
        graph.lemma_valid();
        lemma_links_single(old(graph)@, g1, module_id@, class_id@);
    }
    let ghost own = set![(module_id@, class_id@)];
    push_inherits(ctx, class_id.as_str(), &bases);
    assert(paired(class_id@, texts_view(bases@)) =~= if with_bases {
        paired(class_id@, inner_texts(node.children@, "base_class_clause"@, "type_identifier"@, "type_identifier"@))
    } else {
        Seq::empty()
    });
    match body {
        Some(b) => {
            let ghost c1 = *ctx;
            parse_class_body(&node.children[b], module_id, rel_path, graph, ctx, class_id.as_str());
            proof {
                graph.lemma_valid();
                lemma_declared_grown(old(graph)@, g1, graph@, rel_path@, prefix, class_id@, kind);
                lemma_grown_trans(old(graph)@, g1, graph@, rel_path@, prefix);
                lemma_ctx_grown_trans(*old(ctx), c1, *ctx);
                let ml = cpp_members_links(node.children@[b as int], node.children@[b as int].children@.len() as int, module_id@, class_id@);
                lemma_links_then(old(graph)@, g1, graph@, own, ml, rel_path@, prefix, prefix);
                assert(cpp_record_links(*node, module_id@) == own.union(ml));
            }
        },
        None => {
            assert(cpp_record_links(*node, module_id@) == own);
        },
    }
}

/// Reads a class specifier: a class node with base classes (see
/// `parse_record`).
pub fn parse_class(node: &SyntaxNode, module_id: &str, rel_path: &str, graph: &mut CodeGraph, ctx: &mut ParseContext)
    requires
        cpp_walk_pre(*old(graph), *old(ctx), module_id@, None),
    ensures
        final(graph).wf(),
        links_within(old(graph)@, final(graph)@, link_targets(cpp_record_links(*node, module_id@)), cpp_record_links(*node, module_id@)),
        walked(old(graph)@, final(graph)@, *old(ctx), *final(ctx), rel_path@),
        first_named(node.children@, "type_identifier"@).len() > 0
            ==> declared(old(graph)@, final(graph)@, module_id@ + "/"@ + first_named(node.children@, "type_identifier"@), NodeKind::Class),
        pairs_view(final(ctx).pending_inherits@) == pairs_view(old(ctx).pending_inherits@) + (
            if first_named(node.children@, "type_identifier"@).len() > 0 {
                paired(module_id@ + "/"@ + first_named(node.children@, "type_identifier"@),
                    inner_texts(node.children@, "base_class_clause"@, "type_identifier"@, "type_identifier"@))
            } else {
                Seq::empty()
            }),
{
    parse_record(node, NodeKind::Class, true, module_id, rel_path, graph, ctx);
}

/// Reads a struct specifier: a struct node (see `parse_record`).
pub fn parse_struct(node: &SyntaxNode, module_id: &str, rel_path: &str, graph: &mut CodeGraph, ctx: &mut ParseContext)
    requires
        cpp_walk_pre(*old(graph), *old(ctx), module_id@, None),
    ensures
        final(graph).wf(),
        links_within(old(graph)@, final(graph)@, link_targets(cpp_record_links(*node, module_id@)), cpp_record_links(*node, module_id@)),
        walked(old(graph)@, final(graph)@, *old(ctx), *final(ctx), rel_path@),
        first_named(node.children@, "type_identifier"@).len() > 0
            ==> declared(old(graph)@, final(graph)@, module_id@ + "/"@ + first_named(node.children@, "type_identifier"@), NodeKind::Struct),
        pairs_view(final(ctx).pending_inherits@) == pairs_view(old(ctx).pending_inherits@),
{
    parse_record(node, NodeKind::Struct, false, module_id, rel_path, graph, ctx);
    assert(pairs_view(final(ctx).pending_inherits@) =~= pairs_view(old(ctx).pending_inherits@));
}

/// The node a function or prototype is contained in: its class, else its
/// module.
pub open spec fn cpp_parent(module_id: Seq<char>, parent_class: Option<Seq<char>>) -> Seq<char> {
    match parent_class {
        Some(c) => c,
        None => module_id,
    }
}

/// The link a function or prototype named `name` adds, as (parent id,
/// child id), when the name is not empty.
pub open spec fn cpp_fn_link(module_id: Seq<char>, parent_class: Option<Seq<char>>, name: Seq<char>) -> Set<(Seq<char>, Seq<char>)> {
    if name.len() > 0 { set![(cpp_parent(module_id, parent_class), cpp_fn_id(module_id, parent_class, name))] } else { Set::empty() }
}

/// The links reading the first `n` members of a class body adds: its
/// function definitions and prototypes, under the class.
pub open spec fn cpp_members_links(body: SyntaxNode, n: int, module_id: Seq<char>, class_id: Seq<char>) -> Set<(Seq<char>, Seq<char>)>
    decreases n,
{
    if n <= 0 || n > body.children@.len() {
        Set::empty()
    } else {
        let c = body.children@[n - 1];
        cpp_members_links(body, n - 1, module_id, class_id).union(
            if c.kind@ == "function_definition"@ {
                cpp_fn_link(module_id, Some(class_id), cpp_fn_name(c.children@))
            } else if c.kind@ == "declaration"@ {
                cpp_fn_link(module_id, Some(class_id), decl_name(c.children@))
            } else {
                Set::empty()
            })
    }
}

/// The links reading a class or struct adds when it is named: the record
/// under its module, and its members under it.
pub open spec fn cpp_record_links(c: SyntaxNode, module_id: Seq<char>) -> Set<(Seq<char>, Seq<char>)> {
    let name = first_named(c.children@, "type_identifier"@);
    let b = last_where(c.children@, of_kind("field_declaration_list"@));
    let id = module_id + "/"@ + name;
    if name.len() == 0 {
        Set::empty()
    } else if 0 <= b < c.children@.len() {
        set![(module_id, id)].union(cpp_members_links(c.children@[b], c.children@[b].children@.len() as int, module_id, id))
    } else {
        set![(module_id, id)]
    }
}

/// The links reading the first `n` children of a template declaration
/// adds: those of its classes and function definitions.
pub open spec fn cpp_template_links(c: SyntaxNode, n: int, module_id: Seq<char>, parent_class: Option<Seq<char>>) -> Set<(Seq<char>, Seq<char>)>
    decreases n,
{
    if n <= 0 || n > c.children@.len() {
        Set::empty()
    } else {
        let d = c.children@[n - 1];
        cpp_template_links(c, n - 1, module_id, parent_class).union(
            if d.kind@ == "class_specifier"@ {
                cpp_record_links(d, module_id)
            } else if d.kind@ == "function_definition"@ {
                cpp_fn_link(module_id, parent_class, cpp_fn_name(d.children@))
            } else {
                Set::empty()
            })
    }
}

/// The links reading the first `n` children of a namespace adds: those of
/// the items of its declaration lists.
pub open spec fn cpp_namespace_links(c: SyntaxNode, n: int, module_id: Seq<char>, parent_class: Option<Seq<char>>) -> Set<(Seq<char>, Seq<char>)>
    decreases c, 1int, n,
{
    if n <= 0 || n > c.children@.len() {
        Set::empty()
    } else {
        let d = c.children@[n - 1];
        cpp_namespace_links(c, n - 1, module_id, parent_class).union(
            if d.kind@ == "declaration_list"@ {
                cpp_unit_links(d, d.children@.len() as int, module_id, parent_class)
            } else {
                Set::empty()
            })
    }
}

/// The links reading the first `n` items of a translation unit (or of a
/// namespace's declaration list) adds: those of its classes, structs,
/// function definitions, prototypes, namespaces and templates.
pub open spec fn cpp_unit_links(node: SyntaxNode, n: int, module_id: Seq<char>, parent_class: Option<Seq<char>>) -> Set<(Seq<char>, Seq<char>)>
    decreases node, 0int, n,
{
    if n <= 0 || n > node.children@.len() {
        Set::empty()
    } else {
        let c = node.children@[n - 1];
        cpp_unit_links(node, n - 1, module_id, parent_class).union(
            if c.kind@ == "class_specifier"@ || c.kind@ == "struct_specifier"@ {
                cpp_record_links(c, module_id)
            } else if c.kind@ == "function_definition"@ {
                cpp_fn_link(module_id, parent_class, cpp_fn_name(c.children@))
            } else if c.kind@ == "declaration"@ {
                cpp_fn_link(module_id, parent_class, decl_name(c.children@))
            } else if c.kind@ == "namespace_definition"@ {
                cpp_namespace_links(c, c.children@.len() as int, module_id, parent_class)
            } else if c.kind@ == "template_declaration"@ {
                cpp_template_links(c, c.children@.len() as int, module_id, parent_class)
            } else {
                Set::empty()
            })
    }
}

/// The id of the node an item of a translation unit declares, if any: a
/// named class or struct, a named function definition, or a named function
/// prototype.
pub open spec fn cpp_item_id(c: SyntaxNode, module_id: Seq<char>, parent_class: Option<Seq<char>>) -> Option<Seq<char>> {
    if (c.kind@ == "class_specifier"@ || c.kind@ == "struct_specifier"@) && first_named(c.children@, "type_identifier"@).len() > 0 {
        Some(module_id + "/"@ + first_named(c.children@, "type_identifier"@))
    } else if c.kind@ == "function_definition"@ && cpp_fn_name(c.children@).len() > 0 {
        Some(cpp_fn_id(module_id, parent_class, cpp_fn_name(c.children@)))
    } else if c.kind@ == "declaration"@ && decl_name(c.children@).len() > 0 {
        Some(cpp_fn_id(module_id, parent_class, decl_name(c.children@)))
    } else {
        None
    }
}

/// The kinds of items that declare nodes are distinct names.
proof fn lemma_item_kinds_distinct()
    ensures
        "class_specifier"@ != "struct_specifier"@,
        "class_specifier"@ != "function_definition"@,
        "class_specifier"@ != "declaration"@,
        "struct_specifier"@ != "function_definition"@,
        "struct_specifier"@ != "declaration"@,
        "function_definition"@ != "declaration"@,
{
    reveal_strlit("class_specifier");
    reveal_strlit("struct_specifier");
    reveal_strlit("function_definition");
    reveal_strlit("declaration");
    assert("class_specifier"@[0] != "struct_specifier"@[0]);
    assert("class_specifier"@[0] != "function_definition"@[0]);
    assert("class_specifier"@[0] != "declaration"@[0]);
    assert("struct_specifier"@[0] != "function_definition"@[0]);
    assert("struct_specifier"@[0] != "declaration"@[0]);
    assert("function_definition"@[0] != "declaration"@[0]);
}

/// The id of the node an item of a template declares, if any: a named class
/// or a named function definition (see `cpp_item_id`).
pub open spec fn template_item_id(c: SyntaxNode, module_id: Seq<char>, parent_class: Option<Seq<char>>) -> Option<Seq<char>> {
    if c.kind@ == "class_specifier"@ || c.kind@ == "function_definition"@ {
        cpp_item_id(c, module_id, parent_class)
    } else {
        None
    }
}

/// Namespaces and templates are none of the items read before them, and not
/// each other.
proof fn lemma_scope_kinds_distinct()
    ensures
        "namespace_definition"@ != "class_specifier"@,
        "namespace_definition"@ != "struct_specifier"@,
        "namespace_definition"@ != "function_definition"@,
        "namespace_definition"@ != "declaration"@,
        "namespace_definition"@ != "preproc_include"@,
        "template_declaration"@ != "class_specifier"@,
        "template_declaration"@ != "struct_specifier"@,
        "template_declaration"@ != "function_definition"@,
        "template_declaration"@ != "declaration"@,
        "template_declaration"@ != "preproc_include"@,
        "template_declaration"@ != "namespace_definition"@,
{
    reveal_strlit("namespace_definition");
    reveal_strlit("template_declaration");
    reveal_strlit("class_specifier");
    reveal_strlit("struct_specifier");
    reveal_strlit("function_definition");
    reveal_strlit("declaration");
    reveal_strlit("preproc_include");
    assert("namespace_definition"@[0] != "class_specifier"@[0]);
    assert("namespace_definition"@[0] != "struct_specifier"@[0]);
    assert("namespace_definition"@[0] != "function_definition"@[0]);
    assert("namespace_definition"@[0] != "declaration"@[0]);
    assert("namespace_definition"@[0] != "preproc_include"@[0]);
    assert("template_declaration"@[0] != "class_specifier"@[0]);
    assert("template_declaration"@[0] != "struct_specifier"@[0]);
    assert("template_declaration"@[0] != "function_definition"@[0]);
    assert("template_declaration"@[0] != "declaration"@[0]);
    assert("template_declaration"@[0] != "preproc_include"@[0]);
    assert("template_declaration"@[0] != "namespace_definition"@[0]);
}

/// Reads the declarations of a translation unit or of a namespace body:
/// classes, structs, function definitions, prototypes, includes, namespaces
/// (read in place) and templates (their class or function).
pub fn process_translation_unit(
    node: &SyntaxNode,
    module_id: &str,
    rel_path: &str,
    graph: &mut CodeGraph,
    ctx: &mut ParseContext,
    parent_class: Option<&str>,
)
    requires
        cpp_walk_pre(*old(graph), *old(ctx), module_id@, opt_ref_str(parent_class)),
    ensures
        final(graph).wf(),
        links_within(old(graph)@, final(graph)@,
            link_targets(cpp_unit_links(*node, node.children@.len() as int, module_id@, opt_ref_str(parent_class))),
            cpp_unit_links(*node, node.children@.len() as int, module_id@, opt_ref_str(parent_class))),
        walked(old(graph)@, final(graph)@, *old(ctx), *final(ctx), rel_path@),
        forall|k: int| 0 <= k < node.children@.len() && (#[trigger] cpp_item_id(node.children@[k], module_id@, opt_ref_str(parent_class))) is Some
            ==> final(graph)@.has_id(cpp_item_id(node.children@[k], module_id@, opt_ref_str(parent_class))->0),
        forall|k: int, l: int, m: int| 0 <= k < node.children@.len() && node.children@[k].kind@ == "namespace_definition"@
            && 0 <= l < node.children@[k].children@.len() && node.children@[k].children@[l].kind@ == "declaration_list"@
            && 0 <= m < node.children@[k].children@[l].children@.len()
            && (#[trigger] cpp_item_id(node.children@[k].children@[l].children@[m], module_id@, opt_ref_str(parent_class))) is Some
            ==> final(graph)@.has_id(cpp_item_id(node.children@[k].children@[l].children@[m], module_id@, opt_ref_str(parent_class))->0),
        forall|k: int, l: int| 0 <= k < node.children@.len() && node.children@[k].kind@ == "template_declaration"@
            && 0 <= l < node.children@[k].children@.len()
            && (#[trigger] template_item_id(node.children@[k].children@[l], module_id@, opt_ref_str(parent_class))) is Some
            ==> final(graph)@.has_id(template_item_id(node.children@[k].children@[l], module_id@, opt_ref_str(parent_class))->0),
    decreases node,
{
    let ghost prefix = ctx.module_id@;
    let ghost pc = opt_ref_str(parent_class);
    proof { lemma_walked_refl(graph@, *ctx, rel_path@); }
    let mut i: usize = 0;
    while i < node.children.len()
        invariant
            i <= node.children@.len(),
            graph.wf(),
            pc == opt_ref_str(parent_class),
            ctx.module_id@ == prefix,
            old(ctx).module_id@ == prefix,
            starts_with(module_id@, prefix),
            opt_ref_str(parent_class) matches Some(c) ==> starts_with(c, prefix),
            walked(old(graph)@, graph@, *old(ctx), *ctx, rel_path@),
            forall|k: int| 0 <= k < i && (#[trigger] cpp_item_id(node.children@[k], module_id@, pc)) is Some
                ==> graph@.has_id(cpp_item_id(node.children@[k], module_id@, pc)->0),
            forall|k: int, l: int, m: int| 0 <= k < i && node.children@[k].kind@ == "namespace_definition"@
                && 0 <= l < node.children@[k].children@.len() && node.children@[k].children@[l].kind@ == "declaration_list"@
                && 0 <= m < node.children@[k].children@[l].children@.len()
                && (#[trigger] cpp_item_id(node.children@[k].children@[l].children@[m], module_id@, pc)) is Some
                ==> graph@.has_id(cpp_item_id(node.children@[k].children@[l].children@[m], module_id@, pc)->0),
            forall|k: int, l: int| 0 <= k < i && node.children@[k].kind@ == "template_declaration"@
                && 0 <= l < node.children@[k].children@.len()
                && (#[trigger] template_item_id(node.children@[k].children@[l], module_id@, pc)) is Some
                ==> graph@.has_id(template_item_id(node.children@[k].children@[l], module_id@, pc)->0),
            links_within(old(graph)@, graph@, link_targets(cpp_unit_links(*node, i as int, module_id@, pc)), cpp_unit_links(*node, i as int, module_id@, pc)),
        decreases node.children@.len() - i,
    {
        let child = &node.children[i];
        let ghost g0 = graph@;
        let ghost c0 = *ctx;
        let ghost item = cpp_item_id(*child, module_id@, pc);
        let ghost il = if child.kind@ == "class_specifier"@ || child.kind@ == "struct_specifier"@ {
            cpp_record_links(*child, module_id@)
        } else if child.kind@ == "function_definition"@ {
            cpp_fn_link(module_id@, pc, cpp_fn_name(child.children@))
        } else if child.kind@ == "declaration"@ {
            cpp_fn_link(module_id@, pc, decl_name(child.children@))
        } else if child.kind@ == "namespace_definition"@ {
            cpp_namespace_links(*child, child.children@.len() as int, module_id@, pc)
        } else if child.kind@ == "template_declaration"@ {
            cpp_template_links(*child, child.children@.len() as int, module_id@, pc)
        } else {
            Set::empty()
        };
        proof {
            lemma_walked_refl(g0, c0, rel_path@);
            lemma_item_kinds_distinct();
            lemma_scope_kinds_distinct();
            graph.lemma_valid();
        }
        if kind_is(child, "class_specifier") {
            parse_class(child, module_id, rel_path, graph, ctx);
            assert(item is Some ==> graph@.has_id(item->0));
        } else if kind_is(child, "struct_specifier") {
            parse_struct(child, module_id, rel_path, graph, ctx);
            assert(item is Some ==> graph@.has_id(item->0));
        } else if kind_is(child, "function_definition") {
            parse_function(child, module_id, rel_path, graph, ctx, parent_class);
            assert(item is Some ==> graph@.has_id(item->0));
        } else if kind_is(child, "declaration") {
            parse_declaration(child, module_id, rel_path, graph, parent_class, Ghost(prefix));
            assert(item is Some ==> graph@.has_id(item->0));
        } else if kind_is(child, "preproc_include") {
            parse_include(child, module_id, ctx);
            proof {
                assert(calls_view(ctx.pending_calls@) == calls_view(c0.pending_calls@));
                lemma_ctx_grown_refl(c0);
            }
        } else if kind_is(child, "namespace_definition") || kind_is(child, "template_declaration") {
            let is_namespace = kind_is(child, "namespace_definition");
            let mut j: usize = 0;
            while j < child.children.len()
                invariant
                    j <= child.children@.len(),
                    graph.wf(),
                    ctx.module_id@ == prefix,
                    starts_with(module_id@, prefix),
                    opt_ref_str(parent_class) matches Some(c) ==> starts_with(c, prefix),
                    walked(g0, graph@, c0, *ctx, rel_path@),
                    c0.module_id@ == prefix,
                    i < node.children@.len(),
                    *child == node.children@[i as int],
                    pc == opt_ref_str(parent_class),
                    is_namespace == (child.kind@ == "namespace_definition"@),
                    is_namespace ==> forall|l: int, m: int| 0 <= l < j && child.children@[l].kind@ == "declaration_list"@
                        && 0 <= m < child.children@[l].children@.len()
                        && (#[trigger] cpp_item_id(child.children@[l].children@[m], module_id@, pc)) is Some
                        ==> graph@.has_id(cpp_item_id(child.children@[l].children@[m], module_id@, pc)->0),
                    !is_namespace ==> forall|l: int| 0 <= l < j
                        && (#[trigger] template_item_id(child.children@[l], module_id@, pc)) is Some
                        ==> graph@.has_id(template_item_id(child.children@[l], module_id@, pc)->0),
                    is_namespace ==> links_within(g0, graph@, link_targets(cpp_namespace_links(*child, j as int, module_id@, pc)),
                        cpp_namespace_links(*child, j as int, module_id@, pc)),
                    !is_namespace ==> links_within(g0, graph@, link_targets(cpp_template_links(*child, j as int, module_id@, pc)),
                        cpp_template_links(*child, j as int, module_id@, pc)),
                decreases child.children@.len() - j,
            {
                let c = &child.children[j];
                let ghost g1 = graph@;
                let ghost c1 = *ctx;
                let ghost titem = template_item_id(*c, module_id@, pc);
                let ghost jl = if is_namespace {
                    if c.kind@ == "declaration_list"@ { cpp_unit_links(*c, c.children@.len() as int, module_id@, pc) } else { Set::empty() }
                } else if c.kind@ == "class_specifier"@ {
                    cpp_record_links(*c, module_id@)
                } else if c.kind@ == "function_definition"@ {
                    cpp_fn_link(module_id@, pc, cpp_fn_name(c.children@))
                } else {
                    Set::empty()
                };
                proof {
                    lemma_walked_refl(g1, c1, rel_path@);
                    lemma_item_kinds_distinct();
                    graph.lemma_valid();
                }
                assert(*c == node.children@[i as int].children@[j as int]);
                if is_namespace {
                    if kind_is(c, "declaration_list") {
                        process_translation_unit(c, module_id, rel_path, graph, ctx, parent_class);
                    }
                } else if kind_is(c, "class_specifier") {
                    parse_class(c, module_id, rel_path, graph, ctx);
                    assert(titem is Some ==> graph@.has_id(titem->0));
                } else if kind_is(c, "function_definition") {
                    parse_function(c, module_id, rel_path, graph, ctx, parent_class);
                    assert(titem is Some ==> graph@.has_id(titem->0));
                }
                proof {
                    if graph@ == g1 {
                        lemma_links_within_refl(graph@, link_targets(jl), jl);
                    }
                    assert(links_within(g1, graph@, link_targets(jl), jl));
                    assert(child.children@[j as int] == *c);
                    if is_namespace {
                        lemma_links_then(g0, g1, graph@, cpp_namespace_links(*child, j as int, module_id@, pc), jl, rel_path@, prefix, prefix);
                        assert(cpp_namespace_links(*child, j + 1, module_id@, pc) == cpp_namespace_links(*child, j as int, module_id@, pc).union(jl));
                    } else {
                        lemma_links_then(g0, g1, graph@, cpp_template_links(*child, j as int, module_id@, pc), jl, rel_path@, prefix, prefix);
                        assert(cpp_template_links(*child, j + 1, module_id@, pc) == cpp_template_links(*child, j as int, module_id@, pc).union(jl));
                    }
                    lemma_walked_trans(g0, g1, graph@, c0, c1, *ctx, rel_path@);
                    if is_namespace {
                        assert forall|l: int, m: int| 0 <= l < j + 1 && child.children@[l].kind@ == "declaration_list"@
                            && 0 <= m < child.children@[l].children@.len()
                            && (#[trigger] cpp_item_id(child.children@[l].children@[m], module_id@, pc)) is Some
                            implies graph@.has_id(cpp_item_id(child.children@[l].children@[m], module_id@, pc)->0) by {
                            if l < j {
                                lemma_grown_keeps_id(g1, graph@, rel_path@, prefix, cpp_item_id(child.children@[l].children@[m], module_id@, pc)->0);
                            }
                        }
                    } else {
                        assert forall|l: int| 0 <= l < j + 1
                            && (#[trigger] template_item_id(child.children@[l], module_id@, pc)) is Some
                            implies graph@.has_id(template_item_id(child.children@[l], module_id@, pc)->0) by {
                            if l < j {
                                lemma_grown_keeps_id(g1, graph@, rel_path@, prefix, template_item_id(child.children@[l], module_id@, pc)->0);
                            }
                        }
                    }
                }
                j = j + 1;
            }
        }
        proof {
            if graph@ == g0 {
                lemma_links_within_refl(graph@, link_targets(il), il);
            }
            assert(links_within(g0, graph@, link_targets(il), il));
            lemma_links_then(old(graph)@, g0, graph@, cpp_unit_links(*node, i as int, module_id@, pc), il, rel_path@, prefix, prefix);
            assert(node.children@[i as int] == *child);
            assert(cpp_unit_links(*node, i + 1, module_id@, pc) == cpp_unit_links(*node, i as int, module_id@, pc).union(il));
            lemma_walked_trans(old(graph)@, g0, graph@, *old(ctx), c0, *ctx, rel_path@);
            assert forall|k: int| 0 <= k < i + 1 && (#[trigger] cpp_item_id(node.children@[k], module_id@, pc)) is Some
                implies graph@.has_id(cpp_item_id(node.children@[k], module_id@, pc)->0) by {
                if k < i {
                    lemma_grown_keeps_id(g0, graph@, rel_path@, prefix, cpp_item_id(node.children@[k], module_id@, pc)->0);
                }
            }
            assert forall|k: int, l: int, m: int| 0 <= k < i + 1 && node.children@[k].kind@ == "namespace_definition"@
                && 0 <= l < node.children@[k].children@.len() && node.children@[k].children@[l].kind@ == "declaration_list"@
                && 0 <= m < node.children@[k].children@[l].children@.len()
                && (#[trigger] cpp_item_id(node.children@[k].children@[l].children@[m], module_id@, pc)) is Some
                implies graph@.has_id(cpp_item_id(node.children@[k].children@[l].children@[m], module_id@, pc)->0) by {
                if k < i {
                    lemma_grown_keeps_id(g0, graph@, rel_path@, prefix, cpp_item_id(node.children@[k].children@[l].children@[m], module_id@, pc)->0);
                }
            }
            assert forall|k: int, l: int| 0 <= k < i + 1 && node.children@[k].kind@ == "template_declaration"@
                && 0 <= l < node.children@[k].children@.len()
                && (#[trigger] template_item_id(node.children@[k].children@[l], module_id@, pc)) is Some
                implies graph@.has_id(template_item_id(node.children@[k].children@[l], module_id@, pc)->0) by {
                if k < i {
                    lemma_grown_keeps_id(g0, graph@, rel_path@, prefix, template_item_id(node.children@[k].children@[l], module_id@, pc)->0);
                }
            }
        }
        i = i + 1;
    }
}

/// What a C++ module's tree `t` at the path `rel` makes of the graph
/// `a`, giving the graph `b` and the context `ctx`.
pub open spec fn cpp_read(t: SyntaxNode, rel: Seq<char>, a: GraphModel, b: GraphModel, ctx: ParseContext) -> bool {
    &&& ctx.module_id@ == cpp_module_id(rel)
    &&& ctx.file@ == rel
    &&& declared(a, b, cpp_module_id(rel), NodeKind::Module)
    &&& grown(a, b, rel, cpp_module_id(rel))
    &&& forall|k: int| 0 <= k < t.children@.len() && (#[trigger] cpp_item_id(t.children@[k], cpp_module_id(rel), None)) is Some
            ==> b.has_id(cpp_item_id(t.children@[k], cpp_module_id(rel), None)->0)
    &&& forall|k: int, l: int, m: int| 0 <= k < t.children@.len() && t.children@[k].kind@ == "namespace_definition"@
            && 0 <= l < t.children@[k].children@.len() && t.children@[k].children@[l].kind@ == "declaration_list"@
            && 0 <= m < t.children@[k].children@[l].children@.len()
            && (#[trigger] cpp_item_id(t.children@[k].children@[l].children@[m], cpp_module_id(rel), None)) is Some
            ==> b.has_id(cpp_item_id(t.children@[k].children@[l].children@[m], cpp_module_id(rel), None)->0)
    &&& forall|k: int, l: int| 0 <= k < t.children@.len() && t.children@[k].kind@ == "template_declaration"@
            && 0 <= l < t.children@[k].children@.len()
            && (#[trigger] template_item_id(t.children@[k].children@[l], cpp_module_id(rel), None)) is Some
            ==> b.has_id(template_item_id(t.children@[k].children@[l], cpp_module_id(rel), None)->0)
    &&& links_within(a, b, link_targets(cpp_unit_links(t, t.children@.len() as int, cpp_module_id(rel), None)).insert(cpp_module_id(rel)),
            cpp_unit_links(t, t.children@.len() as int, cpp_module_id(rel), None))
}

/// Reads a C++ syntax tree: adds the module node (named by the last `/`
/// component of the module id) and everything `process_translation_unit`
/// finds, and returns the context for the resolution pass.
pub fn parse_tree(root: &SyntaxNode, rel_path: &str, graph: &mut CodeGraph) -> (ctx: ParseContext)
    requires
        old(graph).wf(),
    ensures
        final(graph).wf(),
        cpp_read(*root, rel_path@, old(graph)@, final(graph)@, ctx),
{
    let module_id = path_to_module_id(rel_path);
    let cs = chars_of(module_id.as_str());
    let slash = chars_of("/");
    let name = string_from(last_piece_of(cs.as_slice(), slash.as_slice()).as_slice());
    proof { lemma_starts_with_refl(module_id@); }
    add_file_node(graph, module_id.clone(), name, NodeKind::Module, rel_path.to_string(), 1, None, Ghost(module_id@));
    let ghost g1 = graph@;
    proof {
        graph.lemma_valid();
        assert(links_within(old(graph)@, g1, set![module_id@], Set::empty()));
    }
    let mut ctx = new_context(module_id.clone(), rel_path.to_string());
    process_translation_unit(root, module_id.as_str(), rel_path, graph, &mut ctx, None);
    proof {
        lemma_grown_trans(old(graph)@, g1, graph@, rel_path@, module_id@);
        graph.lemma_valid();
        lemma_declared_grown(old(graph)@, g1, graph@, rel_path@, module_id@, module_id@, NodeKind::Module);
        let l = cpp_unit_links(*root, root.children@.len() as int, module_id@, None);
        lemma_links_within_trans(old(graph)@, g1, graph@, set![module_id@], Set::empty(), link_targets(l), l);
        assert(set![module_id@].union(link_targets(l)) =~= link_targets(l).insert(module_id@));
        assert(Set::<(Seq<char>, Seq<char>)>::empty().union(l) =~= l);
    }
    ctx
}

/// What the tree that tree-sitter's grammar of `lang` gives for `source`
/// makes of the graph `a` at the path `rel`: a tree that the listing of the
/// source describes (see `syntax::describes`; there is at most one, see
/// `syntax::lemma_describes_unique`) reads as `b` and `ctx`.
pub open spec fn cpp_parsed(source: Seq<char>, lang: Language, rel: Seq<char>, a: GraphModel, b: GraphModel, ctx: ParseContext) -> bool {
    exists|t: SyntaxNode| describes(t, ts_preorder(source, lang)) && #[trigger] cpp_read(t, rel, a, b, ctx)
}

/// Parses a C++ source file and reads it (see `parse_tree`); fails when the
/// parser yields no tree.
pub fn parse_file(source: &str, rel_path: &str, graph: &mut CodeGraph) -> (r: Result<ParseContext, ParseError>)
    requires
        old(graph).wf(),
    ensures
        final(graph).wf(),
        r is Ok ==> declared(old(graph)@, final(graph)@, cpp_module_id(rel_path@), NodeKind::Module),
        r matches Ok(ctx) ==> ctx.module_id@ == cpp_module_id(rel_path@),
        r is Err <==> !grammar_accepted(Language::Cpp),
        r matches Err(e) ==> e == ParseError::LanguageError(Language::Cpp),
        r is Err ==> final(graph)@ == old(graph)@,
        r matches Ok(ctx) ==> cpp_parsed(source@, Language::Cpp, rel_path@, old(graph)@, final(graph)@, ctx),
        grown(old(graph)@, final(graph)@, rel_path@, cpp_module_id(rel_path@)),
{
    match parse_source(source, Language::Cpp) {
        Ok(root) => {
            let ctx = parse_tree(&root, rel_path, graph);
            assert(cpp_parsed(source@, Language::Cpp, rel_path@, old(graph)@, graph@, ctx)) by {
                assert(cpp_read(root, rel_path@, old(graph)@, graph@, ctx));
            }
            Ok(ctx)
        },
        Err(e) => {
            proof { lemma_grown_refl(graph@, rel_path@, cpp_module_id(rel_path@)); }
            Err(e)
        },
    }
}

} // verus!
