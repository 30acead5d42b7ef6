//! The Rust front-end: items, `use` paths, doc comments and call sites of a
//! Rust source file.
use vstd::prelude::*;

use crate::context::{calls_view, opt_ref_str, opt_str, pairs_view, CallView, ctx_grown, lemma_ctx_grown_refl, lemma_ctx_grown_trans, lemma_store_all_push, store_all, ParseContext, PendingCall};
use crate::front::{add_declaration, links_within, link_targets, lemma_links_within_refl, lemma_links_within_trans, lemma_links_single, lemma_links_then, node_fields, lemma_node_fields_grown, lemma_grown_keeps_link, line_at, declared, lemma_declared_grown, member_kind, lemma_starts_with_refl, child_id, last_child_of_kind, lemma_only_calls_grown, lemma_walked_refl, lemma_walked_trans, line_of, walked, lemma_only_calls_refl, lemma_only_calls_trans, only_calls_added, record_call, add_contains, add_file_node, grown, kind_is, lemma_grown_keeps_id, lemma_grown_refl, lemma_grown_trans, lemma_starts_with_concat, lemma_starts_with_trans, new_context, push_call, push_inherit, push_mod, push_uses_type, push_uses_types, paired, texts_view};
use crate::model::{CodeGraph, EdgeKind, GraphModel, NodeKind};
use crate::resolve::has_link;
use crate::syntax::{describes, grammar_accepted, parse_source, ts_preorder, ParseError, SyntaxNode};
use crate::context::Language;
use crate::text::{
    cat, cat3, chars_eq, chars_of, find_from, first_from, lemma_contains_char, lemma_first_from_bounds, occurs_at, pieces, pieces_of, ends_with, has_char, has_prefix, has_suffix, join, join_of, last_piece, last_piece_of, replace_all,
    replace_of, starts_with, string_from, strip_leading, strip_leading_of, strip_trailing, strip_trailing_of, sub_chars,
    single, trim_of, trim_white, lemma_replace_all_concat, lemma_no_straddle_single, lemma_replace_all_absent, lemma_strip_trailing_concat,
    lemma_strip_trailing_absent, lemma_ends_with_concat, no_straddle,
};

verus! {

/// The module id of a Rust file: the path without `.rs`, with `::` for path
/// separators, without leading `::` and `src::`, and with a final `::mod`,
/// `::lib` or `::main` dropped (those files define their parent module).
pub open spec fn rust_module_id(rel: Seq<char>) -> Seq<char> {
    let a = strip_trailing(rel, ".rs"@);
    let b = replace_all(replace_all(a, "/"@, "::"@), "\\"@, "::"@);
    let c = replace_all(strip_leading(b, "::"@), "src::"@, Seq::empty());
    if ends_with(c, "::mod"@) || ends_with(c, "::lib"@) {
        c.subrange(0, c.len() - 5)
    } else if ends_with(c, "::main"@) {
        c.subrange(0, c.len() - 6)
    } else {
        c
    }
}

/// A directory path with `::` for its separators `/` and `\\`.
pub open spec fn dir_path(d: Seq<char>) -> Seq<char> {
    replace_all(replace_all(d, "/"@, "::"@), "\\"@, "::"@)
}

/// The path of a file `m.rs` in the directory `d`, as the module id is built
/// from it before a final `::mod`, `::lib` or `::main` is dropped: the
/// directory's path, `::`, then `m`.
proof fn lemma_dir_file_path(d: Seq<char>, m: Seq<char>)
    requires
        dir_path(d).len() > 0,
        dir_path(d)[0] != ':',
        dir_path(d).last() != ':',
        !ends_with(dir_path(d), "src"@),
        m.len() > 0,
        m.last() != 's',
        forall|i: int| 0 <= i < m.len() ==> m[i] != '/' && m[i] != '\\' && m[i] != ':',
    ensures
        replace_all(strip_leading(replace_all(replace_all(strip_trailing(d + "/"@ + m + ".rs"@, ".rs"@), "/"@, "::"@), "\\"@, "::"@), "::"@),
            "src::"@, Seq::empty()) == replace_all(dir_path(d), "src::"@, Seq::empty()) + "::"@ + m,
{
    reveal_strlit("/");
    reveal_strlit("\\");
    reveal_strlit("::");
    reveal_strlit(".rs");
    reveal_strlit("src::");
    reveal_strlit("src");
    let r = dir_path(d);
    let y = "::"@ + m;
    // The `.rs` goes.
    let a = d + "/"@ + m;
    lemma_strip_trailing_concat(a, ".rs"@);
    assert(!ends_with(a, ".rs"@)) by {
        if ends_with(a, ".rs"@) {
            assert(a.subrange(a.len() - 3, a.len() as int)[2] == a[a.len() - 1]);
            assert(a[a.len() - 1] == m[m.len() - 1]);
        }
    }
    lemma_strip_trailing_absent(a, ".rs"@);
    // `/` becomes `::`.
    assert(a =~= d + ("/"@ + m));
    lemma_no_straddle_single(d, "/"@ + m, "/"@);
    lemma_replace_all_concat(d, "/"@ + m, "/"@, "::"@);
    lemma_no_straddle_single("/"@, m, "/"@);
    lemma_replace_all_concat("/"@, m, "/"@, "::"@);
    lemma_first_from_bounds("/"@, "/"@, 0);
    assert(occurs_at("/"@, "/"@, 0));
    assert(replace_all("/"@.skip(1), "/"@, "::"@) == Seq::<char>::empty()) by {
        assert("/"@.skip(1) =~= Seq::<char>::empty());
    }
    assert(replace_all("/"@, "/"@, "::"@) =~= "::"@);
    lemma_replace_all_absent(m, "/"@, "::"@);
    let b1 = replace_all(d, "/"@, "::"@) + y;
    assert(replace_all(a, "/"@, "::"@) =~= b1);
    // `\\` becomes `::`.
    lemma_no_straddle_single(replace_all(d, "/"@, "::"@), y, "\\"@);
    lemma_replace_all_concat(replace_all(d, "/"@, "::"@), y, "\\"@, "::"@);
    lemma_replace_all_absent(y, "\\"@, "::"@);
    let b = r + y;
    // No leading `::`.
    assert(!starts_with(b, "::"@)) by {
        if starts_with(b, "::"@) {
            assert(b.subrange(0, 2)[0] == b[0]);
        }
    }
    // `src::` is dropped within the directory's path only.
    assert forall|i: int| 0 <= i < r.len() && r.len() < i + "src::"@.len() implies !#[trigger] occurs_at(r + y, "src::"@, i) by {
        if occurs_at(r + y, "src::"@, i) {
            let k = r.len() - i;
            if k == 1 {
                assert((r + y)[i + 1] == "src::"@[1]);
            } else if k == 2 {
                assert((r + y)[i + 2] == "src::"@[2]);
            } else if k == 3 {
                assert forall|j: int| 0 <= j < 3 implies r.subrange(r.len() - 3, r.len() as int)[j] == "src"@[j] by {
                    assert((r + y)[i + j] == "src::"@[j]);
                }
                assert(r.subrange(r.len() - 3, r.len() as int) =~= "src"@);
            } else {
                assert((r + y)[i + 3] == "src::"@[3]);
            }
        }
    }
    lemma_replace_all_concat(r, y, "src::"@, Seq::empty());
    assert forall|q: int| !occurs_at(y, "src::"@, q) by {
        if occurs_at(y, "src::"@, q) {
            assert(y[q + 3] == "src::"@[3]);
            assert(y[q + 3] == m[q + 1]);
        }
    }
    lemma_first_from_bounds(y, "src::"@, 0);
    assert(replace_all(y, "src::"@, Seq::empty()) == y);
    assert(replace_all(r, "src::"@, Seq::empty()) + y =~= replace_all(r, "src::"@, Seq::empty()) + "::"@ + m);
}

/// The `mod.rs`, `lib.rs` and `main.rs` files of a directory all define the
/// directory's own module: each gets the module id of the directory path,
/// with `::` for separators and `src::` dropped, with no component for the
/// file itself. The directory path must not begin or end with a separator,
/// nor end with `src` (whose `src::` the file name would complete).
pub proof fn lemma_dir_files_name_their_directory(d: Seq<char>)
    requires
        dir_path(d).len() > 0,
        dir_path(d)[0] != ':',
        dir_path(d).last() != ':',
        !ends_with(dir_path(d), "src"@),
    ensures
        rust_module_id(d + "/mod.rs"@) == replace_all(dir_path(d), "src::"@, Seq::empty()),
        rust_module_id(d + "/lib.rs"@) == replace_all(dir_path(d), "src::"@, Seq::empty()),
        rust_module_id(d + "/main.rs"@) == replace_all(dir_path(d), "src::"@, Seq::empty()),
{
    reveal_strlit("/");
    reveal_strlit(".rs");
    reveal_strlit("mod");
    reveal_strlit("lib");
    reveal_strlit("main");
    reveal_strlit("/mod.rs");
    reveal_strlit("/lib.rs");
    reveal_strlit("/main.rs");
    reveal_strlit("::");
    reveal_strlit("::mod");
    reveal_strlit("::lib");
    reveal_strlit("::main");
    let dir = replace_all(dir_path(d), "src::"@, Seq::empty());
    assert(d + "/"@ + "mod"@ + ".rs"@ =~= d + "/mod.rs"@);
    assert(d + "/"@ + "lib"@ + ".rs"@ =~= d + "/lib.rs"@);
    assert(d + "/"@ + "main"@ + ".rs"@ =~= d + "/main.rs"@);
    lemma_dir_file_path(d, "mod"@);
    lemma_dir_file_path(d, "lib"@);
    lemma_dir_file_path(d, "main"@);
    let cm = dir + "::mod"@;
    let cl = dir + "::lib"@;
    let cn = dir + "::main"@;
    assert(dir + "::"@ + "mod"@ =~= cm);
    assert(dir + "::"@ + "lib"@ =~= cl);
    assert(dir + "::"@ + "main"@ =~= cn);
    lemma_ends_with_concat(dir, "::mod"@, "::mod"@);
    assert("::mod"@.subrange(0, "::mod"@.len() as int) =~= "::mod"@);
    assert(cm.subrange(0, cm.len() - 5) =~= dir);
    lemma_ends_with_concat(dir, "::lib"@, "::mod"@);
    assert("::lib"@[2] != "::mod"@[2]);
    lemma_ends_with_concat(dir, "::lib"@, "::lib"@);
    assert("::lib"@.subrange(0, "::lib"@.len() as int) =~= "::lib"@);
    assert(cl.subrange(0, cl.len() - 5) =~= dir);
    lemma_ends_with_concat(dir, "::main"@, "::mod"@);
    assert("::main"@.subrange(1, 6)[1] != "::mod"@[1]);
    lemma_ends_with_concat(dir, "::main"@, "::lib"@);
    assert("::main"@.subrange(1, 6)[1] != "::lib"@[1]);
    lemma_ends_with_concat(dir, "::main"@, "::main"@);
    assert("::main"@.subrange(0, "::main"@.len() as int) =~= "::main"@);
    assert(cn.subrange(0, cn.len() - 6) =~= dir);
}

/// The module id of a Rust file (see `rust_module_id`).
pub fn path_to_module_id(rel_path: &str) -> (r: String)
    ensures
        r@ == rust_module_id(rel_path@),
{
    let rel = chars_of(rel_path);
    let rs = chars_of(".rs");
    let slash = chars_of("/");
    let backslash = chars_of("\\");
    let sep = chars_of("::");
    let src = chars_of("src::");
    let empty: Vec<char> = Vec::new();
    let a = strip_trailing_of(rel.as_slice(), rs.as_slice());
    let b1 = replace_of(a.as_slice(), slash.as_slice(), sep.as_slice());
    let b = replace_of(b1.as_slice(), backslash.as_slice(), sep.as_slice());
    let c1 = strip_leading_of(b.as_slice(), sep.as_slice());
    let c = replace_of(c1.as_slice(), src.as_slice(), empty.as_slice());
    assert(empty@ =~= Seq::<char>::empty());
    let m = chars_of("::mod");
    let l = chars_of("::lib");
    let mn = chars_of("::main");
    proof {
        reveal_strlit("::mod");
        reveal_strlit("::lib");
        reveal_strlit("::main");
    }
    if has_suffix(c.as_slice(), m.as_slice()) || has_suffix(c.as_slice(), l.as_slice()) {
        let t = sub_chars(c.as_slice(), 0, c.len() - 5);
        string_from(t.as_slice())
    } else if has_suffix(c.as_slice(), mn.as_slice()) {
        let t = sub_chars(c.as_slice(), 0, c.len() - 6);
        string_from(t.as_slice())
    } else {
        string_from(c.as_slice())
    }
}

/// A `///` line comment.
pub open spec fn is_doc_line(n: SyntaxNode) -> bool {
    n.kind@ == "line_comment"@ && starts_with(n.text@, "///"@)
}

/// The doc comment lines directly before sibling `i`, in source order, each
/// without its `///` and trimmed.
pub open spec fn doc_lines(sibs: Seq<SyntaxNode>, i: int) -> Seq<Seq<char>>
    decreases i,
{
    if i <= 0 || i > sibs.len() {
        Seq::empty()
    } else if is_doc_line(sibs[i - 1]) {
        doc_lines(sibs, i - 1).push(trim_white(strip_leading(sibs[i - 1].text@, "///"@)))
    } else {
        Seq::empty()
    }
}

/// The doc comment of sibling `i`: its doc lines joined by newlines, or
/// nothing when there is none.
pub open spec fn doc_comment(sibs: Seq<SyntaxNode>, i: int) -> Option<Seq<char>> {
    if doc_lines(sibs, i).len() == 0 {
        None
    } else {
        Some(join(doc_lines(sibs, i), "\n"@))
    }
}


/// The doc comment written before sibling `i` (see `doc_comment`).
pub fn get_doc_comment(sibs: &Vec<SyntaxNode>, i: usize) -> (r: Option<String>)
    requires
        i <= sibs@.len(),
    ensures
        opt_str(r) == doc_comment(sibs@, i as int),
{
    let comment = chars_of("line_comment");
    let marker = chars_of("///");
    let mut k = i;
    while k > 0 && kind_is(&sibs[k - 1], "line_comment") && has_prefix(chars_of(sibs[k - 1].text.as_str()).as_slice(), marker.as_slice())
        invariant
            k <= i <= sibs@.len(),
            marker@ == "///"@,
            forall|m: int| k <= m < i ==> is_doc_line(#[trigger] sibs@[m]),
        decreases k,
    {
        k = k - 1;
    }
    assert(doc_lines(sibs@, k as int) == Seq::<Seq<char>>::empty());
    let mut lines: Vec<Vec<char>> = Vec::new();
    let mut j = k;
    while j < i
        invariant
            k <= j <= i <= sibs@.len(),
            marker@ == "///"@,
            forall|m: int| k <= m < i ==> is_doc_line(#[trigger] sibs@[m]),
            lines@.map_values(|v: Vec<char>| v@) == doc_lines(sibs@, j as int),
        decreases i - j,
    {
        let text = chars_of(sibs[j].text.as_str());
        let stripped = strip_leading_of(text.as_slice(), marker.as_slice());
        let line = trim_of(stripped.as_slice());
        let ghost before = lines@.map_values(|v: Vec<char>| v@);
        lines.push(line);
        assert(is_doc_line(sibs@[j as int]));
        assert(lines@.map_values(|v: Vec<char>| v@) =~= before.push(line@));
        j = j + 1;
    }
    if lines.len() == 0 {
        None
    } else {
        let nl = chars_of("\n");
        let joined = join_of(&lines, nl.as_slice());
        Some(string_from(joined.as_slice()))
    }
}

/// A name accepted as a callee: non-empty, under 64 bytes, without
/// parentheses.
pub open spec fn valid_callee(name: Seq<char>) -> bool {
    name.len() > 0 && (vstd::utf8::encode_utf8(name).len() as usize) < 64 && !name.contains('(') && !name.contains(')')
}

/// Whether a name is accepted as a callee (see `valid_callee`).
pub fn is_valid_callee(name: &str) -> (r: bool)
    ensures
        r == valid_callee(name@),
{
    let cs = chars_of(name);
    cs.len() > 0 && name.len() < 64 && !has_char(cs.as_slice(), '(') && !has_char(cs.as_slice(), ')')
}

/// The last `::`-separated component of a path.
pub fn last_component(path: &str) -> (r: String)
    ensures
        r@ == last_piece(path@, "::"@),
{
    let cs = chars_of(path);
    let sep = chars_of("::");
    let last = last_piece_of(cs.as_slice(), sep.as_slice());
    string_from(last.as_slice())
}

} // verus!

verus! {

/// The path named by a `use` declaration's text: without visibility, `use`,
/// the final `;` and surrounding white space, and without a leading `crate::`
/// or `self::`.
pub open spec fn use_path(text: Seq<char>) -> Seq<char> {
    let raw = trim_white(strip_trailing(strip_leading(strip_leading(strip_leading(text, "pub(crate) "@), "pub "@), "use "@), ";"@));
    if starts_with(raw, "crate::"@) {
        raw.skip(7)
    } else if starts_with(raw, "self::"@) {
        raw.skip(6)
    } else {
        raw
    }
}

/// For the items of a braced group under `prefix`: each non-empty item other
/// than `..` is stored under its own name and under its full path.
pub open spec fn brace_stores(prefix: Seq<char>, items: Seq<Seq<char>>) -> Seq<(Seq<char>, Seq<char>)>
    decreases items.len(),
{
    if items.len() == 0 {
        Seq::empty()
    } else {
        let item = trim_white(items.last());
        let full = prefix + "::"@ + item;
        if item.len() > 0 && item != ".."@ {
            brace_stores(prefix, items.drop_last()).push((item, full)).push((full, full))
        } else {
            brace_stores(prefix, items.drop_last())
        }
    }
}

/// The import table entries a `use` path stores, in order: for
/// `p::{a, b}` each item under its name and its full path; for `p::*` the
/// prefix under itself; otherwise the path under its last component and under
/// itself. (The group runs from the first `{` to the first `}`, or to the end
/// of the path; a `}` before the `{` gives an empty group.)
pub open spec fn use_stores(path: Seq<char>) -> Seq<(Seq<char>, Seq<char>)> {
    if path.contains('{') {
        let open = first_from(path, seq!['{'], 0);
        let close = first_from(path, seq!['}'], 0);
        let prefix = strip_trailing(path.subrange(0, open), "::"@);
        let end = if close < 0 { path.len() as int } else { close };
        let items = if end <= open { Seq::empty() } else { path.subrange(open + 1, end) };
        brace_stores(prefix, pieces(items, seq![',']))
    } else if ends_with(path, "::*"@) {
        let prefix = strip_trailing(path, "::*"@);
        seq![(prefix, prefix)]
    } else {
        let short = last_piece(path, "::"@);
        seq![(short, path), (path, path)]
    }
}

/// The path of a `use` declaration (see `use_path`).
pub fn use_decl_path(text: &str) -> (r: Vec<char>)
    ensures
        r@ == use_path(text@),
{
    let t = chars_of(text);
    let a = strip_leading_of(t.as_slice(), chars_of("pub(crate) ").as_slice());
    let b = strip_leading_of(a.as_slice(), chars_of("pub ").as_slice());
    let c = strip_leading_of(b.as_slice(), chars_of("use ").as_slice());
    let d = strip_trailing_of(c.as_slice(), chars_of(";").as_slice());
    let raw = trim_of(d.as_slice());
    let krate = chars_of("crate::");
    let slf = chars_of("self::");
    proof {
        reveal_strlit("crate::");
        reveal_strlit("self::");
    }
    if has_prefix(raw.as_slice(), krate.as_slice()) {
        sub_chars(raw.as_slice(), 7, raw.len())
    } else if has_prefix(raw.as_slice(), slf.as_slice()) {
        sub_chars(raw.as_slice(), 6, raw.len())
    } else {
        raw
    }
}

/// Records the imports of a `use` declaration in the context (see
/// `use_stores`); nothing else changes.
pub fn parse_use(node: &SyntaxNode, ctx: &mut ParseContext)
    ensures
        final(ctx).imports@ == store_all(old(ctx).imports@, use_stores(use_path(node.text@))),
        final(ctx).module_id == old(ctx).module_id,
        final(ctx).file == old(ctx).file,
        final(ctx).alias_map == old(ctx).alias_map,
        final(ctx).pending_calls == old(ctx).pending_calls,
        final(ctx).pending_inherits == old(ctx).pending_inherits,
        final(ctx).pending_uses_type == old(ctx).pending_uses_type,
        final(ctx).pending_mods == old(ctx).pending_mods,
        final(ctx).local_var_types == old(ctx).local_var_types,
        final(ctx).class_fields == old(ctx).class_fields,
{
    let path = use_decl_path(node.text.as_str());
    let ghost base = old(ctx).imports@;
    let open_brace = find_from(path.as_slice(), single('{').as_slice(), 0);
    proof {
        lemma_first_from_bounds(path@, seq!['{'], 0);
        lemma_contains_char(path@, '{');
    }
    match open_brace {
        Some(open) => {
            let colons = chars_of("::");
            let head = sub_chars(path.as_slice(), 0, open);
            let prefix = strip_trailing_of(head.as_slice(), colons.as_slice());
            let close = find_from(path.as_slice(), single('}').as_slice(), 0);
            proof { lemma_first_from_bounds(path@, seq!['}'], 0); }
            let end = match close {
                Some(c) => c,
                None => path.len(),
            };
            let items = if end <= open {
                Vec::new()
            } else {
                sub_chars(path.as_slice(), open + 1, end)
            };
            let ghost items_view = if end < open + 1 { Seq::<char>::empty() } else { path@.subrange(open + 1, end as int) };
            assert(items@ =~= items_view);
            let parts = pieces_of(items.as_slice(), single(',').as_slice());
            let ghost ps = parts@.map_values(|v: Vec<char>| v@);
            assert(ps == pieces(items_view, seq![',']));
            let mut j: usize = 0;
            assert(brace_stores(prefix@, ps.subrange(0, 0)) =~= Seq::<(Seq<char>, Seq<char>)>::empty());
            while j < parts.len()
                invariant
                    j <= parts@.len(),
                    ps == parts@.map_values(|v: Vec<char>| v@),
                    colons@ == "::"@,
                    ctx.imports@ == store_all(base, brace_stores(prefix@, ps.subrange(0, j as int))),
                    ctx.module_id == old(ctx).module_id,
                    ctx.file == old(ctx).file,
                    ctx.alias_map == old(ctx).alias_map,
                    ctx.pending_calls == old(ctx).pending_calls,
                    ctx.pending_inherits == old(ctx).pending_inherits,
                    ctx.pending_uses_type == old(ctx).pending_uses_type,
                    ctx.pending_mods == old(ctx).pending_mods,
                    ctx.local_var_types == old(ctx).local_var_types,
                    ctx.class_fields == old(ctx).class_fields,
                decreases parts@.len() - j,
            {
                let item = trim_of(parts[j].as_slice());
                let dots = chars_of("..");
                proof {
                    assert(ps.subrange(0, j + 1).drop_last() =~= ps.subrange(0, j as int));
                    assert(ps.subrange(0, j + 1).last() == parts@[j as int]@);
                }
                if item.len() > 0 && !chars_eq(item.as_slice(), dots.as_slice()) {
                    let full1 = cat(prefix.as_slice(), colons.as_slice());
                    let full = cat(full1.as_slice(), item.as_slice());
                    let ghost pre = brace_stores(prefix@, ps.subrange(0, j as int));
                    ctx.imports.insert(string_from(item.as_slice()), string_from(full.as_slice()));
                    ctx.imports.insert(string_from(full.as_slice()), string_from(full.as_slice()));
                    proof {
                        lemma_store_all_push(base, pre, item@, full@);
                        lemma_store_all_push(base, pre.push((item@, full@)), full@, full@);
                    }
                }
                j = j + 1;
            }
            assert(ps.subrange(0, parts@.len() as int) =~= ps);
            assert(use_stores(path@) == brace_stores(prefix@, ps));
        },
        None => {
            let star = chars_of("::*");
            if has_suffix(path.as_slice(), star.as_slice()) {
                let prefix = strip_trailing_of(path.as_slice(), star.as_slice());
                ctx.imports.insert(string_from(prefix.as_slice()), string_from(prefix.as_slice()));
                proof {
                    lemma_store_all_push(base, Seq::empty(), prefix@, prefix@);
                    assert(seq![(prefix@, prefix@)] =~= Seq::<(Seq<char>, Seq<char>)>::empty().push((prefix@, prefix@)));
                    assert(!path@.contains('{'));
                    assert(use_stores(path@) == seq![(prefix@, prefix@)]);
                }
            } else {
                let colons = chars_of("::");
                let short = last_piece_of(path.as_slice(), colons.as_slice());
                ctx.imports.insert(string_from(short.as_slice()), string_from(path.as_slice()));
                ctx.imports.insert(string_from(path.as_slice()), string_from(path.as_slice()));
                proof {
                    let s0 = Seq::<(Seq<char>, Seq<char>)>::empty();
                    lemma_store_all_push(base, s0, short@, path@);
                    lemma_store_all_push(base, s0.push((short@, path@)), path@, path@);
                    assert(seq![(short@, path@), (path@, path@)] =~= s0.push((short@, path@)).push((path@, path@)));
                }
            }
        },
    }
}

} // verus!

verus! {

/// The index of the first node satisfying `p`, or -1.
pub open spec fn first_where(cs: Seq<SyntaxNode>, p: spec_fn(SyntaxNode) -> bool) -> int
    decreases cs.len(),
{
    if cs.len() == 0 {
        -1
    } else if first_where(cs.drop_last(), p) >= 0 {
        first_where(cs.drop_last(), p)
    } else if p(cs.last()) {
        cs.len() - 1
    } else {
        -1
    }
}

/// The index of the last node satisfying `p`, or -1.
pub open spec fn last_where(cs: Seq<SyntaxNode>, p: spec_fn(SyntaxNode) -> bool) -> int
    decreases cs.len(),
{
    if cs.len() == 0 {
        -1
    } else if p(cs.last()) {
        cs.len() - 1
    } else {
        last_where(cs.drop_last(), p)
    }
}

pub proof fn lemma_first_where_step(cs: Seq<SyntaxNode>, p: spec_fn(SyntaxNode) -> bool, i: int)
    requires
        0 <= i < cs.len(),
        first_where(cs.subrange(0, i), p) == -1,
    ensures
        p(cs[i]) ==> first_where(cs.subrange(0, i + 1), p) == i,
        !p(cs[i]) ==> first_where(cs.subrange(0, i + 1), p) == -1,
{
    assert(cs.subrange(0, i + 1).drop_last() =~= cs.subrange(0, i));
}

pub proof fn lemma_last_where_bounds(cs: Seq<SyntaxNode>, p: spec_fn(SyntaxNode) -> bool)
    ensures
        -1 <= last_where(cs, p) < cs.len(),
    decreases cs.len(),
{
    if cs.len() > 0 {
        lemma_last_where_bounds(cs.drop_last(), p);
    }
}

pub proof fn lemma_last_where_step(cs: Seq<SyntaxNode>, p: spec_fn(SyntaxNode) -> bool, i: int)
    requires
        0 <= i < cs.len(),
    ensures
        p(cs[i]) ==> last_where(cs.subrange(0, i + 1), p) == i,
        !p(cs[i]) ==> last_where(cs.subrange(0, i + 1), p) == last_where(cs.subrange(0, i), p),
{
    assert(cs.subrange(0, i + 1).drop_last() =~= cs.subrange(0, i));
}

pub open spec fn is_callee_node(c: SyntaxNode) -> bool {
    c.kind@ == "identifier"@ || c.kind@ == "scoped_identifier"@
}

/// Nodes of the given kind.
pub open spec fn of_kind(k: Seq<char>) -> spec_fn(SyntaxNode) -> bool {
    |c: SyntaxNode| c.kind@ == k
}

pub open spec fn callee_nodes() -> spec_fn(SyntaxNode) -> bool {
    |c: SyntaxNode| is_callee_node(c)
}

/// The call a `call_expression` records: the first identifier or scoped
/// identifier child names the callee (a scoped one by its last `::`
/// component), kept when it is a valid callee.
pub open spec fn call_expr_calls(n: SyntaxNode, caller: Seq<char>, in_type: Option<Seq<char>>) -> Seq<CallView> {
    let i = first_where(n.children@, callee_nodes());
    if i < 0 {
        Seq::empty()
    } else {
        let c = n.children@[i];
        let name = if c.kind@ == "identifier"@ { c.text@ } else { last_piece(c.text@, "::"@) };
        if valid_callee(name) {
            seq![(caller, name, None, in_type)]
        } else {
            Seq::empty()
        }
    }
}

/// The call a `method_call_expression` records: the last field identifier
/// names the method, the first identifier (if any) the receiver.
pub open spec fn method_calls(n: SyntaxNode, caller: Seq<char>, in_type: Option<Seq<char>>) -> Seq<CallView> {
    let m = last_where(n.children@, of_kind("field_identifier"@));
    let r = first_where(n.children@, of_kind("identifier"@));
    if m < 0 {
        Seq::empty()
    } else {
        let receiver = if r < 0 { None } else { Some(n.children@[r].text@) };
        seq![(caller, n.children@[m].text@, receiver, in_type)]
    }
}

pub open spec fn is_rust_nested(c: SyntaxNode) -> bool {
    ||| c.kind@ == "expression_statement"@
    ||| c.kind@ == "let_declaration"@
    ||| c.kind@ == "return_expression"@
    ||| c.kind@ == "if_expression"@
    ||| c.kind@ == "match_expression"@
    ||| c.kind@ == "block"@
}

/// The calls found among the given nodes of a function body, in order: call
/// and method call expressions, looking into statements, `let`, `return`,
/// `if`, `match` and nested blocks.
pub open spec fn calls_in(cs: Seq<SyntaxNode>, caller: Seq<char>, in_type: Option<Seq<char>>) -> Seq<CallView>
    decreases cs,
{
    if cs.len() == 0 {
        Seq::empty()
    } else {
        let c = cs.last();
        let here = if c.kind@ == "call_expression"@ {
            call_expr_calls(c, caller, in_type)
        } else if c.kind@ == "method_call_expression"@ {
            method_calls(c, caller, in_type)
        } else if is_rust_nested(c) {
            calls_in(c.children@, caller, in_type)
        } else {
            Seq::empty()
        };
        calls_in(cs.drop_last(), caller, in_type) + here
    }
}

/// Records the call of a `call_expression` (see `call_expr_calls`).
pub fn parse_call_expr(node: &SyntaxNode, caller_id: &str, in_type: Option<&str>, ctx: &mut ParseContext)
    ensures
        only_calls_added(*old(ctx), *final(ctx), call_expr_calls(*node, caller_id@, opt_ref_str(in_type))),
{
    let mut i: usize = 0;
    while i < node.children.len()
        invariant
            i <= node.children@.len(),
            first_where(node.children@.subrange(0, i as int), callee_nodes()) == -1,
            *ctx == *old(ctx),
        decreases node.children@.len() - i,
    {
        let child = &node.children[i];
        proof {
            lemma_first_where_step(node.children@, callee_nodes(), i as int);
            assert(callee_nodes()(node.children@[i as int]) == is_callee_node(node.children@[i as int]));
        }
        if kind_is(child, "identifier") || kind_is(child, "scoped_identifier") {
            proof {
                lemma_first_where_prefix(node.children@, callee_nodes(), i as int);
            }
            let name = if kind_is(child, "identifier") {
                child.text.clone()
            } else {
                last_component(child.text.as_str())
            };
            if is_valid_callee(name.as_str()) {
                record_call(ctx, caller_id, name, None, in_type);
            } else {
                proof { lemma_only_calls_refl(*ctx); }
            }
            return;
        }
        i = i + 1;
    }
    proof {
        assert(node.children@.subrange(0, node.children@.len() as int) =~= node.children@);
        lemma_only_calls_refl(*ctx);
    }
}

} // verus!

verus! {

/// When the first match lies at `i`, the whole sequence's first match is `i`.
pub proof fn lemma_first_where_prefix(cs: Seq<SyntaxNode>, p: spec_fn(SyntaxNode) -> bool, i: int)
    requires
        0 <= i < cs.len(),
        first_where(cs.subrange(0, i + 1), p) == i,
    ensures
        first_where(cs, p) == i,
    decreases cs.len(),
{
    if cs.len() > i + 1 {
        assert(cs.drop_last().subrange(0, i + 1) =~= cs.subrange(0, i + 1));
        lemma_first_where_prefix(cs.drop_last(), p, i);
    } else {
        assert(cs.subrange(0, i + 1) =~= cs);
    }
}

} // verus!

verus! {

/// Records the call of a `method_call_expression` (see `method_calls`).
pub fn parse_method_call_expr(node: &SyntaxNode, caller_id: &str, in_type: Option<&str>, ctx: &mut ParseContext)
    ensures
        only_calls_added(*old(ctx), *final(ctx), method_calls(*node, caller_id@, opt_ref_str(in_type))),
{
    let mut receiver: Option<String> = None;
    let mut method: Option<String> = None;
    let mut i: usize = 0;
    while i < node.children.len()
        invariant
            i <= node.children@.len(),
            last_where(node.children@.subrange(0, i as int), of_kind("field_identifier"@)) < 0 ==> method is None,
            last_where(node.children@.subrange(0, i as int), of_kind("field_identifier"@)) >= 0 ==> method is Some
                && method->0@ == node.children@[last_where(node.children@.subrange(0, i as int), of_kind("field_identifier"@))].text@,
            last_where(node.children@.subrange(0, i as int), of_kind("field_identifier"@)) < i,
            first_where(node.children@.subrange(0, i as int), of_kind("identifier"@)) < 0 ==> receiver is None,
            first_where(node.children@.subrange(0, i as int), of_kind("identifier"@)) >= 0 ==> receiver is Some
                && receiver->0@ == node.children@[first_where(node.children@.subrange(0, i as int), of_kind("identifier"@))].text@,
            first_where(node.children@.subrange(0, i as int), of_kind("identifier"@)) < i,
        decreases node.children@.len() - i,
    {
        let child = &node.children[i];
        proof {
            lemma_last_where_step(node.children@, of_kind("field_identifier"@), i as int);
            lemma_first_where_bounds(node.children@.subrange(0, i as int), of_kind("identifier"@));
            lemma_first_where_next(node.children@, of_kind("identifier"@), i as int);
            reveal_strlit("field_identifier");
            reveal_strlit("identifier");
            assert(node.children@.subrange(0, i + 1).drop_last() =~= node.children@.subrange(0, i as int));
            assert(of_kind("field_identifier"@)(node.children@[i as int]) == (node.children@[i as int].kind@ == "field_identifier"@));
            assert(of_kind("identifier"@)(node.children@[i as int]) == (node.children@[i as int].kind@ == "identifier"@));
        }
        if kind_is(child, "field_identifier") {
            method = Some(child.text.clone());
            proof {
                reveal_strlit("field_identifier");
                reveal_strlit("identifier");
                assert("field_identifier"@.len() != "identifier"@.len());
            }
        } else if kind_is(child, "identifier") && receiver.is_none() {
            receiver = Some(child.text.clone());
            assert(first_where(node.children@.subrange(0, i + 1), of_kind("identifier"@)) == i);
        } else {
            assert(first_where(node.children@.subrange(0, i + 1), of_kind("identifier"@)) == first_where(node.children@.subrange(0, i as int), of_kind("identifier"@)));
        }
        i = i + 1;
    }
    assert(node.children@.subrange(0, node.children@.len() as int) =~= node.children@);
    match method {
        Some(m) => {
            record_call(ctx, caller_id, m, receiver, in_type);
        },
        None => {
            proof { lemma_only_calls_refl(*ctx); }
        },
    }
}

pub proof fn lemma_first_where_next(cs: Seq<SyntaxNode>, p: spec_fn(SyntaxNode) -> bool, i: int)
    requires
        0 <= i < cs.len(),
    ensures
        first_where(cs.subrange(0, i + 1), p) == if first_where(cs.subrange(0, i), p) >= 0 {
            first_where(cs.subrange(0, i), p)
        } else if p(cs[i]) {
            i
        } else {
            -1
        },
{
    assert(cs.subrange(0, i + 1).drop_last() =~= cs.subrange(0, i));
}

pub proof fn lemma_first_where_bounds(cs: Seq<SyntaxNode>, p: spec_fn(SyntaxNode) -> bool)
    ensures
        -1 <= first_where(cs, p) < cs.len(),
        first_where(cs, p) >= 0 ==> p(cs[first_where(cs, p)]),
    decreases cs.len(),
{
    if cs.len() > 0 {
        lemma_first_where_bounds(cs.drop_last(), p);
    }
}

/// Records the calls of a function body or of a nested statement (see
/// `calls_in`).
pub fn parse_block(node: &SyntaxNode, caller_id: &str, in_type: Option<&str>, ctx: &mut ParseContext)
    ensures
        only_calls_added(*old(ctx), *final(ctx), calls_in(node.children@, caller_id@, opt_ref_str(in_type))),
    decreases node,
{
    let mut i: usize = 0;
    proof { lemma_only_calls_refl(*ctx); }
    while i < node.children.len()
        invariant
            i <= node.children@.len(),
            only_calls_added(*old(ctx), *ctx, calls_in(node.children@.subrange(0, i as int), caller_id@, opt_ref_str(in_type))),
        decreases node.children@.len() - i,
    {
        let child = &node.children[i];
        let ghost before = *ctx;
        let ghost cs = node.children@.subrange(0, i + 1);
        assert(cs.drop_last() =~= node.children@.subrange(0, i as int));
        assert(cs.last() == node.children@[i as int]);
        if kind_is(child, "call_expression") {
            parse_call_expr(child, caller_id, in_type, ctx);
        } else if kind_is(child, "method_call_expression") {
            parse_method_call_expr(child, caller_id, in_type, ctx);
        } else if kind_is(child, "expression_statement") || kind_is(child, "let_declaration") || kind_is(child, "return_expression")
            || kind_is(child, "if_expression") || kind_is(child, "match_expression") || kind_is(child, "block") {
            parse_block(child, caller_id, in_type, ctx);
        } else {
            proof { lemma_only_calls_refl(*ctx); }
        }
        proof {
            let c = cs.last();
            let it = opt_ref_str(in_type);
            let here = if c.kind@ == "call_expression"@ {
                call_expr_calls(c, caller_id@, it)
            } else if c.kind@ == "method_call_expression"@ {
                method_calls(c, caller_id@, it)
            } else if is_rust_nested(c) {
                calls_in(c.children@, caller_id@, it)
            } else {
                Seq::empty()
            };
            assert(calls_in(cs, caller_id@, it) == calls_in(node.children@.subrange(0, i as int), caller_id@, it) + here);
            lemma_only_calls_trans(*old(ctx), before, *ctx, calls_in(node.children@.subrange(0, i as int), caller_id@, it), here);
        }
        i = i + 1;
    }
    assert(node.children@.subrange(0, node.children@.len() as int) =~= node.children@);
}

} // verus!

verus! {

/// The text of the first child of kind `k` whose text is not empty, or the
/// empty text.
pub open spec fn first_named(cs: Seq<SyntaxNode>, k: Seq<char>) -> Seq<char>
    decreases cs.len(),
{
    if cs.len() == 0 {
        Seq::empty()
    } else if first_named(cs.drop_last(), k).len() > 0 {
        first_named(cs.drop_last(), k)
    } else if cs.last().kind@ == k {
        cs.last().text@
    } else {
        Seq::empty()
    }
}

/// The text of the first child of kind `k` with a non-empty text (see
/// `first_named`).
pub fn first_named_text(node: &SyntaxNode, k: &str) -> (r: String)
    ensures
        r@ == first_named(node.children@, k@),
{
    let mut name = String::new();
    let mut i: usize = 0;
    while i < node.children.len()
        invariant
            i <= node.children@.len(),
            name@ == first_named(node.children@.subrange(0, i as int), k@),
        decreases node.children@.len() - i,
    {
        let child = &node.children[i];
        assert(node.children@.subrange(0, i + 1).drop_last() =~= node.children@.subrange(0, i as int));
        if kind_is(child, k) && name.as_str().is_empty() {
            name = child.text.clone();
        }
        i = i + 1;
    }
    assert(node.children@.subrange(0, node.children@.len() as int) =~= node.children@);
    name
}

} // verus!

verus! {

/// What a Rust front-end walk may assume: a well-formed graph, and module and
/// owner ids under the file's module id.
pub open spec fn rust_walk_pre(graph: CodeGraph, ctx: ParseContext, module_id: Seq<char>, owner: Option<Seq<char>>) -> bool {
    &&& graph.wf()
    &&& starts_with(module_id, ctx.module_id@)
    &&& owner matches Some(t) ==> starts_with(t, ctx.module_id@)
}

/// The node a function is contained in: its owner type, else its module.
pub open spec fn rust_fn_parent(module_id: Seq<char>, owner: Option<Seq<char>>) -> Seq<char> {
    match owner {
        Some(t) => t,
        None => module_id,
    }
}

/// The id of a function: under its owner type if any, else under its module.
pub open spec fn rust_fn_id(module_id: Seq<char>, owner: Option<Seq<char>>, name: Seq<char>) -> Seq<char> {
    match owner {
        Some(t) => t + "::"@ + name,
        None => module_id + "::"@ + name,
    }
}

/// Nodes that name a type: type identifiers, scoped type identifiers and
/// generic types.
pub open spec fn type_nodes() -> spec_fn(SyntaxNode) -> bool {
    |c: SyntaxNode| c.kind@ == "type_identifier"@ || c.kind@ == "scoped_type_identifier"@ || c.kind@ == "generic_type"@
}

/// The type a function item uses as its return type: the text of its first
/// child that names a type, if any.
pub open spec fn return_type_of(cs: Seq<SyntaxNode>) -> Option<Seq<char>> {
    let i = first_where(cs, type_nodes());
    if i >= 0 { Some(cs[i].text@) } else { None }
}

/// The calls of a function item's body (its last block) made by `caller`.
pub open spec fn body_calls(cs: Seq<SyntaxNode>, caller: Seq<char>, owner: Option<Seq<char>>) -> Seq<CallView> {
    let b = last_where(cs, of_kind("block"@));
    if b >= 0 { calls_in(cs[b].children@, caller, owner) } else { Seq::empty() }
}

/// Adds a function or method node (named by its first identifier, under its
/// owner type or module), a containment edge from the owner, a type use of
/// its declared return type, and the calls of its body. A function without a
/// name changes nothing.
pub fn parse_function(
    node: &SyntaxNode,
    doc: Option<String>,
    module_id: &str,
    rel_path: &str,
    graph: &mut CodeGraph,
    ctx: &mut ParseContext,
    parent_type: Option<&str>,
)
    requires
        rust_walk_pre(*old(graph), *old(ctx), module_id@, opt_ref_str(parent_type)),
    ensures
        final(graph).wf(),
        ({
            let name = first_named(node.children@, "identifier"@);
            let l = named_link(rust_fn_parent(module_id@, opt_ref_str(parent_type)), rust_fn_id(module_id@, opt_ref_str(parent_type), name), name);
            links_within(old(graph)@, final(graph)@, link_targets(l), l)
        }),
        walked(old(graph)@, final(graph)@, *old(ctx), *final(ctx), rel_path@),
        first_named(node.children@, "identifier"@).len() > 0 ==> declared(old(graph)@, final(graph)@,
            rust_fn_id(module_id@, opt_ref_str(parent_type), first_named(node.children@, "identifier"@)),
            member_kind(opt_ref_str(parent_type)),
        ),
        ({
            let id = rust_fn_id(module_id@, opt_ref_str(parent_type), first_named(node.children@, "identifier"@));
            first_named(node.children@, "identifier"@).len() > 0 ==> {
                &&& pairs_view(final(ctx).pending_uses_type@) == pairs_view(old(ctx).pending_uses_type@) + match return_type_of(node.children@) {
                    Some(t) => seq![(id, t)],
                    None => Seq::empty(),
                }
                &&& calls_view(final(ctx).pending_calls@) == calls_view(old(ctx).pending_calls@)
                    + body_calls(node.children@, id, opt_ref_str(parent_type))
            }
        }),
        first_named(node.children@, "identifier"@).len() == 0 ==> *final(ctx) == *old(ctx),
        final(ctx).pending_inherits@ == old(ctx).pending_inherits@,
        ({
            let name = first_named(node.children@, "identifier"@);
            let id = rust_fn_id(module_id@, opt_ref_str(parent_type), name);
            name.len() > 0 ==> {
                &&& node_fields(old(graph)@, final(graph)@, id, name, rel_path@, line_at(*node), opt_str(doc))
                &&& old(graph)@.has_id(rust_fn_parent(module_id@, opt_ref_str(parent_type))) ==> has_link(final(graph)@, rust_fn_parent(module_id@, opt_ref_str(parent_type)), id, EdgeKind::Contains)
            }
        }),
        final(ctx).pending_mods@ == old(ctx).pending_mods@,
{
    let ghost prefix = ctx.module_id@;
    proof { lemma_walked_refl(graph@, *ctx, rel_path@); }
    let line = line_of(node);
    let name = first_named_text(node, "identifier");
    let mut return_type: Option<String> = None;
    let mut i: usize = 0;
    while i < node.children.len()
        invariant
            i <= node.children@.len(),
            return_type is None ==> first_where(node.children@.subrange(0, i as int), type_nodes()) == -1,
            return_type matches Some(t) ==> return_type_of(node.children@) == Some(t@),
        decreases node.children@.len() - i,
    {
        let child = &node.children[i];
        if return_type.is_none() {
            proof { lemma_first_where_step(node.children@, type_nodes(), i as int); }
            if kind_is(child, "type_identifier") || kind_is(child, "scoped_type_identifier") || kind_is(child, "generic_type") {
                proof { lemma_first_where_prefix(node.children@, type_nodes(), i as int); }
                return_type = Some(child.text.clone());
            }
        }
        i = i + 1;
    }
    proof {
        if return_type is None {
            assert(node.children@.subrange(0, node.children@.len() as int) =~= node.children@);
        }
    }
    let body = crate::typescript::last_child_of_kind_exact(node, "block");
    if name.as_str().is_empty() {
        proof { lemma_links_within_refl(graph@, Set::empty(), Set::empty()); }
        return;
    }
    let parent_id: &str = match parent_type {
        Some(t) => t,
        None => module_id,
    };
    let kind = match parent_type {
        Some(_) => NodeKind::Method,
        None => NodeKind::Function,
    };
    let ghost g0 = graph@;
    let ghost c0 = *ctx;
    let func_id = add_declaration(graph, parent_id, "::", name, kind, rel_path, line, doc, Ghost(prefix));
    proof {
        lemma_ctx_grown_refl(c0);
        lemma_links_single(g0, graph@, parent_id@, func_id@);
    }
    match return_type {
        Some(ret) => {
            push_uses_type(ctx, func_id.clone(), ret);
            assert(pairs_view(ctx.pending_uses_type@) =~= pairs_view(c0.pending_uses_type@).push((func_id@, ret@)));
        },
        None => {
            assert(pairs_view(ctx.pending_uses_type@) =~= pairs_view(c0.pending_uses_type@) + Seq::empty());
        },
    }
    let ghost c1 = *ctx;
    match body {
        Some(b) => {
            parse_block(&node.children[b], func_id.as_str(), parent_type, ctx);
            proof { lemma_only_calls_grown(c1, *ctx, calls_in(node.children@[b as int].children@, func_id@, opt_ref_str(parent_type))); }
        },
        None => {
            proof { lemma_ctx_grown_refl(c1); }
            assert(calls_view(ctx.pending_calls@) =~= calls_view(c1.pending_calls@) + Seq::empty());
        },
    }
    proof {
        crate::context::lemma_ctx_grown_trans(c0, c1, *ctx);
    }
}

} // verus!

verus! {

/// The text of the first child satisfying `p` whose text is not empty (empty
/// if there is none).
pub open spec fn first_text_where(cs: Seq<SyntaxNode>, p: spec_fn(SyntaxNode) -> bool) -> Seq<char>
    decreases cs.len(),
{
    if cs.len() == 0 {
        Seq::empty()
    } else if first_text_where(cs.drop_last(), p).len() > 0 {
        first_text_where(cs.drop_last(), p)
    } else if p(cs.last()) {
        cs.last().text@
    } else {
        Seq::empty()
    }
}

/// The text of the last child of kind `k` (empty if there is none).
pub open spec fn last_text(cs: Seq<SyntaxNode>, k: Seq<char>) -> Seq<char> {
    let i = last_where(cs, of_kind(k));
    if i >= 0 { cs[i].text@ } else { Seq::empty() }
}

/// The type a field declaration uses: its first non-empty type-naming child,
/// when the field also has a (last) non-empty field identifier.
pub open spec fn field_type(cs: Seq<SyntaxNode>) -> Option<Seq<char>> {
    if last_text(cs, "field_identifier"@).len() > 0 && first_text_where(cs, type_nodes()).len() > 0 {
        Some(first_text_where(cs, type_nodes()))
    } else {
        None
    }
}

/// The types the field declarations of a field list use, in order.
pub open spec fn fields_types(cs: Seq<SyntaxNode>) -> Seq<Seq<char>>
    decreases cs.len(),
{
    if cs.len() == 0 {
        Seq::empty()
    } else {
        fields_types(cs.drop_last()) + if cs.last().kind@ == "field_declaration"@ && field_type(cs.last().children@) is Some {
            seq![field_type(cs.last().children@)->0]
        } else {
            Seq::empty()
        }
    }
}

/// The types the fields of a struct item use, over all its field lists.
pub open spec fn struct_field_types(cs: Seq<SyntaxNode>) -> Seq<Seq<char>>
    decreases cs.len(),
{
    if cs.len() == 0 {
        Seq::empty()
    } else {
        struct_field_types(cs.drop_last()) + if cs.last().kind@ == "field_declaration_list"@ {
            fields_types(cs.last().children@)
        } else {
            Seq::empty()
        }
    }
}

/// A field identifier does not name a type.
proof fn lemma_field_identifier_not_type()
    ensures
        "field_identifier"@ != "type_identifier"@,
        "field_identifier"@ != "scoped_type_identifier"@,
        "field_identifier"@ != "generic_type"@,
{
    reveal_strlit("field_identifier");
    reveal_strlit("type_identifier");
    reveal_strlit("scoped_type_identifier");
    reveal_strlit("generic_type");
    assert("field_identifier"@[0] != "type_identifier"@[0]);
    assert("field_identifier"@[0] != "scoped_type_identifier"@[0]);
    assert("field_identifier"@[0] != "generic_type"@[0]);
}

/// The type a field declaration uses (see `field_type`).
fn field_type_of(field: &SyntaxNode) -> (r: Option<String>)
    ensures
        opt_str(r) == field_type(field.children@),
{
    let mut field_name = String::new();
    let mut field_type = String::new();
    let mut i: usize = 0;
    let ghost cs = field.children@;
    while i < field.children.len()
        invariant
            i <= cs.len(),
            cs == field.children@,
            field_name@ == last_text(cs.subrange(0, i as int), "field_identifier"@),
            field_type@ == first_text_where(cs.subrange(0, i as int), type_nodes()),
        decreases cs.len() - i,
    {
        let fc = &field.children[i];
        proof {
            assert(cs.subrange(0, i + 1).drop_last() =~= cs.subrange(0, i as int));
            lemma_last_where_step(cs, of_kind("field_identifier"@), i as int);
            assert(cs.subrange(0, i + 1)[i as int] == cs[i as int]);
            lemma_field_identifier_not_type();
            let j = last_where(cs.subrange(0, i as int), of_kind("field_identifier"@));
            lemma_last_where_bounds(cs.subrange(0, i as int), of_kind("field_identifier"@));
            if j >= 0 {
                assert(cs.subrange(0, i + 1)[j] == cs.subrange(0, i as int)[j]);
            }
        }
        if kind_is(fc, "field_identifier") {
            field_name = fc.text.clone();
        } else if kind_is(fc, "type_identifier") || kind_is(fc, "scoped_type_identifier") || kind_is(fc, "generic_type") {
            if field_type.as_str().is_empty() {
                field_type = fc.text.clone();
            }
        }
        i = i + 1;
    }
    assert(cs.subrange(0, cs.len() as int) =~= cs);
    if !field_name.as_str().is_empty() && !field_type.as_str().is_empty() {
        Some(field_type)
    } else {
        None
    }
}

/// The types the field declarations of a field list use (see `fields_types`).
fn fields_types_of(list: &SyntaxNode, out: &mut Vec<String>)
    ensures
        texts_view(final(out)@) == texts_view(old(out)@) + fields_types(list.children@),
{
    let mut j: usize = 0;
    let ghost cs = list.children@;
    assert(texts_view(out@) =~= texts_view(old(out)@) + fields_types(cs.subrange(0, 0)));
    while j < list.children.len()
        invariant
            j <= cs.len(),
            cs == list.children@,
            texts_view(out@) == texts_view(old(out)@) + fields_types(cs.subrange(0, j as int)),
        decreases cs.len() - j,
    {
        let field = &list.children[j];
        assert(cs.subrange(0, j + 1).drop_last() =~= cs.subrange(0, j as int));
        let ghost before = texts_view(out@);
        if kind_is(field, "field_declaration") {
            match field_type_of(field) {
                Some(t) => {
                    out.push(t);
                    assert(texts_view(out@) =~= before.push(field_type(field.children@)->0));
                },
                None => {},
            }
        }
        assert(texts_view(out@) =~= texts_view(old(out)@) + fields_types(cs.subrange(0, j + 1)));
        j = j + 1;
    }
    assert(cs.subrange(0, cs.len() as int) =~= cs);
}

/// Adds a class node for a struct (named by its first type identifier), a
/// containment edge from the module, and a type use for each named field's
/// type (see `struct_field_types`). A struct without a name changes nothing.
pub fn parse_struct(
    node: &SyntaxNode,
    doc: Option<String>,
    module_id: &str,
    rel_path: &str,
    graph: &mut CodeGraph,
    ctx: &mut ParseContext,
)
    requires
        rust_walk_pre(*old(graph), *old(ctx), module_id@, None),
    ensures
        final(graph).wf(),
        ({
            let name = first_named(node.children@, "type_identifier"@);
            let l = named_link(module_id@, module_id@ + "::"@ + name, name);
            links_within(old(graph)@, final(graph)@, link_targets(l), l)
        }),
        walked(old(graph)@, final(graph)@, *old(ctx), *final(ctx), rel_path@),
        first_named(node.children@, "type_identifier"@).len() > 0 ==> declared(old(graph)@, final(graph)@,
            module_id@ + "::"@ + first_named(node.children@, "type_identifier"@), NodeKind::Class,
        ),
        pairs_view(final(ctx).pending_uses_type@) == pairs_view(old(ctx).pending_uses_type@) + (
            if first_named(node.children@, "type_identifier"@).len() > 0 {
                paired(module_id@ + "::"@ + first_named(node.children@, "type_identifier"@), struct_field_types(node.children@))
            } else {
                Seq::empty()
            }),
        final(ctx).pending_calls@ == old(ctx).pending_calls@,
        final(ctx).pending_inherits@ == old(ctx).pending_inherits@,
        ({
            let name = first_named(node.children@, "type_identifier"@);
            let id = module_id@ + "::"@ + name;
            name.len() > 0 ==> {
                &&& node_fields(old(graph)@, final(graph)@, id, name, rel_path@, line_at(*node), opt_str(doc))
                &&& old(graph)@.has_id(module_id@) ==> has_link(final(graph)@, module_id@, id, EdgeKind::Contains)
            }
        }),
        final(ctx).pending_mods@ == old(ctx).pending_mods@,
{
    let ghost prefix = ctx.module_id@;
    proof { lemma_walked_refl(graph@, *ctx, rel_path@); }
    let line = line_of(node);
    let name = first_named_text(node, "type_identifier");
    let mut field_types: Vec<String> = Vec::new();
    let mut i: usize = 0;
    let ghost cs = node.children@;
    assert(texts_view(field_types@) =~= struct_field_types(cs.subrange(0, 0)));
    while i < node.children.len()
        invariant
            i <= cs.len(),
            cs == node.children@,
            texts_view(field_types@) == struct_field_types(cs.subrange(0, i as int)),
        decreases cs.len() - i,
    {
        let child = &node.children[i];
        assert(cs.subrange(0, i + 1).drop_last() =~= cs.subrange(0, i as int));
        if kind_is(child, "field_declaration_list") {
            fields_types_of(child, &mut field_types);
        }
        assert(texts_view(field_types@) =~= struct_field_types(cs.subrange(0, i + 1)));
        i = i + 1;
    }
    assert(cs.subrange(0, cs.len() as int) =~= cs);
    if name.as_str().is_empty() {
        assert(pairs_view(ctx.pending_uses_type@) =~= pairs_view(old(ctx).pending_uses_type@) + Seq::empty());
        proof { lemma_links_within_refl(graph@, Set::empty(), Set::empty()); }
        return;
    }
    let struct_id = add_declaration(graph, module_id, "::", name, NodeKind::Class, rel_path, line, doc, Ghost(prefix));
    proof { lemma_links_single(old(graph)@, graph@, module_id@, struct_id@); }
    push_uses_types(ctx, struct_id.as_str(), &field_types);
}

/// Adds a class node for an enum (named by its first type identifier) and a
/// containment edge from the module.
pub fn parse_enum(
    node: &SyntaxNode,
    doc: Option<String>,
    module_id: &str,
    rel_path: &str,
    graph: &mut CodeGraph,
    ctx: &mut ParseContext,
)
    requires
        rust_walk_pre(*old(graph), *old(ctx), module_id@, None),
    ensures
        final(graph).wf(),
        ({
            let name = first_named(node.children@, "type_identifier"@);
            let l = named_link(module_id@, module_id@ + "::"@ + name, name);
            links_within(old(graph)@, final(graph)@, link_targets(l), l)
        }),
        walked(old(graph)@, final(graph)@, *old(ctx), *final(ctx), rel_path@),
        *final(ctx) == *old(ctx),
        first_named(node.children@, "type_identifier"@).len() > 0 ==> declared(old(graph)@, final(graph)@,
            module_id@ + "::"@ + first_named(node.children@, "type_identifier"@), NodeKind::Class,
        ),
        ({
            let name = first_named(node.children@, "type_identifier"@);
            let id = module_id@ + "::"@ + name;
            name.len() > 0 ==> {
                &&& node_fields(old(graph)@, final(graph)@, id, name, rel_path@, line_at(*node), opt_str(doc))
                &&& old(graph)@.has_id(module_id@) ==> has_link(final(graph)@, module_id@, id, EdgeKind::Contains)
            }
        }),
{
    let ghost prefix = ctx.module_id@;
    proof { lemma_walked_refl(graph@, *ctx, rel_path@); }
    let line = line_of(node);
    let name = first_named_text(node, "type_identifier");
    if name.as_str().is_empty() {
        proof { lemma_links_within_refl(graph@, Set::empty(), Set::empty()); }
        return;
    }
    let enum_id = add_declaration(graph, module_id, "::", name, NodeKind::Class, rel_path, line, doc, Ghost(prefix));
    proof { lemma_links_single(old(graph)@, graph@, module_id@, enum_id@); }
}

} // verus!

verus! {

/// Adds a class node for a trait, a containment edge from the module, and
/// reads the trait's items with the trait as their owner.
pub fn parse_trait(
    node: &SyntaxNode,
    doc: Option<String>,
    module_id: &str,
    rel_path: &str,
    graph: &mut CodeGraph,
    ctx: &mut ParseContext,
)
    requires
        rust_walk_pre(*old(graph), *old(ctx), module_id@, None),
    ensures
        final(graph).wf(),
        links_within(old(graph)@, final(graph)@, link_targets(rust_trait_links(*node, module_id@)), rust_trait_links(*node, module_id@)),
        walked(old(graph)@, final(graph)@, *old(ctx), *final(ctx), rel_path@),
        first_named(node.children@, "type_identifier"@).len() > 0 ==> declared(old(graph)@, final(graph)@,
            module_id@ + "::"@ + first_named(node.children@, "type_identifier"@), NodeKind::Class),
        ({
            let name = first_named(node.children@, "type_identifier"@);
            let id = module_id@ + "::"@ + name;
            name.len() > 0 ==> {
                &&& node_fields(old(graph)@, final(graph)@, id, name, rel_path@, line_at(*node), opt_str(doc))
                &&& old(graph)@.has_id(module_id@) ==> has_link(final(graph)@, module_id@, id, EdgeKind::Contains)
            }
        }),
        pairs_view(final(ctx).pending_mods@) == pairs_view(old(ctx).pending_mods@) + rust_trait_mods(*node, module_id@),
    decreases node, 0nat,
{
    let ghost prefix = ctx.module_id@;
    proof { lemma_walked_refl(graph@, *ctx, rel_path@); }
    let line = line_of(node);
    let name = first_named_text(node, "type_identifier");
    let body = last_child_of_kind(node, "declaration_list");
    proof {
        lemma_mod_item_distinct();
        lemma_item_kinds_first_chars();
        lemma_last_where_bounds(node.children@, of_kind("declaration_list"@));
    }
    if name.as_str().is_empty() {
        assert(pairs_view(ctx.pending_mods@) =~= pairs_view(old(ctx).pending_mods@) + rust_trait_mods(*node, module_id@));
        proof { lemma_links_within_refl(graph@, link_targets(rust_trait_links(*node, module_id@)), rust_trait_links(*node, module_id@)); }
        return;
    }
    let ghost g0 = graph@;
    let ghost name_v = name@;
    let ghost doc_v = opt_str(doc);
    let trait_id = add_declaration(graph, module_id, "::", name, NodeKind::Class, rel_path, line, doc, Ghost(prefix));
    let ghost g1 = graph@;
    proof {
        lemma_ctx_grown_refl(*ctx);
        graph.lemma_valid();
        lemma_links_single(g0, g1, module_id@, trait_id@);
    }
    match body {
        Some(b) => {
            let ghost g2 = graph@;
            let ghost c2 = *ctx;
            process_items(&node.children[b], module_id, rel_path, graph, ctx, Some(trait_id.as_str()));
            proof {
                lemma_walked_trans(g0, g2, graph@, *old(ctx), c2, *ctx, rel_path@);
                graph.lemma_valid();
                lemma_declared_grown(g0, g2, graph@, rel_path@, prefix, trait_id@, NodeKind::Class);
                lemma_node_fields_grown(g0, g1, graph@, rel_path@, prefix, trait_id@, name_v, rel_path@, line_at(*node), doc_v);
                if g0.has_id(module_id@) {
                    lemma_grown_keeps_link(g1, graph@, rel_path@, prefix, module_id@, trait_id@, EdgeKind::Contains);
                }
                let u = rust_links_upto(node.children@[b as int], node.children@[b as int].children@.len() as int, module_id@, Some(trait_id@));
                lemma_links_then(g0, g1, graph@, set![(module_id@, trait_id@)], u, rel_path@, prefix, prefix);
                assert(rust_trait_links(*node, module_id@) == set![(module_id@, trait_id@)].union(u));
            }
        },
        None => {
            assert(pairs_view(ctx.pending_mods@) =~= pairs_view(old(ctx).pending_mods@) + rust_trait_mods(*node, module_id@));
            assert(rust_trait_links(*node, module_id@) == set![(module_id@, trait_id@)]);
        },
    }
}

/// What the header of an `impl` block names, read left to right: the type
/// (the first type identifier, or the last one after `for`), the trait (the
/// type named before `for`), and whether `for` was seen.
pub open spec fn impl_header(cs: Seq<SyntaxNode>) -> (Seq<char>, Option<Seq<char>>, bool)
    decreases cs.len(),
{
    if cs.len() == 0 {
        (Seq::empty(), None, false)
    } else {
        let (ty, tr, has_for) = impl_header(cs.drop_last());
        let c = cs.last();
        if c.kind@ == "type_identifier"@ || c.kind@ == "scoped_type_identifier"@ {
            if has_for || ty.len() == 0 { (c.text@, tr, has_for) } else { (ty, tr, has_for) }
        } else if c.kind@ == "for"@ {
            (Seq::empty(), Some(ty), true)
        } else {
            (ty, tr, has_for)
        }
    }
}

/// Reads an `impl [Trait for] Type` block: records that the type inherits
/// from the trait, and reads the block's items with the type as owner.
pub fn parse_impl(
    node: &SyntaxNode,
    module_id: &str,
    rel_path: &str,
    graph: &mut CodeGraph,
    ctx: &mut ParseContext,
)
    requires
        rust_walk_pre(*old(graph), *old(ctx), module_id@, None),
    ensures
        final(graph).wf(),
        links_within(old(graph)@, final(graph)@, link_targets(rust_impl_links(*node, module_id@)), rust_impl_links(*node, module_id@)),
        walked(old(graph)@, final(graph)@, *old(ctx), *final(ctx), rel_path@),
        ({
            let (ty, tr, _f) = impl_header(node.children@);
            ty.len() > 0 && tr is Some ==> {
                &&& old(ctx).pending_inherits@.len() < final(ctx).pending_inherits@.len()
                &&& pairs_view(final(ctx).pending_inherits@)[old(ctx).pending_inherits@.len() as int] == (module_id@ + "::"@ + ty, tr->0)
            }
        }),
        pairs_view(final(ctx).pending_mods@) == pairs_view(old(ctx).pending_mods@) + rust_impl_mods(*node, module_id@),
    decreases node, 0nat,
{
    let ghost prefix = ctx.module_id@;
    proof { lemma_walked_refl(graph@, *ctx, rel_path@); }
    let mut ty_name = String::new();
    let mut trait_name: Option<String> = None;
    let mut has_for = false;
    let mut i: usize = 0;
    while i < node.children.len()
        invariant
            i <= node.children@.len(),
            impl_header(node.children@.subrange(0, i as int)) == (ty_name@, opt_str(trait_name), has_for),
        decreases node.children@.len() - i,
    {
        assert(node.children@.subrange(0, i + 1).drop_last() =~= node.children@.subrange(0, i as int));
        let child = &node.children[i];
        if kind_is(child, "type_identifier") || kind_is(child, "scoped_type_identifier") {
            if has_for || ty_name.as_str().is_empty() {
                ty_name = child.text.clone();
            }
        } else if kind_is(child, "for") {
            trait_name = Some(ty_name.clone());
            ty_name = String::new();
            has_for = true;
        }
        i = i + 1;
    }
    assert(node.children@.subrange(0, node.children@.len() as int) =~= node.children@);
    let body = last_child_of_kind(node, "declaration_list");
    proof {
        lemma_mod_item_distinct();
        lemma_item_kinds_first_chars();
        lemma_last_where_bounds(node.children@, of_kind("declaration_list"@));
    }
    if ty_name.as_str().is_empty() {
        assert(pairs_view(ctx.pending_mods@) =~= pairs_view(old(ctx).pending_mods@) + rust_impl_mods(*node, module_id@));
        proof { lemma_links_within_refl(graph@, link_targets(rust_impl_links(*node, module_id@)), rust_impl_links(*node, module_id@)); }
        return;
    }
    let struct_id = child_id(module_id, "::", ty_name.as_str(), Ghost(prefix));
    match trait_name {
        Some(t) => {
            push_inherit(ctx, struct_id.clone(), t);
            assert(pairs_view(ctx.pending_inherits@)[old(ctx).pending_inherits@.len() as int] == (struct_id@, t@));
        },
        None => {
            proof { lemma_ctx_grown_refl(*ctx); }
        },
    }
    let ghost c1 = *ctx;
    proof { lemma_grown_refl(graph@, rel_path@, prefix); }
    match body {
        Some(b) => {
            process_items(&node.children[b], module_id, rel_path, graph, ctx, Some(struct_id.as_str()));
            proof { lemma_walked_trans(old(graph)@, old(graph)@, graph@, *old(ctx), c1, *ctx, rel_path@); }
        },
        None => {
            assert(pairs_view(ctx.pending_mods@) =~= pairs_view(old(ctx).pending_mods@) + rust_impl_mods(*node, module_id@));
            proof { lemma_links_within_refl(graph@, link_targets(rust_impl_links(*node, module_id@)), rust_impl_links(*node, module_id@)); }
        },
    }
}

/// The id of the node an item declares, if any: a named struct, enum or
/// trait (`module::Name`), or a named function (see `rust_fn_id`).
pub open spec fn rust_item_id(c: SyntaxNode, module_id: Seq<char>, owner: Option<Seq<char>>) -> Option<Seq<char>> {
    if c.kind@ == "struct_item"@ || c.kind@ == "enum_item"@ || c.kind@ == "trait_item"@ {
        if first_named(c.children@, "type_identifier"@).len() > 0 {
            Some(module_id + "::"@ + first_named(c.children@, "type_identifier"@))
        } else {
            None
        }
    } else if c.kind@ == "function_item"@ {
        if first_named(c.children@, "identifier"@).len() > 0 {
            Some(rust_fn_id(module_id, owner, first_named(c.children@, "identifier"@)))
        } else {
            None
        }
    } else {
        None
    }
}

/// The node an item is contained in: for a function, its owner type (else
/// the module); for a type, the module.
pub open spec fn rust_item_parent(c: SyntaxNode, module_id: Seq<char>, owner: Option<Seq<char>>) -> Seq<char> {
    if c.kind@ == "function_item"@ { rust_fn_parent(module_id, owner) } else { module_id }
}

/// The id of the module an inline `mod name { ... }` declares, if any: the
/// module id, `::` and the text of its last identifier, when not empty.
pub open spec fn rust_inline_mod_id(c: SyntaxNode, module_id: Seq<char>) -> Option<Seq<char>> {
    let n = last_where(c.children@, of_kind("identifier"@));
    if c.kind@ == "mod_item"@ && n >= 0 && c.children@[n].text@.len() > 0
        && last_where(c.children@, of_kind("declaration_list"@)) >= 0 {
        Some(module_id + "::"@ + c.children@[n].text@)
    } else {
        None
    }
}

proof fn lemma_item_kinds_first_chars()
    ensures
        "struct_item"@ != "trait_item"@,
        "struct_item"@ != "impl_item"@,
        "enum_item"@ != "trait_item"@,
        "enum_item"@ != "impl_item"@,
        "function_item"@ != "trait_item"@,
        "use_declaration"@ != "trait_item"@,
        "use_declaration"@ != "impl_item"@,
        "trait_item"@ != "impl_item"@,
{
    reveal_strlit("struct_item");
    reveal_strlit("enum_item");
    reveal_strlit("function_item");
    reveal_strlit("use_declaration");
    reveal_strlit("trait_item");
    reveal_strlit("impl_item");
    assert("struct_item"@[0] != "trait_item"@[0]);
    assert("struct_item"@[0] != "impl_item"@[0]);
    assert("enum_item"@[0] != "trait_item"@[0]);
    assert("enum_item"@[0] != "impl_item"@[0]);
    assert("function_item"@[0] != "trait_item"@[0]);
    assert("use_declaration"@[0] != "trait_item"@[0]);
    assert("use_declaration"@[0] != "impl_item"@[0]);
    assert("trait_item"@[0] != "impl_item"@[0]);
}

/// The `mod name;` declarations reading a named trait's items records, all
/// under the module the trait is in.
pub open spec fn rust_trait_mods(c: SyntaxNode, module_id: Seq<char>) -> Seq<(Seq<char>, Seq<char>)>
    decreases c, 1int, 0int,
{
    let b = last_where(c.children@, of_kind("declaration_list"@));
    if first_named(c.children@, "type_identifier"@).len() > 0 && 0 <= b < c.children@.len() {
        rust_mods_upto(c.children@[b], c.children@[b].children@.len() as int, module_id)
    } else {
        Seq::empty()
    }
}

/// The `mod name;` declarations reading an `impl` block's items records, all
/// under the module the block is in, when the block names a type.
pub open spec fn rust_impl_mods(c: SyntaxNode, module_id: Seq<char>) -> Seq<(Seq<char>, Seq<char>)>
    decreases c, 1int, 0int,
{
    let b = last_where(c.children@, of_kind("declaration_list"@));
    if impl_header(c.children@).0.len() > 0 && 0 <= b < c.children@.len() {
        rust_mods_upto(c.children@[b], c.children@[b].children@.len() as int, module_id)
    } else {
        Seq::empty()
    }
}

/// The `mod name;` declarations reading an item records, each with the
/// module it is declared in, in order: a declaration itself; those inside an
/// inline module (under that module's id); those of a trait's or an `impl`
/// block's items.
pub open spec fn rust_item_mods(c: SyntaxNode, module_id: Seq<char>) -> Seq<(Seq<char>, Seq<char>)>
    decreases c, 2int, 0int,
{
    let b = last_where(c.children@, of_kind("declaration_list"@));
    if rust_mod_decl(c) is Some {
        seq![(module_id, rust_mod_decl(c)->0)]
    } else if rust_inline_mod_id(c, module_id) is Some && 0 <= b < c.children@.len() {
        rust_mods_upto(c.children@[b], c.children@[b].children@.len() as int, rust_inline_mod_id(c, module_id)->0)
    } else if c.kind@ == "trait_item"@ {
        rust_trait_mods(c, module_id)
    } else if c.kind@ == "impl_item"@ {
        rust_impl_mods(c, module_id)
    } else {
        Seq::empty()
    }
}

/// The `mod name;` declarations reading the first `n` items of `node`
/// records (see `rust_item_mods`).
pub open spec fn rust_mods_upto(node: SyntaxNode, n: int, module_id: Seq<char>) -> Seq<(Seq<char>, Seq<char>)>
    decreases node, 0int, n,
{
    if n <= 0 || n > node.children@.len() {
        Seq::empty()
    } else {
        rust_mods_upto(node, n - 1, module_id) + rust_item_mods(node.children@[n - 1], module_id)
    }
}

/// The link a declaration adds: `id` under `parent`, when its name is not
/// empty.
pub open spec fn named_link(parent: Seq<char>, id: Seq<char>, name: Seq<char>) -> Set<(Seq<char>, Seq<char>)> {
    if name.len() > 0 { set![(parent, id)] } else { Set::empty() }
}

/// The containment links, as (parent id, child id), reading an item adds:
/// a named struct, enum or function under the node it belongs to (see
/// `rust_item_parent`); a trait with its items (see `rust_trait_links`); an
/// inline module under its module, with its items under it; an `impl`
/// block's items (see `rust_impl_links`). A `mod name;` declaration adds
/// none.
pub open spec fn rust_item_links(c: SyntaxNode, module_id: Seq<char>, owner: Option<Seq<char>>) -> Set<(Seq<char>, Seq<char>)>
    decreases c, 2int, 0int,
{
    let b = last_where(c.children@, of_kind("declaration_list"@));
    if c.kind@ == "trait_item"@ {
        rust_trait_links(c, module_id)
    } else if rust_item_id(c, module_id, owner) is Some {
        set![(rust_item_parent(c, module_id, owner), rust_item_id(c, module_id, owner)->0)]
    } else if rust_inline_mod_id(c, module_id) is Some && 0 <= b < c.children@.len() {
        set![(module_id, rust_inline_mod_id(c, module_id)->0)].union(
            rust_links_upto(c.children@[b], c.children@[b].children@.len() as int, rust_inline_mod_id(c, module_id)->0, None))
    } else if c.kind@ == "impl_item"@ {
        rust_impl_links(c, module_id)
    } else {
        Set::empty()
    }
}

/// The links reading a trait adds, when it is named: the trait under its
/// module, and the items of its body with the trait as their owner.
pub open spec fn rust_trait_links(c: SyntaxNode, module_id: Seq<char>) -> Set<(Seq<char>, Seq<char>)>
    decreases c, 1int, 0int,
{
    let name = first_named(c.children@, "type_identifier"@);
    let b = last_where(c.children@, of_kind("declaration_list"@));
    if name.len() == 0 {
        Set::empty()
    } else if 0 <= b < c.children@.len() {
        set![(module_id, module_id + "::"@ + name)].union(
            rust_links_upto(c.children@[b], c.children@[b].children@.len() as int, module_id, Some(module_id + "::"@ + name)))
    } else {
        set![(module_id, module_id + "::"@ + name)]
    }
}

/// The links reading an `impl` block adds, when it names a type: those of
/// the items of its body, with the type as their owner.
pub open spec fn rust_impl_links(c: SyntaxNode, module_id: Seq<char>) -> Set<(Seq<char>, Seq<char>)>
    decreases c, 1int, 0int,
{
    let b = last_where(c.children@, of_kind("declaration_list"@));
    if impl_header(c.children@).0.len() > 0 && 0 <= b < c.children@.len() {
        rust_links_upto(c.children@[b], c.children@[b].children@.len() as int, module_id,
            Some(module_id + "::"@ + impl_header(c.children@).0))
    } else {
        Set::empty()
    }
}

/// The links reading the first `n` items of `node` adds (see
/// `rust_item_links`).
pub open spec fn rust_links_upto(node: SyntaxNode, n: int, module_id: Seq<char>, owner: Option<Seq<char>>) -> Set<(Seq<char>, Seq<char>)>
    decreases node, 0int, n,
{
    if n <= 0 || n > node.children@.len() {
        Set::empty()
    } else {
        rust_links_upto(node, n - 1, module_id, owner).union(rust_item_links(node.children@[n - 1], module_id, owner))
    }
}

/// Each item of `cs` that declares a node is joined by a containment edge
/// in `g` to the node it belongs to (see `rust_item_parent`), when `g0`
/// already had that node.
#[verifier::opaque]
pub open spec fn items_contained(cs: Seq<SyntaxNode>, module_id: Seq<char>, owner: Option<Seq<char>>, g0: GraphModel, g: GraphModel) -> bool {
    forall|k: int| 0 <= k < cs.len() && (#[trigger] rust_item_id(cs[k], module_id, owner)) is Some
        && g0.has_id(rust_item_parent(cs[k], module_id, owner))
        ==> has_link(g, rust_item_parent(cs[k], module_id, owner), rust_item_id(cs[k], module_id, owner)->0, EdgeKind::Contains)
}

/// Each inline module of `cs` is joined to `module_id` by a containment edge
/// in `g`.
#[verifier::opaque]
pub open spec fn inline_mods_contained(cs: Seq<SyntaxNode>, module_id: Seq<char>, g: GraphModel) -> bool {
    forall|k: int| 0 <= k < cs.len() && (#[trigger] rust_inline_mod_id(cs[k], module_id)) is Some
        ==> has_link(g, module_id, rust_inline_mod_id(cs[k], module_id)->0, EdgeKind::Contains)
}

/// An `impl` block is not a function item.
proof fn lemma_impl_not_function()
    ensures
        "impl_item"@ != "function_item"@,
{
    reveal_strlit("impl_item");
    reveal_strlit("function_item");
    assert("impl_item"@[0] != "function_item"@[0]);
}

proof fn lemma_type_items_not_function()
    ensures
        "struct_item"@ != "function_item"@,
        "enum_item"@ != "function_item"@,
        "trait_item"@ != "function_item"@,
{
    reveal_strlit("struct_item");
    reveal_strlit("enum_item");
    reveal_strlit("trait_item");
    reveal_strlit("function_item");
    assert("struct_item"@[0] != "function_item"@[0]);
    assert("enum_item"@[0] != "function_item"@[0]);
    assert("trait_item"@[0] != "function_item"@[0]);
}

proof fn lemma_mod_item_distinct()
    ensures
        "mod_item"@ != "struct_item"@,
        "mod_item"@ != "enum_item"@,
        "mod_item"@ != "trait_item"@,
        "mod_item"@ != "impl_item"@,
        "mod_item"@ != "function_item"@,
        "mod_item"@ != "use_declaration"@,
{
    reveal_strlit("mod_item");
    reveal_strlit("struct_item");
    reveal_strlit("enum_item");
    reveal_strlit("trait_item");
    reveal_strlit("impl_item");
    reveal_strlit("function_item");
    reveal_strlit("use_declaration");
    assert("mod_item"@[0] != "struct_item"@[0]);
    assert("mod_item"@[0] != "enum_item"@[0]);
    assert("mod_item"@[0] != "trait_item"@[0]);
    assert("mod_item"@[0] != "impl_item"@[0]);
    assert("mod_item"@[0] != "function_item"@[0]);
    assert("mod_item"@[0] != "use_declaration"@[0]);
}

/// The `mod name;` declarations among `cs` are all recorded in `mods` with
/// `module_id` as their parent.
#[verifier::opaque]
pub open spec fn mods_recorded(cs: Seq<SyntaxNode>, module_id: Seq<char>, mods: Seq<(Seq<char>, Seq<char>)>) -> bool {
    forall|k: int| 0 <= k < cs.len() && (#[trigger] rust_mod_decl(cs[k])) is Some
        ==> mods.contains((module_id, rust_mod_decl(cs[k])->0))
}

/// The name a `mod name;` declaration without a body declares, if any: the
/// text of its last identifier, when not empty.
pub open spec fn rust_mod_decl(c: SyntaxNode) -> Option<Seq<char>> {
    let n = last_where(c.children@, of_kind("identifier"@));
    if c.kind@ == "mod_item"@ && n >= 0 && c.children@[n].text@.len() > 0
        && last_where(c.children@, of_kind("declaration_list"@)) < 0 {
        Some(c.children@[n].text@)
    } else {
        None
    }
}

/// A list that only grew at its end keeps what it held.
pub proof fn lemma_pairs_grown_contains(a: Seq<(Seq<char>, Seq<char>)>, b: Seq<(Seq<char>, Seq<char>)>, x: (Seq<char>, Seq<char>))
    requires
        a.len() <= b.len(),
        b.subrange(0, a.len() as int) == a,
        a.contains(x),
    ensures
        b.contains(x),
{
    let j = choose|j: int| 0 <= j < a.len() && a[j] == x;
    assert(b.subrange(0, a.len() as int)[j] == b[j]);
}

/// Reads the items of a file, an inline module or an item block: structs,
/// enums, traits, impl blocks, functions (owned by `impl_type` when given),
/// `use` declarations, and modules, inline ones as sub-module nodes read in
/// place, `mod name;` ones recorded for the resolution pass.
pub fn process_items(
    node: &SyntaxNode,
    module_id: &str,
    rel_path: &str,
    graph: &mut CodeGraph,
    ctx: &mut ParseContext,
    impl_type: Option<&str>,
)
    requires
        rust_walk_pre(*old(graph), *old(ctx), module_id@, opt_ref_str(impl_type)),
    ensures
        final(graph).wf(),
        links_within(old(graph)@, final(graph)@,
            link_targets(rust_links_upto(*node, node.children@.len() as int, module_id@, opt_ref_str(impl_type))),
            rust_links_upto(*node, node.children@.len() as int, module_id@, opt_ref_str(impl_type))),
        walked(old(graph)@, final(graph)@, *old(ctx), *final(ctx), rel_path@),
        forall|k: int| 0 <= k < node.children@.len() && (#[trigger] rust_item_id(node.children@[k], module_id@, opt_ref_str(impl_type))) is Some
            ==> final(graph)@.has_id(rust_item_id(node.children@[k], module_id@, opt_ref_str(impl_type))->0),
        mods_recorded(node.children@, module_id@, pairs_view(final(ctx).pending_mods@)),
        items_contained(node.children@, module_id@, opt_ref_str(impl_type), old(graph)@, final(graph)@),
        old(graph)@.has_id(module_id@) ==> inline_mods_contained(node.children@, module_id@, final(graph)@),
        pairs_view(final(ctx).pending_mods@) == pairs_view(old(ctx).pending_mods@) + rust_mods_upto(*node, node.children@.len() as int, module_id@),
    decreases node, 1nat,
{
    let ghost prefix = ctx.module_id@;
    let ghost owner = opt_ref_str(impl_type);
    proof { lemma_walked_refl(graph@, *ctx, rel_path@); }
    let mut i: usize = 0;
    while i < node.children.len()
        invariant
            i <= node.children@.len(),
            graph.wf(),
            owner == opt_ref_str(impl_type),
            ctx.module_id@ == prefix,
            old(ctx).module_id@ == prefix,
            starts_with(module_id@, prefix),
            opt_ref_str(impl_type) matches Some(t) ==> starts_with(t, prefix),
            walked(old(graph)@, graph@, *old(ctx), *ctx, rel_path@),
            pairs_view(ctx.pending_mods@) == pairs_view(old(ctx).pending_mods@) + rust_mods_upto(*node, i as int, module_id@),
            forall|k: int| 0 <= k < i && (#[trigger] rust_item_id(node.children@[k], module_id@, owner)) is Some
                ==> graph@.has_id(rust_item_id(node.children@[k], module_id@, owner)->0),
            forall|k: int| 0 <= k < i && (#[trigger] rust_mod_decl(node.children@[k])) is Some
                ==> pairs_view(ctx.pending_mods@).contains((module_id@, rust_mod_decl(node.children@[k])->0)),
            forall|k: int| 0 <= k < i && (#[trigger] rust_item_id(node.children@[k], module_id@, owner)) is Some
                && old(graph)@.has_id(rust_item_parent(node.children@[k], module_id@, owner))
                ==> has_link(graph@, rust_item_parent(node.children@[k], module_id@, owner), rust_item_id(node.children@[k], module_id@, owner)->0, EdgeKind::Contains),
            old(graph)@.has_id(module_id@) ==> forall|k: int| 0 <= k < i && (#[trigger] rust_inline_mod_id(node.children@[k], module_id@)) is Some
                ==> has_link(graph@, module_id@, rust_inline_mod_id(node.children@[k], module_id@)->0, EdgeKind::Contains),
            links_within(old(graph)@, graph@, link_targets(rust_links_upto(*node, i as int, module_id@, owner)), rust_links_upto(*node, i as int, module_id@, owner)),
        decreases node.children@.len() - i,
    {
        let child = &node.children[i];
        let ghost g0 = graph@;
        let ghost c0 = *ctx;
        let ghost item = rust_item_id(*child, module_id@, owner);
        proof {
            lemma_walked_refl(g0, c0, rel_path@);
            lemma_impl_not_function();
            lemma_mod_item_distinct();
            lemma_type_items_not_function();
            lemma_item_kinds_first_chars();
            graph.lemma_valid();
            if old(graph)@.has_id(rust_item_parent(*child, module_id@, owner)) {
                lemma_grown_keeps_id(old(graph)@, g0, rel_path@, prefix, rust_item_parent(*child, module_id@, owner));
            }
            if old(graph)@.has_id(module_id@) {
                lemma_grown_keeps_id(old(graph)@, g0, rel_path@, prefix, module_id@);
            }
        }
        let ghost il = rust_item_links(*child, module_id@, owner);
        if kind_is(child, "struct_item") {
            let doc = get_doc_comment(&node.children, i);
            parse_struct(child, doc, module_id, rel_path, graph, ctx);
            proof {
                let name = first_named(child.children@, "type_identifier"@);
                assert(il == named_link(module_id@, module_id@ + "::"@ + name, name));
            }
        } else if kind_is(child, "enum_item") {
            let doc = get_doc_comment(&node.children, i);
            parse_enum(child, doc, module_id, rel_path, graph, ctx);
            proof {
                let name = first_named(child.children@, "type_identifier"@);
                assert(il == named_link(module_id@, module_id@ + "::"@ + name, name));
            }
        } else if kind_is(child, "trait_item") {
            let doc = get_doc_comment(&node.children, i);
            parse_trait(child, doc, module_id, rel_path, graph, ctx);
        } else if kind_is(child, "impl_item") {
            parse_impl(child, module_id, rel_path, graph, ctx);
            proof { assert(il == rust_impl_links(*child, module_id@)); }
        } else if kind_is(child, "function_item") {
            let doc = get_doc_comment(&node.children, i);
            parse_function(child, doc, module_id, rel_path, graph, ctx, impl_type);
            proof {
                let name = first_named(child.children@, "identifier"@);
                assert(il == named_link(rust_fn_parent(module_id@, owner), rust_fn_id(module_id@, owner, name), name));
            }
        } else if kind_is(child, "use_declaration") {
            parse_use(child, ctx);
            proof {
                assert(calls_view(ctx.pending_calls@) == calls_view(c0.pending_calls@));
                lemma_ctx_grown_refl(c0);
                lemma_links_within_refl(graph@, link_targets(il), il);
            }
        } else if kind_is(child, "mod_item") {
            let mod_name = match last_child_of_kind(child, "identifier") {
                Some(j) => child.children[j].text.clone(),
                None => String::new(),
            };
            let inline_body = last_child_of_kind(child, "declaration_list");
            if !mod_name.as_str().is_empty() {
                match inline_body {
                    Some(b) => {
                        let line = line_of(child);
                        let sub_id = add_declaration(graph, module_id, "::", mod_name, NodeKind::Module, rel_path, line, None, Ghost(prefix));
                        let ghost g2 = graph@;
                        proof {
                            lemma_ctx_grown_refl(c0);
                            graph.lemma_valid();
                        }
                        process_items(&child.children[b], sub_id.as_str(), rel_path, graph, ctx, None);
                        proof {
                            assert(rust_inline_mod_id(*child, module_id@) == Some(sub_id@));
                            lemma_links_single(g0, g2, module_id@, sub_id@);
                            let u = rust_links_upto(child.children@[b as int], child.children@[b as int].children@.len() as int, sub_id@, None);
                            lemma_links_then(g0, g2, graph@, set![(module_id@, sub_id@)], u, rel_path@, prefix, prefix);
                            assert(il == set![(module_id@, sub_id@)].union(u));
                            assert(pairs_view(ctx.pending_mods@) =~= pairs_view(c0.pending_mods@) + rust_item_mods(*child, module_id@));
                            lemma_walked_trans(g0, g2, graph@, c0, c0, *ctx, rel_path@);
                            if g0.has_id(module_id@) {
                                lemma_grown_keeps_link(g2, graph@, rel_path@, prefix, module_id@, sub_id@, EdgeKind::Contains);
                            }
                        }
                    },
                    None => {
                        let ghost pm0 = pairs_view(ctx.pending_mods@);
                        proof { lemma_links_within_refl(graph@, link_targets(il), il); }
                        push_mod(ctx, module_id.to_string(), mod_name);
                        proof {
                            assert(pairs_view(ctx.pending_mods@)[pm0.len() as int] == (module_id@, rust_mod_decl(*child)->0));
                            assert(pairs_view(ctx.pending_mods@) =~= pairs_view(c0.pending_mods@) + rust_item_mods(*child, module_id@));
                        }
                    },
                }
            }
        }
        proof {
            if graph@ == g0 {
                lemma_links_within_refl(graph@, link_targets(il), il);
            }
            assert(links_within(g0, graph@, link_targets(il), il));
            lemma_links_then(old(graph)@, g0, graph@, rust_links_upto(*node, i as int, module_id@, owner), il, rel_path@, prefix, prefix);
            lemma_walked_trans(old(graph)@, g0, graph@, *old(ctx), c0, *ctx, rel_path@);
            assert(node.children@[i as int] == *child);
            assert(rust_links_upto(*node, i + 1, module_id@, owner) == rust_links_upto(*node, i as int, module_id@, owner).union(il));
            assert(pairs_view(ctx.pending_mods@) =~= pairs_view(c0.pending_mods@) + rust_item_mods(*child, module_id@));
            assert(pairs_view(ctx.pending_mods@) =~= pairs_view(old(ctx).pending_mods@) + rust_mods_upto(*node, i + 1, module_id@));
            assert(item is Some ==> graph@.has_id(item->0));
            assert forall|k: int| 0 <= k < i + 1 && (#[trigger] rust_item_id(node.children@[k], module_id@, owner)) is Some
                && old(graph)@.has_id(rust_item_parent(node.children@[k], module_id@, owner))
                implies has_link(graph@, rust_item_parent(node.children@[k], module_id@, owner), rust_item_id(node.children@[k], module_id@, owner)->0, EdgeKind::Contains) by {
                if k < i {
                    lemma_grown_keeps_link(g0, graph@, rel_path@, prefix, rust_item_parent(node.children@[k], module_id@, owner),
                        rust_item_id(node.children@[k], module_id@, owner)->0, EdgeKind::Contains);
                }
            }
            if old(graph)@.has_id(module_id@) {
                assert forall|k: int| 0 <= k < i + 1 && (#[trigger] rust_inline_mod_id(node.children@[k], module_id@)) is Some
                    implies has_link(graph@, module_id@, rust_inline_mod_id(node.children@[k], module_id@)->0, EdgeKind::Contains) by {
                    if k < i {
                        lemma_grown_keeps_link(g0, graph@, rel_path@, prefix, module_id@, rust_inline_mod_id(node.children@[k], module_id@)->0, EdgeKind::Contains);
                    }
                }
            }
            assert forall|k: int| 0 <= k < i + 1 && (#[trigger] rust_mod_decl(node.children@[k])) is Some
                implies pairs_view(ctx.pending_mods@).contains((module_id@, rust_mod_decl(node.children@[k])->0)) by {
                if k < i {
                    lemma_pairs_grown_contains(pairs_view(c0.pending_mods@), pairs_view(ctx.pending_mods@), (module_id@, rust_mod_decl(node.children@[k])->0));
                }
            }
            assert forall|k: int| 0 <= k < i + 1 && (#[trigger] rust_item_id(node.children@[k], module_id@, owner)) is Some
                implies graph@.has_id(rust_item_id(node.children@[k], module_id@, owner)->0) by {
                if k < i {
                    lemma_grown_keeps_id(g0, graph@, rel_path@, prefix, rust_item_id(node.children@[k], module_id@, owner)->0);
                }
            }
        }
        i = i + 1;
    }
    proof {
        reveal(mods_recorded);
        reveal(items_contained);
        reveal(inline_mods_contained);
    }
}

/// What a Rust module's tree `t` at the path `rel` makes of the graph
/// `a`, giving the graph `b` and the context `ctx`.
pub open spec fn rust_read(t: SyntaxNode, rel: Seq<char>, a: GraphModel, b: GraphModel, ctx: ParseContext) -> bool {
    &&& ctx.module_id@ == rust_module_id(rel)
    &&& ctx.file@ == rel
    &&& declared(a, b, rust_module_id(rel), NodeKind::Module)
    &&& grown(a, b, rel, rust_module_id(rel))
    &&& forall|k: int| 0 <= k < t.children@.len() && (#[trigger] rust_item_id(t.children@[k], rust_module_id(rel), None)) is Some
            ==> b.has_id(rust_item_id(t.children@[k], rust_module_id(rel), None)->0)
    &&& mods_recorded(t.children@, rust_module_id(rel), pairs_view(ctx.pending_mods@))
    &&& pairs_view(ctx.pending_mods@) == rust_mods_upto(t, t.children@.len() as int, rust_module_id(rel))
    &&& forall|k: int| 0 <= k < t.children@.len() && (#[trigger] rust_item_id(t.children@[k], rust_module_id(rel), None)) is Some
            ==> has_link(b, rust_module_id(rel), rust_item_id(t.children@[k], rust_module_id(rel), None)->0, EdgeKind::Contains)
    &&& forall|k: int| 0 <= k < t.children@.len() && (#[trigger] rust_inline_mod_id(t.children@[k], rust_module_id(rel))) is Some
            ==> has_link(b, rust_module_id(rel), rust_inline_mod_id(t.children@[k], rust_module_id(rel))->0, EdgeKind::Contains)
    &&& links_within(a, b, link_targets(rust_links_upto(t, t.children@.len() as int, rust_module_id(rel), None)).insert(rust_module_id(rel)),
            rust_links_upto(t, t.children@.len() as int, rust_module_id(rel), None))
}

/// Reads a Rust file: adds its module node (named by the last `::` component
/// of its module id) and everything `process_items` finds, and returns the
/// context for the resolution pass.
pub fn parse_tree(root: &SyntaxNode, rel_path: &str, graph: &mut CodeGraph) -> (ctx: ParseContext)
    requires
        old(graph).wf(),
    ensures
        final(graph).wf(),
        rust_read(*root, rel_path@, old(graph)@, final(graph)@, ctx),
{
    let module_id = path_to_module_id(rel_path);
    let name = last_component(module_id.as_str());
    proof { lemma_starts_with_refl(module_id@); }
    add_file_node(graph, module_id.clone(), name, NodeKind::Module, rel_path.to_string(), 1, None, Ghost(module_id@));
    let ghost g1 = graph@;
    proof {
        graph.lemma_valid();
        assert(links_within(old(graph)@, g1, set![module_id@], Set::empty()));
    }
    let mut ctx = new_context(module_id.clone(), rel_path.to_string());
    let ghost c0 = ctx;
    process_items(root, module_id.as_str(), rel_path, graph, &mut ctx, None);
    assert(pairs_view(c0.pending_mods@) =~= Seq::empty());
    assert(pairs_view(ctx.pending_mods@) =~= rust_mods_upto(*root, root.children@.len() as int, module_id@));
    proof {
        assert(g1.has_id(module_id@));
        assert forall|k: int| 0 <= k < root.children@.len() && (#[trigger] rust_item_id(root.children@[k], module_id@, None)) is Some
            implies has_link(graph@, module_id@, rust_item_id(root.children@[k], module_id@, None)->0, EdgeKind::Contains) by {
            reveal(items_contained);
            assert(rust_item_parent(root.children@[k], module_id@, None) == module_id@);
        }
        assert forall|k: int| 0 <= k < root.children@.len() && (#[trigger] rust_inline_mod_id(root.children@[k], module_id@)) is Some
            implies has_link(graph@, module_id@, rust_inline_mod_id(root.children@[k], module_id@)->0, EdgeKind::Contains) by {
            reveal(inline_mods_contained);
        }
        lemma_grown_trans(old(graph)@, g1, graph@, rel_path@, module_id@);
        graph.lemma_valid();
        lemma_declared_grown(old(graph)@, g1, graph@, rel_path@, module_id@, module_id@, NodeKind::Module);
        let l = rust_links_upto(*root, root.children@.len() as int, module_id@, None);
        lemma_links_within_trans(old(graph)@, g1, graph@, set![module_id@], Set::empty(), link_targets(l), l);
        assert(set![module_id@].union(link_targets(l)) =~= link_targets(l).insert(module_id@));
        assert(Set::<(Seq<char>, Seq<char>)>::empty().union(l) =~= l);
    }
    ctx
}

/// What the tree that tree-sitter's grammar of `lang` gives for `source`
/// makes of the graph `a` at the path `rel`: a tree that the listing of the
/// source describes (see `syntax::describes`; there is at most one, see
/// `syntax::lemma_describes_unique`) reads as `b` and `ctx`.
pub open spec fn rust_parsed(source: Seq<char>, lang: Language, rel: Seq<char>, a: GraphModel, b: GraphModel, ctx: ParseContext) -> bool {
    exists|t: SyntaxNode| describes(t, ts_preorder(source, lang)) && #[trigger] rust_read(t, rel, a, b, ctx)
}

/// Parses a Rust source file and reads it (see `parse_tree`); fails when the
/// parser yields no tree.
pub fn parse_file(source: &str, rel_path: &str, graph: &mut CodeGraph) -> (r: Result<ParseContext, ParseError>)
    requires
        old(graph).wf(),
    ensures
        final(graph).wf(),
        r is Ok ==> declared(old(graph)@, final(graph)@, rust_module_id(rel_path@), NodeKind::Module),
        r matches Ok(ctx) ==> ctx.module_id@ == rust_module_id(rel_path@),
        r is Err <==> !grammar_accepted(Language::Rust),
        r matches Err(e) ==> e == ParseError::LanguageError(Language::Rust),
        r is Err ==> final(graph)@ == old(graph)@,
        r matches Ok(ctx) ==> rust_parsed(source@, Language::Rust, rel_path@, old(graph)@, final(graph)@, ctx),
        grown(old(graph)@, final(graph)@, rel_path@, rust_module_id(rel_path@)),
{
    match parse_source(source, Language::Rust) {
        Ok(root) => {
            let ctx = parse_tree(&root, rel_path, graph);
            assert(rust_parsed(source@, Language::Rust, rel_path@, old(graph)@, graph@, ctx)) by {
                assert(rust_read(root, rel_path@, old(graph)@, graph@, ctx));
            }
            Ok(ctx)
        },
        Err(e) => {
            proof { lemma_grown_refl(graph@, rel_path@, rust_module_id(rel_path@)); }
            Err(e)
        },
    }
}

} // verus!
