//! Concrete syntax trees: a plain tree type that the front-ends read, and the
//! tree-sitter parse that produces it.
use tree_sitter::Parser;
use vstd::prelude::*;

use crate::context::Language;

verus! {

/// One node of a concrete syntax tree: its grammar kind, its source text, its
/// first line (0-based) and its children in source order.
#[derive(Debug)]
pub struct SyntaxNode {
    pub kind: String,
    pub text: String,
    pub row: usize,
    pub children: Vec<SyntaxNode>,
}

/// Why a file could not be turned into a syntax tree: the parser library
/// refused the grammar of its language.
#[derive(Debug, Clone, Copy, PartialEq, Eq, Structural)]
pub enum ParseError {
    LanguageError(Language),
}

#[verifier::external_type_specification]
#[verifier::external_body]
pub struct ExParser(Parser);

/// Whether tree-sitter accepts the grammar of a language: its
/// `Parser::set_language` accepts a grammar exactly when the grammar's ABI
/// version lies in the range the library supports, a fact of the grammar
/// crate and the library alone.
pub uninterp spec fn grammar_accepted(lang: Language) -> bool;

/// A node of a syntax tree as a preorder listing gives it: its kind, its
/// text, its first row and its number of children.
pub type Listed = (Seq<char>, Seq<char>, nat, nat);

/// The nodes of the tree tree-sitter builds for `source` with the grammar of
/// `lang`, in preorder (a node, then the listings of its children in source
/// order), each with its kind, its text (empty where not valid UTF-8), its
/// first row (0-based) and its number of children. With a fixed grammar the
/// tree depends on the text alone.
pub uninterp spec fn ts_preorder(source: Seq<char>, lang: Language) -> Seq<Listed>;

/// The listing as plain values.
pub open spec fn listed_view(v: Seq<(String, String, usize, usize)>) -> Seq<Listed> {
    v.map_values(|e: (String, String, usize, usize)| (e.0@, e.1@, e.2 as nat, e.3 as nat))
}

/// Where the listing of the tree `t` ends when it starts at index `i` of
/// `f` (the index after its last node), or -1 when `f` does not list `t`
/// there: the entry at `i` gives `t`'s kind, text, row and number of
/// children, and the children's listings follow one after another.
pub open spec fn span(t: SyntaxNode, f: Seq<Listed>, i: int) -> int
    decreases t, 1int,
{
    if 0 <= i < f.len() && f[i] == (t.kind@, t.text@, t.row as nat, t.children@.len()) {
        spans(t.children@, f, i + 1)
    } else {
        -1
    }
}

/// Where the listings of the trees `cs`, one after another from index `i`,
/// end, or -1.
pub open spec fn spans(cs: Seq<SyntaxNode>, f: Seq<Listed>, i: int) -> int
    decreases cs, 0int,
{
    if cs.len() == 0 {
        i
    } else {
        let j = spans(cs.drop_last(), f, i);
        if j < 0 { -1 } else { span(cs.last(), f, j) }
    }
}

/// `f` is the preorder listing of the tree `t`, and nothing more.
pub open spec fn describes(t: SyntaxNode, f: Seq<Listed>) -> bool {
    span(t, f, 0) == f.len()
}

/// Two trees with the same kinds, texts, rows and children, node for node.
pub open spec fn same_tree(t1: SyntaxNode, t2: SyntaxNode) -> bool
    decreases t1, 1int,
{
    &&& t1.kind@ == t2.kind@
    &&& t1.text@ == t2.text@
    &&& t1.row == t2.row
    &&& same_trees(t1.children@, t2.children@)
}

/// Two sequences of trees that are the same tree by tree.
pub open spec fn same_trees(c1: Seq<SyntaxNode>, c2: Seq<SyntaxNode>) -> bool
    decreases c1, 0int,
{
    &&& c1.len() == c2.len()
    &&& c1.len() > 0 ==> same_trees(c1.drop_last(), c2.drop_last()) && same_tree(c1.last(), c2.last())
}

proof fn lemma_span_determines(t1: SyntaxNode, t2: SyntaxNode, f: Seq<Listed>, i: int)
    requires
        span(t1, f, i) >= 0,
        span(t2, f, i) >= 0,
    ensures
        span(t1, f, i) == span(t2, f, i),
        same_tree(t1, t2),
    decreases t1, 1int,
{
    lemma_spans_determine(t1.children@, t2.children@, f, i + 1);
}

proof fn lemma_spans_determine(c1: Seq<SyntaxNode>, c2: Seq<SyntaxNode>, f: Seq<Listed>, i: int)
    requires
        c1.len() == c2.len(),
        spans(c1, f, i) >= 0,
        spans(c2, f, i) >= 0,
    ensures
        spans(c1, f, i) == spans(c2, f, i),
        same_trees(c1, c2),
    decreases c1, 0int,
{
    if c1.len() > 0 {
        lemma_spans_determine(c1.drop_last(), c2.drop_last(), f, i);
        lemma_span_determines(c1.last(), c2.last(), f, spans(c1.drop_last(), f, i));
    }
}

/// A listing describes at most one tree: any two trees it describes are the
/// same tree, kind, text, row and children, node for node.
pub proof fn lemma_describes_unique(t1: SyntaxNode, t2: SyntaxNode, f: Seq<Listed>)
    requires
        describes(t1, f),
        describes(t2, f),
    ensures
        same_tree(t1, t2),
{
    lemma_span_determines(t1, t2, f, 0);
}

/// The tree tree-sitter builds for `source` with the grammar of `lang`: the
/// tree its preorder listing describes (see `lemma_describes_unique`).
pub open spec fn syntax_tree(source: Seq<char>, lang: Language) -> SyntaxNode {
    choose|t: SyntaxNode| describes(t, ts_preorder(source, lang))
}

/// Where decoding a listing from index `i` ends (the index after the node's
/// subtree), reading at most `fuel` levels, or -1.
pub open spec fn decode_end(f: Seq<Listed>, i: int, fuel: nat) -> int
    decreases fuel, 0int, 0int,
{
    if fuel == 0 || i < 0 || i >= f.len() {
        -1
    } else {
        decode_list_end(f, i + 1, f[i].3, (fuel - 1) as nat)
    }
}

/// Where decoding `k` subtrees one after another from index `j` ends, or -1.
pub open spec fn decode_list_end(f: Seq<Listed>, j: int, k: nat, fuel: nat) -> int
    decreases fuel, 1int, k,
{
    if k == 0 {
        j
    } else {
        let j2 = decode_list_end(f, j, (k - 1) as nat, fuel);
        if j2 < 0 { -1 } else { decode_end(f, j2, fuel) }
    }
}

/// `tree_sitter::Parser::new`.
#[verifier::external_body]
fn ts_parser_new() -> Parser {
    Parser::new()
}

/// `tree_sitter::Parser::set_language` with the grammar of `lang` (the
/// `LANGUAGE` constant of `tree_sitter_python`, `tree_sitter_rust`,
/// `tree_sitter_cpp` or `tree_sitter_javascript`, or `LANGUAGE_TYPESCRIPT` of
/// `tree_sitter_typescript`): whether it was accepted, named by
/// `grammar_accepted`.
#[verifier::external_body]
fn ts_set_language(p: &mut Parser, lang: Language) -> (r: bool)
    ensures
        r == grammar_accepted(lang),
{
    let g: tree_sitter::Language = match lang {
        Language::Python => tree_sitter_python::LANGUAGE.into(),
        Language::Rust => tree_sitter_rust::LANGUAGE.into(),
        Language::Cpp => tree_sitter_cpp::LANGUAGE.into(),
        Language::TypeScript => tree_sitter_typescript::LANGUAGE_TYPESCRIPT.into(),
        Language::JavaScript => tree_sitter_javascript::LANGUAGE.into(),
    };
    p.set_language(&g).is_ok()
}

/// A tree-sitter parser that holds the accepted grammar of `lang`, with no
/// timeout and no cancellation flag set: `ready_parser` makes one only after
/// `Parser::set_language` succeeded, and nothing else touches it.
pub struct ReadyParser {
    parser: Parser,
    lang: Language,
}

/// A parser for a language, when tree-sitter accepts its grammar.
fn ready_parser(lang: Language) -> (r: Option<ReadyParser>)
    ensures
        r is Some <==> grammar_accepted(lang),
        r matches Some(p) ==> p.lang == lang,
{
    let mut parser = ts_parser_new();
    if ts_set_language(&mut parser, lang) {
        Some(ReadyParser { parser, lang })
    } else {
        None
    }
}

/// `tree_sitter::Parser::parse` on the whole source, without an old tree,
/// and the tree it gives converted to its preorder listing (see
/// `ts_preorder`): each node, from the root, with `Node::kind`,
/// `Node::utf8_text` (the empty string where not valid UTF-8), the row of
/// `Node::start_position` and `Node::child_count`, followed by the listings
/// of its children `Node::child(0)`, `Node::child(1)`, ... tree-sitter gives
/// no tree only when no language is set, a timeout expired or a cancellation
/// flag was flipped; a `ReadyParser` has a language and neither of the
/// others, so a tree comes back. Each node's count of children is the number
/// of listings that follow for it, so the listing decodes as a whole, and a
/// tree is no deeper than it has nodes.
#[verifier::external_body]
fn ts_preorder_of(p: &mut ReadyParser, source: &str, lang: Language) -> (r: Vec<(String, String, usize, usize)>)
    requires
        old(p).lang == lang,
    ensures
        listed_view(r@) == ts_preorder(source@, lang),
        decode_end(listed_view(r@), 0, r@.len() as nat) == r@.len(),
{
    let tree = p.parser.parse(source, None).unwrap();
    let (mut out, mut stack) = (Vec::new(), vec![tree.root_node()]);
    while let Some(n) = stack.pop() {
        let text = n.utf8_text(source.as_bytes()).unwrap_or("").to_string();
        out.push((n.kind().to_string(), text, n.start_position().row, n.child_count()));
        for i in (0..n.child_count()).rev() {
            stack.push(n.child(i).unwrap());
        }
    }
    out
}

/// A decoding that fails at `c + 1` subtrees fails for any more.
proof fn lemma_decode_list_fails(f: Seq<Listed>, j: int, c: nat, k: nat, fuel: nat)
    requires
        c < k,
        decode_list_end(f, j, (c + 1) as nat, fuel) < 0,
    ensures
        decode_list_end(f, j, k, fuel) < 0,
    decreases k - c,
{
    if k > c + 1 {
        lemma_decode_list_fails(f, j, c, (k - 1) as nat, fuel);
    }
}

/// The tree a listing gives from index `i`, reading at most `fuel` levels
/// (see `decode_end`), with the index after it.
fn build_tree(f: &Vec<(String, String, usize, usize)>, i: usize, fuel: usize) -> (r: Option<(SyntaxNode, usize)>)
    ensures
        r is Some <==> decode_end(listed_view(f@), i as int, fuel as nat) >= 0,
        r matches Some((t, j)) ==> j as int == decode_end(listed_view(f@), i as int, fuel as nat)
            && span(t, listed_view(f@), i as int) == j,
    decreases fuel,
{
    let ghost fv = listed_view(f@);
    if fuel == 0 || i >= f.len() {
        return None;
    }
    let n = f[i].3;
    let mut children: Vec<SyntaxNode> = Vec::new();
    let mut j: usize = i + 1;
    let mut c: usize = 0;
    assert(children@ =~= Seq::<SyntaxNode>::empty());
    while c < n
        invariant
            fv == listed_view(f@),
            0 < fuel,
            i < f@.len(),
            n == f@[i as int].3,
            c <= n,
            j as int == decode_list_end(fv, i + 1, c as nat, (fuel - 1) as nat),
            spans(children@, fv, i + 1) == j,
            children@.len() == c,
        decreases n - c,
    {
        match build_tree(f, j, fuel - 1) {
            Some((ch, j2)) => {
                let ghost before = children@;
                children.push(ch);
                proof {
                    assert(children@.drop_last() =~= before);
                }
                j = j2;
            },
            None => {
                proof {
                    if c + 1 < n {
                        lemma_decode_list_fails(fv, i + 1, c as nat, n as nat, (fuel - 1) as nat);
                    }
                }
                return None;
            },
        }
        c = c + 1;
    }
    let kind = f[i].0.clone();
    let text = f[i].1.clone();
    let t = SyntaxNode { kind, text, row: f[i].2, children };
    proof {
        assert(fv[i as int] == (t.kind@, t.text@, t.row as nat, t.children@.len()));
    }
    Some((t, j))
}

/// Parses a source text with the grammar of its language into the tree that
/// `ts_preorder` lists, node for node the tree `syntax_tree` names. Fails,
/// with `LanguageError(lang)`, exactly when tree-sitter refuses that grammar.
pub fn parse_source(source: &str, lang: Language) -> (r: Result<SyntaxNode, ParseError>)
    ensures
        r is Err <==> !grammar_accepted(lang),
        r matches Err(e) ==> e == ParseError::LanguageError(lang),
        r matches Ok(t) ==> describes(t, ts_preorder(source@, lang)),
        r matches Ok(t) ==> same_tree(t, syntax_tree(source@, lang)),
{
    match ready_parser(lang) {
        Some(mut parser) => {
            let flat = ts_preorder_of(&mut parser, source, lang);
            match build_tree(&flat, 0, flat.len()) {
                Some((t, _)) => {
                    proof {
                        assert(describes(t, ts_preorder(source@, lang)));
                        lemma_describes_unique(t, syntax_tree(source@, lang), ts_preorder(source@, lang));
                    }
                    Ok(t)
                },
                None => vstd::pervasive::unreached(),
            }
        },
        None => Err(ParseError::LanguageError(lang)),
    }
}

} // verus!
