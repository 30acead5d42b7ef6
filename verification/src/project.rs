//! A whole project: which files to read, the per-file content hashes that
//! let an earlier graph be reused, and building one graph from many files.
use vstd::prelude::*;

use crate::context::{lookup, store_all, Language, ParseContext, StrMap};
use crate::model::{CodeGraph, GraphModel};
use crate::resolve::{all_linked, ext_grown, registry_of, Resolver};
use crate::syntax::{grammar_accepted, ParseError};
use crate::text::{chars_of, has_prefix, last_piece, last_piece_of, replace_all, starts_with, str_eq, string_from, trim_of, trim_white};
use crate::typescript::JsVariant;

verus! {

/// The lowercase hexadecimal BLAKE3 digest of some bytes.
pub uninterp spec fn blake3_hex(data: Seq<u8>) -> Seq<char>;

/// `blake3::hash(data).to_hex()`: the digest named by `blake3_hex`; the
/// encoding has 64 characters, each a digit or a letter `a` to `f`.
#[verifier::external_body]
pub(crate) fn file_hash(data: &[u8]) -> (r: String)
    ensures
        r@ == blake3_hex(data@),
        r@.len() == 64,
        forall|i: int| 0 <= i < r@.len() ==> ('0' <= #[trigger] r@[i] <= '9' || 'a' <= r@[i] <= 'f'),
{
    blake3::hash(data).to_hex().to_string()
}

/// The text `String::from_utf8_lossy` decodes from some bytes.
pub uninterp spec fn utf8_lossy(data: Seq<u8>) -> Seq<char>;

/// `String::from_utf8_lossy`, as an owned string: named by `utf8_lossy`.
#[verifier::external_body]
pub(crate) fn decode_lossy(data: &[u8]) -> (r: String)
    ensures
        r@ == utf8_lossy(data@),
{
    String::from_utf8_lossy(data).to_string()
}

/// The content hash of a file's bytes (see `blake3_hex`).
pub fn content_hash(data: &[u8]) -> (r: String)
    ensures
        r@ == blake3_hex(data@),
        r@.len() == 64,
{
    file_hash(data)
}

/// The hashes of the files an earlier graph was built from (by path), and
/// that graph in its serialized form, if it was kept.
#[derive(Debug)]
pub struct Cache {
    pub hashes: StrMap,
    pub graph_json: Option<String>,
}

impl Cache {
    /// Whether a file's current bytes still hash to the hash kept for its
    /// path (false for a path without a kept hash).
    pub fn is_unchanged_data(&self, key: &str, data: &[u8]) -> (r: bool)
        ensures
            r == (lookup(self.hashes@, key@) == Some(blake3_hex(data@))),
    {
        match self.hashes.get(key) {
            Some(h) => {
                let now = file_hash(data);
                str_eq(h.as_str(), now.as_str())
            },
            None => false,
        }
    }
}

/// Directories that are not searched: hidden ones, `target` and
/// `node_modules`.
pub open spec fn skipped_dir(name: Seq<char>) -> bool {
    starts_with(name, "."@) || name == "target"@ || name == "node_modules"@
}

/// Whether a directory is not searched (see `skipped_dir`).
pub fn skip_dir(name: &str) -> (r: bool)
    ensures
        r == skipped_dir(name@),
{
    let cs = chars_of(name);
    let dot = chars_of(".");
    has_prefix(cs.as_slice(), dot.as_slice()) || str_eq(name, "target") || str_eq(name, "node_modules")
}

/// The language of a file extension among the languages asked for: `py`
/// for Python, `rs` for Rust, `cpp`, `cc`, `cxx`, `h` and `hpp` for C++.
pub open spec fn extension_language(ext: Seq<char>, languages: Seq<Language>) -> Option<Language> {
    if ext == "py"@ && languages.contains(Language::Python) {
        Some(Language::Python)
    } else if ext == "rs"@ && languages.contains(Language::Rust) {
        Some(Language::Rust)
    } else if (ext == "cpp"@ || ext == "cc"@ || ext == "cxx"@ || ext == "h"@ || ext == "hpp"@) && languages.contains(Language::Cpp) {
        Some(Language::Cpp)
    } else {
        None
    }
}

/// With C++ asked for, every C or C++ source or header extension (`cpp`,
/// `cc`, `cxx`, `h`, `hpp`) is read as C++, whatever other languages are
/// asked for; without it, none of them is read.
pub proof fn lemma_cpp_extensions(languages: Seq<Language>)
    ensures
        languages.contains(Language::Cpp) ==> {
            &&& extension_language("cpp"@, languages) == Some(Language::Cpp)
            &&& extension_language("cc"@, languages) == Some(Language::Cpp)
            &&& extension_language("cxx"@, languages) == Some(Language::Cpp)
            &&& extension_language("h"@, languages) == Some(Language::Cpp)
            &&& extension_language("hpp"@, languages) == Some(Language::Cpp)
        },
        !languages.contains(Language::Cpp) ==> {
            &&& extension_language("cpp"@, languages) is None
            &&& extension_language("cc"@, languages) is None
            &&& extension_language("cxx"@, languages) is None
            &&& extension_language("h"@, languages) is None
            &&& extension_language("hpp"@, languages) is None
        },
{
    reveal_strlit("py");
    reveal_strlit("rs");
    reveal_strlit("cpp");
    reveal_strlit("cc");
    reveal_strlit("cxx");
    reveal_strlit("h");
    reveal_strlit("hpp");
    assert("cpp"@.len() != "py"@.len() && "cpp"@.len() != "rs"@.len());
    assert("cc"@[0] != "py"@[0] && "cc"@[0] != "rs"@[0]);
    assert("cxx"@.len() != "py"@.len() && "cxx"@.len() != "rs"@.len());
    assert("h"@.len() != "py"@.len() && "h"@.len() != "rs"@.len());
    assert("hpp"@.len() != "py"@.len() && "hpp"@.len() != "rs"@.len());
}

fn contains_language(languages: &Vec<Language>, l: Language) -> (r: bool)
    ensures
        r == languages@.contains(l),
{
    let mut i: usize = 0;
    while i < languages.len()
        invariant
            i <= languages@.len(),
            forall|j: int| 0 <= j < i ==> languages@[j] != l,
        decreases languages@.len() - i,
    {
        if languages[i] == l {
            return true;
        }
        i = i + 1;
    }
    false
}

/// The language of a file extension (see `extension_language`).
pub fn language_for_extension(ext: &str, languages: &Vec<Language>) -> (r: Option<Language>)
    ensures
        r == extension_language(ext@, languages@),
{
    if str_eq(ext, "py") && contains_language(languages, Language::Python) {
        Some(Language::Python)
    } else if str_eq(ext, "rs") && contains_language(languages, Language::Rust) {
        Some(Language::Rust)
    } else if (str_eq(ext, "cpp") || str_eq(ext, "cc") || str_eq(ext, "cxx") || str_eq(ext, "h") || str_eq(ext, "hpp"))
        && contains_language(languages, Language::Cpp) {
        Some(Language::Cpp)
    } else {
        None
    }
}

/// The language of a path by the text after its last `.` (see
/// `extension_language`).
pub fn language_for_path(path: &str, languages: &Vec<Language>) -> (r: Option<Language>)
    ensures
        r == extension_language(last_piece(path@, "."@), languages@),
{
    let cs = chars_of(path);
    let dot = chars_of(".");
    let ext = string_from(last_piece_of(cs.as_slice(), dot.as_slice()).as_slice());
    language_for_extension(ext.as_str(), languages)
}

/// A file to read: the path its hash is kept under, its path relative to
/// the project root (`/`-separated), its language and its bytes.
#[derive(Debug)]
pub struct SourceFile {
    pub key: String,
    pub rel_path: String,
    pub language: Language,
    pub data: Vec<u8>,
}

/// The kept graph can stand for the project: it was kept, there are files,
/// and every file still hashes to its kept hash.
pub open spec fn cache_usable(cache: Cache, files: Seq<SourceFile>) -> bool {
    &&& cache.graph_json is Some
    &&& files.len() > 0
    &&& hashes_match(cache.hashes@, files)
}

/// Every file still hashes to the hash kept for its key.
pub open spec fn hashes_match(hashes: Seq<(Seq<char>, Seq<char>)>, files: Seq<SourceFile>) -> bool {
    forall|i: int| 0 <= i < files.len() ==> lookup(hashes, (#[trigger] files[i]).key@) == Some(blake3_hex(files[i].data@))
}

/// Whether the kept graph can stand for the project (see `cache_usable`).
pub fn cached_graph_usable(cache: &Cache, files: &Vec<SourceFile>) -> (r: bool)
    ensures
        r == cache_usable(*cache, files@),
{
    if cache.graph_json.is_none() || files.len() == 0 {
        return false;
    }
    let mut i: usize = 0;
    while i < files.len()
        invariant
            i <= files@.len(),
            forall|j: int| 0 <= j < i ==> lookup(cache.hashes@, (#[trigger] files@[j]).key@) == Some(blake3_hex(files@[j].data@)),
        decreases files@.len() - i,
    {
        if !cache.is_unchanged_data(files[i].key.as_str(), files[i].data.as_slice()) {
            return false;
        }
        i = i + 1;
    }
    true
}

/// The module id the front-end of a language gives a path.
pub open spec fn module_id_for(lang: Language, rel: Seq<char>) -> Seq<char> {
    match lang {
        Language::Python => crate::python::py_module_id(rel),
        Language::Rust => crate::rust_lang::rust_module_id(rel),
        Language::Cpp => crate::cpp::cpp_module_id(rel),
        Language::TypeScript => crate::typescript::ts_module_id(rel),
        Language::JavaScript => crate::typescript::ts_module_id(rel),
    }
}

/// What the front-end of `lang` makes of the tree tree-sitter gives for
/// `source` at the path `rel`: from the graph `a`, the graph `b` and the
/// context `ctx` (see `python::py_read`, `rust_lang::rust_read`,
/// `cpp::cpp_read`, `typescript::ts_read`).
pub open spec fn front_parsed(lang: Language, source: Seq<char>, rel: Seq<char>, a: GraphModel, b: GraphModel, ctx: ParseContext) -> bool {
    match lang {
        Language::Python => crate::python::py_parsed(source, lang, rel, a, b, ctx),
        Language::Rust => crate::rust_lang::rust_parsed(source, lang, rel, a, b, ctx),
        Language::Cpp => crate::cpp::cpp_parsed(source, lang, rel, a, b, ctx),
        Language::TypeScript => crate::typescript::ts_parsed(source, lang, rel, a, b, ctx),
        Language::JavaScript => crate::typescript::ts_parsed(source, lang, rel, a, b, ctx),
    }
}

/// Reads one source text with the front-end of its language.
pub fn parse_with(source: &str, rel_path: &str, lang: Language, graph: &mut CodeGraph) -> (r: Result<ParseContext, ParseError>)
    requires
        old(graph).wf(),
    ensures
        final(graph).wf(),
        r is Ok ==> final(graph)@.has_id(module_id_for(lang, rel_path@)),
        r matches Ok(ctx) ==> ctx.module_id@ == module_id_for(lang, rel_path@),
        r matches Ok(ctx) ==> front_parsed(lang, source@, rel_path@, old(graph)@, final(graph)@, ctx),
        r is Err ==> final(graph)@ == old(graph)@,
        r is Err <==> !grammar_accepted(lang),
        r matches Err(e) ==> e == ParseError::LanguageError(lang),
        crate::front::grown(old(graph)@, final(graph)@, rel_path@, module_id_for(lang, rel_path@)),
{
    match lang {
        Language::Python => crate::python::parse_file(source, rel_path, graph),
        Language::Rust => crate::rust_lang::parse_file(source, rel_path, graph),
        Language::Cpp => crate::cpp::parse_file(source, rel_path, graph),
        Language::TypeScript => crate::typescript::parse_file(source, rel_path, graph, JsVariant::TypeScript),
        Language::JavaScript => crate::typescript::parse_file(source, rel_path, graph, JsVariant::JavaScript),
    }
}

/// The hashes `analyze_sources` keeps: each file's hash under its key.
pub open spec fn hash_entries(files: Seq<SourceFile>) -> Seq<(Seq<char>, Seq<char>)> {
    files.map_values(|f: SourceFile| (f.key@, blake3_hex(f.data@)))
}

/// A graph built from a project's files, with the files' hashes.
pub struct Analyzed {
    pub graph: CodeGraph,
    pub hashes: StrMap,
}


/// Every node of the graph is external or lies in one of the given files.
pub open spec fn nodes_from(g: GraphModel, paths: Seq<Seq<char>>) -> bool {
    forall|i: int| 0 <= i < g.nodes.len() ==> (#[trigger] g.nodes[i]).is_external || paths.contains(g.nodes[i].file@)
}

proof fn lemma_nodes_from_grown(a: GraphModel, b: GraphModel, file: Seq<char>, prefix: Seq<char>, paths: Seq<Seq<char>>)
    requires
        nodes_from(a, paths),
        crate::front::grown(a, b, file, prefix),
        paths.contains(file),
    ensures
        nodes_from(b, paths),
{
    assert forall|i: int| 0 <= i < b.nodes.len() implies (#[trigger] b.nodes[i]).is_external || paths.contains(b.nodes[i].file@) by {
        if i < a.nodes.len() {
            assert(b.nodes.subrange(0, a.nodes.len() as int)[i] == b.nodes[i]);
            assert(a.nodes[i] == b.nodes[i]);
        }
    }
}

proof fn lemma_nodes_from_ext(a: GraphModel, b: GraphModel, paths: Seq<Seq<char>>)
    requires
        nodes_from(a, paths),
        ext_grown(a, b),
    ensures
        nodes_from(b, paths),
{
    assert forall|i: int| 0 <= i < b.nodes.len() implies (#[trigger] b.nodes[i]).is_external || paths.contains(b.nodes[i].file@) by {
        if i < a.nodes.len() {
            assert(b.nodes.subrange(0, a.nodes.len() as int)[i] == b.nodes[i]);
            assert(a.nodes[i] == b.nodes[i]);
        }
    }
}

/// The paths of the files, relative to the project root.
pub open spec fn rel_paths(files: Seq<SourceFile>) -> Seq<Seq<char>> {
    files.map_values(|f: SourceFile| f.rel_path@)
}

/// The paths of a revision's files, with `/` for `\`.
pub open spec fn revision_paths(files: Seq<RevisionFile>) -> Seq<Seq<char>> {
    files.map_values(|f: RevisionFile| replace_all(f.path@, "\\"@, "/"@))
}

/// Every file's language has a grammar the parser accepts.
pub open spec fn all_accepted(files: Seq<SourceFile>) -> bool {
    forall|i: int| 0 <= i < files.len() ==> grammar_accepted((#[trigger] files[i]).language)
}

/// `e` is the error for the first file whose grammar the parser refuses.
pub open spec fn first_refusal(e: ParseError, files: Seq<SourceFile>) -> bool {
    exists|i: int| 0 <= i < files.len() && !grammar_accepted((#[trigger] files[i]).language)
        && e == ParseError::LanguageError(files[i].language)
        && all_accepted(files.subrange(0, i))
}

/// `gs` are the graphs before and after each of the first `n` files, from
/// the empty graph: each file's bytes, decoded as UTF-8 (invalid sequences
/// replaced), read with the front-end of its language, take the graph
/// before it to the one after it and give its context in `ctxs`.
pub open spec fn read_chain(files: Seq<SourceFile>, n: int, gs: Seq<GraphModel>, ctxs: Seq<ParseContext>) -> bool {
    &&& gs.len() == n + 1
    &&& ctxs.len() == n
    &&& gs[0] == GraphModel::empty()
    &&& forall|i: int| 0 <= i < n ==> front_parsed(files[i].language, utf8_lossy(files[i].data@), files[i].rel_path@, gs[i], gs[i + 1], #[trigger] ctxs[i])
}

/// The graph `g` and the contexts `ctxs` are what the front-ends make of
/// the files, one after another in order, from the empty graph.
pub open spec fn files_read(files: Seq<SourceFile>, g: GraphModel, ctxs: Seq<ParseContext>) -> bool {
    exists|gs: Seq<GraphModel>| #[trigger] read_chain(files, files.len() as int, gs, ctxs) && gs.last() == g
}

/// Reads each file (its bytes decoded as UTF-8, invalid sequences replaced)
/// with the front-end of its language, keeping its hash; fails with the
/// first parse failure.
fn read_sources(files: &Vec<SourceFile>) -> (r: Result<(CodeGraph, Vec<ParseContext>, StrMap), ParseError>)
    ensures
        r matches Ok((g, _c, h)) ==> {
            &&& g.wf()
            &&& nodes_from(g@, rel_paths(files@))
            &&& h@ == store_all(Seq::empty(), hash_entries(files@))
            &&& forall|i: int| 0 <= i < files@.len() ==> g@.has_id(
                module_id_for((#[trigger] files@[i]).language, files@[i].rel_path@),
            )
            &&& _c@.len() == files@.len()
            &&& forall|i: int| 0 <= i < files@.len() ==> (#[trigger] _c@[i]).module_id@ == module_id_for(files@[i].language, files@[i].rel_path@)
            &&& files_read(files@, g@, _c@)
        },
        r is Ok <==> all_accepted(files@),
        r matches Err(e) ==> first_refusal(e, files@),
{
    let mut graph = CodeGraph::new();
    let mut contexts: Vec<ParseContext> = Vec::new();
    let mut hashes = StrMap::new();
    assert(nodes_from(graph@, rel_paths(files@)));
    let mut i: usize = 0;
    let ghost mut gs: Seq<GraphModel> = seq![graph@];
    assert(hash_entries(files@.subrange(0, 0)) =~= Seq::<(Seq<char>, Seq<char>)>::empty());
    while i < files.len()
        invariant
            i <= files@.len(),
            graph.wf(),
            read_chain(files@, i as int, gs, contexts@),
            gs.last() == graph@,
            nodes_from(graph@, rel_paths(files@)),
            hashes@ == store_all(Seq::empty(), hash_entries(files@.subrange(0, i as int))),
            forall|j: int| 0 <= j < i ==> graph@.has_id(module_id_for((#[trigger] files@[j]).language, files@[j].rel_path@)),
            contexts@.len() == i,
            forall|j: int| 0 <= j < i ==> grammar_accepted((#[trigger] files@[j]).language),
            forall|j: int| 0 <= j < i ==> (#[trigger] contexts@[j]).module_id@ == module_id_for(files@[j].language, files@[j].rel_path@),
        decreases files@.len() - i,
    {
        let f = &files[i];
        let hash = file_hash(f.data.as_slice());
        let ghost pre = hash_entries(files@.subrange(0, i as int));
        hashes.insert(f.key.clone(), hash);
        proof {
            crate::context::lemma_store_all_push(Seq::empty(), pre, f.key@, blake3_hex(f.data@));
            assert(hash_entries(files@.subrange(0, i + 1)) =~= pre.push((f.key@, blake3_hex(f.data@))));
        }
        let source = decode_lossy(f.data.as_slice());
        let ghost g0 = graph@;
        match parse_with(source.as_str(), f.rel_path.as_str(), f.language, &mut graph) {
            Ok(ctx) => {
                let ghost c0 = contexts@;
                let ghost gs0 = gs;
                contexts.push(ctx);
                proof {
                    gs = gs.push(graph@);
                    assert forall|j: int| 0 <= j < i + 1 implies front_parsed(files@[j].language, utf8_lossy(files@[j].data@), files@[j].rel_path@,
                        gs[j], gs[j + 1], #[trigger] contexts@[j]) by {
                        if j < i {
                            assert(c0[j] == contexts@[j]);
                            assert(gs0[j] == gs[j] && gs0[j + 1] == gs[j + 1]);
                        }
                    }
                }
            },
            Err(e) => {
                assert(files@.subrange(0, i as int) =~= files@.subrange(0, i as int));
                assert(first_refusal(e, files@));
                assert(!all_accepted(files@));
                return Err(e);
            },
        }
        proof {
            assert(rel_paths(files@)[i as int] == f.rel_path@);
            lemma_nodes_from_grown(g0, graph@, f.rel_path@, module_id_for(f.language, f.rel_path@), rel_paths(files@));
            assert forall|j: int| 0 <= j < i + 1 implies graph@.has_id(module_id_for((#[trigger] files@[j]).language, files@[j].rel_path@)) by {
                if j < i {
                    crate::front::lemma_grown_keeps_id(g0, graph@, f.rel_path@, module_id_for(f.language, f.rel_path@),
                        module_id_for(files@[j].language, files@[j].rel_path@));
                }
            }
        }
        i = i + 1;
    }
    assert(files@.subrange(0, files@.len() as int) =~= files@);
    assert(read_chain(files@, files@.len() as int, gs, contexts@));
    Ok((graph, contexts, hashes))
}

/// Builds the graph of a project: reads each file (its bytes decoded as
/// UTF-8, invalid sequences replaced) with the front-end of its language,
/// keeping its hash, then resolves names across files. Fails with the first
/// parse failure. On success the graph holds a module node for every file,
/// the hashes are those of the files, in order, and the graph is what the
/// front-ends make of the files one after another (see `files_read`), grown
/// by the resolution pass over their contexts (see `resolve::all_linked`).
pub fn analyze_sources(files: &Vec<SourceFile>) -> (r: Result<Analyzed, ParseError>)
    ensures
        r matches Ok(a) ==> {
            &&& a.graph.wf()
            &&& nodes_from(a.graph@, rel_paths(files@))
            &&& a.hashes@ == store_all(Seq::empty(), hash_entries(files@))
            &&& forall|i: int| 0 <= i < files@.len() ==> a.graph@.has_id(
                module_id_for((#[trigger] files@[i]).language, files@[i].rel_path@),
            )
            &&& exists|g1: GraphModel, ctxs: Seq<ParseContext>| {
                &&& ctxs.len() == files@.len()
                &&& forall|i: int| 0 <= i < files@.len() ==> (#[trigger] ctxs[i]).module_id@ == module_id_for(files@[i].language, files@[i].rel_path@)
                &&& files_read(files@, g1, ctxs)
                &&& ext_grown(g1, a.graph@)
                &&& #[trigger] all_linked(registry_of(g1.nodes), ctxs, ctxs.len() as int, g1, a.graph@)
            }
        },
        r is Ok <==> all_accepted(files@),
        r matches Err(e) ==> first_refusal(e, files@),
{
    match read_sources(files) {
        Ok((mut graph, contexts, hashes)) => {
            let ghost g1 = graph@;
            let ghost ctxs = contexts@;
            Resolver::resolve_all(contexts, &mut graph);
            proof {
                lemma_nodes_from_ext(g1, graph@, rel_paths(files@));
                assert forall|j: int| 0 <= j < files@.len() implies graph@.has_id(module_id_for((#[trigger] files@[j]).language, files@[j].rel_path@)) by {
                    crate::resolve::lemma_ext_grown_keeps_id(g1, graph@, module_id_for(files@[j].language, files@[j].rel_path@));
                }
                assert(ctxs.len() == files@.len());
                assert(ext_grown(g1, graph@) && all_linked(registry_of(g1.nodes), ctxs, ctxs.len() as int, g1, graph@));
                assert(forall|i: int| 0 <= i < files@.len() ==> (#[trigger] ctxs[i]).module_id@ == module_id_for(files@[i].language, files@[i].rel_path@));
            }
            let a = Analyzed { graph, hashes };
            assert(a.graph@ == graph@);
            assert(all_linked(registry_of(g1.nodes), ctxs, ctxs.len() as int, g1, a.graph@));
            assert(ext_grown(g1, a.graph@));
            assert(exists|g1: GraphModel, ctxs: Seq<ParseContext>| {
                &&& ctxs.len() == files@.len()
                &&& forall|i: int| 0 <= i < files@.len() ==> (#[trigger] ctxs[i]).module_id@ == module_id_for(files@[i].language, files@[i].rel_path@)
                &&& files_read(files@, g1, ctxs)
                &&& ext_grown(g1, a.graph@)
                &&& #[trigger] all_linked(registry_of(g1.nodes), ctxs, ctxs.len() as int, g1, a.graph@)
            });
            Ok(a)
        },
        Err(e) => Err(e),
    }
}

/// A file as a revision holds it: its path and text.
#[derive(Debug)]
pub struct RevisionFile {
    pub path: String,
    pub source: String,
}

/// The module id a file of a revision is read under, if its path names an
/// asked-for language (see `language_for_path`; `\` taken as `/`).
#[verifier::opaque]
pub open spec fn revision_module(f: RevisionFile, languages: Seq<Language>) -> Option<Seq<char>> {
    match extension_language(last_piece(f.path@, "."@), languages) {
        Some(lang) => Some(module_id_for(lang, replace_all(f.path@, "\\"@, "/"@))),
        None => None,
    }
}

/// Whether a file of a revision is read: its path names an asked-for
/// language whose grammar the parser accepts.
#[verifier::opaque]
pub open spec fn revision_reads(f: RevisionFile, languages: Seq<Language>) -> bool {
    match extension_language(last_piece(f.path@, "."@), languages) {
        Some(lang) => grammar_accepted(lang),
        None => false,
    }
}

/// `js` gives, for each context, the index of the file of the revision it
/// was read from, under the module id `revision_module` gives that file;
/// every file that is read has its context.
pub open spec fn read_from(js: Seq<int>, ctxs: Seq<ParseContext>, files: Seq<RevisionFile>, languages: Seq<Language>) -> bool {
    &&& js.len() == ctxs.len()
    &&& forall|k: int| 0 <= k < js.len() ==> 0 <= #[trigger] js[k] < files.len()
        && revision_module(files[js[k]], languages) == Some(ctxs[k].module_id@)
    &&& forall|j: int| 0 <= j < files.len() && #[trigger] revision_reads(files[j], languages) ==> js.contains(j)
}

/// The language a file of a revision is read with, if its path names an
/// asked-for language (see `language_for_path`).
#[verifier::opaque]
pub open spec fn revision_language(f: RevisionFile, languages: Seq<Language>) -> Option<Language> {
    extension_language(last_piece(f.path@, "."@), languages)
}

/// `gs` are the graphs before and after each file that was read, from the
/// empty graph, the files taken in order (`js` increases): the `k`-th file
/// read, with the front-end of its language and `\` taken as `/` in its
/// path, takes `gs[k]` to `gs[k + 1]` and gives `ctxs[k]`.
pub open spec fn revision_chain(js: Seq<int>, gs: Seq<GraphModel>, ctxs: Seq<ParseContext>, files: Seq<RevisionFile>, languages: Seq<Language>) -> bool {
    &&& gs.len() == js.len() + 1
    &&& gs[0] == GraphModel::empty()
    &&& forall|k: int, l: int| 0 <= k < l < js.len() ==> #[trigger] js[k] < #[trigger] js[l]
    &&& forall|k: int| 0 <= k < js.len() ==> front_parsed(revision_language(files[js[k]], languages)->0, files[js[k]].source@,
        replace_all(files[js[k]].path@, "\\"@, "/"@), gs[k], gs[k + 1], #[trigger] ctxs[k])
}

/// The graph `g` and the contexts `ctxs` are what the front-ends make of
/// the files of the revision that are read (see `read_from`), one after
/// another in order, from the empty graph; files that are not read leave
/// the graph as it was.
pub open spec fn revision_read(ctxs: Seq<ParseContext>, g: GraphModel, files: Seq<RevisionFile>, languages: Seq<Language>) -> bool {
    exists|js: Seq<int>, gs: Seq<GraphModel>| read_from(js, ctxs, files, languages)
        && #[trigger] revision_chain(js, gs, ctxs, files, languages) && gs.last() == g
}

/// Keeping an id across one file of a revision: the graph only grew.
proof fn lemma_ext_grown_or_grown_keeps(a: GraphModel, b: GraphModel, id: Seq<char>)
    requires
        a.has_id(id),
        a.nodes.len() <= b.nodes.len(),
        b.nodes.subrange(0, a.nodes.len() as int) == a.nodes,
    ensures
        b.has_id(id),
{
    let k = choose|k: int| 0 <= k < a.nodes.len() && #[trigger] a.nodes[k].id@ == id;
    assert(b.nodes.subrange(0, a.nodes.len() as int)[k] == b.nodes[k]);
}

/// Reads one file of a revision (see `revision_reads`): its context, with
/// the module node of the file in the graph, or nothing and the graph
/// unchanged.
fn read_revision_file(f: &RevisionFile, languages: &Vec<Language>, graph: &mut CodeGraph, Ghost(paths): Ghost<Seq<Seq<char>>>) -> (r: Option<ParseContext>)
    requires
        old(graph).wf(),
        nodes_from(old(graph)@, paths),
        paths.contains(replace_all(f.path@, "\\"@, "/"@)),
    ensures
        final(graph).wf(),
        nodes_from(final(graph)@, paths),
        old(graph)@.nodes.len() <= final(graph)@.nodes.len(),
        final(graph)@.nodes.subrange(0, old(graph)@.nodes.len() as int) == old(graph)@.nodes,
        r is Some <==> revision_reads(*f, languages@),
        r matches Some(ctx) ==> revision_module(*f, languages@) == Some(ctx.module_id@)
            && final(graph)@.has_id(ctx.module_id@),
        r matches Some(ctx) ==> front_parsed(revision_language(*f, languages@)->0, f.source@, replace_all(f.path@, "\\"@, "/"@),
            old(graph)@, final(graph)@, ctx),
        r is None ==> final(graph)@ == old(graph)@,
{
    proof {
        reveal(revision_reads);
        reveal(revision_module);
        reveal(revision_language);
    }
    let backslash = chars_of("\\");
    let slash = chars_of("/");
    match language_for_path(f.path.as_str(), languages) {
        Some(lang) => {
            let p = chars_of(f.path.as_str());
            let rel = string_from(crate::text::replace_of(p.as_slice(), backslash.as_slice(), slash.as_slice()).as_slice());
            let ghost g0 = graph@;
            let r = parse_with(f.source.as_str(), rel.as_str(), lang, graph);
            proof {
                lemma_nodes_from_grown(g0, graph@, rel@, module_id_for(lang, rel@), paths);
                assert(graph@.nodes.subrange(0, g0.nodes.len() as int) == g0.nodes);
            }
            match r {
                Ok(ctx) => Some(ctx),
                Err(_) => None,
            }
        },
        None => None,
    }
}

/// Builds the graph of a project as a revision holds it: each file whose
/// path ends in the extension of an asked-for language (see
/// `language_for_path`) is read, with `\` in its path taken as `/`; files
/// that fail to parse are left out; then names are resolved across files.
/// Every node of the result is external or lies in one of the files.
pub fn graph_of_revision(files: &Vec<RevisionFile>, languages: &Vec<Language>) -> (r: CodeGraph)
    ensures
        r.wf(),
        nodes_from(r@, revision_paths(files@)),
        forall|j: int| 0 <= j < files@.len() && #[trigger] revision_reads(files@[j], languages@)
            ==> r@.has_id(revision_module(files@[j], languages@)->0),
        exists|g1: GraphModel, ctxs: Seq<ParseContext>| {
            &&& revision_read(ctxs, g1, files@, languages@)
            &&& ext_grown(g1, r@)
            &&& #[trigger] all_linked(registry_of(g1.nodes), ctxs, ctxs.len() as int, g1, r@)
        },
{
    let mut graph = CodeGraph::new();
    let mut contexts: Vec<ParseContext> = Vec::new();
    let ghost mut js: Seq<int> = Seq::empty();
    let ghost mut gs: Seq<GraphModel> = seq![graph@];
    assert(nodes_from(graph@, revision_paths(files@)));
    let mut i: usize = 0;
    while i < files.len()
        invariant
            i <= files@.len(),
            graph.wf(),
            revision_chain(js, gs, contexts@, files@, languages@),
            gs.last() == graph@,
            nodes_from(graph@, revision_paths(files@)),
            js.len() == contexts@.len(),
            forall|k: int| 0 <= k < js.len() ==> 0 <= #[trigger] js[k] < i
                && revision_module(files@[js[k]], languages@) == Some(contexts@[k].module_id@),
            forall|j: int| 0 <= j < i && #[trigger] revision_reads(files@[j], languages@) ==> js.contains(j),
            forall|j: int| 0 <= j < i && #[trigger] revision_reads(files@[j], languages@)
                ==> graph@.has_id(revision_module(files@[j], languages@)->0),
        decreases files@.len() - i,
    {
        let f = &files[i];
        let ghost g0 = graph@;
        let ghost js0 = js;
        let ghost gs0 = gs;
        let ghost c0 = contexts@;
        proof { assert(revision_paths(files@)[i as int] == replace_all(f.path@, "\\"@, "/"@)); }
        match read_revision_file(f, languages, &mut graph, Ghost(revision_paths(files@))) {
            Some(ctx) => {
                contexts.push(ctx);
                proof {
                    js = js.push(i as int);
                    gs = gs.push(graph@);
                    assert(js[js.len() - 1] == i as int);
                    assert forall|k: int, l: int| 0 <= k < l < js.len() implies #[trigger] js[k] < #[trigger] js[l] by {
                        assert(js[k] == js0[k]);
                        if l < js0.len() {
                            assert(js[l] == js0[l]);
                        }
                    }
                    assert forall|k: int| 0 <= k < js.len() implies front_parsed(revision_language(files@[js[k]], languages@)->0, files@[js[k]].source@,
                        replace_all(files@[js[k]].path@, "\\"@, "/"@), gs[k], gs[k + 1], #[trigger] contexts@[k]) by {
                        if k < js0.len() {
                            assert(js[k] == js0[k] && gs[k] == gs0[k] && gs[k + 1] == gs0[k + 1] && contexts@[k] == c0[k]);
                        }
                    }
                }
            },
            None => {},
        }
        proof {
            assert forall|k: int| 0 <= k < js.len() implies 0 <= #[trigger] js[k] < i + 1
                && revision_module(files@[js[k]], languages@) == Some(contexts@[k].module_id@) by {
                if k < js0.len() {
                    assert(js[k] == js0[k]);
                }
            }
            assert forall|j: int| 0 <= j < i + 1 && #[trigger] revision_reads(files@[j], languages@)
                implies js.contains(j) by {
                if j < i {
                    let k = choose|k: int| 0 <= k < js0.len() && js0[k] == j;
                    assert(js[k] == js0[k]);
                } else {
                    assert(js[js.len() - 1] == j);
                }
            }
            assert forall|j: int| 0 <= j < i + 1 && #[trigger] revision_reads(files@[j], languages@)
                implies graph@.has_id(revision_module(files@[j], languages@)->0) by {
                if j < i {
                    lemma_ext_grown_or_grown_keeps(g0, graph@, revision_module(files@[j], languages@)->0);
                }
            }
        }
        i = i + 1;
    }
    let ghost g1 = graph@;
    let ghost ctxs = contexts@;
    Resolver::resolve_all(contexts, &mut graph);
    proof {
        lemma_nodes_from_ext(g1, graph@, revision_paths(files@));
        assert forall|j: int| 0 <= j < files@.len() && #[trigger] revision_reads(files@[j], languages@)
            implies graph@.has_id(revision_module(files@[j], languages@)->0) by {
            crate::resolve::lemma_ext_grown_keeps_id(g1, graph@, revision_module(files@[j], languages@)->0);
        }
        assert(read_from(js, ctxs, files@, languages@));
        assert(revision_chain(js, gs, ctxs, files@, languages@));
        assert(revision_read(ctxs, g1, files@, languages@));
        assert(ext_grown(g1, graph@) && all_linked(registry_of(g1.nodes), ctxs, ctxs.len() as int, g1, graph@));
    }
    graph
}

} // verus!

verus! {

/// Unchanged files are not read again: the hashes kept when a project's
/// files (with distinct keys) are read match those same files, so the graph
/// kept with them can stand for the project.
pub proof fn lemma_kept_hashes_match(files: Seq<SourceFile>)
    requires
        forall|a: int, b: int| 0 <= a < files.len() && 0 <= b < files.len() && a != b ==> #[trigger] files[a].key@ != #[trigger] files[b].key@,
    ensures
        hashes_match(store_all(Seq::empty(), hash_entries(files)), files),
{
    let kvs = hash_entries(files);
    assert forall|a: int, b: int| 0 <= a < kvs.len() && 0 <= b < kvs.len() && a != b implies #[trigger] kvs[a].0 != #[trigger] kvs[b].0 by {
        assert(files[a].key@ != files[b].key@);
    }
    assert forall|i: int| 0 <= i < files.len() implies lookup(store_all(Seq::empty(), kvs), (#[trigger] files[i]).key@) == Some(blake3_hex(files[i].data@)) by {
        crate::context::lemma_lookup_store_all_distinct(kvs, i);
    }
}

} // verus!

verus! {

/// The files the analyzer writes into a project: a change to one of them
/// does not call for a new analysis.
pub open spec fn generated_name(name: Seq<char>) -> bool {
    name == "graph.html"@ || name == "graph.json"@ || name == "diff.html"@ || name == ".codegraph_cache.json"@
}

/// Whether a file name is one the analyzer writes (see `generated_name`).
pub fn is_generated_file(name: &str) -> (r: bool)
    ensures
        r == generated_name(name@),
{
    str_eq(name, "graph.html") || str_eq(name, "graph.json") || str_eq(name, "diff.html") || str_eq(name, ".codegraph_cache.json")
}

/// Where outputs go: the output path with surrounding white space removed,
/// or the project path when that leaves nothing.
pub open spec fn output_dir_of(output_path: Seq<char>, project_path: Seq<char>) -> Seq<char> {
    if trim_white(output_path).len() == 0 { project_path } else { trim_white(output_path) }
}

/// Where outputs go (see `output_dir_of`).
pub fn effective_output_dir(output_path: &str, project_path: &str) -> (r: String)
    ensures
        r@ == output_dir_of(output_path@, project_path@),
{
    let cs = chars_of(output_path);
    let p = trim_of(cs.as_slice());
    if p.len() == 0 {
        project_path.to_string()
    } else {
        string_from(p.as_slice())
    }
}

/// The files the clean action removes from the output directory, in the
/// order it tries them.
pub open spec fn cleaned_names() -> Seq<Seq<char>> {
    seq!["graph.html"@, "graph.json"@, "diff.html"@]
}

/// The names of the files the clean action removes (see `cleaned_names`).
pub fn cleaned_files() -> (r: Vec<String>)
    ensures
        r@.len() == cleaned_names().len(),
        forall|i: int| 0 <= i < r@.len() ==> (#[trigger] r@[i])@ == cleaned_names()[i],
        forall|i: int| 0 <= i < r@.len() ==> generated_name((#[trigger] r@[i])@),
{
    let mut r: Vec<String> = Vec::new();
    r.push("graph.html".to_string());
    r.push("graph.json".to_string());
    r.push("diff.html".to_string());
    r
}

/// What cleaning the output directory came to.
#[derive(Debug)]
pub enum CleanReport {
    /// The output directory does not exist; nothing was tried.
    MissingDir,
    /// Some removals failed, each with its message.
    Failed(Vec<String>),
    /// None of the files was there.
    NothingFound,
    /// This many files were removed.
    Removed(usize),
}

/// The report of a clean: a missing directory first, then any failure, then
/// whether anything was removed.
pub fn clean_report(dir_exists: bool, removed: usize, errors: Vec<String>) -> (r: CleanReport)
    ensures
        !dir_exists ==> r is MissingDir,
        dir_exists && errors@.len() > 0 ==> (r matches CleanReport::Failed(es) && es@ == errors@),
        dir_exists && errors@.len() == 0 && removed == 0 ==> r is NothingFound,
        dir_exists && errors@.len() == 0 && removed > 0 ==> r == CleanReport::Removed(removed),
{
    if !dir_exists {
        CleanReport::MissingDir
    } else if errors.len() > 0 {
        CleanReport::Failed(errors)
    } else if removed == 0 {
        CleanReport::NothingFound
    } else {
        CleanReport::Removed(removed)
    }
}

/// The languages asked for, in the order Python, Rust, C++, TypeScript,
/// JavaScript.
pub open spec fn flag_languages(python: bool, rust: bool, cpp: bool, typescript: bool, javascript: bool) -> Seq<Language> {
    (if python { seq![Language::Python] } else { Seq::empty() })
        + (if rust { seq![Language::Rust] } else { Seq::empty() })
        + (if cpp { seq![Language::Cpp] } else { Seq::empty() })
        + (if typescript { seq![Language::TypeScript] } else { Seq::empty() })
        + (if javascript { seq![Language::JavaScript] } else { Seq::empty() })
}

/// Why an analysis is not started.
#[derive(Debug, Clone, Copy, PartialEq, Eq, Structural)]
pub enum StartRefusal {
    /// No project path was given.
    EmptyPath,
    /// The project path does not exist.
    MissingPath,
    /// No language was selected.
    NoLanguage,
}

/// Whether an analysis of a project may start: the path must be non-empty,
/// must exist (`exists`, as the caller found it) and at least one language
/// must be selected; the first check that fails gives the refusal.
pub fn start_check(path: &str, exists: bool, languages: &Vec<Language>) -> (r: Result<(), StartRefusal>)
    ensures
        r == (if path@.len() == 0 {
            Err(StartRefusal::EmptyPath)
        } else if !exists {
            Err(StartRefusal::MissingPath)
        } else if languages@.len() == 0 {
            Err(StartRefusal::NoLanguage)
        } else {
            Ok(())
        }),
{
    if path.unicode_len() == 0 {
        Err(StartRefusal::EmptyPath)
    } else if !exists {
        Err(StartRefusal::MissingPath)
    } else if languages.len() == 0 {
        Err(StartRefusal::NoLanguage)
    } else {
        Ok(())
    }
}

/// The languages asked for (see `flag_languages`).
pub fn languages_from_flags(python: bool, rust: bool, cpp: bool, typescript: bool, javascript: bool) -> (r: Vec<Language>)
    ensures
        r@ == flag_languages(python, rust, cpp, typescript, javascript),
{
    let mut r: Vec<Language> = Vec::new();
    if python {
        r.push(Language::Python);
    }
    if rust {
        r.push(Language::Rust);
    }
    if cpp {
        r.push(Language::Cpp);
    }
    if typescript {
        r.push(Language::TypeScript);
    }
    if javascript {
        r.push(Language::JavaScript);
    }
    assert(r@ =~= flag_languages(python, rust, cpp, typescript, javascript));
    r
}

/// The language a name on the command line stands for: `python`, `rust`,
/// `cpp`, `typescript` or `javascript`.
pub open spec fn named_language(name: Seq<char>) -> Option<Language> {
    if name == "python"@ {
        Some(Language::Python)
    } else if name == "rust"@ {
        Some(Language::Rust)
    } else if name == "cpp"@ {
        Some(Language::Cpp)
    } else if name == "typescript"@ {
        Some(Language::TypeScript)
    } else if name == "javascript"@ {
        Some(Language::JavaScript)
    } else {
        None
    }
}

/// The language a name stands for (see `named_language`).
pub fn language_named(name: &str) -> (r: Option<Language>)
    ensures
        r == named_language(name@),
{
    if str_eq(name, "python") {
        Some(Language::Python)
    } else if str_eq(name, "rust") {
        Some(Language::Rust)
    } else if str_eq(name, "cpp") {
        Some(Language::Cpp)
    } else if str_eq(name, "typescript") {
        Some(Language::TypeScript)
    } else if str_eq(name, "javascript") {
        Some(Language::JavaScript)
    } else {
        None
    }
}

/// The graph to show: the neighbourhood of `focus_node` (see
/// `analysis::focus`) when that id is given and names a node, else the whole
/// graph.
pub fn narrow(graph: CodeGraph, focus_node: &str, depth: usize) -> (r: CodeGraph)
    requires
        graph.wf(),
    ensures
        r.wf(),
        (focus_node@.len() == 0 || !graph@.has_id(focus_node@)) ==> r@ == graph@,
        (focus_node@.len() > 0 && graph@.has_id(focus_node@)) ==> exists|order: Seq<usize>|
            #[trigger] crate::analysis::focus_of(graph@, graph@.index_of(focus_node@), depth as nat, order, r@),
{
    if !focus_node.is_empty() && graph.has_node(focus_node) {
        crate::analysis::focus(&graph, focus_node, depth)
    } else {
        graph
    }
}

} // verus!
