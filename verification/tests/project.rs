use codegraph::analysis::{components, cycles, degrees, diff, focus, max_degree, structure};
use codegraph::context::{Language, StrMap};
use codegraph::model::{CodeGraph, EdgeKind, Node, NodeKind};
use codegraph::project::{analyze_sources, cached_graph_usable, clean_report, cleaned_files, content_hash, is_generated_file, CleanReport, graph_of_revision, language_for_extension, language_for_path, effective_output_dir, language_named, languages_from_flags, narrow, skip_dir, start_check, Cache, RevisionFile, SourceFile, StartRefusal};

fn node(id: &str) -> Node {
    Node { id: id.to_string(), name: id.to_string(), kind: NodeKind::Function, file: String::new(), line: 1, is_external: false, docstring: None }
}

fn chain() -> CodeGraph {
    let mut g = CodeGraph::new();
    for id in ["a", "b", "c", "d", "e"] {
        g.add_node(node(id));
    }
    g.add_edge("a", "b", EdgeKind::Calls);
    g.add_edge("b", "c", EdgeKind::Calls);
    g.add_edge("c", "a", EdgeKind::Calls);
    g.add_edge("c", "d", EdgeKind::Imports);
    g
}

#[test]
fn focus_keeps_nodes_within_depth() {
    let g = chain();
    let f0 = focus(&g, "a", 0);
    assert_eq!(f0.node_count(), 1);
    assert!(f0.has_node("a"));
    assert_eq!(f0.edge_count(), 0);
    let f1 = focus(&g, "d", 1);
    assert_eq!(f1.node_count(), 2);
    assert!(f1.has_node("c") && f1.has_node("d"));
    assert_eq!(f1.edge_count(), 1);
    let f2 = focus(&g, "d", 2);
    assert_eq!(f2.node_count(), 4);
    assert_eq!(f2.edge_count(), 4);
    let none = focus(&g, "zzz", 3);
    assert_eq!(none.node_count(), 0);
}

#[test]
fn structure_reports_cycles_degrees_components() {
    let g = chain();
    let cyc = cycles(&g);
    assert_eq!(cyc.len(), 1);
    let mut ids = cyc[0].clone();
    ids.sort();
    assert_eq!(ids, vec!["a".to_string(), "b".to_string(), "c".to_string()]);
    let deg = degrees(&g);
    assert_eq!(deg.len(), 5);
    assert_eq!((deg[2].id.as_str(), deg[2].in_degree, deg[2].out_degree), ("c", 1, 2));
    assert_eq!((deg[4].in_degree, deg[4].out_degree), (0, 0));
    let comps = components(&g);
    assert_eq!(comps.len(), 2);
    assert_eq!(comps[0][0], "a");
    assert_eq!(comps[0].len(), 4);
    assert_eq!(comps[1], vec!["e".to_string()]);
    let s = structure(&g);
    assert_eq!(s.components.len(), 2);
    assert_eq!(max_degree(5), 8);
    assert_eq!(max_degree(1), 1);
    assert_eq!(max_degree(0), 1);
}

#[test]
fn diff_of_graphs() {
    let old = chain();
    let mut new = CodeGraph::new();
    new.add_node(node("a"));
    new.add_node(node("b"));
    new.add_node(node("z"));
    new.add_edge("a", "b", EdgeKind::Calls);
    new.add_edge("b", "z", EdgeKind::Calls);
    let d = diff(&old, &new);
    assert_eq!(d.added_nodes.iter().map(|n| n.id.as_str()).collect::<Vec<_>>(), vec!["z"]);
    assert_eq!(d.removed_nodes.iter().map(|n| n.id.as_str()).collect::<Vec<_>>(), vec!["c", "d", "e"]);
    assert_eq!(d.added_edges.len(), 1);
    assert_eq!(d.added_edges[0].target, "z");
    assert_eq!(d.removed_edges.len(), 3);
    let same = diff(&old, &old);
    assert!(same.added_nodes.is_empty() && same.removed_nodes.is_empty());
    assert!(same.added_edges.is_empty() && same.removed_edges.is_empty());
}

#[test]
fn file_selection_rules() {
    let langs = vec![Language::Python, Language::Cpp];
    assert_eq!(language_for_extension("py", &langs), Some(Language::Python));
    assert_eq!(language_for_extension("rs", &langs), None);
    assert_eq!(language_for_extension("hpp", &langs), Some(Language::Cpp));
    assert_eq!(language_for_path("src/a.b/c.cc", &langs), Some(Language::Cpp));
    assert!(skip_dir(".git"));
    assert!(skip_dir("target"));
    assert!(skip_dir("node_modules"));
    assert!(!skip_dir("src"));
}

#[test]
fn hashes_and_cache_reuse() {
    let h = content_hash(b"abc");
    assert_eq!(h, "6437b3ac38465133ffb63b75273a8db548c558465d79db03fd359c6cd5bd9d85");
    let files = vec![SourceFile { key: "/p/a.py".to_string(), rel_path: "a.py".to_string(), language: Language::Python, data: b"def f():\n    g()\n".to_vec() }];
    let analyzed = analyze_sources(&files).ok().unwrap();
    assert!(analyzed.graph.has_node("a"));
    assert!(analyzed.graph.has_node("a.f"));
    assert!(analyzed.graph.has_node("__ext__.g"));
    let cache = Cache { hashes: analyzed.hashes, graph_json: Some("{}".to_string()) };
    assert!(cached_graph_usable(&cache, &files));
    assert!(cache.is_unchanged_data("/p/a.py", b"def f():\n    g()\n"));
    assert!(!cache.is_unchanged_data("/p/a.py", b"changed"));
    assert!(!cache.is_unchanged_data("/p/b.py", b"def f():\n    g()\n"));
    let no_graph = Cache { hashes: StrMap::new(), graph_json: None };
    assert!(!cached_graph_usable(&no_graph, &files));
}

#[test]
fn revision_graph_skips_other_languages() {
    let files = vec![
        RevisionFile { path: "m.py".to_string(), source: "X_Y = 1\n".to_string() },
        RevisionFile { path: "README.md".to_string(), source: "# hi".to_string() },
    ];
    let g = graph_of_revision(&files, &vec![Language::Python]);
    assert!(g.has_node("m"));
    assert!(g.has_node("m.X_Y"));
    assert_eq!(g.node_count(), 2);
}

#[test]
fn degrees_sum_to_edge_count() {
    let g = chain();
    let deg = degrees(&g);
    let ins: usize = deg.iter().map(|d| d.in_degree).sum();
    let outs: usize = deg.iter().map(|d| d.out_degree).sum();
    assert_eq!(ins, g.edge_count());
    assert_eq!(outs, g.edge_count());
}

#[test]
fn calls_resolve_across_files() {
    let files = vec![
        SourceFile { key: "/p/a.py".to_string(), rel_path: "a.py".to_string(), language: Language::Python, data: b"def f():\n    pass\n".to_vec() },
        SourceFile { key: "/p/b.py".to_string(), rel_path: "b.py".to_string(), language: Language::Python, data: b"from a import f\ndef g():\n    f()\n    print(1)\n".to_vec() },
    ];
    let analyzed = analyze_sources(&files).ok().unwrap();
    let g = analyzed.graph;
    assert!(g.has_edge("b.g", "a.f", EdgeKind::Calls));
    assert!(g.has_edge("b.g", "__ext__.print", EdgeKind::Calls));
    assert_eq!(g.get_node("__ext__.print").unwrap().kind, NodeKind::Function);
    assert!(g.has_edge("a", "a.f", EdgeKind::Contains));
}

#[test]
fn mods_imports_and_inheritance_resolve() {
    let files = vec![
        SourceFile {
            key: "/p/src/lib.rs".to_string(),
            rel_path: "src/lib.rs".to_string(),
            language: Language::Rust,
            data: b"mod util;\nuse std::collections::HashMap;\ntrait Shape {}\nstruct Sq;\nimpl Shape for Sq {}\n".to_vec(),
        },
        SourceFile { key: "/p/src/util.rs".to_string(), rel_path: "src/util.rs".to_string(), language: Language::Rust, data: b"pub fn helper() {}\n".to_vec() },
        SourceFile { key: "/p/m.py".to_string(), rel_path: "m.py".to_string(), language: Language::Python, data: b"import os\nclass A:\n    pass\nclass B(A):\n    pass\n".to_vec() },
    ];
    let g = analyze_sources(&files).ok().unwrap().graph;
    assert!(g.has_edge("lib", "util", EdgeKind::Contains));
    assert!(g.has_edge("lib", "__ext__.HashMap", EdgeKind::ExternalDep));
    assert!(g.get_node("__ext__.HashMap").unwrap().is_external);
    assert!(g.has_edge("lib::Sq", "lib::Shape", EdgeKind::Inherits));
    assert!(g.has_edge("m", "__ext__.os", EdgeKind::ExternalDep));
    assert!(g.has_edge("m.B", "m.A", EdgeKind::Inherits));
    assert!(!g.has_edge("m.A", "m.B", EdgeKind::Inherits));
}

#[test]
fn invalid_utf8_bytes_are_replaced_not_fatal() {
    let mut data = b"def f():\n    x = '".to_vec();
    data.push(0xff);
    data.extend_from_slice(b"'\n    g()\n");
    let files = vec![SourceFile { key: "/p/bad.py".to_string(), rel_path: "bad.py".to_string(), language: Language::Python, data }];
    let analyzed = analyze_sources(&files).ok().unwrap();
    assert!(analyzed.graph.has_node("bad.f"));
    assert!(analyzed.graph.has_edge("bad.f", "__ext__.g", EdgeKind::Calls));
    assert_eq!(analyzed.hashes.get("/p/bad.py").map(|h| h.len()), Some(64));
}

#[test]
fn language_selection_and_narrowing() {
    assert_eq!(languages_from_flags(true, false, true, false, true), vec![Language::Python, Language::Cpp, Language::JavaScript]);
    assert!(languages_from_flags(false, false, false, false, false).is_empty());
    assert_eq!(language_named("rust"), Some(Language::Rust));
    assert_eq!(language_named("typescript"), Some(Language::TypeScript));
    assert_eq!(language_named("go"), None);
    let whole = narrow(chain(), "", 1);
    assert_eq!(whole.node_count(), 5);
    let unknown = narrow(chain(), "zzz", 1);
    assert_eq!(unknown.node_count(), 5);
    let near = narrow(chain(), "e", 3);
    assert_eq!(near.node_count(), 1);
    assert!(near.has_node("e"));
}

#[test]
fn output_directory_falls_back_to_project() {
    assert_eq!(effective_output_dir("  out/graphs \n", "/proj"), "out/graphs");
    assert_eq!(effective_output_dir(" \t ", "/proj"), "/proj");
    assert_eq!(effective_output_dir("", "/proj"), "/proj");
}

#[test]
fn unicode_white_space_is_trimmed() {
    assert_eq!(effective_output_dir("\u{3000}out\u{2028}\u{85}", "/proj"), "out");
    assert_eq!(effective_output_dir("\u{a0}\u{200a}", "/proj"), "/proj");
    assert_eq!(effective_output_dir("\u{200b}out", "/proj"), "\u{200b}out");
}

#[test]
fn no_files_give_an_empty_graph() {
    let analyzed = analyze_sources(&Vec::new()).ok().unwrap();
    assert_eq!(analyzed.graph.node_count(), 0);
    assert_eq!(analyzed.graph.edge_count(), 0);
    assert!(analyzed.hashes.entries.is_empty());
}

#[test]
fn start_check_refuses_in_order() {
    assert_eq!(start_check("", false, &vec![]), Err(StartRefusal::EmptyPath));
    assert_eq!(start_check("p", false, &vec![Language::Python]), Err(StartRefusal::MissingPath));
    assert_eq!(start_check("p", true, &vec![]), Err(StartRefusal::NoLanguage));
    assert_eq!(start_check("p", true, &vec![Language::Rust]), Ok(()));
}

#[test]
fn clean_report_orders_its_cases() {
    assert!(matches!(clean_report(false, 2, vec!["x".to_string()]), CleanReport::MissingDir));
    match clean_report(true, 1, vec!["graph.html: denied".to_string()]) {
        CleanReport::Failed(es) => assert_eq!(es, vec!["graph.html: denied".to_string()]),
        other => panic!("unexpected report {:?}", other),
    }
    assert!(matches!(clean_report(true, 0, Vec::new()), CleanReport::NothingFound));
    assert!(matches!(clean_report(true, 3, Vec::new()), CleanReport::Removed(3)));
}

#[test]
fn cleaned_files_are_generated_files() {
    let names = cleaned_files();
    assert_eq!(names, vec!["graph.html", "graph.json", "diff.html"]);
    for n in &names {
        assert!(is_generated_file(n));
    }
}
