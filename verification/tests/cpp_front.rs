use codegraph::cpp;
use codegraph::model::{CodeGraph, NodeKind};

#[test]
fn cpp_class_struct_functions_and_includes() {
    let mut g = CodeGraph::new();
    let src = "#include <vector>\n#include \"util.h\"\nclass Dog : public Animal {\npublic:\n  void bark();\n  void run() { helper(); }\n};\nstruct Point { int x; };\nint main() { std::sort(a, b); obj.go(); return helper(); }\nnamespace ns { void f() {} }\n";
    let ctx = cpp::parse_file(src, "src\\zoo.cpp", &mut g).unwrap();
    assert_eq!(ctx.module_id, "src/zoo.cpp");
    assert_eq!(g.get_node("src/zoo.cpp").unwrap().name, "zoo.cpp");
    assert_eq!(g.get_node("src/zoo.cpp/Dog").unwrap().kind, NodeKind::Class);
    assert_eq!(g.get_node("src/zoo.cpp/Point").unwrap().kind, NodeKind::Struct);
    // Members of a class body name themselves with field identifiers, which
    // the reader does not take for function names.
    assert!(!g.has_node("src/zoo.cpp/Dog::run"));
    assert!(!g.has_node("src/zoo.cpp/Dog::bark"));
    assert_eq!(g.get_node("src/zoo.cpp/main").unwrap().kind, NodeKind::Function);
    assert!(g.has_node("src/zoo.cpp/f"));
    assert!(ctx.pending_inherits.iter().any(|(c, b)| c == "src/zoo.cpp/Dog" && b == "Animal"));
    assert_eq!(ctx.imports.get("vector").map(|s| s.as_str()), Some("__ext__.vector"));
    assert_eq!(ctx.imports.get("util.h").map(|s| s.as_str()), Some("src/util.h"));
    assert!(ctx.pending_calls.iter().any(|c| c.caller_id == "src/zoo.cpp/main" && c.callee_name == "helper"));
    assert!(ctx.pending_calls.iter().any(|c| c.callee_name == "go" && c.object.as_deref() == Some("obj")));
    assert!(ctx.pending_calls.iter().any(|c| c.caller_id == "src/zoo.cpp/main" && c.callee_name == "std::sort"));
}

#[test]
fn cpp_function_body_calls_and_prototypes() {
    let mut g = CodeGraph::new();
    let src = "int area(int w);\nint twice(int v) { log(v); return area(v); }\n";
    let ctx = cpp::parse_file(src, "geo.cpp", &mut g).unwrap();
    assert!(g.has_node("geo.cpp/area"));
    assert!(g.has_node("geo.cpp/twice"));
    let calls: Vec<&str> = ctx.pending_calls.iter().filter(|c| c.caller_id == "geo.cpp/twice").map(|c| c.callee_name.as_str()).collect();
    assert_eq!(calls, vec!["log", "area"]);
}

#[test]
fn cpp_namespace_and_template_items() {
    let mut g = CodeGraph::new();
    let src = "namespace geo { class Shape {}; int area() { return 0; } }\ntemplate <typename T> class Box { };\ntemplate <typename T> T id(T v) { return v; }\n";
    cpp::parse_file(src, "lib.hpp", &mut g).unwrap();
    assert_eq!(g.get_node("lib.hpp/Shape").unwrap().kind, NodeKind::Class);
    assert!(g.has_node("lib.hpp/area"));
    assert_eq!(g.get_node("lib.hpp/Box").unwrap().kind, NodeKind::Class);
    assert!(g.has_node("lib.hpp/id"));
}

#[test]
fn cpp_nodes_and_edges_are_exactly_the_declarations() {
    let mut g = CodeGraph::new();
    let src = "#include <map>\nint area(int w);\nnamespace ns { void f() {} }\nstruct Point { int x; };\nint area(int w) { return w; }\n";
    cpp::parse_file(src, "geo.cpp", &mut g).unwrap();
    let ids: Vec<String> = g.nodes().into_iter().map(|n| n.id).collect();
    assert_eq!(ids, vec!["geo.cpp", "geo.cpp/area", "geo.cpp/f", "geo.cpp/Point"]);
    let edges: Vec<(String, String)> = g.edges().into_iter().map(|(s, t, _)| (s.id, t.id)).collect();
    assert_eq!(edges, vec![
        ("geo.cpp".to_string(), "geo.cpp/area".to_string()),
        ("geo.cpp".to_string(), "geo.cpp/f".to_string()),
        ("geo.cpp".to_string(), "geo.cpp/Point".to_string()),
    ]);
}
