use codegraph::model::{CodeGraph, NodeKind};
use codegraph::rust_lang;

#[test]
fn rust_struct_and_impl() {
    let mut g = CodeGraph::new();
    let src = "/// A point.\nstruct Point { x: Coord }\nimpl Shape for Point { fn area(&self) -> f64 { helper(); self.x.len() } }\nuse crate::a::{B, C};\nmod inner { fn f() {} }\nmod other;\n";
    let ctx = rust_lang::parse_file(src, "src/geo.rs", &mut g).unwrap();
    assert_eq!(ctx.module_id, "geo");
    assert!(g.has_node("geo"));
    assert!(g.has_node("geo::Point"));
    assert_eq!(g.get_node("geo::Point").unwrap().kind, NodeKind::Class);
    assert_eq!(g.get_node("geo::Point").unwrap().docstring.as_deref(), Some("A point."));
    assert!(g.has_node("geo::Point::area"));
    assert!(g.has_node("geo::inner"));
    assert!(g.has_node("geo::inner::f"));
    assert!(ctx.imports.contains_key("B"));
    assert_eq!(ctx.imports.get("C").map(|s| s.as_str()), Some("a::C"));
    assert_eq!(ctx.pending_mods.len(), 1);
    assert!(ctx.pending_inherits.iter().any(|(c, p)| c == "geo::Point" && p == "Shape"));
    assert!(ctx.pending_calls.iter().any(|c| c.callee_name == "helper"));
}

#[test]
fn rust_field_and_return_type_uses_in_order() {
    let mut g = CodeGraph::new();
    let src = "struct Pair { a: Foo, b: Vec<Bar>, c: u32 }\nfn make() -> Baz { build(); }\ntrait Shape { fn area(&self) -> Size { 0 } }\nenum E { A }\n";
    let ctx = rust_lang::parse_file(src, "pair.rs", &mut g).unwrap();
    let uses: Vec<(&str, &str)> = ctx.pending_uses_type.iter().map(|(u, t)| (u.as_str(), t.as_str())).collect();
    assert_eq!(uses, vec![("pair::Pair", "Foo"), ("pair::Pair", "Vec<Bar>"), ("pair::make", "Baz"), ("pair::Shape::area", "Size")]);
    assert!(ctx.pending_calls.iter().any(|c| c.caller_id == "pair::make" && c.callee_name == "build"));
    for id in ["pair::Pair", "pair::make", "pair::Shape", "pair::E"] {
        assert!(g.has_node(id), "{}", id);
    }
    assert_eq!(g.get_node("pair::Shape").unwrap().kind, NodeKind::Class);
}

#[test]
fn rust_inline_and_declared_modules() {
    let mut g = CodeGraph::new();
    let ctx = rust_lang::parse_file("mod foo; mod bar { fn baz() {} }", "src/a.rs", &mut g).unwrap();
    assert_eq!(ctx.module_id, "a");
    assert_eq!(ctx.pending_mods, vec![("a".to_string(), "foo".to_string())]);
    let ids: Vec<String> = g.nodes().into_iter().map(|n| n.id).collect();
    assert_eq!(ids, vec!["a".to_string(), "a::bar".to_string(), "a::bar::baz".to_string()]);
    assert_eq!(g.get_node("a::bar").unwrap().kind, NodeKind::Module);
    assert_eq!(g.get_node("a::bar::baz").unwrap().kind, NodeKind::Function);
    let edges: Vec<(String, String, codegraph::model::EdgeKind)> = g.edges().into_iter().map(|(s, t, k)| (s.id, t.id, k)).collect();
    assert_eq!(edges, vec![
        ("a".to_string(), "a::bar".to_string(), codegraph::model::EdgeKind::Contains),
        ("a::bar".to_string(), "a::bar::baz".to_string(), codegraph::model::EdgeKind::Contains),
    ]);
}
