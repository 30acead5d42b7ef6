use codegraph::export::{edge_color, export_dot, lighten, node_color, safe_dot_id, escape_dot};
use codegraph::model::{CodeGraph, EdgeKind, Node, NodeKind};
use codegraph::resolve::infer_external_kind;

fn node(id: &str, kind: NodeKind) -> Node {
    Node { id: id.to_string(), name: id.to_string(), kind, file: "f.py".to_string(), line: 3, is_external: false, docstring: None }
}

#[test]
fn adding_twice_is_adding_once() {
    let mut g = CodeGraph::new();
    let a = g.add_node(node("a", NodeKind::Module));
    let a2 = g.add_node(node("a", NodeKind::Class));
    assert_eq!(a, a2);
    assert_eq!(g.node_count(), 1);
    assert_eq!(g.get_node("a").unwrap().kind, NodeKind::Module);
    g.add_node(node("b", NodeKind::Function));
    g.add_edge("a", "b", EdgeKind::Contains);
    g.add_edge("a", "b", EdgeKind::Contains);
    g.add_edge("a", "b", EdgeKind::Calls);
    g.add_edge("a", "missing", EdgeKind::Calls);
    assert_eq!(g.edge_count(), 2);
    assert!(g.has_edge("a", "b", EdgeKind::Calls));
    assert!(!g.has_edge("b", "a", EdgeKind::Calls));
    assert_eq!(g.index_of("b"), Some(1));
    assert_eq!(g.neighbors(1), vec![0, 0]);
}

#[test]
fn stats_and_round_trip() {
    let mut g = CodeGraph::new();
    g.add_node(node("m", NodeKind::Module));
    g.add_node(node("m.C", NodeKind::Class));
    g.add_node(node("m.S", NodeKind::Struct));
    g.add_node(node("m.f", NodeKind::Function));
    let mut ext = node("__ext__.os", NodeKind::Module);
    ext.is_external = true;
    g.add_node(ext);
    g.add_edge("m", "m.C", EdgeKind::Contains);
    g.add_edge("m", "__ext__.os", EdgeKind::ExternalDep);
    let s = g.stats();
    assert_eq!((s.node_count, s.edge_count), (5, 2));
    assert_eq!((s.module_count, s.class_count, s.struct_count, s.function_count), (2, 1, 1, 1));
    assert_eq!((s.method_count, s.property_count, s.constant_count, s.external_count), (0, 0, 0, 1));
    let sg = g.to_serializable();
    assert_eq!(sg.nodes.len(), 5);
    assert_eq!(sg.edges[1].target, "__ext__.os");
    let back = CodeGraph::from_serializable(sg);
    assert_eq!(back.node_count(), 5);
    assert_eq!(back.edge_count(), 2);
    assert!(back.has_edge("m", "__ext__.os", EdgeKind::ExternalDep));
    let ids: Vec<String> = back.nodes().into_iter().map(|n| n.id).collect();
    assert_eq!(ids, vec!["m", "m.C", "m.S", "m.f", "__ext__.os"]);
    let es = back.edges();
    assert_eq!((es[0].0.id.as_str(), es[0].1.id.as_str(), es[0].2), ("m", "m.C", EdgeKind::Contains));
}

#[test]
fn colours_and_labels() {
    assert_eq!(node_color(&NodeKind::Module), "#4A90D9");
    assert_eq!(lighten(node_color(&NodeKind::Module)), "#AED0F0");
    assert_eq!(lighten(node_color(&NodeKind::Constant)), "#FAD3A2");
    assert_eq!(lighten("#123456"), "#EEEEEE");
    assert_eq!(edge_color(&EdgeKind::Calls), edge_color(&EdgeKind::Calls));
    assert_eq!(NodeKind::Function.to_string(), "function");
    assert_eq!(EdgeKind::UsesType.to_string(), "uses_type");
    assert_eq!(safe_dot_id("a.b::c"), "n_a_b__c");
    assert_eq!(escape_dot("say \"hi\""), "say \\\"hi\\\"");
}

#[test]
fn dot_document_lists_nodes_then_edges() {
    let mut g = CodeGraph::new();
    g.add_node(node("a", NodeKind::Module));
    g.add_node(node("b", NodeKind::Function));
    g.add_edge("a", "b", EdgeKind::Contains);
    let dot = export_dot(&g);
    assert!(dot.starts_with("digraph codegraph {\n"));
    assert!(dot.contains("    n_a [label=\"a [module]\", color=\"#4A90D9\", style=filled, fillcolor=\"#AED0F0\"];\n"));
    assert!(dot.contains("    n_a -> n_b [label=\"contains\""));
    assert!(dot.ends_with("}\n"));
}

#[test]
fn external_kinds_from_names() {
    assert_eq!(infer_external_kind("MAX_SIZE"), NodeKind::Constant);
    assert_eq!(infer_external_kind("Vec"), NodeKind::Class);
    assert_eq!(infer_external_kind("std::collections::HashMap"), NodeKind::Class);
    assert_eq!(infer_external_kind("os.path"), NodeKind::Function);
    assert_eq!(infer_external_kind("typing.Optional"), NodeKind::Class);
    assert_eq!(infer_external_kind("std::collections"), NodeKind::Function);
    assert_eq!(infer_external_kind("print"), NodeKind::Function);
    assert_eq!(infer_external_kind(""), NodeKind::Function);
}
