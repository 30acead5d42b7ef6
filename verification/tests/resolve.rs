use codegraph::context::{PairMap, ParseContext, PendingCall, StrMap};
use codegraph::model::{CodeGraph, EdgeKind, Node, NodeKind};
use codegraph::resolve::Resolver;

fn node(id: &str, name: &str, kind: NodeKind) -> Node {
    Node { id: id.to_string(), name: name.to_string(), kind, file: format!("{}.src", id), line: 1, is_external: false, docstring: None }
}

fn ids(g: &CodeGraph) -> Vec<String> {
    g.nodes().into_iter().map(|n| n.id).collect()
}

fn id_edges(g: &CodeGraph) -> Vec<(String, String, EdgeKind)> {
    g.edges().into_iter().map(|(s, t, k)| (s.id, t.id, k)).collect()
}

fn e(s: &str, t: &str, k: EdgeKind) -> (String, String, EdgeKind) {
    (s.to_string(), t.to_string(), k)
}

#[test]
fn import_resolves_by_short_name_to_internal_node() {
    let mut g = CodeGraph::new();
    g.add_node(node("app", "app", NodeKind::Module));
    g.add_node(node("models::User", "User", NodeKind::Class));
    let mut imports = StrMap::new();
    imports.insert("User".to_string(), "other::User".to_string());
    let ctx = ParseContext { module_id: "app".to_string(), imports, ..Default::default() };
    Resolver::resolve_all(vec![ctx], &mut g);
    assert_eq!(ids(&g), vec!["app".to_string(), "models::User".to_string()]);
    assert_eq!(id_edges(&g), vec![e("app", "models::User", EdgeKind::Imports)]);
}

#[test]
fn external_import_node_is_shared_by_modules() {
    let mut g = CodeGraph::new();
    g.add_node(node("a", "a", NodeKind::Module));
    g.add_node(node("b", "b", NodeKind::Module));
    let mut ctxs = Vec::new();
    for m in ["a", "b"] {
        let mut imports = StrMap::new();
        imports.insert("HashMap".to_string(), "std::collections::HashMap".to_string());
        ctxs.push(ParseContext { module_id: m.to_string(), imports, ..Default::default() });
    }
    Resolver::resolve_all(ctxs, &mut g);
    assert_eq!(g.node_count(), 3);
    let ext = g.get_node("__ext__.HashMap").unwrap();
    assert_eq!(ext.name, "HashMap");
    assert_eq!(ext.kind, NodeKind::Class);
    assert_eq!(ext.file, "");
    assert_eq!(ext.line, 0);
    assert!(ext.is_external);
    assert_eq!(ext.docstring, None);
    assert_eq!(
        id_edges(&g),
        vec![e("a", "__ext__.HashMap", EdgeKind::ExternalDep), e("b", "__ext__.HashMap", EdgeKind::ExternalDep)]
    );
}

#[test]
fn typed_receiver_call_reaches_the_class_method() {
    let mut g = CodeGraph::new();
    g.add_node(node("app", "app", NodeKind::Module));
    g.add_node(node("app.Dog", "Dog", NodeKind::Class));
    g.add_node(node("app.Dog.bark", "bark", NodeKind::Method));
    g.add_node(node("app.main", "main", NodeKind::Function));
    let mut locals = PairMap::new();
    locals.insert("app.main".to_string(), "d".to_string(), "Dog".to_string());
    let call = PendingCall { caller_id: "app.main".to_string(), callee_name: "bark".to_string(), object: Some("d".to_string()), in_class: None };
    let ctx = ParseContext { module_id: "app".to_string(), pending_calls: vec![call], local_var_types: locals, ..Default::default() };
    Resolver::resolve_all(vec![ctx], &mut g);
    assert_eq!(g.node_count(), 4);
    assert_eq!(id_edges(&g), vec![e("app.main", "app.Dog.bark", EdgeKind::Calls)]);
}

#[test]
fn untyped_receiver_call_resolves_by_method_name() {
    let mut g = CodeGraph::new();
    g.add_node(node("app", "app", NodeKind::Module));
    g.add_node(node("app.Dog.bark", "bark", NodeKind::Method));
    g.add_node(node("app.main", "main", NodeKind::Function));
    let call = PendingCall { caller_id: "app.main".to_string(), callee_name: "bark".to_string(), object: Some("d".to_string()), in_class: None };
    let ctx = ParseContext { module_id: "app".to_string(), pending_calls: vec![call], ..Default::default() };
    Resolver::resolve_all(vec![ctx], &mut g);
    assert_eq!(g.node_count(), 3);
    assert_eq!(id_edges(&g), vec![e("app.main", "app.Dog.bark", EdgeKind::Calls)]);
}

#[test]
fn call_prefers_candidate_of_callers_module() {
    let mut g = CodeGraph::new();
    g.add_node(node("a.helper", "helper", NodeKind::Function));
    g.add_node(node("b.helper", "helper", NodeKind::Function));
    g.add_node(node("b.main", "main", NodeKind::Function));
    let call = PendingCall { caller_id: "b.main".to_string(), callee_name: "helper".to_string(), object: None, in_class: None };
    let ctx = ParseContext { module_id: "b".to_string(), pending_calls: vec![call], ..Default::default() };
    Resolver::resolve_all(vec![ctx], &mut g);
    assert_eq!(g.node_count(), 3);
    assert_eq!(id_edges(&g), vec![e("b.main", "b.helper", EdgeKind::Calls)]);
}

#[test]
fn mod_declaration_prefers_internal_module() {
    let mut g = CodeGraph::new();
    g.add_node(node("x::parsers", "parsers", NodeKind::Function));
    g.add_node(node("app", "app", NodeKind::Module));
    g.add_node(node("parsers", "parsers", NodeKind::Module));
    let ctx = ParseContext {
        module_id: "app".to_string(),
        pending_mods: vec![("app".to_string(), "parsers".to_string())],
        ..Default::default()
    };
    Resolver::resolve_all(vec![ctx], &mut g);
    assert_eq!(g.node_count(), 3);
    assert_eq!(id_edges(&g), vec![e("app", "parsers", EdgeKind::Contains)]);
}

#[test]
fn used_type_alias_is_resolved() {
    let mut g = CodeGraph::new();
    g.add_node(node("app", "app", NodeKind::Module));
    g.add_node(node("app.f", "f", NodeKind::Function));
    g.add_node(node("m.Model", "Model", NodeKind::Class));
    let mut aliases = StrMap::new();
    aliases.insert("M".to_string(), "Model".to_string());
    let ctx = ParseContext {
        module_id: "app".to_string(),
        alias_map: aliases,
        pending_uses_type: vec![("app.f".to_string(), "M".to_string())],
        ..Default::default()
    };
    Resolver::resolve_all(vec![ctx], &mut g);
    assert_eq!(g.node_count(), 3);
    assert_eq!(id_edges(&g), vec![e("app.f", "m.Model", EdgeKind::UsesType)]);
}

#[test]
fn typed_receiver_call_reaches_a_rust_style_method() {
    let mut g = CodeGraph::new();
    g.add_node(node("lib", "lib", NodeKind::Module));
    g.add_node(node("lib::Dog", "Dog", NodeKind::Struct));
    g.add_node(node("lib::Dog::bark", "bark", NodeKind::Method));
    g.add_node(node("lib::run", "run", NodeKind::Function));
    let mut locals = PairMap::new();
    locals.insert("lib::run".to_string(), "d".to_string(), "Dog".to_string());
    let call = PendingCall { caller_id: "lib::run".to_string(), callee_name: "bark".to_string(), object: Some("d".to_string()), in_class: None };
    let ctx = ParseContext { module_id: "lib".to_string(), pending_calls: vec![call], local_var_types: locals, ..Default::default() };
    Resolver::resolve_all(vec![ctx], &mut g);
    assert_eq!(g.node_count(), 4);
    assert_eq!(id_edges(&g), vec![e("lib::run", "lib::Dog::bark", EdgeKind::Calls)]);
}

#[test]
fn typed_receiver_call_without_method_node_stays_external() {
    let mut g = CodeGraph::new();
    g.add_node(node("app", "app", NodeKind::Module));
    g.add_node(node("app.main", "main", NodeKind::Function));
    let mut locals = PairMap::new();
    locals.insert("app.main".to_string(), "r".to_string(), "Response".to_string());
    let call = PendingCall { caller_id: "app.main".to_string(), callee_name: "json".to_string(), object: Some("r".to_string()), in_class: None };
    let ctx = ParseContext { module_id: "app".to_string(), pending_calls: vec![call], local_var_types: locals, ..Default::default() };
    Resolver::resolve_all(vec![ctx], &mut g);
    assert_eq!(id_edges(&g), vec![e("app.main", "__ext__.Response.json", EdgeKind::Calls)]);
}
