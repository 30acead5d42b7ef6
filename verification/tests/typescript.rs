use codegraph::context::ParseContext;
use codegraph::model::{CodeGraph, NodeKind};
use codegraph::typescript::{parse_file, JsVariant};

fn parse_ts(source: &str) -> (CodeGraph, ParseContext) {
    let mut g = CodeGraph::new();
    let ctx = parse_file(source, "test.ts", &mut g, JsVariant::TypeScript).unwrap();
    (g, ctx)
}

fn parse_js(source: &str) -> (CodeGraph, ParseContext) {
    let mut g = CodeGraph::new();
    let ctx = parse_file(source, "test.js", &mut g, JsVariant::JavaScript).unwrap();
    (g, ctx)
}

#[test]
fn test_ts_class() {
    let src = "class Animal { speak() {} }";
    let (g, _ctx) = parse_ts(src);
    assert!(g.has_node("test/Animal"), "Class node should exist");
    let n = g.get_node("test/Animal").unwrap();
    assert_eq!(n.kind, NodeKind::Class);
}

#[test]
fn test_ts_class_with_method() {
    let src = "class Dog extends Animal { bark() { console.log('woof'); } }";
    let (g, ctx) = parse_ts(src);
    assert!(g.has_node("test/Dog"));
    assert!(g.has_node("test/Dog::bark"));
    assert!(ctx.pending_inherits.iter().any(|(_, b)| b == "Animal"),
        "Should have pending inherit from Animal");
}

#[test]
fn test_ts_interface() {
    let src = "interface Shape { area(): number; }";
    let (g, _) = parse_ts(src);
    assert!(g.has_node("test/Shape"));
    let n = g.get_node("test/Shape").unwrap();
    assert_eq!(n.kind, NodeKind::Class);
}

#[test]
fn test_ts_enum() {
    let src = "enum Direction { North, South, East, West }";
    let (g, _) = parse_ts(src);
    assert!(g.has_node("test/Direction"));
    let n = g.get_node("test/Direction").unwrap();
    assert_eq!(n.kind, NodeKind::Struct);
}

#[test]
fn test_ts_function() {
    let src = "function greet(name: string): void { console.log(name); }";
    let (g, _) = parse_ts(src);
    assert!(g.has_node("test/greet"));
    let n = g.get_node("test/greet").unwrap();
    assert_eq!(n.kind, NodeKind::Function);
}

#[test]
fn test_ts_arrow_const() {
    let src = "const add = (a: number, b: number) => { return a + b; };";
    let (g, _) = parse_ts(src);
    assert!(g.has_node("test/add"));
}

#[test]
fn test_js_function() {
    let src = "function hello() { return 42; }";
    let (g, _) = parse_js(src);
    assert!(g.has_node("test/hello"));
}

#[test]
fn test_ts_import_named() {
    let src = "import { useState, useEffect } from 'react';";
    let (_g, ctx) = parse_ts(src);
    assert!(ctx.imports.contains_key("useState"));
    assert!(ctx.imports.contains_key("useEffect"));
}

#[test]
fn test_ts_import_default() {
    let src = "import React from 'react';";
    let (_g, ctx) = parse_ts(src);
    assert!(ctx.imports.contains_key("React"));
}

#[test]
fn test_ts_type_alias() {
    let src = "type Point = { x: number; y: number; };";
    let (g, _) = parse_ts(src);
    assert!(g.has_node("test/Point"));
}

#[test]
fn ts_import_values_and_relative_paths() {
    let mut g = CodeGraph::new();
    let src = "import { a as b } from './util';\nimport * as ns from \"lib\";\nimport 'side';";
    let ctx = parse_file(src, "src/app/main.ts", &mut g, JsVariant::TypeScript).unwrap();
    assert_eq!(ctx.module_id, "src/app/main");
    assert_eq!(ctx.imports.get("b").map(|s| s.as_str()), Some("src/app/util/a"));
    assert_eq!(ctx.imports.get("ns").map(|s| s.as_str()), Some("lib"));
    assert_eq!(ctx.imports.get("side").map(|s| s.as_str()), Some("side"));
}

#[test]
fn ts_calls_are_recorded_with_receivers() {
    let src = "class Dog { bark() { this.helper(); run(); } }";
    let (_g, ctx) = parse_ts(src);
    assert!(ctx.pending_calls.iter().any(|c| c.caller_id == "test/Dog::bark" && c.callee_name == "run" && c.object.is_none()));
    assert!(ctx.pending_calls.iter().any(|c| c.callee_name == "helper" && c.in_class.as_deref() == Some("test/Dog")));
}

#[test]
fn ts_exported_and_bound_functions_record_their_calls() {
    let (g, ctx) = parse_ts("export function run() { start(); }\nexport const go = () => { step(); };\nlet x = 5;\n");
    assert!(g.has_node("test/run"));
    assert!(g.has_node("test/go"));
    assert!(!g.has_node("test/x"));
    assert!(ctx.pending_calls.iter().any(|c| c.caller_id == "test/run" && c.callee_name == "start"));
    assert!(ctx.pending_calls.iter().any(|c| c.caller_id == "test/go" && c.callee_name == "step"));
}

#[test]
fn test_ts_nodes_and_edges_are_exactly_the_declarations() {
    let src = "import { x } from './x';\nexport class Dog { constructor() {} bark() {} }\ninterface Shape {}\nconst run = () => { go(); };\nconst n = 1;\nfunction main() {}\n";
    let (g, _ctx) = parse_ts(src);
    let ids: Vec<String> = g.nodes().into_iter().map(|n| n.id).collect();
    assert_eq!(ids, vec!["test", "test/Dog", "test/Dog::bark", "test/Shape", "test/run", "test/main"]);
    let edges: Vec<(String, String)> = g.edges().into_iter().map(|(s, t, _)| (s.id, t.id)).collect();
    assert_eq!(edges, vec![
        ("test".to_string(), "test/Dog".to_string()),
        ("test/Dog".to_string(), "test/Dog::bark".to_string()),
        ("test".to_string(), "test/Shape".to_string()),
        ("test".to_string(), "test/run".to_string()),
        ("test".to_string(), "test/main".to_string()),
    ]);
}
