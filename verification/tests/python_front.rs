use codegraph::front::new_context;
use codegraph::model::{CodeGraph, NodeKind};
use codegraph::python;
use codegraph::syntax::SyntaxNode;

#[test]
fn python_module_class_function_and_constant() {
    let mut g = CodeGraph::new();
    let src = "\"\"\"Module doc.\"\"\"\nimport os\nimport numpy as np\nMAX_SIZE = 10\nlower = 3\n\nclass Point(Base):\n    \"\"\"A point.\"\"\"\n    def move(self, dx: float) -> Vector:\n        self.vec = Vector(dx)\n        helper()\n        v.scale(2)\n\n    @property\n    def norm(self):\n        return 1\n\ndef top(a: Shape):\n    def inner():\n        pass\n    local = Factory()\n";
    let ctx = python::parse_file(src, "pkg/geo.py", &mut g).unwrap();
    assert_eq!(ctx.module_id, "pkg.geo");
    assert_eq!(g.get_node("pkg.geo").unwrap().kind, NodeKind::Module);
    assert_eq!(g.get_node("pkg.geo").unwrap().name, "geo");
    assert_eq!(g.get_node("pkg.geo").unwrap().docstring.as_deref(), Some("Module doc."));
    assert_eq!(g.get_node("pkg.geo.MAX_SIZE").unwrap().kind, NodeKind::Constant);
    assert!(!g.has_node("pkg.geo.lower"));
    let point = g.get_node("pkg.geo.Point").unwrap();
    assert_eq!(point.kind, NodeKind::Class);
    assert_eq!(point.docstring.as_deref(), Some("A point."));
    assert_eq!(g.get_node("pkg.geo.Point.move").unwrap().kind, NodeKind::Method);
    // A decorated definition is wrapped in a `decorated_definition` node,
    // which the reader does not look into.
    assert!(!g.has_node("pkg.geo.Point.norm"));
    assert_eq!(g.get_node("pkg.geo.top").unwrap().kind, NodeKind::Function);
    assert_eq!(g.get_node("pkg.geo.top.inner").unwrap().kind, NodeKind::Function);
    assert_eq!(ctx.imports.get("os").map(|s| s.as_str()), Some("os"));
    assert_eq!(ctx.imports.get("np").map(|s| s.as_str()), Some("numpy"));
    assert_eq!(ctx.alias_map.get("np").map(|s| s.as_str()), Some("numpy"));
    assert!(ctx.pending_inherits.iter().any(|(c, b)| c == "pkg.geo.Point" && b == "Base"));
    assert!(ctx.pending_uses_type.iter().any(|(u, t)| u == "pkg.geo.Point.move" && t == "Vector"));
    assert!(ctx.pending_uses_type.iter().any(|(u, t)| u == "pkg.geo.top" && t == "Shape"));
    assert!(ctx.pending_uses_type.iter().any(|(u, t)| u == "pkg.geo.Point" && t == "Vector"));
    assert_eq!(ctx.class_fields.get("pkg.geo.Point", "vec").map(|s| s.as_str()), Some("Vector"));
    assert_eq!(ctx.local_var_types.get("pkg.geo.top", "local").map(|s| s.as_str()), Some("Factory"));
    assert_eq!(ctx.local_var_types.get("pkg.geo.Point.move", "dx").map(|s| s.as_str()), Some("float"));
    assert!(ctx.pending_calls.iter().any(|c| c.caller_id == "pkg.geo.Point.move" && c.callee_name == "helper" && c.object.is_none()));
    assert!(ctx.pending_calls.iter().any(|c| c.callee_name == "scale" && c.object.as_deref() == Some("v") && c.in_class.as_deref() == Some("pkg.geo.Point")));
}

fn leaf(kind: &str, text: &str) -> SyntaxNode {
    SyntaxNode { kind: kind.to_string(), text: text.to_string(), row: 0, children: Vec::new() }
}

fn branch(kind: &str, children: Vec<SyntaxNode>) -> SyntaxNode {
    SyntaxNode { kind: kind.to_string(), text: String::new(), row: 4, children }
}

#[test]
fn python_dataclass_fields() {
    let class = branch("class_definition", vec![
        leaf("decorator", "@dataclass"),
        leaf("class", "class"),
        leaf("identifier", "Config"),
        branch("block", vec![
            leaf("expression_statement", "name: str = 'x'"),
            branch("annotated_assignment", vec![leaf("identifier", "owner"), leaf(":", ":"), leaf("type", "Person")]),
        ]),
    ]);
    let mut g = CodeGraph::new();
    let mut ctx = new_context("cfg".to_string(), "cfg.py".to_string());
    python::parse_class(&class, "cfg", "cfg.py", &mut g, &mut ctx);
    let n = g.get_node("cfg.Config").unwrap();
    assert_eq!(n.kind, NodeKind::Class);
    assert_eq!(n.line, 5);
    assert_eq!(ctx.class_fields.get("cfg.Config", "name").map(|s| s.as_str()), Some("str"));
    assert_eq!(ctx.class_fields.get("cfg.Config", "owner").map(|s| s.as_str()), Some("Person"));
    assert!(ctx.pending_uses_type.iter().any(|(u, t)| u == "cfg.Config" && t == "Person"));
}

#[test]
fn python_from_imports() {
    let stmt = branch("import_from_statement", vec![
        leaf("from", "from"),
        leaf(".", "."),
        leaf(".", "."),
        leaf("dotted_name", "sib"),
        leaf("import", "import"),
        branch("aliased_import", vec![leaf("dotted_name", "helper"), leaf("as", "as"), leaf("identifier", "h")]),
        leaf("dotted_name", "other"),
    ]);
    let mut ctx = new_context("pkg.sub.mod".to_string(), "pkg/sub/mod.py".to_string());
    python::parse_import_from(&stmt, &mut ctx, "pkg.sub.mod");
    assert_eq!(ctx.imports.get("h").map(|s| s.as_str()), Some("pkg.sib.helper"));
    assert_eq!(ctx.imports.get("other").map(|s| s.as_str()), Some("pkg.sib.other"));
    let whole = branch("import_from_statement", vec![leaf("from", "from"), leaf("dotted_name", "a.b"), leaf("import", "import")]);
    let mut ctx2 = new_context("m".to_string(), "m.py".to_string());
    python::parse_import_from(&whole, &mut ctx2, "m");
    assert_eq!(ctx2.imports.get("a.b").map(|s| s.as_str()), Some("a.b"));
}

#[test]
fn python_module_id_strips_extension_and_separators() {
    assert_eq!(python::path_to_module_id("a/b/c.py"), "a.b.c");
    assert_eq!(python::path_to_module_id("./x.py"), "x");
    assert_eq!(python::path_to_module_id("a\\b.py"), "a.b");
}

#[test]
fn python_docstring_cleaning() {
    assert_eq!(python::clean_docstring_of("\"\"\"  Hello  \"\"\""), "Hello");
    assert_eq!(python::clean_docstring_of("'''x'''"), "x");
    assert_eq!(python::clean_docstring_of("\"plain\""), "plain");
}

#[test]
fn python_from_import_names_map_to_module_members() {
    let mut g = CodeGraph::new();
    let ctx = python::parse_file("from pkg.models import User, Order\nfrom pkg.views import Page as P\n", "app.py", &mut g).unwrap();
    assert_eq!(ctx.imports.get("User").map(|s| s.as_str()), Some("pkg.models.User"));
    assert_eq!(ctx.imports.get("Order").map(|s| s.as_str()), Some("pkg.models.Order"));
    assert_eq!(ctx.imports.get("P").map(|s| s.as_str()), Some("pkg.views.Page"));
    assert!(ctx.imports.get("pkg.models").is_none());
    assert_eq!(ctx.imports.len(), 3);
}

#[test]
fn python_class_and_methods_are_contained() {
    let mut g = CodeGraph::new();
    python::parse_file("class Dog:\n    \"\"\"A dog.\"\"\"\n    def bark(self):\n        helper()\n\ndef main():\n    d = Dog()\n", "app.py", &mut g).unwrap();
    assert!(g.has_edge("app", "app.Dog", codegraph::model::EdgeKind::Contains));
    assert!(g.has_edge("app.Dog", "app.Dog.bark", codegraph::model::EdgeKind::Contains));
    assert!(g.has_edge("app", "app.main", codegraph::model::EdgeKind::Contains));
    let dog = g.get_node("app.Dog").unwrap();
    assert_eq!(dog.line, 1);
    assert_eq!(dog.file, "app.py");
    assert_eq!(dog.name, "Dog");
    assert_eq!(dog.docstring.as_deref(), Some("A dog."));
    assert!(!dog.is_external);
    assert_eq!(g.get_node("app.Dog.bark").unwrap().line, 3);
}

#[test]
fn python_nodes_and_edges_are_exactly_the_declarations() {
    let mut g = CodeGraph::new();
    let src = "import os\nclass A:\n    def m(self):\n        def inner():\n            pass\n        return 1\n\nMAX_SIZE = 1\ny = 2\n\ndef f():\n    def g():\n        pass\n";
    python::parse_file(src, "pkg/mod.py", &mut g).unwrap();
    let ids: Vec<String> = g.nodes().into_iter().map(|n| n.id).collect();
    assert_eq!(ids, vec!["pkg.mod", "pkg.mod.A", "pkg.mod.A.m", "pkg.mod.A.inner", "pkg.mod.MAX_SIZE", "pkg.mod.f", "pkg.mod.f.g"]);
    let edges: Vec<(String, String)> = g.edges().into_iter().map(|(s, t, _)| (s.id, t.id)).collect();
    assert_eq!(edges, vec![
        ("pkg.mod".to_string(), "pkg.mod.A".to_string()),
        ("pkg.mod.A".to_string(), "pkg.mod.A.m".to_string()),
        ("pkg.mod.A".to_string(), "pkg.mod.A.inner".to_string()),
        ("pkg.mod".to_string(), "pkg.mod.MAX_SIZE".to_string()),
        ("pkg.mod".to_string(), "pkg.mod.f".to_string()),
        ("pkg.mod.f".to_string(), "pkg.mod.f.g".to_string()),
    ]);
}

#[test]
fn parsing_the_same_source_twice_gives_the_same_tree() {
    let src = "class A:\n    def m(self):\n        return helper(1)\n";
    let t1 = codegraph::syntax::parse_source(src, codegraph::context::Language::Python).unwrap();
    let t2 = codegraph::syntax::parse_source(src, codegraph::context::Language::Python).unwrap();
    assert_eq!(format!("{:?}", t1), format!("{:?}", t2));
    assert_eq!(t1.kind, "module");
    assert_eq!(t1.children.len(), 1);
    assert_eq!(t1.children[0].kind, "class_definition");
    assert_eq!(t1.children[0].row, 0);
}
