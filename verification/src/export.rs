//! Text exports of a code graph: Graphviz DOT, and the colors the views use.
use vstd::prelude::*;

use crate::model::{CodeGraph, EdgeKind, GraphModel, NodeKind};
use crate::text::{append_chars, char_is_alphanumeric, chars_of, is_alnum, replace_all, replace_of, str_eq, string_from};

verus! {

pub open spec fn node_kind_label(k: NodeKind) -> Seq<char> {
    match k {
        NodeKind::Module => "module"@,
        NodeKind::Class => "class"@,
        NodeKind::Struct => "struct"@,
        NodeKind::Function => "function"@,
        NodeKind::Method => "method"@,
        NodeKind::Property => "property"@,
        NodeKind::Constant => "constant"@,
    }
}

pub open spec fn edge_kind_label(k: EdgeKind) -> Seq<char> {
    match k {
        EdgeKind::Contains => "contains"@,
        EdgeKind::Imports => "imports"@,
        EdgeKind::Inherits => "inherits"@,
        EdgeKind::Calls => "calls"@,
        EdgeKind::UsesType => "uses_type"@,
        EdgeKind::ExternalDep => "external_dep"@,
        EdgeKind::FieldType => "field_type"@,
    }
}

impl NodeKind {
    /// The lower-case name of the kind.
    pub fn to_string(&self) -> (r: String)
        ensures
            r@ == node_kind_label(*self),
    {
        let s = match self {
            NodeKind::Module => "module",
            NodeKind::Class => "class",
            NodeKind::Struct => "struct",
            NodeKind::Function => "function",
            NodeKind::Method => "method",
            NodeKind::Property => "property",
            NodeKind::Constant => "constant",
        };
        s.to_owned()
    }
}

impl EdgeKind {
    /// The snake-case name of the kind.
    pub fn to_string(&self) -> (r: String)
        ensures
            r@ == edge_kind_label(*self),
    {
        let s = match self {
            EdgeKind::Contains => "contains",
            EdgeKind::Imports => "imports",
            EdgeKind::Inherits => "inherits",
            EdgeKind::Calls => "calls",
            EdgeKind::UsesType => "uses_type",
            EdgeKind::ExternalDep => "external_dep",
            EdgeKind::FieldType => "field_type",
        };
        s.to_owned()
    }
}

pub open spec fn node_color_spec(k: NodeKind) -> Seq<char> {
    match k {
        NodeKind::Module => "#4A90D9"@,
        NodeKind::Class => "#E74C3C"@,
        NodeKind::Struct => "#1ABC9C"@,
        NodeKind::Function => "#2ECC71"@,
        NodeKind::Method => "#F39C12"@,
        NodeKind::Property => "#9B59B6"@,
        NodeKind::Constant => "#E67E22"@,
    }
}

/// The color of a node kind.
pub fn node_color(kind: &NodeKind) -> (r: &'static str)
    ensures
        r@ == node_color_spec(*kind),
{
    match kind {
        NodeKind::Module => "#4A90D9",
        NodeKind::Class => "#E74C3C",
        NodeKind::Struct => "#1ABC9C",
        NodeKind::Function => "#2ECC71",
        NodeKind::Method => "#F39C12",
        NodeKind::Property => "#9B59B6",
        NodeKind::Constant => "#E67E22",
    }
}

/// The light variant of each node color; any other color lightens to
/// `#EEEEEE`.
pub open spec fn lighten_spec(c: Seq<char>) -> Seq<char> {
    if c == "#4A90D9"@ {
        "#AED0F0"@
    } else if c == "#E74C3C"@ {
        "#F7B7B2"@
    } else if c == "#1ABC9C"@ {
        "#A2DDD6"@
    } else if c == "#2ECC71"@ {
        "#A3E9C5"@
    } else if c == "#F39C12"@ {
        "#FAD7A0"@
    } else if c == "#9B59B6"@ {
        "#D2B4DE"@
    } else if c == "#E67E22"@ {
        "#FAD3A2"@
    } else {
        "#EEEEEE"@
    }
}

/// The light variant of a color (see `lighten_spec`).
pub fn lighten(color: &str) -> (r: String)
    ensures
        r@ == lighten_spec(color@),
{
    let s = if str_eq(color, "#4A90D9") {
        "#AED0F0"
    } else if str_eq(color, "#E74C3C") {
        "#F7B7B2"
    } else if str_eq(color, "#1ABC9C") {
        "#A2DDD6"
    } else if str_eq(color, "#2ECC71") {
        "#A3E9C5"
    } else if str_eq(color, "#F39C12") {
        "#FAD7A0"
    } else if str_eq(color, "#9B59B6") {
        "#D2B4DE"
    } else if str_eq(color, "#E67E22") {
        "#FAD3A2"
    } else {
        "#EEEEEE"
    };
    s.to_owned()
}

pub open spec fn edge_color_spec(k: EdgeKind) -> Seq<char> {
    match k {
        EdgeKind::Contains => "#BDC3C7"@,
        EdgeKind::Imports => "#7F8C8D"@,
        EdgeKind::Inherits => "#9B59B6"@,
        EdgeKind::Calls => "#3498DB"@,
        EdgeKind::UsesType => "#1ABC9C"@,
        EdgeKind::ExternalDep => "#E67E22"@,
        EdgeKind::FieldType => "#F39C12"@,
    }
}

/// The color of an edge kind.
pub fn edge_color(kind: &EdgeKind) -> (r: &'static str)
    ensures
        r@ == edge_color_spec(*kind),
{
    match kind {
        EdgeKind::Contains => "#BDC3C7",
        EdgeKind::Imports => "#7F8C8D",
        EdgeKind::Inherits => "#9B59B6",
        EdgeKind::Calls => "#3498DB",
        EdgeKind::UsesType => "#1ABC9C",
        EdgeKind::ExternalDep => "#E67E22",
        EdgeKind::FieldType => "#F39C12",
    }
}

/// Every node color has its own light variant: none lightens to the
/// fallback `#EEEEEE`.
pub proof fn lemma_node_colors_lighten(k: NodeKind)
    ensures
        lighten_spec(node_color_spec(k)) != "#EEEEEE"@,
{
    reveal_strlit("#4A90D9");
    reveal_strlit("#E74C3C");
    reveal_strlit("#1ABC9C");
    reveal_strlit("#2ECC71");
    reveal_strlit("#F39C12");
    reveal_strlit("#9B59B6");
    reveal_strlit("#E67E22");
    reveal_strlit("#AED0F0");
    reveal_strlit("#F7B7B2");
    reveal_strlit("#A2DDD6");
    reveal_strlit("#A3E9C5");
    reveal_strlit("#FAD7A0");
    reveal_strlit("#D2B4DE");
    reveal_strlit("#FAD3A2");
    reveal_strlit("#EEEEEE");
    match k {
        NodeKind::Module => {
            assert("#AED0F0"@[1] != "#EEEEEE"@[1]);
        },
        NodeKind::Class => {
            assert("#E74C3C"@[1] != "#4A90D9"@[1]);
            assert("#F7B7B2"@[1] != "#EEEEEE"@[1]);
        },
        NodeKind::Struct => {
            assert("#1ABC9C"@[1] != "#4A90D9"@[1]);
            assert("#1ABC9C"@[1] != "#E74C3C"@[1]);
            assert("#A2DDD6"@[1] != "#EEEEEE"@[1]);
        },
        NodeKind::Function => {
            assert("#2ECC71"@[1] != "#4A90D9"@[1]);
            assert("#2ECC71"@[1] != "#E74C3C"@[1]);
            assert("#2ECC71"@[1] != "#1ABC9C"@[1]);
            assert("#A3E9C5"@[1] != "#EEEEEE"@[1]);
        },
        NodeKind::Method => {
            assert("#F39C12"@[1] != "#4A90D9"@[1]);
            assert("#F39C12"@[1] != "#E74C3C"@[1]);
            assert("#F39C12"@[1] != "#1ABC9C"@[1]);
            assert("#F39C12"@[1] != "#2ECC71"@[1]);
            assert("#FAD7A0"@[1] != "#EEEEEE"@[1]);
        },
        NodeKind::Property => {
            assert("#9B59B6"@[1] != "#4A90D9"@[1]);
            assert("#9B59B6"@[1] != "#E74C3C"@[1]);
            assert("#9B59B6"@[1] != "#1ABC9C"@[1]);
            assert("#9B59B6"@[1] != "#2ECC71"@[1]);
            assert("#9B59B6"@[1] != "#F39C12"@[1]);
            assert("#D2B4DE"@[1] != "#EEEEEE"@[1]);
        },
        NodeKind::Constant => {
            assert("#E67E22"@[1] != "#4A90D9"@[1]);
            assert("#E67E22"@[2] != "#E74C3C"@[2]);
            assert("#E67E22"@[1] != "#1ABC9C"@[1]);
            assert("#E67E22"@[1] != "#2ECC71"@[1]);
            assert("#E67E22"@[1] != "#F39C12"@[1]);
            assert("#E67E22"@[1] != "#9B59B6"@[1]);
            assert("#FAD3A2"@[1] != "#EEEEEE"@[1]);
        },
    }
}

/// A DOT identifier for a node id: `n_` followed by the id with every
/// character that is not alphanumeric replaced by `_`.
pub open spec fn dot_id(id: Seq<char>) -> Seq<char> {
    "n_"@ + id.map_values(|c: char| if is_alnum(c) { c } else { '_' })
}

/// The DOT identifier of a node id (see `dot_id`).
pub fn safe_dot_id(id: &str) -> (r: String)
    ensures
        r@ == dot_id(id@),
{
    let cs = chars_of(id);
    let mut out = chars_of("n_");
    let ghost head = out@;
    let mut i: usize = 0;
    while i < cs.len()
        invariant
            i <= cs@.len(),
            head == "n_"@,
            out@ == head + cs@.subrange(0, i as int).map_values(|c: char| if is_alnum(c) { c } else { '_' }),
        decreases cs@.len() - i,
    {
        let c = cs[i];
        if char_is_alphanumeric(c) {
            out.push(c);
        } else {
            out.push('_');
        }
        i = i + 1;
        assert(out@ =~= head + cs@.subrange(0, i as int).map_values(|c: char| if is_alnum(c) { c } else { '_' }));
    }
    assert(cs@.subrange(0, cs@.len() as int) =~= cs@);
    string_from(out.as_slice())
}

/// `s` with every `"` escaped as `\"`.
pub fn escape_dot(s: &str) -> (r: String)
    ensures
        r@ == replace_all(s@, "\""@, "\\\""@),
{
    let cs = chars_of(s);
    let q = chars_of("\"");
    let e = chars_of("\\\"");
    let out = replace_of(cs.as_slice(), q.as_slice(), e.as_slice());
    string_from(out.as_slice())
}

} // verus!

verus! {

/// The concatenation of the pieces, in order.
pub open spec fn concat_all(parts: Seq<Seq<char>>) -> Seq<char>
    decreases parts.len(),
{
    if parts.len() == 0 {
        Seq::empty()
    } else {
        concat_all(parts.drop_last()) + parts.last()
    }
}

/// The DOT line of a node: its DOT id, label `name [kind]` with quotes
/// escaped, the kind's color and its light variant as fill.
pub open spec fn dot_node_line(n: crate::model::Node) -> Seq<char> {
    let color = node_color_spec(n.kind);
    "    "@ + dot_id(n.id@) + " [label=\""@ + replace_all(n.name@ + " ["@ + node_kind_label(n.kind) + "]"@, "\""@, "\\\""@)
        + "\", color=\""@ + color + "\", style=filled, fillcolor=\""@ + lighten_spec(color) + "\"];\n"@
}

/// The DOT line of an edge: source and target DOT ids, the kind as label and
/// the kind's color.
pub open spec fn dot_edge_line(g: GraphModel, e: (usize, usize, EdgeKind)) -> Seq<char> {
    "    "@ + dot_id(g.nodes[e.0 as int].id@) + " -> "@ + dot_id(g.nodes[e.1 as int].id@) + " [label=\""@
        + edge_kind_label(e.2) + "\", color=\""@ + edge_color_spec(e.2) + "\"];\n"@
}

pub open spec fn dot_header() -> Seq<char> {
    "digraph codegraph {\n"@ + "    rankdir=LR;\n"@ + "    node [shape=box, fontname=\"Helvetica\"];\n"@
        + "    edge [fontname=\"Helvetica\", fontsize=10];\n\n"@
}

/// The whole DOT document of a graph: the header, one line per node in
/// order, a blank line, one line per edge in order, and the closing brace.
pub open spec fn dot_document(g: GraphModel) -> Seq<char> {
    dot_header() + concat_all(g.nodes.map_values(|n: crate::model::Node| dot_node_line(n))) + "\n"@
        + concat_all(g.edges.map_values(|e: (usize, usize, EdgeKind)| dot_edge_line(g, e))) + "}\n"@
}

fn push_str(out: &mut Vec<char>, s: &str)
    ensures
        final(out)@ == old(out)@ + s@,
{
    let cs = chars_of(s);
    append_chars(out, cs.as_slice());
}

/// The DOT document of a graph (see `dot_document`).
pub fn export_dot(graph: &CodeGraph) -> (r: String)
    requires
        graph.wf(),
    ensures
        r@ == dot_document(graph@),
{
    let ghost g = graph@;
    proof { graph.lemma_valid(); }
    let mut out: Vec<char> = Vec::new();
    push_str(&mut out, "digraph codegraph {\n");
    push_str(&mut out, "    rankdir=LR;\n");
    push_str(&mut out, "    node [shape=box, fontname=\"Helvetica\"];\n");
    push_str(&mut out, "    edge [fontname=\"Helvetica\", fontsize=10];\n\n");
    assert(out@ =~= dot_header());
    let ghost nl = g.nodes.map_values(|n: crate::model::Node| dot_node_line(n));
    let n = graph.node_count();
    let mut i: usize = 0;
    while i < n
        invariant
            graph.wf(),
            g == graph@,
            n == g.nodes.len(),
            nl == g.nodes.map_values(|n: crate::model::Node| dot_node_line(n)),
            i <= n,
            out@ == dot_header() + concat_all(nl.subrange(0, i as int)),
        decreases n - i,
    {
        let node = graph.node_at(i);
        let color = node_color(&node.kind);
        let kind_label = node.kind.to_string();
        let mut label: Vec<char> = chars_of(node.name.as_str());
        push_str(&mut label, " [");
        push_str(&mut label, kind_label.as_str());
        push_str(&mut label, "]");
        let label_s = string_from(label.as_slice());
        let escaped = escape_dot(label_s.as_str());
        let light = lighten(color);
        let ghost before = out@;
        push_str(&mut out, "    ");
        push_str(&mut out, safe_dot_id(node.id.as_str()).as_str());
        push_str(&mut out, " [label=\"");
        push_str(&mut out, escaped.as_str());
        push_str(&mut out, "\", color=\"");
        push_str(&mut out, color);
        push_str(&mut out, "\", style=filled, fillcolor=\"");
        push_str(&mut out, light.as_str());
        push_str(&mut out, "\"];\n");
        proof {
            assert(out@ =~= before + dot_node_line(*node));
            assert(nl.subrange(0, i + 1).drop_last() =~= nl.subrange(0, i as int));
            assert(nl[i as int] == dot_node_line(g.nodes[i as int]));
            assert(out@ =~= dot_header() + concat_all(nl.subrange(0, i + 1)));
        }
        i = i + 1;
    }
    assert(nl.subrange(0, n as int) =~= nl);
    push_str(&mut out, "\n");
    let ghost mid = out@;
    let ghost el = g.edges.map_values(|e: (usize, usize, EdgeKind)| dot_edge_line(g, e));
    let m = graph.edge_count();
    let mut j: usize = 0;
    assert(el.subrange(0, 0) =~= Seq::<Seq<char>>::empty());
    assert(mid + concat_all(el.subrange(0, 0)) =~= mid);
    while j < m
        invariant
            graph.wf(),
            g == graph@,
            g.valid(),
            m == g.edges.len(),
            el == g.edges.map_values(|e: (usize, usize, EdgeKind)| dot_edge_line(g, e)),
            j <= m,
            out@ == mid + concat_all(el.subrange(0, j as int)),
        decreases m - j,
    {
        let (a, b, k) = graph.edge_at(j);
        assert(a < g.nodes.len() && b < g.nodes.len());
        let src = graph.node_at(a);
        let tgt = graph.node_at(b);
        let label = k.to_string();
        let ghost before = out@;
        push_str(&mut out, "    ");
        push_str(&mut out, safe_dot_id(src.id.as_str()).as_str());
        push_str(&mut out, " -> ");
        push_str(&mut out, safe_dot_id(tgt.id.as_str()).as_str());
        push_str(&mut out, " [label=\"");
        push_str(&mut out, label.as_str());
        push_str(&mut out, "\", color=\"");
        push_str(&mut out, edge_color(&k));
        push_str(&mut out, "\"];\n");
        proof {
            assert(out@ =~= before + dot_edge_line(g, g.edges[j as int]));
            assert(el.subrange(0, j + 1).drop_last() =~= el.subrange(0, j as int));
            assert(out@ =~= mid + concat_all(el.subrange(0, j + 1)));
        }
        j = j + 1;
    }
    assert(el.subrange(0, m as int) =~= el);
    push_str(&mut out, "}\n");
    assert(out@ =~= dot_document(g));
    string_from(out.as_slice())
}

} // verus!
