# codegraph

A multi-language static analyzer that builds a dependency graph of a Python,
Rust, C++ (and TypeScript / JavaScript) code base: modules, classes, structs,
functions, methods, properties and constants as nodes; containment, imports,
inheritance, type use, calls and external dependencies as edges.

The library under `src/` is verified with Verus:

- `model` — the graph (nodes unique by id, edges unique by endpoints and kind),
  its statistics and its flat form; `store` holds the trusted access to
  petgraph's `StableGraph` and std's `HashMap` that the graph is built on.
- `syntax` — tree-sitter parsing: the parser's tree listed in preorder, and
  the verified decoding of that listing into a plain syntax tree.
- `rust_lang`, `python`, `cpp`, `typescript` — the language front-ends; `front`
  holds what they share (how a walk may change the graph and the context).
- `context` — what a front-end records per file for name resolution.
- `resolve` — the resolution pass that links uses to declarations across files.
- `analysis` — differences between graphs, the neighbourhood of a node,
  degrees, cycles and connected components.
- `project` — file selection, content hashes for the incremental cache, and
  building a graph from many files.
- `export` — Graphviz output and the colour scheme.
- `text` — character-sequence operations with their meaning stated over
  `Seq<char>`.

`app/` is the command-line program around it:

```bash
codegraph path/to/project                      # Python, Rust and C++
codegraph path/to/project --lang rust,python   # chosen languages
codegraph path/to/project -o graph.html        # output file
codegraph path/to/project --focus pkg.mod.func --depth 2
codegraph path/to/project --git-ref main       # diff against a revision
codegraph path/to/project --json graph.json --dot graph.dot --watch
codegraph path/to/project --clean --out-dir out   # remove the generated files
```
