//! Multi-language dependency-graph builder: the graph model, the language
//! front-ends over syntax trees, name resolution, graph analyses and
//! text exports.

pub mod text;
pub mod store;
pub mod model;
pub mod context;
pub mod syntax;
pub mod front;
pub mod rust_lang;
pub mod typescript;
pub mod python;
pub mod cpp;
pub mod project;
pub mod export;
pub mod resolve;
pub mod analysis;
