//! Rendering: layout types, errors, geometry, and the text processing of SVG output.
pub mod defs;
pub mod document;
pub mod errors;
pub mod focused_graph;
pub mod graphviz_plain;
pub mod geom;
pub mod node;
pub mod route_graph;
pub mod route_search;
pub mod router;
pub mod router_geom;
pub mod svg;
pub mod template_defs;
pub mod types;
