//! Verified core of the Aurora model tooling: graph layering, layout preparation, model
//! validation, and the text processing behind SVG rendering.
pub mod text;
pub mod validation;
pub mod layout;
pub mod model;
pub mod prep;
pub mod render;
pub mod laws;
