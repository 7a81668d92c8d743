//! Text logic of the SVG preparation tool: proof-sheet labels and the rewrite of the model
//! configuration's list of available cards.
pub mod cards;
pub mod label;
pub mod refs;
pub mod shape_style;
pub mod style;
