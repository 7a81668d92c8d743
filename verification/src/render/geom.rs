//! Integer geometry of SVG rendering.
use vstd::prelude::*;

verus! {

/// An axis-aligned rectangle in pixels.
#[derive(Debug, Clone, Copy, PartialEq, Eq, Structural)]
pub struct RectI {
    pub x: i32,
    pub y: i32,
    pub w: i32,
    pub h: i32,
}

} // verus!
