//! Layout families and the positions a layout assigns.
use vstd::prelude::*;

use crate::text::{ascii_lower, ascii_lower_chars, chars_eq, chars_of, trim, trim_chars};

verus! {

/// Supported layout families.
#[derive(Debug, Clone, Copy, PartialEq, Eq, Structural, PartialOrd, Ord, Hash)]
pub enum LayoutFamily {
    TreeTopDown,
    TreeLeftRight,
    Radial,
    Radial1,
    Circular,
}

/// The family named by an already trimmed, lower-cased name.
pub open spec fn family_named(n: Seq<char>) -> Option<LayoutFamily> {
    if n == "tree_top_down"@ || n == "tree-top-down"@ || n == "treetopdown"@ || n == "vertical"@
        || n == "vertical_tree"@ || n == "vertical-tree"@ {
        Some(LayoutFamily::TreeTopDown)
    } else if n == "tree_left_right"@ || n == "tree-left-right"@ || n == "treeleftright"@ || n
        == "horizontal"@ || n == "horizontal_tree"@ || n == "horizontal-tree"@ {
        Some(LayoutFamily::TreeLeftRight)
    } else if n == "radial"@ || n == "radial_subtree"@ || n == "radial-subtree"@ || n
        == "radialsubtree"@ {
        Some(LayoutFamily::Radial)
    } else if n == "radial1"@ || n == "radial_1"@ || n == "radial-1"@ {
        Some(LayoutFamily::Radial1)
    } else if n == "circular"@ {
        Some(LayoutFamily::Circular)
    } else {
        None
    }
}

/// `n` equals one of the names.
fn is_any_of(n: &Vec<char>, names: &[&str]) -> (r: bool)
    ensures
        r == exists|k: int| 0 <= k < names@.len() && n@ == (#[trigger] names@[k])@,
{
    let mut k: usize = 0;
    while k < names.len()
        invariant
            k <= names@.len(),
            forall|m: int| 0 <= m < k ==> n@ != (#[trigger] names@[m])@,
        decreases names@.len() - k,
    {
        let candidate = chars_of(names[k]);
        if chars_eq(n.as_slice(), candidate.as_slice()) {
            return true;
        }
        k = k + 1;
    }
    false
}

impl LayoutFamily {
    /// All families, in tie-break precedence order.
    pub fn ordered() -> (r: Vec<LayoutFamily>)
        ensures
            r@ == seq![
                LayoutFamily::TreeTopDown,
                LayoutFamily::TreeLeftRight,
                LayoutFamily::Radial,
                LayoutFamily::Radial1,
                LayoutFamily::Circular,
            ],
    {
        vec![
            LayoutFamily::TreeTopDown,
            LayoutFamily::TreeLeftRight,
            LayoutFamily::Radial,
            LayoutFamily::Radial1,
            LayoutFamily::Circular,
        ]
    }

    /// The family named by `value`, ignoring surrounding whitespace and ASCII case.
    pub fn parse(value: &str) -> (r: Option<LayoutFamily>)
        ensures
            r == family_named(ascii_lower(trim(value@))),
    {
        let chars = chars_of(value);
        let trimmed = trim_chars(chars.as_slice());
        let n = ascii_lower_chars(trimmed.as_slice());
        let top = ["tree_top_down", "tree-top-down", "treetopdown", "vertical", "vertical_tree", "vertical-tree"];
        let left = ["tree_left_right", "tree-left-right", "treeleftright", "horizontal", "horizontal_tree", "horizontal-tree"];
        let radial = ["radial", "radial_subtree", "radial-subtree", "radialsubtree"];
        let radial1 = ["radial1", "radial_1", "radial-1"];
        let circular = ["circular"];
        let r = if is_any_of(&n, &top) {
            Some(LayoutFamily::TreeTopDown)
        } else if is_any_of(&n, &left) {
            Some(LayoutFamily::TreeLeftRight)
        } else if is_any_of(&n, &radial) {
            Some(LayoutFamily::Radial)
        } else if is_any_of(&n, &radial1) {
            Some(LayoutFamily::Radial1)
        } else if is_any_of(&n, &circular) {
            Some(LayoutFamily::Circular)
        } else {
            None
        };
        r
    }
}

/// Coordinate space used by layout node positions.
#[derive(Debug, Clone, Copy, PartialEq, Eq, Structural)]
pub enum LayoutCoordinateSpace {
    Grid,
    Pixels,
}

/// Position data for a node in a layout.
#[derive(Debug, Clone, PartialEq, Eq)]
pub struct LayoutNode {
    pub id: String,
    pub x: i32,
    pub y: i32,
}

/// Edge data for a layout.
#[derive(Debug, Clone, PartialEq, Eq)]
pub struct LayoutEdge {
    pub a: String,
    pub b: String,
}

} // verus!
