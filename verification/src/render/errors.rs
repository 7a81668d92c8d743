//! Errors of the rendering stages.
use vstd::prelude::*;

verus! {

/// Errors emitted during layout computation and SVG rendering.
#[derive(Debug, Clone, PartialEq, Eq)]
pub enum RenderError {
    MissingRoots,
    DuplicateNodeId(String),
    MissingNode(String),
    UnknownTarget(String, String),
    RootHasIncoming(String),
    NodeHasNoIncoming(String),
    UnreachableNodes(Vec<String>),
    BackboneOrderFailed,
    MissingRank(String),
    MissingLayer(usize),
    MissingPosition(String),
    MissingX(String),
    RootRankNotZero(String),
    BackboneRankOrder(String, String),
    EdgeClassificationMismatch { backbone_count: usize, loop_count: usize, total_count: usize },
    RenderUnavailable,
    SvgTemplateMissingViewbox,
    SvgTemplateMissingDiagram,
    SvgMissingNode(String),
    SvgDuplicateCardId(String),
    SvgRouteFailed,
    GraphvizUnavailable(String),
    GraphvizFailed(String),
    GraphvizParse(String),
    Io(String),
    SvgTooLarge,
}

/// Errors of parsing a point.
#[derive(Debug, Clone, PartialEq, Eq)]
pub enum GeometryError {
    InvalidPoint(String),
}

/// Errors of reading Graphviz DOT output.
#[derive(Debug, Clone, PartialEq, Eq)]
pub enum DotError {
    InvalidBoundingBox(String),
    MissingEdgeHead(String),
    InvalidEdgeHead(String),
    InvalidPoint(String),
    GeometryError(GeometryError),
    InvalidEdge(String),
    MissingBoundingBox,
}

} // verus!
