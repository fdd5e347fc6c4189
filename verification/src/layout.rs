//! The layout tree: a depth-first walk of the DOM that attaches the
//! computed style to each node, one box per node, with
//! zero-initialized placeholder geometry. No box-model arithmetic is
//! performed here.
use vstd::prelude::*;

use crate::css::{SpecRule, Stylesheet};
use crate::dom::{DomNode, NodeType};
use crate::style::{
    compute_style, get_display, spec_compute_style, spec_specified, specified_values,
    ComputedStyle, Display, PropertyMap,
};

verus! {

/// A rectangle, coordinates and sizes in thousandths of a pixel.
#[derive(Debug, Clone, Copy, PartialEq, Eq, Structural)]
pub struct Rect {
    pub x: i64,
    pub y: i64,
    pub width: i64,
    pub height: i64,
}

/// Four edge sizes, in thousandths of a pixel.
#[derive(Debug, Clone, Copy, PartialEq, Eq, Structural)]
pub struct EdgeSizes {
    pub left: i64,
    pub right: i64,
    pub top: i64,
    pub bottom: i64,
}

/// Placeholder geometry: a content rectangle with padding, border and
/// margin edges.
#[derive(Debug, Clone, Copy, PartialEq, Eq, Structural)]
pub struct Dimensions {
    pub content: Rect,
    pub padding: EdgeSizes,
    pub border: EdgeSizes,
    pub margin: EdgeSizes,
}

pub open spec fn zero_rect() -> Rect {
    Rect { x: 0, y: 0, width: 0, height: 0 }
}

pub open spec fn zero_edges() -> EdgeSizes {
    EdgeSizes { left: 0, right: 0, top: 0, bottom: 0 }
}

pub open spec fn zero_dimensions() -> Dimensions {
    Dimensions {
        content: zero_rect(),
        padding: zero_edges(),
        border: zero_edges(),
        margin: zero_edges(),
    }
}

impl Default for Rect {
    fn default() -> (r: Rect)
        ensures
            r == zero_rect(),
    {
        Rect { x: 0, y: 0, width: 0, height: 0 }
    }
}

impl Default for EdgeSizes {
    fn default() -> (r: EdgeSizes)
        ensures
            r == zero_edges(),
    {
        EdgeSizes { left: 0, right: 0, top: 0, bottom: 0 }
    }
}

impl Default for Dimensions {
    fn default() -> (r: Dimensions)
        ensures
            r == zero_dimensions(),
    {
        Dimensions {
            content: Rect::default(),
            padding: EdgeSizes::default(),
            border: EdgeSizes::default(),
            margin: EdgeSizes::default(),
        }
    }
}

/// One box per DOM node: a reference to the node, its display mode,
/// placeholder geometry, computed style, and one child box per child
/// node.
#[derive(Debug)]
pub struct LayoutBox<'a> {
    pub node: &'a DomNode,
    pub display: Display,
    pub dimensions: Dimensions,
    pub style: ComputedStyle,
    pub children: Vec<LayoutBox<'a>>,
}

/// The style a node computes to: an element resolves the cascade
/// against the whole stylesheet; a text node takes the default
/// projection.
pub open spec fn spec_style_for(n: DomNode, sheet: Seq<SpecRule>) -> ComputedStyle {
    match n.node_type {
        NodeType::Element(e) => spec_compute_style(spec_specified(e, sheet)),
        NodeType::Text(_) => spec_compute_style(Map::empty()),
    }
}

/// The box tree mirrors the DOM: the box references exactly its node,
/// carries that node's computed style and zeroed geometry, and has
/// one corresponding child box per child node, in document order.
pub open spec fn box_corresponds(b: LayoutBox, n: DomNode, sheet: Seq<SpecRule>) -> bool
    decreases n,
{
    &&& *b.node == n
    &&& b.style == spec_style_for(n, sheet)
    &&& b.display == spec_style_for(n, sheet).display
    &&& b.dimensions == zero_dimensions()
    &&& b.children@.len() == n.children@.len()
    &&& forall|i: int|
        0 <= i < n.children@.len() ==> box_corresponds(
            b.children@[i],
            #[trigger] n.children@[i],
            sheet,
        )
}

/// Builds the layout tree for a DOM tree against a stylesheet:
/// exactly one structurally corresponding box per DOM node, in the
/// same depth-first order.
pub fn build_layout_tree<'a>(root: &'a DomNode, stylesheet: &Stylesheet) -> (r: LayoutBox<'a>)
    ensures
        box_corresponds(r, *root, stylesheet@),
    decreases *root,
{
    let values = match &root.node_type {
        NodeType::Element(elem) => specified_values(elem, stylesheet),
        NodeType::Text(_) => PropertyMap::new(),
    };
    let display = get_display(&values);
    let style = compute_style(&values);
    let mut children: Vec<LayoutBox<'a>> = Vec::new();
    let mut i: usize = 0;
    while i < root.children.len()
        invariant
            i <= root.children@.len(),
            children@.len() == i,
            forall|k: int|
                0 <= k < i ==> box_corresponds(
                    children@[k],
                    #[trigger] root.children@[k],
                    stylesheet@,
                ),
        decreases root.children@.len() - i,
    {
        children.push(build_layout_tree(&root.children[i], stylesheet));
        i = i + 1;
    }
    LayoutBox { node: root, display, dimensions: Dimensions::default(), style, children }
}

} // verus!
