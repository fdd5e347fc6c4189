//! A minimal markup-rendering core: an HTML parser producing a DOM tree,
//! a CSS parser producing a stylesheet, a selector/specificity cascade
//! resolver, and a layout-tree builder that attaches computed style to
//! each DOM node.
pub mod css;
pub mod dom;
pub mod layout;
pub mod style;
pub mod text;
