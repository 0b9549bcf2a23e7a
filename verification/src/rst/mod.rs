//! The reStructuredText subset: syntax tree, parser and HTML renderer.

pub mod ast;
pub mod parser;
pub mod render;
