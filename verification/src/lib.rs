//! A small static-site toolkit: a reStructuredText subset parser, an HTML
//! renderer, post metadata handling and the page plan of a site build.

pub mod cli;
pub mod error;
pub mod rst;
pub mod text;
pub mod content;
pub mod commands;
pub mod site;
