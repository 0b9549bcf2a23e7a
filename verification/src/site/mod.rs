//! Building the site.

pub mod group;
pub mod plan;
pub mod render;
pub mod statics;
