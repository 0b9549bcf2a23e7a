//! The command line: the commands and their arguments.

use vstd::prelude::*;

verus! {

/// The parsed command line.
#[derive(Debug)]
pub struct Cli {
    pub command: Command,
}

/// What the command line asks for.
#[derive(Debug)]
pub enum Command {
    /// Create a draft post titled `title`, with the slug `slug` or one
    /// derived from the title.
    New { title: String, slug: Option<String> },
    /// Build the site into `dist/` for the site URL `site_url`.
    Build { site_url: String },
    /// Check the content without building.
    Check,
    /// Build the site, then serve `dist/` on `port` of the loopback address.
    Serve { port: u16, site_url: String },
}

} // verus!
