//! Copying the `static` directory into a build: what to do with each entry.

use vstd::prelude::*;
use crate::content::{safe_relative, safe_relative_spec};
use crate::error::{Error, SpecError};
use crate::text::chars_of;

verus! {

/// What a build does with one entry of the `static` directory.
#[derive(Debug, PartialEq, Eq, Structural)]
pub enum StaticAction {
    /// Leave it out (a `.gitkeep` placeholder).
    Skip,
    /// Create the directory in the output and copy what it holds.
    Descend,
    /// Copy the file into the output.
    Copy,
    /// Leave it out: it is neither a file nor a directory.
    Ignore,
}

/// What a build does with the entry `name` of the `static` directory,
/// found at `source` and bound for `target`: a `.gitkeep` is skipped; a
/// name that is not a plain relative name, or a symlink, is refused; a
/// directory is entered; a file is copied unless something is already at
/// its target; anything else is left out.
pub open spec fn static_entry_spec(
    name: Seq<char>,
    source: Seq<char>,
    target: Seq<char>,
    is_symlink: bool,
    is_dir: bool,
    is_file: bool,
    target_exists: bool,
) -> Result<StaticAction, SpecError> {
    if name == ".gitkeep"@ {
        Ok(StaticAction::Skip)
    } else if !safe_relative_spec(name) {
        Err(SpecError::InvalidWorkspace("unsafe static path: "@ + source))
    } else if is_symlink {
        Err(SpecError::InvalidWorkspace("static symlink is not allowed: "@ + source))
    } else if is_dir {
        Ok(StaticAction::Descend)
    } else if is_file {
        if target_exists {
            Err(SpecError::InvalidWorkspace("static file collides with generated output: "@ + target))
        } else {
            Ok(StaticAction::Copy)
        }
    } else {
        Ok(StaticAction::Ignore)
    }
}

pub open spec fn static_action_is(r: Result<StaticAction, Error>, expected: Result<StaticAction, SpecError>) -> bool {
    match expected {
        Ok(a) => r matches Ok(b) && b == a,
        Err(e) => r matches Err(x) && x@ == e,
    }
}

fn is_gitkeep(name: &str) -> (b: bool)
    ensures
        b == (name@ == ".gitkeep"@),
{
    let n = chars_of(name);
    let g = chars_of(".gitkeep");
    if n.len() != g.len() {
        return false;
    }
    let mut k: usize = 0;
    while k < n.len()
        invariant
            k <= n@.len(),
            n@.len() == g@.len(),
            n@ == name@,
            g@ == ".gitkeep"@,
            forall|j: int| 0 <= j < k ==> n@[j] == g@[j],
        decreases n@.len() - k,
    {
        if n[k] != g[k] {
            return false;
        }
        k = k + 1;
    }
    assert(n@ =~= g@);
    true
}

fn workspace_error(prefix: &str, path: &str) -> (e: Error)
    ensures
        e@ == SpecError::InvalidWorkspace(prefix@ + path@),
{
    let mut m = String::from_str(prefix);
    m.append(path);
    Error::InvalidWorkspace(m)
}

/// Decides what a build does with one entry of the `static` directory;
/// the caller has looked at the disk for the kind of the entry and for
/// whether its target exists.
pub fn static_entry_action(
    name: &str,
    source: &str,
    target: &str,
    is_symlink: bool,
    is_dir: bool,
    is_file: bool,
    target_exists: bool,
) -> (r: Result<StaticAction, Error>)
    ensures
        static_action_is(r, static_entry_spec(name@, source@, target@, is_symlink, is_dir, is_file, target_exists)),
{
    if is_gitkeep(name) {
        Ok(StaticAction::Skip)
    } else if !safe_relative(name) {
        Err(workspace_error("unsafe static path: ", source))
    } else if is_symlink {
        Err(workspace_error("static symlink is not allowed: ", source))
    } else if is_dir {
        Ok(StaticAction::Descend)
    } else if is_file {
        if target_exists {
            Err(workspace_error("static file collides with generated output: ", target))
        } else {
            Ok(StaticAction::Copy)
        }
    } else {
        Ok(StaticAction::Ignore)
    }
}

} // verus!
