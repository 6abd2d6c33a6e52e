//! The main command line's language-server commands as data, and the
//! decision whether an existing index must be brought up to date before a
//! query.
use vstd::prelude::*;

use crate::text::str_eq;

verus! {

/// Commands answered by a language server.
#[derive(Debug)]
pub enum LspCommands {
    /// Hover information at a location.
    Hover { file: String, line: u32, column: u32 },
    /// Completions at a location.
    Complete { file: String, line: u32, column: u32 },
    /// Implementations of the symbol at a location.
    Implementations { file: String, line: u32, column: u32 },
    /// Type definition of the symbol at a location.
    TypeDefinition { file: String, line: u32, column: u32 },
    /// Rename the symbol at a location.
    Rename { file: String, line: u32, column: u32, new_name: String },
    /// Diagnostics of a file.
    Diagnostics { file: String },
    /// Index a project through its language server.
    IndexWithLsp { project: String, output: String },
}

/// An index must be updated when it records a commit and the repository's
/// head is now another one (or none); when it records no commit, when the
/// content-hash scan finds pending changes.
pub open spec fn spec_needs_update(saved_commit: Option<Seq<char>>, current_commit: Option<Seq<char>>, pending_changes: nat) -> bool {
    match saved_commit {
        Some(saved) => current_commit != Some(saved),
        None => pending_changes > 0,
    }
}

/// Whether the index must be updated (see [`spec_needs_update`]).
pub fn needs_update(saved_commit: Option<&str>, current_commit: Option<&str>, pending_changes: usize) -> (r: bool)
    ensures
        r == spec_needs_update(
            match saved_commit {
                Some(s) => Some(s@),
                None => None,
            },
            match current_commit {
                Some(c) => Some(c@),
                None => None,
            },
            pending_changes as nat,
        ),
{
    match saved_commit {
        Some(saved) => match current_commit {
            Some(current) => !str_eq(current, saved),
            None => true,
        },
        None => pending_changes > 0,
    }
}

} // verus!
