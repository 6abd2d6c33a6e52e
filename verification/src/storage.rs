//! What the index database records about its own format.
use vstd::prelude::*;

verus! {

/// The format of a stored index.
#[derive(Clone, Copy, Debug, PartialEq, Eq, Structural)]
pub enum IndexFormat {
    Lsif,
    Scip,
}

} // verus!
