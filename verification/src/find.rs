//! Finding the files that a scoper is meant for.

use vstd::prelude::*;

verus! {

/// What is meant for the files of certain extensions.
pub trait Find {
    /// The extensions of the files, each without its leading dot.
    fn extensions(&self) -> &'static [&'static str];
}

} // verus!
