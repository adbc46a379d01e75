//! The embedded standard-library package description.
//!
//! Copying the packaged files onto disk is I/O and lives with the caller;
//! the library itself only pins the version string that the on-disk copy is
//! stamped and compared with.

use vstd::prelude::*;

verus! {

/// The standard-library package.
#[derive(Clone, Copy, PartialEq, Eq, Structural, Debug)]
pub struct StdLib;

impl StdLib {
    /// The version number stamped into an installed standard library.
    pub fn version() -> (r: &'static str)
        ensures
            r@ == "0.1.0"@,
    {
        "0.1.0"
    }
}

} // verus!
