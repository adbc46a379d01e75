//! The error type carried through the front-end visitor walk.

use vstd::prelude::*;

verus! {

/// A visitor error: a plain message.
#[derive(Debug)]
pub struct PyVisitorError(pub String);

impl PyVisitorError {
    /// The error message.
    pub fn message(&self) -> (r: &str)
        ensures
            r@ == self.0@,
    {
        self.0.as_str()
    }
}

impl From<String> for PyVisitorError {
    fn from(f: String) -> (r: Self) {
        PyVisitorError(f)
    }
}

impl vstd::std_specs::convert::FromSpecImpl<String> for PyVisitorError {
    open spec fn obeys_from_spec() -> bool {
        true
    }

    open spec fn from_spec(f: String) -> Self {
        PyVisitorError(f)
    }
}

} // verus!
