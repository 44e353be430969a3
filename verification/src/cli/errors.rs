//! The error type the command cores hand back to the binary.

use vstd::prelude::*;

verus! {

/// A user input was rejected; the payload is the message to show.
#[derive(Debug)]
pub enum ErrorKind {
    InvalidInput(String),
}

impl PartialEq for ErrorKind {
    fn eq(&self, other: &Self) -> (r: bool) {
        match (self, other) {
            (ErrorKind::InvalidInput(a), ErrorKind::InvalidInput(b)) => *a == *b,
        }
    }
}

impl vstd::std_specs::cmp::PartialEqSpecImpl for ErrorKind {
    open spec fn obeys_eq_spec() -> bool {
        true
    }

    open spec fn eq_spec(&self, other: &Self) -> bool {
        match (self, other) {
            (ErrorKind::InvalidInput(a), ErrorKind::InvalidInput(b)) => a@ == b@,
        }
    }
}

} // verus!
