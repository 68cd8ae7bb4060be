//! The error type shared by the whole backend.

use vstd::prelude::*;

verus! {

/// A backend failure, carrying a human-readable message.
#[derive(Debug, Clone)]
pub struct BackendError(pub String);

impl BackendError {
    /// The message carried by this error.
    pub fn message(&self) -> (r: &String)
        ensures
            r@ == self.0@,
    {
        &self.0
    }
}

} // verus!
