//! The library's error type.

use vstd::prelude::*;

verus! {

/// Why an operation failed.
#[derive(Debug)]
pub enum AppError {
    /// A network operation failed; the text says how.
    Network(String),
}

impl AppError {
    /// The failure in words.
    pub open spec fn text(self) -> Seq<char> {
        match self {
            AppError::Network(s) => s@,
        }
    }

    /// The failure in words.
    pub fn message(&self) -> (r: &String)
        ensures
            r@ == self.text(),
    {
        match self {
            AppError::Network(s) => s,
        }
    }
}

} // verus!
