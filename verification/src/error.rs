//! The library's error type.
use vstd::prelude::*;

verus! {

/// What can go wrong in the library's own work.
#[derive(Debug)]
pub enum Error {
    /// A failure described by a message.
    Generic(String),
}

pub type Result<T> = std::result::Result<T, Error>;

impl Error {
    /// The message of the error.
    pub fn message(&self) -> (s: String)
        ensures
            match self {
                Error::Generic(m) => s@ == m@,
            },
    {
        match self {
            Error::Generic(m) => m.clone(),
        }
    }
}

} // verus!
