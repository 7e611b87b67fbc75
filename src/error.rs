use vstd::prelude::*;

verus! {

/// Errors that callers can recover from.
#[derive(Debug)]
pub enum Error {
    /// A parameter given to one of the descriptor operations is invalid.
    InvalidParameter(String),
}

impl Error {
    /// The message carried by this error.
    pub fn message(&self) -> (r: &String)
        ensures
            match self {
                Error::InvalidParameter(m) => r@ == m@,
            },
    {
        match self {
            Error::InvalidParameter(m) => m,
        }
    }
}

} // verus!
