//! An input or output failure, carried to where it is reported.
use vstd::prelude::*;

verus! {

/// `std::io::Error`, carried as it is: nothing is read from inside it here.
#[verifier::external_type_specification]
#[verifier::external_body]
pub struct ExIoError(std::io::Error);

/// A failed input or output operation.
pub struct IOError {
    inner: std::io::Error,
}

impl IOError {
    /// The error that this failure carries.
    pub closed spec fn error(&self) -> std::io::Error {
        self.inner
    }

    /// The failure that carries `error`.
    pub fn new(error: std::io::Error) -> (r: IOError)
        ensures
            r.error() == error,
    {
        IOError { inner: error }
    }

    /// The error that this failure carries.
    pub fn inner(&self) -> (r: &std::io::Error)
        ensures
            *r == self.error(),
    {
        &self.inner
    }
}

impl From<std::io::Error> for IOError {
    fn from(error: std::io::Error) -> (r: IOError)
        ensures
            r.error() == error,
    {
        Self::new(error)
    }
}

impl vstd::std_specs::convert::FromSpecImpl<std::io::Error> for IOError {
    open spec fn obeys_from_spec() -> bool {
        true
    }

    closed spec fn from_spec(v: std::io::Error) -> IOError {
        IOError { inner: v }
    }
}

} // verus!
