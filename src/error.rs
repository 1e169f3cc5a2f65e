//! The errors that the library reports.
use vstd::prelude::*;

verus! {

/// What can go wrong while reading or building a database.
#[derive(Clone, Copy, Debug, PartialEq, Eq, Structural)]
pub enum Error {
    /// The bytes break the file format: too short or too long, or an offset
    /// or a length that points past the end.
    BadFile,
    /// A key, a value or the whole file does not fit the 32-bit format.
    TooBig,
}

impl Error {
    /// A short description of the error.
    pub fn message(&self) -> (r: String)
        ensures
            *self == Error::BadFile ==> r@ == "Invalid file format"@,
            *self == Error::TooBig ==> r@ == "File too big"@,
    {
        match self {
            Error::BadFile => String::from_str("Invalid file format"),
            Error::TooBig => String::from_str("File too big"),
        }
    }
}

/// The error for a malformed file.
pub fn err_badfile<T>() -> (r: Result<T, Error>)
    ensures
        r == Err::<T, Error>(Error::BadFile),
{
    Err(Error::BadFile)
}

/// The error for data that does not fit the format.
pub fn err_toobig<T>() -> (r: Result<T, Error>)
    ensures
        r == Err::<T, Error>(Error::TooBig),
{
    Err(Error::TooBig)
}

} // verus!
