//! The failures that the arithmetic and the engine report.

use vstd::prelude::*;
use vstd::std_specs::convert::FromSpecImpl;

verus! {

/// `std::io::Error`, carried through unread.
#[verifier::external_type_specification]
#[verifier::external_body]
pub struct ExIoError(std::io::Error);

#[derive(Debug)]
pub enum Error {
    /// A narrowing conversion would have dropped a nonzero coefficient,
    /// or an integer did not fit its target width.
    OverflowError(Option<std::num::TryFromIntError>),
    /// The polynomial has no inverse for the given modulus.
    NonInvertibleError,
    /// Reading or writing failed outside the library.
    IOError(std::io::Error),
    /// A path or argument was not valid text.
    EncodingError,
    /// An insertion offset lies beyond the end of the data.
    OutOfBoundsError,
}

pub type CRCResult<T> = Result<T, Error>;

impl From<std::num::TryFromIntError> for Error {
    fn from(err: std::num::TryFromIntError) -> (res: Self) {
        Self::OverflowError(Some(err))
    }
}

impl FromSpecImpl<std::num::TryFromIntError> for Error {
    open spec fn obeys_from_spec() -> bool {
        true
    }

    open spec fn from_spec(err: std::num::TryFromIntError) -> Self {
        Error::OverflowError(Some(err))
    }
}

impl From<std::io::Error> for Error {
    fn from(err: std::io::Error) -> (res: Self) {
        Self::IOError(err)
    }
}

impl FromSpecImpl<std::io::Error> for Error {
    open spec fn obeys_from_spec() -> bool {
        true
    }

    open spec fn from_spec(err: std::io::Error) -> Self {
        Error::IOError(err)
    }
}

} // verus!
