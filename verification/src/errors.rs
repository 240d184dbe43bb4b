//! The failure kinds of the store.

use vstd::prelude::*;

verus! {

#[verifier::external_type_specification]
#[verifier::external_body]
pub struct ExIoError(std::io::Error);

/// Everything that can go wrong in the store.
#[derive(Debug)]
pub enum Error {
    /// A failure of the backing store, as the allocator reported it.
    IOError(std::io::Error),
    /// A stored layer is structurally inconsistent; the inner value says how.
    DBCorrupt(Box<Error>),
    /// A mutation was attempted on a layer that has been sealed.
    ReadOnly,
    /// The framing of a layer's header or of one of its segments is invalid.
    InvalidLayer,
    /// A read reached outside what is stored.
    OutOfBounds,
    /// Any other failure, described in words.
    Custom(String),
}

impl From<std::io::Error> for Error {
    fn from(value: std::io::Error) -> (r: Self) {
        Error::IOError(value)
    }
}

impl vstd::std_specs::convert::FromSpecImpl<std::io::Error> for Error {
    open spec fn obeys_from_spec() -> bool {
        true
    }

    open spec fn from_spec(value: std::io::Error) -> Error {
        Error::IOError(value)
    }
}

/// The error of a read that runs past the end of what is there. Calls
/// `std::io::Error::from` with `std::io::ErrorKind::UnexpectedEof`; all that
/// is claimed of the result is that it is an `IOError`.
#[verifier::external_body]
pub(crate) fn unexpected_eof() -> (e: Error)
    ensures
        e is IOError,
{
    Error::IOError(std::io::Error::from(std::io::ErrorKind::UnexpectedEof))
}

impl Error {
    /// The error every structural failure of a stored layer is reported as.
    pub open spec fn corrupt() -> Error {
        Error::DBCorrupt(Box::new(Error::InvalidLayer))
    }

    pub fn invalid_layer() -> (e: Error)
        ensures
            e == Error::corrupt(),
    {
        Error::DBCorrupt(Box::new(Error::InvalidLayer))
    }
}

} // verus!
