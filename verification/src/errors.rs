//! The error taxonomy shared by every decoder in the crate.

use vstd::prelude::*;

verus! {

/// The transport error type, kept opaque: the crate never inspects it, it
/// only carries it back to the caller inside [`Error::IoError`].
#[verifier::external_type_specification]
#[verifier::external_body]
pub struct ExIoError(std::io::Error);

/// Everything that can go wrong while talking to the remote process.
#[derive(Debug)]
pub enum Error {
    /// The response text did not have the expected shape.
    ParseFailure,
    /// The remote process reported that the referenced ACL id does not exist.
    UnknownId,
    /// The remote process reported that required parameters were omitted.
    MissingParameters,
    /// The underlying transport failed; the transport error is carried
    /// through unchanged.
    IoError(std::io::Error),
}

impl From<std::io::Error> for Error {
    fn from(err: std::io::Error) -> (r: Self) {
        Error::IoError(err)
    }
}

impl vstd::std_specs::convert::FromSpecImpl<std::io::Error> for Error {
    open spec fn obeys_from_spec() -> bool {
        true
    }

    open spec fn from_spec(err: std::io::Error) -> Self {
        Error::IoError(err)
    }
}

} // verus!
