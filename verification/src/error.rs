//! The ways in which an operation of the store can fail.

use vstd::prelude::*;

verus! {

/// `std::io::Error`, carried through as an opaque value.
#[verifier::external_type_specification]
#[verifier::external_body]
pub struct ExIoError(std::io::Error);

/// Why an operation failed.
#[derive(Debug)]
pub enum Error {
    /// Kept for callers; no operation of the store reports it.
    NotFound,
    /// Writing the snapshot failed, for the reason inside.
    FileError(std::io::Error),
    /// A table of that name is already registered.
    TableAlreadyExists,
    /// A named column is not in the table's schema.
    InvalidColumn,
    /// No table of that name is registered.
    InvalidTable,
    /// The key's text is no key of this index.
    InvalidIndex,
    /// Kept for callers; no operation of the store reports it.
    Unknown,
}

impl Error {
    /// Turns the outcome of writing a snapshot into the store's own result:
    /// success stays success, and a failure is wrapped in `FileError`.
    pub fn from_write(outcome: Result<(), std::io::Error>) -> (r: Result<(), Error>)
        ensures
            r == (match outcome {
                Ok(()) => Ok::<(), Error>(()),
                Err(cause) => Err::<(), Error>(Error::FileError(cause)),
            }),
    {
        match outcome {
            Ok(()) => Ok(()),
            Err(cause) => Err(Error::FileError(cause)),
        }
    }
}

} // verus!
