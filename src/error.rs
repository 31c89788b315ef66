//! The library's error type.
use vstd::prelude::*;

verus! {

/// `std::io::Error`, carried through unchanged.
#[verifier::external_type_specification]
#[verifier::external_body]
pub struct ExIoError(std::io::Error);

/// What can go wrong when a bucket is built or read.
#[derive(Debug)]
pub enum Error {
    /// An I/O error, raised by the file system or by the compression stream.
    IoError(std::io::Error),
    /// The bytes do not form the record that was expected at that place.
    DecodeError,
    /// The file does not start with the bucket magic number.
    BadMagic,
    /// The file is a bucket of another format version.
    BadVersion,
    /// A date could not be understood or placed on the calendar.
    DateParseError,
}

pub type Result<T> = std::result::Result<T, Error>;

} // verus!
