//! The ways in which the library's operations fail.

use vstd::prelude::*;

verus! {

/// `std::io::Error`, of which nothing is known here but that it is carried
/// along.
#[verifier::external_type_specification]
#[verifier::external_body]
pub struct ExIoError(std::io::Error);

/// Why an operation failed. A failure is final: nothing is retried, and
/// nothing partial is handed out.
#[derive(Debug)]
pub enum Error {
    /// Reading or writing failed; a stored database that does not
    /// decompress fails in this way.
    Io(std::io::Error),
    /// A path does not lie below the root it was to be made relative to.
    StripPrefix,
    /// The content of a stored database does not fit its checksum.
    ChecksumMismatch,
    /// A stored database has no line break between checksum and content.
    ParseError,
}

} // verus!
