use vstd::prelude::*;

verus! {

#[verifier::external_type_specification]
#[verifier::external_body]
pub struct ExIoError(std::io::Error);

/// Errors that can occur when using Memo128.
#[derive(Debug)]
pub enum Memo128Error {
    /// A standard IO error that occurred while reading dictionary files.
    IoError(std::io::Error),
    /// The hex input has the wrong length or holds a non-hex character.
    InvalidHexInput(String),
    /// A dictionary has the wrong size or a repeated entry.
    InvalidDictionary(String),
    /// A sentence could not be split into five dictionary phrases,
    /// or the number of sentences is not three.
    ParsingError(String),
    /// The checksum carried by the sentences does not match the data.
    ChecksumError,
}

} // verus!
