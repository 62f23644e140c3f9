//! Errors of the library.

use vstd::prelude::*;

verus! {

/// Why a byte buffer does not hold the record that was asked of it.
#[derive(Debug, Clone, Copy, PartialEq, Eq, Structural)]
pub enum FormatError {
    /// The buffer ends before the record does.
    Incomplete,
    /// A header does not start with the magic number of its format.
    BadMagic,
    /// A header's name does not have the length that its `namesize` gives.
    NameSizeMismatch,
    /// A numeric field is not the text of a number.
    InvalidNumber,
    /// A name is not a NUL-terminated UTF-8 string.
    InvalidName,
    /// A header's `namesize` is zero where the name needs its terminating NUL.
    InvalidNameSize,
}

/// Errors that reading an archive reports: the bytes end too soon, or a
/// magic number or a name's size is wrong.
pub open spec fn reported(e: FormatError) -> bool {
    e is Incomplete || e is BadMagic || e is NameSizeMismatch
}

/// Errors for input that `ArchiveReader::from_reader` and
/// `from_reader_with_offset` do not take at all: numeric fields that are not
/// text of a number, and names that are not NUL-terminated strings. Those
/// functions require input without them; `ArchiveReader::read_archive`
/// takes any input and returns them.
pub open spec fn aborts(e: FormatError) -> bool {
    !reported(e)
}

/// Errors generated from library
#[derive(Debug)]
pub enum CpioError {
    /// An input or output operation failed (reported by the code that does it).
    StdIo,
    /// The bytes are not a well-formed archive.
    Format(FormatError),
}

} // verus!
