//! What can go wrong with a block file.

use vstd::prelude::*;

verus! {

/// The reasons for which an operation on a block file is given up.
#[derive(Clone, Copy, Debug, PartialEq, Eq, Structural)]
pub enum BlockFileError {
    /// The bytes do not begin with the format signature, or declare a
    /// block size of zero.
    InvalidFormat,
    /// The position lies outside the file: past its logical size, or in
    /// a block for which the table has no entry.
    InvalidPosition,
    /// The position lies in a block that has never been written.
    BlockNotAllocated,
    /// The image ends before the bytes that were asked for.
    UnexpectedEof,
    /// The position cannot be addressed: no physical slot is left, or
    /// the slot lies beyond what this machine can hold.
    FileTooLarge,
    /// The file was opened for reading only.
    ReadOnly,
}

} // verus!
