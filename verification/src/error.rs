//! The errors of the index.

use vstd::prelude::*;

verus! {

/// Everything that can go wrong inside the index.
#[derive(Debug)]
pub enum Error {
    /// The requested key is not stored in the tree.
    KeyNotFound,
    /// The key to insert is already stored in the tree.
    KeyAlreadyExists,
    /// A state that a consistent index never reaches.
    UnexpectedError,
    /// A key takes more than `KEY_SIZE` bytes.
    KeyOverflowError,
    /// A value takes more than `VALUE_SIZE` bytes.
    ValueOverflowError,
    /// Stored bytes make no value: a number that is wider than a machine
    /// word, a type byte that names no kind of node, a count that announces
    /// more entries than a page holds. The text says which.
    TryFromSliceError(&'static str),
    /// A stored key or value is not valid UTF-8.
    UTF8Error,
}

/// What a `TryFromSliceError` says where a number read from eight bytes is
/// wider than a machine word.
pub const TOO_WIDE: &'static str = "Unexpected Error: value is wider than a machine word.";

/// What a `TryFromSliceError` says where more than eight bytes were handed in
/// for a number.
pub const TOO_LONG: &'static str =
    "Unexpected Error: Array recieved is larger than the maximum allowed size of: 4096B.";

/// What a `TryFromSliceError` says where the type byte of a page names no
/// kind of node.
pub const UNKNOWN_TYPE: &'static str = "Unexpected Error: the type byte names no kind of node.";

/// What a `TryFromSliceError` says where the entries that a page's count
/// field announces do not end within the page.
pub const COUNT_TOO_LARGE: &'static str =
    "Unexpected Error: the count announces more entries than a page holds.";

/// The error for a number that is wider than a machine word.
pub open spec fn too_wide() -> Error {
    Error::TryFromSliceError(TOO_WIDE)
}

/// The error for a number spelled with more than eight bytes.
pub open spec fn too_long() -> Error {
    Error::TryFromSliceError(TOO_LONG)
}

/// The error for a page whose type byte names no kind of node.
pub open spec fn unknown_type() -> Error {
    Error::TryFromSliceError(UNKNOWN_TYPE)
}

/// The error for a page whose count announces more entries than it holds.
pub open spec fn count_too_large() -> Error {
    Error::TryFromSliceError(COUNT_TOO_LARGE)
}

} // verus!
