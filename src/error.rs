//! The ways in which reading or decoding an object fails.

use vstd::prelude::*;

verus! {

/// A failure of the object store, each kind distinct and inspectable.
#[derive(Clone, Copy, Debug, PartialEq, Eq, Structural)]
pub enum ObjectError {
    /// No object is stored under the identifier.
    NotFound,
    /// The header lacks its terminator or separator, has a malformed length,
    /// or is not valid UTF-8.
    CorruptHeader,
    /// The header names a type tag outside `blob` and `tree`.
    UnsupportedType,
    /// Fewer bytes are available than the header or an entry needs.
    Truncated,
    /// More bytes follow the declared length.
    TrailingData,
    /// A directory entry has a mode outside the known set.
    InvalidMode,
    /// The file system or the compression stream failed.
    Io,
}

impl ObjectError {
    /// A short description of the failure.
    pub fn message(&self) -> &'static str {
        match self {
            ObjectError::NotFound => "object not found",
            ObjectError::CorruptHeader => "corrupt object header",
            ObjectError::UnsupportedType => "unsupported object type",
            ObjectError::Truncated => "truncated object",
            ObjectError::TrailingData => "object has trailing bytes",
            ObjectError::InvalidMode => "tree entry has an invalid mode",
            ObjectError::Io => "i/o or compression failure",
        }
    }
}

} // verus!
