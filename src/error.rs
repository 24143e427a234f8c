use vstd::prelude::*;

verus! {

/// The ways an operation of the object store can fail.
#[derive(Debug, PartialEq, Eq)]
pub enum GitError {
    /// The identifier is malformed or names no stored object.
    InvalidObjectId { obj_id: String },
    /// The abbreviated identifier matches more than one stored object.
    AmbiguousObjectId { obj_id: String },
    /// The stored bytes do not inflate, or the header does not describe the body.
    DecodeError,
    /// A commit body breaks the `tree` / `parent` / `author` / `committer` layout.
    InvalidCommitFormat,
    /// A directory entry is neither a regular file, a directory nor a symbolic link.
    UnsupportedFileType { mode: u32 },
    /// A hash is not forty hexadecimal digits.
    HexConversionError,
}

} // verus!
