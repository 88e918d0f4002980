use vstd::prelude::*;

verus! {

/// The kind of a failed metadata read or directory listing.
#[derive(Clone, Copy, Debug, PartialEq, Eq, Structural)]
pub enum IoKind {
    NotFound,
    PermissionDenied,
    Other,
}

/// Errors of the library.
#[derive(Debug, PartialEq, Eq)]
pub enum Error {
    /// A path could not be read; the kind says why.
    IoError { kind: IoKind },
    /// An aggregated size does not fit in 64 bits.
    SizeOverflow,
    /// The configuration is malformed.
    ConfigFileError { message: String },
}

} // verus!
