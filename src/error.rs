use vstd::prelude::*;

verus! {

/// The ways in which a resolution, materialization, ingestion or lookup fails.
#[derive(Clone, Copy, Debug, PartialEq, Eq, Structural)]
pub enum ApiError {
    /// An identifier, or a path segment below it, has no known content.
    NotFound,
    /// A resolved path would leave the destination root.
    UnsafePath,
    /// The entry to ingest is neither a regular file nor a directory.
    InvalidEntryKind,
    /// The entry to ingest is a special file (a link, a socket, ...).
    UnsupportedEntryKind,
    /// A node could not be fetched, or its structure is malformed.
    LoaderFailure,
    /// A local filesystem operation failed.
    IoFailure,
    /// A required external service is not configured or not reachable.
    TransportUnavailable,
}

impl ApiError {
    /// A short human-readable description of the error.
    pub fn message(&self) -> (r: &'static str)
        ensures
            *self == ApiError::NotFound ==> r@ == "content not found"@,
            *self == ApiError::UnsafePath ==> r@ == "path escapes the destination root"@,
            *self == ApiError::InvalidEntryKind ==> r@ == "can only add files or directories"@,
            *self == ApiError::UnsupportedEntryKind ==> r@ == "unsupported entry kind"@,
            *self == ApiError::LoaderFailure ==> r@ == "failed to load content"@,
            *self == ApiError::IoFailure ==> r@ == "filesystem operation failed"@,
            *self == ApiError::TransportUnavailable ==> r@ == "transport unavailable"@,
    {
        match self {
            ApiError::NotFound => "content not found",
            ApiError::UnsafePath => "path escapes the destination root",
            ApiError::InvalidEntryKind => "can only add files or directories",
            ApiError::UnsupportedEntryKind => "unsupported entry kind",
            ApiError::LoaderFailure => "failed to load content",
            ApiError::IoFailure => "filesystem operation failed",
            ApiError::TransportUnavailable => "transport unavailable",
        }
    }
}

} // verus!
