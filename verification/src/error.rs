//! The closed set of errors the engine reports.

use vstd::prelude::*;

verus! {

/// Everything that can go wrong in the engine. Transport and filesystem
/// details are carried as plain text.
#[derive(Debug)]
pub enum AppError {
    /// Transport failure, unsupported URL scheme, or an HTTP status that
    /// is neither success nor Not Modified.
    HttpRequest(String),
    /// Response body read or metadata serialization failure.
    HttpParse(String),
    /// Decompression failure, or a snapshot that is not UTF-8 text.
    DatabaseParse(String),
    /// A filesystem failure around the cache.
    Io(String),
    /// A lookup argument that does not parse as an IP address.
    InvalidIp(String),
    /// A cache fallback was attempted but no cached body exists.
    DatabaseNotLoaded,
}

} // verus!
