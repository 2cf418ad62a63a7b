//! Decision logic of the snapshot fetcher: URL scheme dispatch, HTTP
//! status handling, revalidation metadata updates, and the fallback
//! from a failed or unchanged fetch to the cached body. The I/O that
//! carries these decisions out lives outside the library.

use vstd::prelude::*;
use vstd::string::StringSliceAdditionalSpecFns;

use crate::error::AppError;

verus! {

/// Revalidation tokens as last returned by the remote origin.
#[derive(Debug, Clone)]
pub struct CacheMetadata {
    pub etag: Option<String>,
    pub last_modified: Option<String>,
}

impl CacheMetadata {
    /// Fresh state: no tokens yet.
    pub fn new() -> (m: CacheMetadata)
        ensures
            m.etag is None,
            m.last_modified is None,
    {
        CacheMetadata { etag: None, last_modified: None }
    }
}

/// How a snapshot source address is reached.
#[derive(Debug, Clone, Copy, PartialEq, Eq, Structural)]
pub enum UrlScheme {
    LocalFile,
    Http,
    Https,
    Unsupported,
}

/// What one fetch attempt produced.
#[derive(Debug)]
pub enum FetchOutcome {
    /// A full body was downloaded.
    Data(Vec<u8>),
    /// The origin answered Not Modified.
    Unchanged,
    /// Transport or filesystem failure.
    Failed(AppError),
}

/// `p` is a prefix of `s`.
pub open spec fn has_prefix(s: Seq<u8>, p: Seq<u8>) -> bool {
    s.len() >= p.len() && s.take(p.len() as int) == p
}

/// The bytes of `file://`.
pub open spec fn file_scheme_bytes() -> Seq<u8> {
    seq![0x66u8, 0x69u8, 0x6cu8, 0x65u8, 0x3au8, 0x2fu8, 0x2fu8]
}

/// The bytes of `http://`.
pub open spec fn http_scheme_bytes() -> Seq<u8> {
    seq![0x68u8, 0x74u8, 0x74u8, 0x70u8, 0x3au8, 0x2fu8, 0x2fu8]
}

/// The bytes of `https://`.
pub open spec fn https_scheme_bytes() -> Seq<u8> {
    seq![0x68u8, 0x74u8, 0x74u8, 0x70u8, 0x73u8, 0x3au8, 0x2fu8, 0x2fu8]
}

/// The scheme a URL's UTF-8 bytes begin with.
pub open spec fn spec_scheme_of(s: Seq<u8>) -> UrlScheme {
    if has_prefix(s, file_scheme_bytes()) {
        UrlScheme::LocalFile
    } else if has_prefix(s, http_scheme_bytes()) {
        UrlScheme::Http
    } else if has_prefix(s, https_scheme_bytes()) {
        UrlScheme::Https
    } else {
        UrlScheme::Unsupported
    }
}

/// Whether the bytes start with the given scheme prefix.
fn bytes_have_prefix(s: &[u8], p0: u8, p1: u8, p2: u8, p3: u8, p4: u8, p5: u8, p6: u8) -> (r: bool)
    ensures
        r == has_prefix(s@, seq![p0, p1, p2, p3, p4, p5, p6]),
{
    if s.len() < 7 {
        return false;
    }
    let r = s[0] == p0 && s[1] == p1 && s[2] == p2 && s[3] == p3 && s[4] == p4 && s[5] == p5 && s[6]
        == p6;
    proof {
        if r {
            assert(s@.take(7) =~= seq![p0, p1, p2, p3, p4, p5, p6]);
        } else {
            assert(s@.take(7) != seq![p0, p1, p2, p3, p4, p5, p6]);
        }
    }
    r
}

/// Whether the bytes start with the eight-byte `https://` prefix.
fn bytes_have_https_prefix(s: &[u8]) -> (r: bool)
    ensures
        r == has_prefix(s@, https_scheme_bytes()),
{
    if s.len() < 8 {
        return false;
    }
    let r = s[0] == 0x68 && s[1] == 0x74 && s[2] == 0x74 && s[3] == 0x70 && s[4] == 0x73 && s[5]
        == 0x3a && s[6] == 0x2f && s[7] == 0x2f;
    proof {
        if r {
            assert(s@.take(8) =~= https_scheme_bytes());
        } else {
            assert(s@.take(8) != https_scheme_bytes());
        }
    }
    r
}

/// Classify a source URL by its scheme. Anything but `file://`,
/// `http://` and `https://` is unsupported and makes a fetch fail.
pub fn classify_url(url: &str) -> (r: UrlScheme)
    ensures
        r == spec_scheme_of(url.spec_bytes()),
{
    let bytes = url.as_bytes();
    if bytes_have_prefix(bytes, 0x66, 0x69, 0x6c, 0x65, 0x3a, 0x2f, 0x2f) {
        UrlScheme::LocalFile
    } else if bytes_have_prefix(bytes, 0x68, 0x74, 0x74, 0x70, 0x3a, 0x2f, 0x2f) {
        UrlScheme::Http
    } else if bytes_have_https_prefix(bytes) {
        UrlScheme::Https
    } else {
        UrlScheme::Unsupported
    }
}

/// How to act on an HTTP status answering a conditional GET.
#[derive(Debug, Clone, Copy, PartialEq, Eq, Structural)]
pub enum StatusAction {
    /// 304: reuse the cache, touch nothing.
    NotModified,
    /// Success: adopt the body and update the metadata.
    Adopt,
    /// Anything else is an error.
    Failure,
}

/// Decide on a response status: 304 means unchanged, any success
/// adopts the body, everything else fails.
pub fn classify_status(status: u16) -> (r: StatusAction)
    ensures
        status == 304 ==> r == StatusAction::NotModified,
        200 <= status < 300 ==> r == StatusAction::Adopt,
        (status != 304 && !(200 <= status < 300)) ==> r == StatusAction::Failure,
{
    if status == 304 {
        StatusAction::NotModified
    } else if 200 <= status && status < 300 {
        StatusAction::Adopt
    } else {
        StatusAction::Failure
    }
}

/// Fold the revalidation headers of a successful response into the
/// stored metadata: a header present replaces the stored token, a
/// header absent keeps it.
pub fn updated_metadata(
    previous: CacheMetadata,
    etag: Option<String>,
    last_modified: Option<String>,
) -> (m: CacheMetadata)
    ensures
        m.etag == (if etag is Some {
            etag
        } else {
            previous.etag
        }),
        m.last_modified == (if last_modified is Some {
            last_modified
        } else {
            previous.last_modified
        }),
{
    let new_etag = match etag {
        Option::Some(e) => Some(e),
        Option::None => previous.etag,
    };
    let new_lm = match last_modified {
        Option::Some(l) => Some(l),
        Option::None => previous.last_modified,
    };
    CacheMetadata { etag: new_etag, last_modified: new_lm }
}

/// The fallback protocol of a load: fresh data is used as is; an
/// unchanged answer or a failed fetch falls back to the cached body,
/// whose own error propagates.
pub fn resolve_fetch(outcome: FetchOutcome, cache: Result<Vec<u8>, AppError>) -> (r: Result<
    Vec<u8>,
    AppError,
>)
    ensures
        match outcome {
            FetchOutcome::Data(d) => r matches Ok(v) && v == d,
            FetchOutcome::Unchanged => r == cache,
            FetchOutcome::Failed(_) => r == cache,
        },
{
    match outcome {
        FetchOutcome::Data(d) => Ok(d),
        FetchOutcome::Unchanged => cache,
        FetchOutcome::Failed(_) => cache,
    }
}

} // verus!
