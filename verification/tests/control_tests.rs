//! Tests of the fetcher decision logic and the scheduler state
//! machine.

use iptoasn::{
    classify_status, classify_url, resolve_fetch, updated_metadata, AppError, CacheMetadata,
    FetchOutcome, StatusAction, UpdaterControl, UpdaterError, UrlScheme,
};

#[test]
fn url_schemes_classify_by_prefix() {
    assert_eq!(classify_url("file:///tmp/db.tsv.gz"), UrlScheme::LocalFile);
    assert_eq!(classify_url("http://example.org/db"), UrlScheme::Http);
    assert_eq!(classify_url("https://example.org/db"), UrlScheme::Https);
    assert_eq!(classify_url("ftp://example.org/db"), UrlScheme::Unsupported);
    assert_eq!(classify_url("example.org"), UrlScheme::Unsupported);
    assert_eq!(classify_url(""), UrlScheme::Unsupported);
}

#[test]
fn status_304_reuses_the_cache() {
    assert_eq!(classify_status(304), StatusAction::NotModified);
    assert_eq!(classify_status(200), StatusAction::Adopt);
    assert_eq!(classify_status(206), StatusAction::Adopt);
    assert_eq!(classify_status(299), StatusAction::Adopt);
    assert_eq!(classify_status(301), StatusAction::Failure);
    assert_eq!(classify_status(404), StatusAction::Failure);
    assert_eq!(classify_status(500), StatusAction::Failure);
    assert_eq!(classify_status(100), StatusAction::Failure);
}

#[test]
fn response_headers_replace_only_what_they_carry() {
    let old = CacheMetadata {
        etag: Some("\"v1\"".to_string()),
        last_modified: Some("Mon".to_string()),
    };
    let m = updated_metadata(old, Some("\"v2\"".to_string()), None);
    assert_eq!(m.etag, Some("\"v2\"".to_string()));
    assert_eq!(m.last_modified, Some("Mon".to_string()));

    let fresh = updated_metadata(CacheMetadata::new(), None, None);
    assert!(fresh.etag.is_none());
    assert!(fresh.last_modified.is_none());
}

#[test]
fn fetch_resolution_prefers_fresh_data() {
    let r = resolve_fetch(FetchOutcome::Data(vec![1, 2]), Err(AppError::DatabaseNotLoaded));
    assert_eq!(r.unwrap(), vec![1, 2]);

    let r = resolve_fetch(FetchOutcome::Unchanged, Ok(vec![3]));
    assert_eq!(r.unwrap(), vec![3]);

    let r = resolve_fetch(
        FetchOutcome::Failed(AppError::HttpRequest("x".to_string())),
        Ok(vec![4]),
    );
    assert_eq!(r.unwrap(), vec![4]);

    let r = resolve_fetch(FetchOutcome::Unchanged, Err(AppError::DatabaseNotLoaded));
    assert!(matches!(r, Err(AppError::DatabaseNotLoaded)));
}

#[test]
fn updater_runs_only_between_start_and_stop() {
    let mut c = UpdaterControl::new();
    assert!(!c.running);

    assert_eq!(c.stop(), Err(UpdaterError::NotRunning));

    assert_eq!(c.start(5), Ok(300));
    assert!(c.running);
    assert_eq!(c.start(5), Err(UpdaterError::AlreadyRunning));

    assert_eq!(c.stop(), Ok(()));
    assert!(!c.running);
}

#[test]
fn updater_rejects_bad_intervals() {
    let mut c = UpdaterControl::new();
    assert_eq!(c.start(0), Err(UpdaterError::InvalidInterval));
    assert_eq!(c.start(-3), Err(UpdaterError::InvalidInterval));
    assert!(!c.running);
    assert_eq!(c.start(i64::MAX), Err(UpdaterError::InvalidInterval));
    assert!(!c.running);
    assert_eq!(c.start(1), Ok(60));
}
