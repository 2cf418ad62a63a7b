//! End-to-end tests of the engine facade: load from gzip bytes, look
//! addresses up, observe stats, fall back to the cache.

use std::io::Write;

use iptoasn::{AppError, Database, FetchOutcome, IpToAsnDb};

fn gzip(text: &str) -> Vec<u8> {
    let mut enc = flate2::write::GzEncoder::new(Vec::new(), flate2::Compression::default());
    enc.write_all(text.as_bytes()).unwrap();
    enc.finish().unwrap()
}

const SINGLE: &str = "8.8.8.0\t8.8.8.255\t15169\tUS\tGOOGLE\n";

#[test]
fn test_lookup_flow() {
    let db = IpToAsnDb::new(
        "file:///dev/null".to_string(),
        "/tmp/test_cache".to_string(),
    ).unwrap();

    let stats = db.stats();
    assert_eq!(stats.record_count, 0);
}

#[test]
fn fresh_engine_has_no_update_time() {
    let db = IpToAsnDb::new("file:///x".to_string(), "/tmp/c".to_string()).unwrap();
    let stats = db.stats();
    assert_eq!(stats.record_count, 0);
    assert!(stats.last_update.is_none());
    // Lookups against the empty store succeed but announce nothing.
    let info = db.lookup("1.2.3.4").unwrap();
    assert!(!info.announced);
}

#[test]
fn covering_range_hit() {
    let mut db = IpToAsnDb::new("file:///x".to_string(), "/tmp/c".to_string()).unwrap();
    db.load_bytes(gzip(SINGLE)).unwrap();
    let stats = db.stats();
    assert_eq!(stats.record_count, 1);
    assert!(stats.last_update.is_some());

    let info = db.lookup("8.8.8.8").unwrap();
    assert_eq!(info.ip, "8.8.8.8");
    assert!(info.announced);
    assert_eq!(info.first_ip, Some("8.8.8.0".to_string()));
    assert_eq!(info.last_ip, Some("8.8.8.255".to_string()));
    assert_eq!(info.as_number, Some(15169));
    assert_eq!(info.as_country_code, Some("US".to_string()));
    assert_eq!(info.as_description, Some("GOOGLE".to_string()));
}

#[test]
fn miss_outside_any_range() {
    let mut db = IpToAsnDb::new("file:///x".to_string(), "/tmp/c".to_string()).unwrap();
    db.load_bytes(gzip(SINGLE)).unwrap();
    let info = db.lookup("9.9.9.9").unwrap();
    assert_eq!(info.ip, "9.9.9.9");
    assert!(!info.announced);
    assert!(info.first_ip.is_none());
    assert!(info.last_ip.is_none());
    assert!(info.as_number.is_none());
    assert!(info.as_country_code.is_none());
    assert!(info.as_description.is_none());
}

#[test]
fn lookup_is_repeatable_and_changes_nothing() {
    let mut db = IpToAsnDb::new("file:///x".to_string(), "/tmp/c".to_string()).unwrap();
    db.load_bytes(gzip(SINGLE)).unwrap();
    let before = db.stats();
    let a = db.lookup("8.8.8.8").unwrap();
    let b = db.lookup("8.8.8.8").unwrap();
    assert_eq!(a.announced, b.announced);
    assert_eq!(a.first_ip, b.first_ip);
    assert_eq!(a.last_ip, b.last_ip);
    assert_eq!(a.as_number, b.as_number);
    assert_eq!(a.as_country_code, b.as_country_code);
    assert_eq!(a.as_description, b.as_description);
    let after = db.stats();
    assert_eq!(after.record_count, before.record_count);
    assert_eq!(after.last_update, before.last_update);
}

#[test]
fn invalid_input_is_an_error() {
    let db = IpToAsnDb::new("file:///x".to_string(), "/tmp/c".to_string()).unwrap();
    let r = db.lookup("not-an-ip");
    assert!(matches!(r, Err(AppError::InvalidIp(_))));
}

#[test]
fn bad_gzip_is_a_parse_error_and_keeps_the_store() {
    let mut db = IpToAsnDb::new("file:///x".to_string(), "/tmp/c".to_string()).unwrap();
    db.load_bytes(gzip(SINGLE)).unwrap();
    let before = db.stats();

    let r = db.load_bytes(vec![1, 2, 3, 4]);
    assert!(matches!(r, Err(AppError::DatabaseParse(_))));

    let after = db.stats();
    assert_eq!(after.record_count, before.record_count);
    assert_eq!(after.last_update, before.last_update);
    assert!(db.lookup("8.8.8.8").unwrap().announced);
}

#[test]
fn malformed_rows_are_skipped_one_by_one() {
    let text = "8.8.8.0\t8.8.8.255\t15169\tUS\tGOOGLE\n\n   \nonly-two\tfields\nbad-ip\t1.1.1.1\t1\n1.1.1.1\tbad-ip\t1\n1.1.1.0\t1.1.1.255\tnot-a-number\n9.9.9.9\t1.1.1.1\t2\tAA\tinverted\n2.2.2.0\t2.2.2.255\t64500\n";
    let db = Database::parse(gzip(text)).unwrap();
    assert_eq!(db.len(), 2);
}

#[test]
fn load_from_source_propagates_the_resolved_error() {
    let mut db = IpToAsnDb::new("file:///x".to_string(), "/tmp/c".to_string()).unwrap();
    let r = db.load_from_source(Err(AppError::DatabaseNotLoaded));
    assert!(matches!(r, Err(AppError::DatabaseNotLoaded)));
    assert_eq!(db.stats().record_count, 0);
}

#[test]
fn network_failure_falls_back_to_cache() {
    // A failed fetch with a primed cache still loads (scenario: the
    // facade degrades to the cached body).
    let mut db = IpToAsnDb::new("file:///x".to_string(), "/tmp/c".to_string()).unwrap();
    let outcome = FetchOutcome::Failed(AppError::HttpRequest("boom".to_string()));
    let r = db.force_load(outcome, Ok(gzip(SINGLE)));
    assert_eq!(r.unwrap(), false);
    assert_eq!(db.stats().record_count, 1);
    assert!(db.lookup("8.8.8.8").unwrap().announced);
}

#[test]
fn force_load_reports_fresh_data_truthfully() {
    let mut db = IpToAsnDb::new("file:///x".to_string(), "/tmp/c".to_string()).unwrap();
    let r = db.force_load(FetchOutcome::Data(gzip(SINGLE)), Err(AppError::DatabaseNotLoaded));
    assert_eq!(r.unwrap(), true);

    let r2 = db.force_load(FetchOutcome::Unchanged, Ok(gzip(SINGLE)));
    assert_eq!(r2.unwrap(), false);

    let r3 = db.force_load(FetchOutcome::Unchanged, Err(AppError::DatabaseNotLoaded));
    assert!(matches!(r3, Err(AppError::DatabaseNotLoaded)));
}

#[test]
fn conditional_refresh_leaves_everything_untouched() {
    // Prime the store, then let the origin answer Not Modified: the
    // tick swaps nothing and the update time stays.
    let mut db = IpToAsnDb::new("file:///x".to_string(), "/tmp/c".to_string()).unwrap();
    db.load_bytes(gzip(SINGLE)).unwrap();
    let before = db.stats();

    let r = db.refresh_tick(FetchOutcome::Unchanged);
    assert_eq!(r.unwrap(), false);
    let after = db.stats();
    assert_eq!(after.record_count, before.record_count);
    assert_eq!(after.last_update, before.last_update);

    let r2 = db.refresh_tick(FetchOutcome::Failed(AppError::HttpRequest("down".to_string())));
    assert_eq!(r2.unwrap(), false);
    assert!(db.lookup("8.8.8.8").unwrap().announced);

    let r3 = db.refresh_tick(FetchOutcome::Data(gzip("1.0.0.0\t1.0.0.255\t1\tAA\tA\n")));
    assert_eq!(r3.unwrap(), true);
    assert_eq!(db.stats().record_count, 1);
    assert!(!db.lookup("8.8.8.8").unwrap().announced);
    assert!(db.lookup("1.0.0.7").unwrap().announced);
}

#[test]
fn refresh_hot_swap_changes_the_answer() {
    // The same range remapped to a new AS: after the swap every lookup
    // sees the new record, and a failed swap would have kept the old.
    let mut db = IpToAsnDb::new("file:///x".to_string(), "/tmp/c".to_string()).unwrap();
    db.load_bytes(gzip("1.0.0.0\t1.0.0.255\t1\tAA\tfirst\n")).unwrap();
    assert_eq!(db.lookup("1.0.0.5").unwrap().as_number, Some(1));
    db.load_bytes(gzip("1.0.0.0\t1.0.0.255\t2\tBB\tsecond\n")).unwrap();
    let info = db.lookup("1.0.0.5").unwrap();
    assert_eq!(info.as_number, Some(2));
    assert_eq!(info.as_country_code, Some("BB".to_string()));
    assert_eq!(info.as_description, Some("second".to_string()));
}
