//! Tests of the interval index: direct construction, hits and misses.

use iptoasn::{AsnStore, Database, IpAddress};
use iptoasn::ip_text::parse_ip;

fn single_record_db() -> Database {
    let mut db = Database::new();
    let first = parse_ip("8.8.8.0".as_bytes()).unwrap();
    let last = parse_ip("8.8.8.255".as_bytes()).unwrap();
    let ok = db.push_row(first, last, 15169, b"US".to_vec(), b"GOOGLE".to_vec());
    assert!(ok);
    db
}

#[test]
fn test_lookup_within_range() {
    let db = single_record_db();
    let store = AsnStore::new(db);

    let result = store.lookup(parse_ip("8.8.8.8".as_bytes()).unwrap());
    assert!(result.is_some());
    assert_eq!(result.unwrap().number, 15169);
}

#[test]
fn test_lookup_not_found() {
    let db = single_record_db();
    let store = AsnStore::new(db);

    let result = store.lookup(parse_ip("9.9.9.9".as_bytes()).unwrap());
    assert!(result.is_none());
}

#[test]
fn lookup_hits_range_ends() {
    let db = single_record_db();
    let store = AsnStore::new(db);
    assert!(store.lookup(parse_ip("8.8.8.0".as_bytes()).unwrap()).is_some());
    assert!(store.lookup(parse_ip("8.8.8.255".as_bytes()).unwrap()).is_some());
    assert!(store.lookup(parse_ip("8.8.7.255".as_bytes()).unwrap()).is_none());
    assert!(store.lookup(parse_ip("8.8.9.0".as_bytes()).unwrap()).is_none());
}

#[test]
fn lookup_never_crosses_families() {
    // A V6 query never matches a V4 range, and the other way round.
    let mut db = Database::new();
    let ok = db.push_row(
        parse_ip("8.8.8.0".as_bytes()).unwrap(),
        parse_ip("8.8.8.255".as_bytes()).unwrap(),
        15169,
        b"US".to_vec(),
        b"GOOGLE".to_vec(),
    );
    assert!(ok);
    let store = AsnStore::new(db);
    assert!(store.lookup(parse_ip("::8.8.8.8".as_bytes()).unwrap()).is_none());
}

#[test]
fn lookup_among_many_records() {
    let mut db = Database::new();
    let rows: [(&str, &str, u32); 5] = [
        ("10.0.0.0", "10.0.0.255", 1),
        ("10.0.2.0", "10.0.2.255", 2),
        ("10.0.4.0", "10.0.4.255", 3),
        ("2001:db8::", "2001:db8::ffff", 4),
        ("10.0.6.0", "10.0.6.255", 5),
    ];
    for (a, b, n) in rows {
        assert!(db.push_row(
            parse_ip(a.as_bytes()).unwrap(),
            parse_ip(b.as_bytes()).unwrap(),
            n,
            b"ZZ".to_vec(),
            b"TEST".to_vec(),
        ));
    }
    let store = AsnStore::new(db);
    assert_eq!(store.len(), 5);
    assert!(!store.is_empty());
    assert_eq!(store.lookup(parse_ip("10.0.2.7".as_bytes()).unwrap()).unwrap().number, 2);
    assert_eq!(store.lookup(parse_ip("10.0.6.255".as_bytes()).unwrap()).unwrap().number, 5);
    assert_eq!(store.lookup(parse_ip("2001:db8::17".as_bytes()).unwrap()).unwrap().number, 4);
    assert!(store.lookup(parse_ip("10.0.3.1".as_bytes()).unwrap()).is_none());
}

#[test]
fn rejected_rows_leave_database_unchanged() {
    let mut db = Database::new();
    // Inverted range.
    assert!(!db.push_row(
        parse_ip("9.9.9.9".as_bytes()).unwrap(),
        parse_ip("1.1.1.1".as_bytes()).unwrap(),
        7,
        b"AA".to_vec(),
        b"X".to_vec(),
    ));
    // Mixed families.
    assert!(!db.push_row(
        parse_ip("1.1.1.1".as_bytes()).unwrap(),
        parse_ip("::ffff".as_bytes()).unwrap(),
        7,
        b"AA".to_vec(),
        b"X".to_vec(),
    ));
    assert!(db.is_empty());
    assert_eq!(db.len(), 0);
}
