//! Tests of the parser: ordering, determinism, interning, and the IP
//! text reader and writer it builds on.

use std::io::Write;

use iptoasn::{AppError, Database, IpAddress};
use iptoasn::ip_text::{ip_to_text, parse_ip};

fn gzip(text: &str) -> Vec<u8> {
    let mut enc = flate2::write::GzEncoder::new(Vec::new(), flate2::Compression::default());
    enc.write_all(text.as_bytes()).unwrap();
    enc.finish().unwrap()
}

const MIXED: &str = "9.9.9.0\t9.9.9.255\t3\tCH\tQUAD9\n1.1.1.0\t1.1.1.255\t13335\tUS\tCLOUDFLARE\n2001:db8::\t2001:db8::ffff\t64496\tCH\tDOCS\n8.8.8.0\t8.8.8.255\t15169\tUS\tGOOGLE\n";

#[test]
fn records_come_out_sorted_by_first_ip() {
    let db = Database::parse(gzip(MIXED)).unwrap();
    assert_eq!(db.len(), 4);
    let numbers: Vec<u32> = db.records.iter().map(|r| r.number).collect();
    // 1.1.1.0 < 8.8.8.0 < 9.9.9.0 < every IPv6 first address.
    assert_eq!(numbers, vec![13335, 15169, 3, 64496]);
    for w in db.records.windows(2) {
        assert!(w[0].first_ip.le(&w[1].first_ip));
    }
}

#[test]
fn every_record_has_an_ordered_single_family_range() {
    let db = Database::parse(gzip(MIXED)).unwrap();
    for r in &db.records {
        assert!(r.first_ip.le(&r.last_ip));
        assert!(r.first_ip.is_same_family(&r.last_ip));
    }
}

#[test]
fn parsing_the_same_bytes_twice_is_deterministic() {
    let db1 = Database::parse(gzip(MIXED)).unwrap();
    let db2 = Database::parse(gzip(MIXED)).unwrap();
    assert_eq!(db1.records, db2.records);
    assert_eq!(db1.countries, db2.countries);
    assert_eq!(db1.descriptions, db2.descriptions);
}

#[test]
fn equal_strings_are_interned_once() {
    let db = Database::parse(gzip(MIXED)).unwrap();
    // Two records with country "CH" share one pool index; same for "US".
    let by_number = |n: u32| db.records.iter().find(|r| r.number == n).unwrap();
    assert_eq!(by_number(3).country, by_number(64496).country);
    assert_eq!(by_number(13335).country, by_number(15169).country);
    assert_ne!(by_number(3).country, by_number(13335).country);
    // Pool sizes count unique strings only.
    assert_eq!(db.countries.len(), 2);
    assert_eq!(db.descriptions.len(), 4);
}

#[test]
fn missing_country_and_description_default_to_empty() {
    let db = Database::parse(gzip("2.2.2.0\t2.2.2.255\t64500\n")).unwrap();
    assert_eq!(db.len(), 1);
    let rec = &db.records[0];
    assert_eq!(db.countries[rec.country], b"".to_vec());
    assert_eq!(db.descriptions[rec.description], b"".to_vec());
}

#[test]
fn crlf_lines_parse_like_lf_lines() {
    let db = Database::parse(gzip("8.8.8.0\t8.8.8.255\t15169\tUS\tGOOGLE\r\n")).unwrap();
    assert_eq!(db.len(), 1);
    assert_eq!(db.countries[db.records[0].country], b"US".to_vec());
}

#[test]
fn truncated_gzip_fails_to_parse() {
    let mut data = gzip(MIXED);
    data.truncate(data.len() / 2);
    assert!(matches!(Database::parse(data), Err(AppError::DatabaseParse(_))));
}

#[test]
fn ipv4_text_reads_and_writes_back() {
    let cases = ["0.0.0.0", "8.8.8.0", "255.255.255.255", "192.168.1.7"];
    for c in cases {
        let ip = parse_ip(c.as_bytes()).unwrap();
        assert!(matches!(ip, IpAddress::V4(_)));
        assert_eq!(ip_to_text(&ip), c);
    }
}

#[test]
fn ipv4_text_rejects_bad_shapes() {
    for c in ["", "1.2.3", "1.2.3.4.5", "256.1.1.1", "01.2.3.4", "1..2.3", "1.2.3.x", " 1.2.3.4"] {
        assert_eq!(parse_ip(c.as_bytes()), None, "{}", c);
    }
}

#[test]
fn ipv6_text_reads_abbreviations() {
    assert_eq!(parse_ip("::".as_bytes()), Some(IpAddress::V6(0)));
    assert_eq!(parse_ip("::1".as_bytes()), Some(IpAddress::V6(1)));
    assert_eq!(
        parse_ip("2001:db8::1".as_bytes()),
        Some(IpAddress::V6(0x2001_0db8_0000_0000_0000_0000_0000_0001)),
    );
    assert_eq!(
        parse_ip("1:2:3:4:5:6:7:8".as_bytes()),
        Some(IpAddress::V6(0x0001_0002_0003_0004_0005_0006_0007_0008)),
    );
    assert_eq!(
        parse_ip("::ffff:8.8.8.8".as_bytes()),
        Some(IpAddress::V6(0x0000_0000_0000_0000_0000_ffff_0808_0808)),
    );
}

#[test]
fn ipv6_text_rejects_bad_shapes() {
    for c in [":", ":::", "1::2::3", "1:2:3:4:5:6:7", "1:2:3:4:5:6:7:8:9", "12345::", "g::", ":1::2",
        "1:2:3:4:5:6:7:8::"]
    {
        assert_eq!(parse_ip(c.as_bytes()), None, "{}", c);
    }
}

#[test]
fn ipv6_hex_digits_are_case_insensitive() {
    assert_eq!(
        parse_ip("2001:DB8::A".as_bytes()),
        parse_ip("2001:db8::a".as_bytes()),
    );
    assert_eq!(
        parse_ip("FFFF::".as_bytes()),
        Some(IpAddress::V6(0xffff_0000_0000_0000_0000_0000_0000_0000)),
    );
}

#[test]
fn ipv6_formats_in_full_grouped_form() {
    let ip = parse_ip("2001:db8::1".as_bytes()).unwrap();
    assert_eq!(ip_to_text(&ip), "2001:db8:0:0:0:0:0:1");
}

#[test]
fn all_ipv4_sort_below_all_ipv6() {
    let v4 = parse_ip("255.255.255.255".as_bytes()).unwrap();
    let v6 = parse_ip("::".as_bytes()).unwrap();
    assert!(v4.lt(&v6));
    assert!(!v6.le(&v4));
}
