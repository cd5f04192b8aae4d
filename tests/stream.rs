use sonnerie_core::stream::{parse_decimal, parse_record_line, record_from_words, record_prefix_nanos, record_prefix_time, LineError};
use sonnerie_core::{InsertError, Metadata, Timestamp, WriteFailure};

#[test]
fn line_with_nanosecond_timestamp() {
    let r = parse_record_line("cpu\\ load 1500 3.5\n", None, false).unwrap().unwrap();
    assert_eq!(r.key, "cpu load");
    assert_eq!(r.timestamp, 1500);
    assert_eq!(r.format, None);
    assert_eq!(r.values, "3.5");
    let r = parse_record_line("k 9 1 2.5 3\u{a0}\n", None, false).unwrap().unwrap();
    assert_eq!(r.values, "1 2.5 3");
}

#[test]
fn line_with_format_keeps_all_values() {
    let r = parse_record_line("  k 7 u32,f64 12 2.5  \r\n", None, true).unwrap().unwrap();
    assert_eq!(r.key, "k");
    assert_eq!(r.timestamp, 7);
    assert_eq!(r.format, Some("u32,f64".to_string()));
    assert_eq!(r.values, "12 2.5");
}

#[test]
fn line_with_formatted_timestamp() {
    let r = parse_record_line("k 2020-01-01T00:00:01 1", Some("%Y-%m-%dT%H:%M:%S"), false)
        .unwrap()
        .unwrap();
    assert_eq!(r.timestamp, 1_577_836_801_000_000_000);
    assert_eq!(
        parse_record_line("k 2020-13-01T00:00:01 1", Some("%Y-%m-%dT%H:%M:%S"), false).err(),
        Some(LineError::BadTimestamp)
    );
    assert_eq!(
        parse_record_line("k 1969-12-31T23:59:59 1", Some("%Y-%m-%dT%H:%M:%S"), false).err(),
        Some(LineError::BadTimestamp)
    );
    let epoch = parse_record_line("k 1970-01-01T00:00:00 1", Some("%Y-%m-%dT%H:%M:%S"), false).unwrap().unwrap();
    assert_eq!(epoch.timestamp, 0);
}

#[test]
fn blank_and_malformed_lines() {
    assert!(parse_record_line("   \t\n", None, false).unwrap().is_none());
    assert!(parse_record_line(" \u{b}\u{3000}\n", None, false).unwrap().is_none());
    assert!(parse_record_line("", None, false).unwrap().is_none());
    assert_eq!(parse_record_line("k 12x 1", None, false).err(), Some(LineError::BadTimestamp));
    assert_eq!(parse_record_line("k -1 1", None, false).err(), Some(LineError::BadTimestamp));
    assert_eq!(parse_record_line("k 1 u8\\", None, true).err(), Some(LineError::Malformed));
    assert_eq!(parse_record_line("k\\", None, false).err(), Some(LineError::Malformed));
    assert_eq!(parse_record_line("k 1 v\\", None, false).unwrap().unwrap().values, "v\\");
}

#[test]
fn decimal_timestamps() {
    assert_eq!(parse_decimal("0"), Some(0));
    assert_eq!(parse_decimal("+42"), Some(42));
    assert_eq!(parse_decimal("18446744073709551615"), Some(u64::MAX));
    assert_eq!(parse_decimal("18446744073709551616"), None);
    assert_eq!(parse_decimal(""), None);
    assert_eq!(parse_decimal("+"), None);
    assert_eq!(parse_decimal("1 2"), None);
}

#[test]
fn export_prefixes() {
    assert_eq!(record_prefix_nanos("a b", 1234567890), "a\\ b\t1234567890\t");
    assert_eq!(record_prefix_nanos("k", 0), "k\t0\t");
    assert_eq!(record_prefix_nanos("a\tb\\c\u{7}é", 12), "a\\tb\\\\c\\aé\t12\t");
    assert_eq!(
        record_prefix_time("k", 1_577_836_801_000_000_000, "%FT%T", None),
        Some("k\t2020-01-01T00:00:01\t".to_string())
    );
    assert_eq!(
        record_prefix_time("k", 0, "%Y", Some("u32")),
        Some("k\t1970\tu32\t".to_string())
    );
}

#[test]
fn add_record_creates_and_checks_format() {
    let mut md = Metadata::new();
    let mut tx = md.as_write_transaction();
    let mut row = 5u64.to_be_bytes().to_vec();
    row.extend_from_slice(&9u32.to_be_bytes());
    let id = tx.add_record("k", "u32", &row).unwrap();
    assert_eq!(tx.series_id("k"), Some(id));
    assert_eq!(
        tx.add_record("k", "f64", &row),
        Err(WriteFailure::HeterogeneousFormats("k".to_string(), "u32".to_string(), "f64".to_string()))
    );
    assert_eq!(tx.add_record("k2", "nope", &row), Err(WriteFailure::FormatError));
    assert_eq!(tx.add_record("k", "u32", &row), Err(WriteFailure::Insert(InsertError::OrderError)));
    let mut later = 6u64.to_be_bytes().to_vec();
    later.extend_from_slice(&1u32.to_be_bytes());
    assert_eq!(tx.add_record("k", "u32", &later), Ok(id));
    tx.commit(&mut md).unwrap();
    let rd = md.as_read_transaction();
    assert_eq!(rd.read_series(id, Timestamp(0), Timestamp(10)), vec![row, later]);
}

#[test]
fn record_assembled_from_words() {
    let w = |a: &str, b: &str| Some((a.to_string(), b.to_string()));
    let r = record_from_words(w("k", "5 f64 1.5"), w("5", "f64 1.5"), Some(5), w("f64", "1.5"), true).unwrap();
    assert_eq!((r.key.as_str(), r.timestamp, r.format.as_deref(), r.values.as_str()), ("k", 5, Some("f64"), "1.5"));
    let r = record_from_words(w("k", "5 1 2"), w("5", "1 2"), Some(5), w("1", "2"), false).unwrap();
    assert_eq!((r.format, r.values.as_str()), (None, "1 2"));
    assert_eq!(record_from_words(w("k", "x 1"), w("x", "1"), None, w("1", ""), false).err(), Some(LineError::BadTimestamp));
    assert_eq!(record_from_words(None, None, None, None, false).err(), Some(LineError::Malformed));
    assert_eq!(record_from_words(w("k", "5"), w("5", ""), Some(5), None, true).err(), Some(LineError::Malformed));
}
