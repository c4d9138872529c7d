use checkpoint_backup::clock::{MAX_TIMESTAMP, MIN_TIMESTAMP};
use checkpoint_backup::record::{FileInfo, MetaError};

fn hash16() -> Vec<u8> {
    b"0123456789abcdef".to_vec()
}

fn sidecar(size: &str, hash: &str, stamp: &str) -> Vec<u8> {
    format!("{}\n{}\n{}\n", size, hash, stamp).into_bytes()
}

#[test]
fn serialize_renders_three_lines_in_order() {
    let record = FileInfo::new(5, hash16(), Some(1_700_000_000));
    assert_eq!(record.serialize(), b"5\n0123456789abcdef\n1700000000\n".to_vec());
}

#[test]
fn serialize_renders_zero_and_negative_numbers() {
    let record = FileInfo::new(0, hash16(), Some(-86_400));
    assert_eq!(record.serialize(), b"0\n0123456789abcdef\n-86400\n".to_vec());
}

#[test]
fn serialize_renders_the_largest_size() {
    let record = FileInfo::new(u64::MAX, hash16(), Some(0));
    assert_eq!(record.serialize(), b"18446744073709551615\n0123456789abcdef\n0\n".to_vec());
}

#[test]
fn deserialize_reads_back_what_serialize_wrote() {
    let record = FileInfo::new(42, hash16(), Some(-17));
    let back = FileInfo::deserialize(&record.serialize()).unwrap();
    assert_eq!(back.size, 42);
    assert_eq!(back.hash, hash16());
    assert_eq!(back.time_stamp, -17);
}

#[test]
fn round_trip_holds_at_the_edges_of_every_field() {
    for size in [0u64, 1, 9, 10, 4096, u64::MAX] {
        for stamp in [MIN_TIMESTAMP, -1, 0, 1, 1_700_000_000, MAX_TIMESTAMP] {
            for hash in [b"0000000000000000".to_vec(), b"ffffffffffffffff".to_vec(), hash16()] {
                let record = FileInfo::new(size, hash.clone(), Some(stamp));
                let back = FileInfo::deserialize(&record.serialize()).unwrap();
                assert_eq!(back.size, size);
                assert_eq!(back.hash, hash);
                assert_eq!(back.time_stamp, stamp);
            }
        }
    }
}

#[test]
fn deserialize_reports_each_missing_or_malformed_line() {
    assert_eq!(FileInfo::deserialize(b"").unwrap_err(), MetaError::MissingSize);
    assert_eq!(FileInfo::deserialize(b"x\n").unwrap_err(), MetaError::InvalidSize);
    assert_eq!(FileInfo::deserialize(b"\n").unwrap_err(), MetaError::InvalidSize);
    assert_eq!(FileInfo::deserialize(b"-1\nh\n0\n").unwrap_err(), MetaError::InvalidSize);
    assert_eq!(FileInfo::deserialize(b"1\n").unwrap_err(), MetaError::MissingHash);
    assert_eq!(FileInfo::deserialize(b"1").unwrap_err(), MetaError::MissingHash);
    assert_eq!(FileInfo::deserialize(b"1\nh\n").unwrap_err(), MetaError::MissingTimestamp);
    assert_eq!(FileInfo::deserialize(b"1\nh").unwrap_err(), MetaError::MissingTimestamp);
    assert_eq!(FileInfo::deserialize(b"1\nh\nsoon\n").unwrap_err(), MetaError::InvalidTimestamp);
    assert_eq!(FileInfo::deserialize(b"1\nh\n\n").unwrap_err(), MetaError::InvalidTimestamp);
}

#[test]
fn deserialize_refuses_what_is_not_text() {
    let bytes = [0x31, 0x0a, 0xff, 0x0a, 0x30, 0x0a];
    assert_eq!(FileInfo::deserialize(&bytes).unwrap_err(), MetaError::NotText);
    let late = [0x31, 0x0a, 0x68, 0x0a, 0x30, 0x0a, 0xc3];
    assert_eq!(FileInfo::deserialize(&late).unwrap_err(), MetaError::NotText);
}

#[test]
fn deserialize_keeps_the_hash_line_as_it_is() {
    let back = FileInfo::deserialize("7\nnot hex at all \u{e9}\n0\n".as_bytes()).unwrap();
    assert_eq!(back.hash, "not hex at all \u{e9}".as_bytes().to_vec());
    let empty = FileInfo::deserialize(b"7\n\n0\n").unwrap();
    assert_eq!(empty.hash, Vec::<u8>::new());
}

#[test]
fn deserialize_reads_numbers_as_the_standard_parser_does() {
    for text in ["0", "+5", "007", "18446744073709551615", "18446744073709551616", "", "+", "-", "-0", " 1", "1 ", "1_000", "0x10", "99999999999999999999999"] {
        let expected = text.parse::<u64>().ok();
        let got = FileInfo::deserialize(&sidecar(text, "h", "0")).ok().map(|r| r.size);
        assert_eq!(got, expected, "size {:?}", text);
    }
    for text in ["0", "+5", "-5", "-0", "007", "-007", "8210266876799", "-8334601228800", "", "+", "-", "+-1", "--1", "1.0", "9223372036854775808", "-9223372036854775809"] {
        let expected = text.parse::<i64>().ok();
        let got = FileInfo::deserialize(&sidecar("1", "h", text)).ok().map(|r| r.time_stamp);
        assert_eq!(got, expected, "stamp {:?}", text);
    }
}

#[test]
fn deserialize_accepts_only_timestamps_that_name_a_moment() {
    let at = |stamp: i64| FileInfo::deserialize(&sidecar("1", "h", &stamp.to_string()));
    assert_eq!(at(MAX_TIMESTAMP).unwrap().time_stamp, 8_210_266_876_799);
    assert_eq!(at(MAX_TIMESTAMP + 1).unwrap_err(), MetaError::InvalidTimestamp);
    assert_eq!(at(MIN_TIMESTAMP).unwrap().time_stamp, -8_334_601_228_800);
    assert_eq!(at(MIN_TIMESTAMP - 1).unwrap_err(), MetaError::InvalidTimestamp);
    assert_eq!(at(i64::MAX).unwrap_err(), MetaError::InvalidTimestamp);
    assert_eq!(at(i64::MIN).unwrap_err(), MetaError::InvalidTimestamp);
}

#[test]
fn deserialize_agrees_with_chrono_on_the_range_of_timestamps() {
    for stamp in [MIN_TIMESTAMP - 1, MIN_TIMESTAMP, MIN_TIMESTAMP + 1, -1, 0, 1, MAX_TIMESTAMP - 1, MAX_TIMESTAMP, MAX_TIMESTAMP + 1] {
        let accepted = FileInfo::deserialize(&sidecar("1", "h", &stamp.to_string())).is_ok();
        assert_eq!(accepted, chrono::DateTime::from_timestamp(stamp, 0).is_some(), "stamp {}", stamp);
    }
    assert_eq!(chrono::DateTime::<chrono::Utc>::MIN_UTC.timestamp(), MIN_TIMESTAMP);
    assert_eq!(chrono::DateTime::<chrono::Utc>::MAX_UTC.timestamp(), MAX_TIMESTAMP);
}

#[test]
fn deserialize_splits_lines_as_the_standard_library_does() {
    let crlf = FileInfo::deserialize(b"3\r\nabc\r\n9\r\n").unwrap();
    assert_eq!((crlf.size, crlf.hash, crlf.time_stamp), (3, b"abc".to_vec(), 9));
    let unterminated = FileInfo::deserialize(b"3\nabc\n9").unwrap();
    assert_eq!(unterminated.time_stamp, 9);
    assert_eq!(FileInfo::deserialize(b"3\nabc\n9\r").unwrap_err(), MetaError::InvalidTimestamp);
    let inner = FileInfo::deserialize(b"3\na\rb\r\r\n9\n").unwrap();
    assert_eq!(inner.hash, b"a\rb\r".to_vec());
    let more = FileInfo::deserialize(b"3\nabc\n9\nand more\nlines").unwrap();
    assert_eq!((more.size, more.time_stamp), (3, 9));
}

#[test]
fn unchanged_looks_at_size_and_hash_only() {
    let a = FileInfo::new(5, hash16(), Some(1));
    let later = FileInfo::new(5, hash16(), Some(2));
    let bigger = FileInfo::new(6, hash16(), Some(1));
    let other = FileInfo::new(5, b"0123456789abcdee".to_vec(), Some(1));
    let shorter = FileInfo::new(5, b"0123456789abcde".to_vec(), Some(1));
    assert!(a.unchanged(&later));
    assert!(later.unchanged(&a));
    assert!(!a.unchanged(&bigger));
    assert!(!a.unchanged(&other));
    assert!(!a.unchanged(&shorter));
}

#[test]
fn new_without_a_time_stamps_the_record_with_the_current_time() {
    let before = chrono::Utc::now().timestamp();
    let record = FileInfo::new(1, hash16(), None);
    let after = chrono::Utc::now().timestamp();
    assert!(before <= record.time_stamp && record.time_stamp <= after);
    assert_eq!(record.size, 1);
    assert_eq!(record.hash, hash16());
}

#[test]
fn capture_takes_size_and_digest_from_the_content() {
    let record = FileInfo::capture_at(b"hello", 1_700_000_000);
    assert_eq!(record.size, 5);
    assert_eq!(record.hash, format!("{:016x}", xxhash_rust::xxh3::xxh3_64(b"hello")).into_bytes());
    assert_eq!(record.time_stamp, 1_700_000_000);
    let now = FileInfo::capture(b"hello");
    assert!(now.unchanged(&record));
    assert!(now.time_stamp >= 1_700_000_000);
}

#[test]
fn capture_of_the_same_bytes_is_unchanged_and_of_other_bytes_is_not() {
    let first = FileInfo::capture_at(b"hello", 10);
    let again = FileInfo::capture_at(b"hello", 20);
    let same_size = FileInfo::capture_at(b"hellp", 20);
    let longer = FileInfo::capture_at(b"hello!", 20);
    assert!(first.unchanged(&again));
    assert!(!first.unchanged(&same_size));
    assert_eq!(first.size, same_size.size);
    assert!(!first.unchanged(&longer));
}
