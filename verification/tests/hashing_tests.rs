use checkpoint_backup::clock::{checkpoint_name_at, current_timestamp, is_valid_timestamp, new_checkpoint_name, MAX_TIMESTAMP, MIN_TIMESTAMP};
use checkpoint_backup::hashing::{compute_xxhash, BLOCK_SIZE};

fn reference(content: &[u8]) -> Vec<u8> {
    format!("{:016x}", xxhash_rust::xxh3::xxh3_64(content)).into_bytes()
}

#[test]
fn digest_of_nothing_is_the_known_value() {
    assert_eq!(compute_xxhash(b""), b"2d06800538d394c2".to_vec());
}

#[test]
fn digest_is_sixteen_lowercase_hexadecimal_digits() {
    for content in [&b""[..], b"a", b"hello", b"world", &[0u8; 100]] {
        let hash = compute_xxhash(content);
        assert_eq!(hash.len(), 16);
        assert!(hash.iter().all(|b| b.is_ascii_digit() || (b'a'..=b'f').contains(b)));
        assert_eq!(hash, reference(content));
    }
}

#[test]
fn digest_does_not_depend_on_how_the_content_is_cut_into_blocks() {
    for len in [1, BLOCK_SIZE - 1, BLOCK_SIZE, BLOCK_SIZE + 1, 2 * BLOCK_SIZE, 3 * BLOCK_SIZE + 17, 100_000] {
        let content: Vec<u8> = (0..len).map(|i| (i * 31 % 251) as u8).collect();
        assert_eq!(compute_xxhash(&content), reference(&content), "length {}", len);
    }
}

#[test]
fn digest_tells_contents_apart() {
    assert_ne!(compute_xxhash(b"hello"), compute_xxhash(b"hellp"));
    assert_ne!(compute_xxhash(b"hello"), compute_xxhash(b"hello!"));
    assert_eq!(compute_xxhash(b"hello"), compute_xxhash(b"hello"));
}

#[test]
fn digest_keeps_leading_zeros() {
    let mut found = false;
    for i in 0u32..4096 {
        let content = i.to_le_bytes();
        let hash = compute_xxhash(&content);
        assert_eq!(hash, reference(&content));
        if hash[0] == b'0' {
            found = true;
        }
    }
    assert!(found);
}

#[test]
fn checkpoint_name_is_the_moment_in_utc() {
    assert_eq!(checkpoint_name_at(0), Some(b"1970-01-01_00-00_00".to_vec()));
    assert_eq!(checkpoint_name_at(1_700_000_000), Some(b"2023-11-14_22-13_20".to_vec()));
    assert_eq!(checkpoint_name_at(-1), Some(b"1969-12-31_23-59_59".to_vec()));
    assert_eq!(checkpoint_name_at(MAX_TIMESTAMP), Some(b"+262142-12-31_23-59_59".to_vec()));
    assert_eq!(checkpoint_name_at(MIN_TIMESTAMP), Some(b"-262143-01-01_00-00_00".to_vec()));
    assert_eq!(checkpoint_name_at(MAX_TIMESTAMP + 1), None);
    assert_eq!(checkpoint_name_at(MIN_TIMESTAMP - 1), None);
    assert_eq!(checkpoint_name_at(i64::MAX), None);
}

#[test]
fn checkpoint_names_sort_by_time() {
    let mut last = checkpoint_name_at(0).unwrap();
    for secs in [1, 59, 60, 3_599, 3_600, 86_399, 86_400, 31_536_000, 1_700_000_000, 4_000_000_000] {
        let name = checkpoint_name_at(secs).unwrap();
        assert!(last < name);
        last = name;
    }
}

#[test]
fn new_checkpoint_name_has_the_layout_of_a_name() {
    let name = new_checkpoint_name();
    assert_eq!(name.len(), 19);
    assert_eq!(name[4], b'-');
    assert_eq!(name[7], b'-');
    assert_eq!(name[10], b'_');
    assert_eq!(name[13], b'-');
    assert_eq!(name[16], b'_');
    assert!(name >= checkpoint_name_at(1_700_000_000).unwrap());
}

#[test]
fn current_timestamp_is_within_range() {
    let now = current_timestamp();
    assert!(is_valid_timestamp(now));
    assert!(now > 1_700_000_000);
}

#[test]
fn valid_timestamps_are_those_between_the_bounds() {
    assert!(is_valid_timestamp(MIN_TIMESTAMP));
    assert!(is_valid_timestamp(MAX_TIMESTAMP));
    assert!(is_valid_timestamp(0));
    assert!(!is_valid_timestamp(MIN_TIMESTAMP - 1));
    assert!(!is_valid_timestamp(MAX_TIMESTAMP + 1));
}
