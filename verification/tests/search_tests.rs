use rmde_core::search::{find_bytes, matches_at};

#[test]
fn test_find_bytes_first_match_from_offset() {
    let hay = b"cat dog cat";
    assert_eq!(find_bytes(hay, b"cat", 0, hay.len()), Some(0));
    assert_eq!(find_bytes(hay, b"cat", 1, hay.len()), Some(8));
    assert_eq!(find_bytes(hay, b"cat", 9, hay.len()), None);
}

#[test]
fn test_find_bytes_respects_limit() {
    let hay = b"cat dog cat";
    assert_eq!(find_bytes(hay, b"cat", 1, 10), None);
    assert_eq!(find_bytes(hay, b"dog", 0, 7), Some(4));
    assert_eq!(find_bytes(hay, b"dog", 0, 6), None);
    assert_eq!(find_bytes(hay, b"dog", 0, 12), None);
}

#[test]
fn test_find_bytes_empty_needle_matches_at_start() {
    assert_eq!(find_bytes(b"abc", b"", 2, 3), Some(2));
    assert_eq!(find_bytes(b"abc", b"", 3, 3), Some(3));
    assert_eq!(find_bytes(b"abc", b"", 4, 3), None);
}

#[test]
fn test_matches_at() {
    assert!(matches_at(b"hello", b"ell", 1));
    assert!(!matches_at(b"hello", b"ell", 0));
    assert!(matches_at(b"hello", b"", 5));
}
