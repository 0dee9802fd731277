use litert_lm::bytes::{
    ascii_lower_byte, bytes_eq, contains_sub, contains_sub_ci, ends_with_sub, find_first, find_sub,
    starts_with_sub, trim_bytes,
};

#[test]
fn search_finds_the_first_occurrence() {
    assert_eq!(find_sub(b"abcabc", b"bc"), Some(1));
    assert_eq!(find_first(b"abcabc", b"bc"), Some(1));
    assert_eq!(find_sub(b"abc", b"zz"), None);
    assert_eq!(find_sub(b"abc", b""), Some(0));
    assert_eq!(find_sub(b"ab", b"abc"), None);
}

#[test]
fn containment_and_affixes() {
    assert!(contains_sub(b"hello world", b"lo wo"));
    assert!(!contains_sub(b"hello", b"world"));
    assert!(ends_with_sub(b"text>>>", b">>>"));
    assert!(!ends_with_sub(b">>", b">>>"));
    assert!(starts_with_sub(b"Available models", b"Available"));
    assert!(!starts_with_sub(b"models", b"Available"));
}

#[test]
fn case_insensitive_containment() {
    assert!(contains_sub_ci(b"An ERROR occurred", b"error"));
    assert!(contains_sub_ci(b"It FaIlEd", b"failed"));
    assert!(!contains_sub_ci(b"all fine", b"error"));
    assert_eq!(ascii_lower_byte(b'E'), b'e');
    assert_eq!(ascii_lower_byte(b'!'), b'!');
}

#[test]
fn trimming_removes_ascii_whitespace_only() {
    assert_eq!(trim_bytes(b"  gemma\t\r\n"), b"gemma".to_vec());
    assert_eq!(trim_bytes(b"a b"), b"a b".to_vec());
    assert_eq!(trim_bytes(b"   "), Vec::<u8>::new());
    assert_eq!(trim_bytes(b""), Vec::<u8>::new());
}

#[test]
fn byte_equality_is_exact() {
    assert!(bytes_eq(b"gemma", b"gemma"));
    assert!(!bytes_eq(b"gemma", b"gemm"));
    assert!(!bytes_eq(b"gemma", b"Gemma"));
}
