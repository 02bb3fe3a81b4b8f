use cacheproxy::errors::ProxyError;
use cacheproxy::key::{CacheKey, MAX_KEY_LEN};

fn try_key(s: &str) -> Result<CacheKey, ProxyError> {
    CacheKey::new(s.as_bytes().to_vec())
}

#[test]
fn rejects_traversal() {
    assert!(matches!(try_key("../secret"), Err(ProxyError::KeyInvalid)));
}

#[test]
fn rejects_absolute_path() {
    assert!(matches!(try_key("/etc/passwd"), Err(ProxyError::KeyInvalid)));
}

#[test]
fn rejects_empty() {
    assert!(matches!(try_key(""), Err(ProxyError::KeyInvalid)));
}

#[test]
fn rejects_separator_anywhere() {
    assert!(matches!(try_key("a/b"), Err(ProxyError::KeyInvalid)));
    assert!(matches!(try_key("a\\b"), Err(ProxyError::KeyInvalid)));
}

#[test]
fn rejects_adjacent_dots_without_separator() {
    assert!(matches!(try_key("a..b"), Err(ProxyError::KeyInvalid)));
}

#[test]
fn rejects_oversized() {
    let long = "x".repeat(MAX_KEY_LEN + 1);
    assert!(matches!(try_key(&long), Err(ProxyError::KeyInvalid)));
}

#[test]
fn accepts_bounded_alphanumeric_and_separators() {
    let longest = "x".repeat(MAX_KEY_LEN);
    for ok in ["movie.mp4", "report.pdf", "x", "abc-DEF_123.bin", &longest] {
        let k = try_key(ok).unwrap();
        assert_eq!(k.as_bytes().as_slice(), ok.as_bytes());
    }
}

#[test]
fn duplicate_names_same_object() {
    let k = try_key("movie.mp4").unwrap();
    let d = k.duplicate();
    assert_eq!(k.as_bytes(), d.as_bytes());
}
