//! Tests of significant-version extraction.

use repo_retire_packages::version::significant_matches;
use repo_retire_packages::version::significant_version;

#[test]
fn test_significant_version_simple() {
    assert_eq!(significant_version("6.1.2"), Some("6.1.2".to_string()));
}

#[test]
fn test_significant_version_with_revision() {
    assert_eq!(significant_version("6.1.2-1"), Some("6.1.2".to_string()));
}

#[test]
fn test_significant_version_with_epoch() {
    assert_eq!(significant_version("1:5.10.0~rc1"), Some("5.10.0".to_string()));
}

#[test]
fn test_significant_version_leftmost_match() {
    // The leftmost three-component match wins; the fourth component is not
    // part of it.
    assert_eq!(significant_version("v1.22.333.4"), Some("1.22.333".to_string()));
}

#[test]
fn test_significant_version_none() {
    assert_eq!(significant_version(""), None);
    assert_eq!(significant_version("6.1"), None);
    assert_eq!(significant_version("stable"), None);
    assert_eq!(significant_version("1..2.3"), None);
}

#[test]
fn test_significant_version_multidigit() {
    assert_eq!(significant_version("10.20.30-4"), Some("10.20.30".to_string()));
}

#[test]
fn test_significant_matches() {
    assert!(significant_matches("6.1.2-1", "6.1.2-9"));
    assert!(!significant_matches("6.1.1", "6.1.2"));
    assert!(!significant_matches("6.1", "6.1.2"));
    assert!(!significant_matches("abc", "def"));
}
