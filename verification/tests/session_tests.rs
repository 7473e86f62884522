//! Tests of the session-directory derivation and the set-once register.

use lspcat::session::{SessionDir, session_dir_name, u64_to_decimal};

#[test]
fn decimal_of_small_numbers() {
    assert_eq!(u64_to_decimal(0), "0");
    assert_eq!(u64_to_decimal(7), "7");
    assert_eq!(u64_to_decimal(10), "10");
    assert_eq!(u64_to_decimal(12345), "12345");
}

#[test]
fn decimal_of_the_largest_value() {
    assert_eq!(u64_to_decimal(u64::MAX), "18446744073709551615");
}

#[test]
fn session_dir_name_is_deterministic() {
    let a = session_dir_name(123, "/work");
    let b = session_dir_name(123, "/work");
    assert_eq!(a, b);
}

#[test]
fn session_dir_name_exact_value() {
    // 64-bit FNV-1a of "123 /work", rendered in decimal after the tag
    assert_eq!(session_dir_name(123, "/work"), "lspcat-13400841436386615535");
}

#[test]
fn session_dir_name_depends_on_both_inputs() {
    let base = session_dir_name(123, "/work");
    assert_ne!(session_dir_name(124, "/work"), base);
    assert_ne!(session_dir_name(123, "/other"), base);
}

#[test]
fn session_register_is_set_once() {
    let mut d = SessionDir::new();
    assert!(d.get().is_none());
    assert!(d.set("/tmp/lspcat-1".to_string()));
    assert_eq!(d.get(), Some(&"/tmp/lspcat-1".to_string()));
    // a second set is refused and the first value stands
    assert!(!d.set("/tmp/lspcat-2".to_string()));
    assert_eq!(d.get(), Some(&"/tmp/lspcat-1".to_string()));
}
