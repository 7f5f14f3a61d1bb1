use deptree::bytes::{bytes_eq, contains_sub, ends_with, trim};
use deptree::stack::Stack;

fn v(s: &str) -> Vec<u8> {
    s.as_bytes().to_vec()
}

#[test]
fn stack_is_last_in_first_out() {
    let mut s: Stack<u32> = Stack::new();
    assert!(s.is_empty());
    assert_eq!(s.length(), 0);
    assert_eq!(s.pop(), None);
    s.push(1);
    s.push(2);
    s.push(3);
    assert_eq!(s.length(), 3);
    assert!(!s.is_empty());
    assert_eq!(s.peek(), Some(&3));
    assert_eq!(s.pop(), Some(3));
    assert_eq!(s.pop(), Some(2));
    assert_eq!(s.peek(), Some(&1));
    assert_eq!(s.pop(), Some(1));
    assert!(s.is_empty());
    assert_eq!(s.peek(), None);
}

#[test]
fn trim_removes_surrounding_whitespace_only() {
    assert_eq!(trim(&v("  a b \t\r\n")), v("a b"));
    assert_eq!(trim(&v("ab")), v("ab"));
    assert_eq!(trim(&v("   \t ")), Vec::<u8>::new());
    assert_eq!(trim(&v("")), Vec::<u8>::new());
}

#[test]
fn contains_sub_finds_substrings() {
    assert!(contains_sub(&v("io.acme.core"), &v("io.acme")));
    assert!(contains_sub(&v("x"), &v("")));
    assert!(!contains_sub(&v("io.other"), &v("io.acme")));
    assert!(!contains_sub(&v("io"), &v("io.acme")));
}

#[test]
fn ends_with_checks_suffixes() {
    assert!(ends_with(&v("library.jar"), &v(".jar")));
    assert!(!ends_with(&v("library.jarx"), &v(".jar")));
    assert!(!ends_with(&v("jar"), &v(".jar")));
}

#[test]
fn bytes_eq_is_exact() {
    assert!(bytes_eq(&v("abc"), &v("abc")));
    assert!(!bytes_eq(&v("abc"), &v("abd")));
    assert!(!bytes_eq(&v("abc"), &v("ab")));
    assert!(bytes_eq(&v(""), &v("")));
}
