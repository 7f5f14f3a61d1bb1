use deptree::parse::{parse_line, ParseError};

fn v(s: &str) -> Vec<u8> {
    s.as_bytes().to_vec()
}

#[test]
fn plain_edge_line() {
    let r = parse_line(&v("com.a -> com.b"), &None).unwrap().unwrap();
    assert_eq!(r.0, v("com.a"));
    assert_eq!(r.1, v("com.b"));
}

#[test]
fn annotation_after_target_is_dropped() {
    let r = parse_line(&v("com.a -> com.b (classes.jar)"), &None).unwrap().unwrap();
    assert_eq!(r.0, v("com.a"));
    assert_eq!(r.1, v("com.b"));
}

#[test]
fn surrounding_whitespace_is_trimmed() {
    let r = parse_line(&v("   com.a \t->  com.b  \t"), &None).unwrap().unwrap();
    assert_eq!(r.0, v("com.a"));
    assert_eq!(r.1, v("com.b"));
}

#[test]
fn second_arrow_bounds_the_target() {
    let r = parse_line(&v("a->b->c"), &None).unwrap().unwrap();
    assert_eq!(r.0, v("a"));
    assert_eq!(r.1, v("b"));
}

#[test]
fn missing_arrow_is_an_error() {
    let r = parse_line(&v("com.a com.b"), &None);
    assert_eq!(r, Err(ParseError::MissingArrow));
}

#[test]
fn empty_target_is_an_error() {
    let r = parse_line(&v("com.a ->   "), &None);
    assert_eq!(r, Err(ParseError::EmptyTarget));
}

#[test]
fn filter_miss_on_source_skips_line() {
    let r = parse_line(&v("a.b.C -> io.acme.D"), &Some(v("io.acme")));
    assert_eq!(r, Ok(None));
}

#[test]
fn filter_miss_on_target_skips_line() {
    let r = parse_line(&v("io.acme.C -> io.other.D"), &Some(v("io.acme")));
    assert_eq!(r, Ok(None));
}

#[test]
fn filter_match_on_both_keeps_line() {
    let r = parse_line(&v("io.acme.C -> io.acme.D"), &Some(v("io.acme"))).unwrap().unwrap();
    assert_eq!(r.0, v("io.acme.C"));
    assert_eq!(r.1, v("io.acme.D"));
}

#[test]
fn archive_source_skips_line() {
    let r = parse_line(&v("library.jar -> com.b"), &None);
    assert_eq!(r, Ok(None));
}

#[test]
fn filtered_source_without_arrow_is_skipped_not_an_error() {
    let r = parse_line(&v("just-a-word"), &Some(v("io.acme")));
    assert_eq!(r, Ok(None));
}

#[test]
fn archive_source_without_arrow_is_skipped_not_an_error() {
    let r = parse_line(&v("library.jar"), &None);
    assert_eq!(r, Ok(None));
}
