use std::str::FromStr;

use stash::Tag;

#[test]
fn tag_validation() {
    let t = Tag::from_str("test-1");
    assert!(matches!(t, Ok(_)));
    assert_eq!(t.unwrap().tag(), "test-1");

    let t = Tag::from_str("1-test");
    assert!(matches!(t, Ok(_)));
    assert_eq!(t.unwrap().tag(), "1-test");

    let t = Tag::from_str(";notvalid");
    assert!(matches!(t, Err(_)));
}

#[test]
fn empty_tag_is_invalid() {
    assert!(Tag::from_str("").is_err());
    assert!(Tag::parse("").is_err());
}

#[test]
fn tag_characters() {
    assert!(Tag::parse("abc-019").is_ok());
    assert!(Tag::parse("Abc").is_err());
    assert!(Tag::parse("a b").is_err());
    assert!(Tag::parse("a_b").is_err());
    assert!(Tag::parse("é").is_err());
}

#[test]
fn tag_into_string() {
    let t = Tag::parse("t1").unwrap();
    let s: String = t.clone().into();
    assert_eq!(s, "t1");
    assert_eq!(t.into_string(), "t1".to_string());
}
