use json_api::doc::{JsonApi, Member, Version};
use json_api::error::Error;
use json_api::fields::{Key, Path};

#[test]
fn key_rejects_empty_and_reserved() {
    assert!(matches!(Key::try_from(""), Err(Error::InvalidMemberName(ref n)) if n.is_empty()));
    assert!(matches!(Key::try_from("a,b"), Err(Error::InvalidMemberName(ref n)) if n == "a,b"));
    for bad in ["a b", "a.b", "a[", "b]", "+", "\t"] {
        assert!(Key::try_from(bad).is_err());
    }
    assert_eq!(Key::try_from("published-at").unwrap().as_str(), "published-at");
}

#[test]
fn path_splits_on_dots() {
    let p = Path::try_from("comments.author").unwrap();
    assert_eq!(p.len(), 2);
    assert_eq!(p.segment(0).as_str(), "comments");
    assert_eq!(p.segment(1).as_str(), "author");
    assert!(p.starts_with(&Path::try_from("comments").unwrap()));
    assert!(!p.starts_with(&Path::try_from("author").unwrap()));
    assert!(matches!(Path::try_from("a..b"), Err(Error::InvalidMemberName(ref n)) if n == "a..b"));
    assert!(Path::try_from("").is_err());
}

#[test]
fn version_literal() {
    assert_eq!(Version::from_str("1.0").unwrap(), Version::V1);
    assert!(matches!(Version::from_str("1.1"), Err(Error::UnsupportedVersion(ref v)) if v == "1.1"));
    assert_eq!(Version::V1.as_str(), "1.0");
    assert_eq!(Version::default(), Version::V1);
}

#[test]
fn json_api_new() {
    assert_eq!(JsonApi::default(), JsonApi::new(Version::V1));
    assert!(JsonApi::new(Version::V1).meta.is_empty());
}

#[test]
fn error_constructors() {
    assert_eq!(Error::missing_field("id"), Error::MissingField("id".to_string()));
    assert_eq!(Error::payload_too_large(10), Error::PayloadTooLarge(10));
    assert_eq!(Error::unsupported_version("2.0"), Error::UnsupportedVersion("2.0".to_string()));
}

#[test]
fn member_into_inner() {
    assert_eq!(Member(7u8).into_inner(), 7);
}

#[test]
fn error_messages() {
    assert_eq!(Error::missing_field("id").message(), "missing required field \"id\"");
    assert_eq!(Error::payload_too_large(10485760).message(), "payload exceeds limit of 10485760 B");
    assert_eq!(
        Error::unsupported_version("2.0").message(),
        "Version \"2.0\" is not yet supported by this implementation."
    );
    assert_eq!(Error::invalid_member_name("a,b").message(), "invalid member name \"a,b\"");
}
