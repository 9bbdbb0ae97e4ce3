use og::data::{upsert, Link};
use og::text::{clone_strings, contains_string};

#[test]
fn link_equality_is_structural() {
    let a = Link::Fs { dir: "/a".to_string() };
    let b = Link::Fs { dir: "/a".to_string() };
    let c = Link::Fs { dir: "/b".to_string() };
    let d = Link::Net { url: "/a".to_string() };
    assert!(a == b);
    assert!(a != c);
    assert!(a != d);
    assert!(
        Link::Net { url: "u".to_string() } == Link::Net { url: "u".to_string() }
    );
}

#[test]
fn upsert_replaces_and_appends() {
    let mut v: Vec<(String, String)> = Vec::new();
    upsert(&mut v, "origin".to_string(), "https://a".to_string());
    upsert(&mut v, "backup".to_string(), "https://b".to_string());
    upsert(&mut v, "origin".to_string(), "https://c".to_string());
    assert_eq!(
        v,
        vec![
            ("origin".to_string(), "https://c".to_string()),
            ("backup".to_string(), "https://b".to_string())
        ]
    );
}

#[test]
fn string_helpers_copy_and_search() {
    let v = vec!["a".to_string(), "b".to_string()];
    let w = clone_strings(&v);
    assert_eq!(v, w);
    assert!(contains_string(&v, &"b".to_string()));
    assert!(!contains_string(&v, &"c".to_string()));
}
