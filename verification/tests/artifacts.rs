use propsim::Artifacts;
use std::path::PathBuf;

#[test]
fn insert_get_and_iterate_in_name_order() {
    let mut a = Artifacts::new();
    assert!(a.get("store").is_none());
    a.insert("store".to_string(), PathBuf::from("/tmp/store"));
    a.insert("latency.svg".to_string(), PathBuf::from("/tmp/l.svg"));
    a.insert("elle".to_string(), PathBuf::from("/tmp/e"));
    a.insert("store".to_string(), PathBuf::from("/tmp/store2"));
    assert_eq!(a.get("store"), Some(&PathBuf::from("/tmp/store2")));
    assert_eq!(a.get("elle"), Some(&PathBuf::from("/tmp/e")));
    assert!(a.get("nope").is_none());
    let names: Vec<&str> = a.iter().iter().map(|(n, _)| n.as_str()).collect();
    assert_eq!(names, vec!["elle", "latency.svg", "store"]);
}

#[test]
fn prefixes_sort_first() {
    let mut a = Artifacts::new();
    a.insert("ab".to_string(), PathBuf::from("2"));
    a.insert("a".to_string(), PathBuf::from("1"));
    a.insert("".to_string(), PathBuf::from("0"));
    let names: Vec<&str> = a.iter().iter().map(|(n, _)| n.as_str()).collect();
    assert_eq!(names, vec!["", "a", "ab"]);
}
