use simcheck::aggregate::{include_path, Submissions};

fn exts(v: &[&str]) -> Option<Vec<String>> {
    Some(v.iter().map(|s| s.to_string()).collect())
}

#[test]
fn extension_filter() {
    let f = exts(&["txt"]);
    assert!(include_path("student1/notes.txt", &f));
    assert!(!include_path("student1/image.png", &f));
}

#[test]
fn suffix_match_quirk() {
    let f = exts(&["s"]);
    assert!(include_path("student1/docs", &f));
    assert!(!include_path("student1/doc", &f));
}

#[test]
fn no_filter_includes_everything() {
    assert!(include_path("a/b.bin", &None));
    assert!(!include_path("a/b.bin", &Some(Vec::new())));
}

#[test]
fn several_filters() {
    let f = exts(&["rs", "py"]);
    assert!(include_path("x/main.py", &f));
    assert!(include_path("x/lib.rs", &f));
    assert!(!include_path("x/lib.c", &f));
    assert!(!include_path("s", &exts(&["longer.s"])));
}

#[test]
fn files_concatenate_per_directory() {
    let mut s = Submissions::new();
    assert!(s.is_empty());
    assert!(s.add_file("a".to_string(), b"abc".to_vec()));
    assert!(!s.add_file("b".to_string(), Vec::new()));
    assert!(s.add_file("b".to_string(), b"xy".to_vec()));
    assert!(s.add_file("a".to_string(), b"def".to_vec()));
    assert_eq!(s.len(), 2);
    assert_eq!(s.get(0).id, "a");
    assert_eq!(s.get(0).content, b"abcdef".to_vec());
    assert_eq!(s.get(1).id, "b");
    assert_eq!(s.get(1).content, b"xy".to_vec());
}

#[test]
fn empty_files_create_no_submission() {
    let mut s = Submissions::new();
    assert!(!s.add_file("a".to_string(), Vec::new()));
    assert!(s.is_empty());
}
