use api_stub::path_guard::{is_safe_rel_path, is_safe_segment};

#[test]
fn segments_that_are_refused() {
    assert!(!is_safe_segment(""));
    assert!(!is_safe_segment("."));
    assert!(!is_safe_segment(".."));
    assert!(!is_safe_segment("a/../b"));
    assert!(!is_safe_segment("/abs"));
    assert!(!is_safe_segment("a\\b"));
    assert!(!is_safe_segment("a/b/c"));
}

#[test]
fn segments_that_are_accepted() {
    assert!(is_safe_segment("a"));
    assert!(is_safe_segment("file.json"));
    assert!(is_safe_segment("..."));
    assert!(is_safe_segment("a b"));
}

#[test]
fn paths_that_are_refused() {
    assert!(!is_safe_rel_path(""));
    assert!(!is_safe_rel_path("."));
    assert!(!is_safe_rel_path(".."));
    assert!(!is_safe_rel_path("a/../b"));
    assert!(!is_safe_rel_path("/abs"));
    assert!(!is_safe_rel_path("a\\b"));
    assert!(!is_safe_rel_path("a/"));
    assert!(!is_safe_rel_path("a//b"));
    assert!(!is_safe_rel_path("a/./b"));
    assert!(!is_safe_rel_path("./a"));
}

#[test]
fn paths_that_are_accepted() {
    assert!(is_safe_rel_path("a"));
    assert!(is_safe_rel_path("a/b/c"));
    assert!(is_safe_rel_path("api/v1/ping"));
}
