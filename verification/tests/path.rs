use discord_desktop_fixer::path::{file_name, join, parent, path_less_of, same_path_of, sorted_unique_paths};

#[test]
fn paths_split_as_on_unix() {
    assert_eq!(file_name("/a/b/c"), Some("c".to_string()));
    assert_eq!(file_name("/a/b/c/"), Some("c".to_string()));
    assert_eq!(file_name("/a/b/.."), None);
    assert_eq!(file_name("/"), None);
    assert_eq!(parent("/a/b/c"), Some("/a/b".to_string()));
    assert_eq!(parent("/a//b/./c"), Some("/a/b".to_string()));
    assert_eq!(parent("/a"), Some("/".to_string()));
    assert_eq!(parent("/"), None);
    assert_eq!(parent("c"), Some("".to_string()));
}

#[test]
fn joining_follows_pathbuf() {
    assert_eq!(join("/a", "b"), "/a/b");
    assert_eq!(join("/a/", "b/c"), "/a/b/c");
    assert_eq!(join("/a", "/b"), "/b");
    assert_eq!(join("", "b"), "b");
}

#[test]
fn paths_compare_by_component() {
    assert!(same_path_of("/a//b/", "/a/b"));
    assert!(!same_path_of("/a/b", "/a/c"));
    assert!(path_less_of("/a/b", "/a/b/c"));
    assert!(path_less_of("/a/b c", "/a/b/c") == false);
    let sorted = sorted_unique_paths(&vec![
        "/u/z".to_string(),
        "/u/a".to_string(),
        "/u/z/".to_string(),
        "/u/a".to_string(),
    ]);
    assert_eq!(sorted, vec!["/u/a".to_string(), "/u/z".to_string()]);
}
