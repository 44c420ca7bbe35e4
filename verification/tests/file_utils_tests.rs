use project_cleanup::fs_model::{exists_in_path, DirListing};
use project_cleanup::text::{file_name, join_path, str_eq, str_le, sort_paths};

fn listing(files: &[&str], dirs: &[&str]) -> DirListing {
    DirListing {
        is_dir: true,
        files: files.iter().map(|s| s.to_string()).collect(),
        dirs: dirs.iter().map(|s| s.to_string()).collect(),
        override_text: None,
    }
}

#[test]
fn file_exists() {
    let l = listing(&["test_file.txt"], &[]);
    assert_eq!(exists_in_path(&l, "test_file.txt"), true);
}

#[test]
fn file_does_not_exist() {
    let l = listing(&[], &[]);
    assert_eq!(exists_in_path(&l, "test_file.txt"), false);
}

#[test]
fn directory_exists() {
    let l = listing(&[], &["test_dir"]);
    assert_eq!(exists_in_path(&l, "test_dir"), true);
}

#[test]
fn directory_does_not_exist() {
    let l = listing(&[], &[]);
    assert_eq!(exists_in_path(&l, "test_dir"), false);
}

#[test]
fn get_file_name() {
    assert_eq!(file_name("/tmp/somewhere/test_file.txt"), "test_file.txt");
}

#[test]
fn file_name_plain() {
    assert_eq!(file_name("plain"), "plain");
    assert_eq!(file_name("a/b/c"), "c");
    assert_eq!(file_name(""), "");
}

#[test]
fn file_name_trailing_slash_is_ignored() {
    assert_eq!(file_name("/usr/bin/"), "bin");
    assert_eq!(file_name("a//"), "a");
}

#[test]
fn file_name_with_no_file_name() {
    assert_eq!(file_name("/"), "");
    assert_eq!(file_name("a/.."), "");
    assert_eq!(file_name(".."), "");
    assert_eq!(file_name("./"), "");
}

#[test]
fn file_name_normalises_dot_components() {
    assert_eq!(file_name("a/."), "a");
    assert_eq!(file_name("."), "");
    assert_eq!(file_name("./a"), "a");
    assert_eq!(file_name("a/..."), "...");
    assert_eq!(file_name(".hidden"), ".hidden");
}

#[test]
fn string_helpers() {
    assert!(str_eq("abc", "abc"));
    assert!(!str_eq("abc", "abd"));
    assert!(!str_eq("abc", "ab"));
    assert_eq!(join_path("root", "sub"), "root/sub");
    assert!(str_le("abc", "abd"));
    assert!(str_le("ab", "abc"));
    assert!(!str_le("b", "abc"));
    assert!(str_le("same", "same"));
}

#[test]
fn sorting() {
    let v: Vec<String> = vec!["b/x".into(), "a/z".into(), "a/y".into(), "b/x".into()];
    let sorted = sort_paths(v);
    assert_eq!(sorted, vec!["a/y", "a/z", "b/x", "b/x"]);
}
