use eruspy::util::safe_join;

fn join(root: &str, rel: &str) -> Option<String> {
    safe_join(root, rel)
}

#[test]
fn joins_plain_relative_path() {
    assert_eq!(join("./storage", "data/file.txt"), Some("./storage/data/file.txt".to_string()));
}

#[test]
fn strips_leading_slashes() {
    assert_eq!(join("./storage", "/file.txt"), join("./storage", "file.txt"));
    assert_eq!(join("./storage", "///file.txt"), Some("./storage/file.txt".to_string()));
}

#[test]
fn rejects_parent_components() {
    assert_eq!(join("./storage", ".."), None);
    assert_eq!(join("./storage", "../etc/passwd"), None);
    assert_eq!(join("./storage", "a/../../b"), None);
    assert_eq!(join("./storage", "a/b/.."), None);
    assert_eq!(join("./storage", "/../x"), None);
}

#[test]
fn ignores_current_dir_and_empty_components() {
    assert_eq!(join("root", "./a//b/./c/"), Some("root/a/b/c".to_string()));
    assert_eq!(join("root", "."), Some("root".to_string()));
    assert_eq!(join("root", ""), Some("root".to_string()));
}

#[test]
fn dotted_names_are_ordinary() {
    assert_eq!(join("root", "...").as_deref(), Some("root/..."));
    assert_eq!(join("root", ".hidden/..x").as_deref(), Some("root/.hidden/..x"));
}

#[test]
fn root_separators_are_not_doubled() {
    assert_eq!(join("root/", "a").as_deref(), Some("root/a"));
    assert_eq!(join("", "a/b").as_deref(), Some("a/b"));
    assert_eq!(join("/", "a").as_deref(), Some("/a"));
}

#[test]
fn non_ascii_names_are_kept() {
    assert_eq!(join("r", "dir/fïlé.txt").as_deref(), Some("r/dir/fïlé.txt"));
}

#[test]
fn joined_path_starts_with_root() {
    for rel in ["a", "/a/b", "./x/./y", "x//y"] {
        let p = join("/srv/files", rel).unwrap();
        assert!(p.starts_with("/srv/files"));
        assert!(!p["/srv/files".len()..].split('/').any(|c| c == ".." || c == "."));
    }
}

#[test]
fn pieces_between_separators() {
    let p = eruspy::util::split_pieces("/a//b/");
    assert_eq!(p, vec!["", "a", "", "b", ""]);
    assert_eq!(eruspy::util::split_pieces(""), vec![""]);
    assert_eq!(eruspy::util::chars_of("añb"), vec!['a', 'ñ', 'b']);
}

#[test]
fn parent_matches_std_path_parent() {
    let cases = [
        "", "/", "//", "a", "/a", "a/b", "/a/b", "a/b/", "a//b", "a/./b", "a/b/.", "./a", ".", "./",
        "./storage/x.txt", "../a", "a/../b", "/a/b/c", "storage", "storage/", ".hidden/f",
    ];
    for c in cases {
        let ours = eruspy::util::parent_dir(c);
        let std_parent = std::path::Path::new(c).parent();
        assert_eq!(ours.as_deref().map(std::path::Path::new), std_parent, "parent of {c:?}");
    }
    assert_eq!(eruspy::util::parent_dir("/a/b").as_deref(), Some("/a"));
    assert_eq!(eruspy::util::parent_dir("a").as_deref(), Some(""));
    assert_eq!(eruspy::util::parent_dir("./a").as_deref(), Some("."));
    assert_eq!(eruspy::util::parent_dir("/"), None);
}
