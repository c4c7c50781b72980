use eruspy::server::{next_action, sort_entries, Action, Event, FileEntry, ReplyBody, Route, TransferConfig};

fn cfg(allow_list: bool) -> TransferConfig {
    TransferConfig { root: "./storage".to_string(), allow_list }
}

fn json(a: &Action) -> Option<(u16, String)> {
    match a {
        Action::Respond(r) => match &r.body {
            ReplyBody::Json(t) => Some((r.status, t.clone())),
            _ => None,
        },
        _ => None,
    }
}

fn entry(name: &str, is_dir: bool, size: u64) -> FileEntry {
    FileEntry { name: name.to_string(), is_dir, size }
}

fn names(v: &[FileEntry]) -> Vec<(String, bool, u64)> {
    v.iter().map(|e| (e.name.clone(), e.is_dir, e.size)).collect()
}

#[test]
fn listing_disabled_is_forbidden() {
    let a = next_action(&cfg(false), Route::List, "", Event::Received);
    assert_eq!(json(&a), Some((403, "directory listing is disabled on this server".to_string())));
    let b = next_action(&cfg(false), Route::List, "../x", Event::Received);
    assert_eq!(json(&b), Some((403, "directory listing is disabled on this server".to_string())));
}

#[test]
fn traversal_is_bad_request() {
    for route in [Route::Upload, Route::Download, Route::UploadDir, Route::DownloadDir, Route::List] {
        let a = next_action(&cfg(true), route, "../secret", Event::Received);
        assert_eq!(json(&a), Some((400, "invalid path".to_string())));
    }
}

#[test]
fn uploads_check_parent_first() {
    match next_action(&cfg(true), Route::Upload, "/data/file.txt", Event::Received) {
        Action::CheckParent(p) => assert_eq!(p, "./storage/data/file.txt"),
        _ => panic!("expected a parent check"),
    }
    let a = next_action(&cfg(true), Route::UploadDir, "data", Event::ParentChecked(false));
    assert_eq!(json(&a), Some((400, "parent directory does not exist".to_string())));
    match next_action(&cfg(true), Route::UploadDir, "data", Event::ParentChecked(true)) {
        Action::Perform(p) => assert_eq!(p, "./storage/data"),
        _ => panic!("expected the work to be done"),
    }
}

#[test]
fn downloads_go_straight_to_work() {
    match next_action(&cfg(true), Route::Download, "a/b.txt", Event::Received) {
        Action::Perform(p) => assert_eq!(p, "./storage/a/b.txt"),
        _ => panic!("expected the work to be done"),
    }
    match next_action(&cfg(true), Route::List, "", Event::Received) {
        Action::Perform(p) => assert_eq!(p, "./storage"),
        _ => panic!("expected the work to be done"),
    }
}

#[test]
fn outcomes_decide_replies() {
    let c = cfg(true);
    assert_eq!(json(&next_action(&c, Route::Upload, "f", Event::Performed(true))), Some((200, "ok".to_string())));
    assert_eq!(json(&next_action(&c, Route::UploadDir, "f", Event::Performed(true))), Some((200, "ok".to_string())));
    assert_eq!(json(&next_action(&c, Route::Upload, "f", Event::Performed(false))), Some((500, "write failed".to_string())));
    assert_eq!(json(&next_action(&c, Route::Download, "f", Event::Performed(false))), Some((404, "file not found".to_string())));
    assert_eq!(json(&next_action(&c, Route::UploadDir, "f", Event::Performed(false))), Some((500, "unzip failed".to_string())));
    assert_eq!(json(&next_action(&c, Route::DownloadDir, "f", Event::Performed(false))), Some((500, "zip failed".to_string())));
    assert_eq!(
        json(&next_action(&c, Route::List, "f", Event::Performed(false))),
        Some((404, "path not found or not a directory".to_string()))
    );
    match next_action(&c, Route::Download, "f", Event::Performed(true)) {
        Action::Respond(r) => {
            assert_eq!(r.status, 200);
            assert!(matches!(r.body, ReplyBody::Data(ref t) if t == "application/octet-stream"));
        }
        _ => panic!("expected a reply"),
    }
    match next_action(&c, Route::DownloadDir, "f", Event::Performed(true)) {
        Action::Respond(r) => {
            assert_eq!(r.status, 200);
            assert!(matches!(r.body, ReplyBody::Data(ref t) if t == "application/zip"));
        }
        _ => panic!("expected a reply"),
    }
    match next_action(&c, Route::List, "f", Event::Performed(true)) {
        Action::Respond(r) => {
            assert_eq!(r.status, 200);
            assert!(matches!(r.body, ReplyBody::Listing));
        }
        _ => panic!("expected a reply"),
    }
}

#[test]
fn entries_sorted_directories_first_then_by_name() {
    let v = vec![
        entry("file.txt", false, 1024),
        entry("b", true, 0),
        entry("a.txt", false, 3),
        entry("folder", true, 0),
        entry("B.txt", false, 7),
    ];
    let s = sort_entries(v);
    assert_eq!(
        names(&s),
        vec![
            ("b".to_string(), true, 0),
            ("folder".to_string(), true, 0),
            ("B.txt".to_string(), false, 7),
            ("a.txt".to_string(), false, 3),
            ("file.txt".to_string(), false, 1024),
        ]
    );
}

#[test]
fn sort_is_stable_and_handles_prefixes() {
    let v = vec![entry("ab", false, 2), entry("a", false, 1), entry("ab", false, 3), entry("", true, 0)];
    let s = sort_entries(v);
    assert_eq!(
        names(&s),
        vec![("".to_string(), true, 0), ("a".to_string(), false, 1), ("ab".to_string(), false, 2), ("ab".to_string(), false, 3)]
    );
    assert!(sort_entries(Vec::new()).is_empty());
}

#[test]
fn sort_agrees_with_string_order() {
    let raw = ["é", "z", "Z", "ä", "a", "ab", "aa"];
    let v: Vec<FileEntry> = raw.iter().map(|n| entry(n, false, 0)).collect();
    let s = sort_entries(v);
    let mut expected: Vec<&str> = raw.to_vec();
    expected.sort();
    let got: Vec<String> = s.iter().map(|e| e.name.clone()).collect();
    assert_eq!(got, expected);
}

#[test]
fn directories_are_listed_with_size_zero() {
    let d = FileEntry::from_metadata("dir".to_string(), true, false, 4096);
    assert_eq!((d.name.as_str(), d.is_dir, d.size), ("dir", true, 0));
    let f = FileEntry::from_metadata("f".to_string(), false, true, 12);
    assert_eq!((f.name.as_str(), f.is_dir, f.size), ("f", false, 12));
}

#[test]
fn name_order() {
    assert!(eruspy::server::names_ordered("a", "b"));
    assert!(eruspy::server::names_ordered("a", "ab"));
    assert!(eruspy::server::names_ordered("Z", "a"));
    assert!(!eruspy::server::names_ordered("b", "a"));
    assert!(!eruspy::server::names_ordered("a", "a"));
    assert!(eruspy::server::names_ordered("", "a"));
}
