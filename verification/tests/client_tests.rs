use eruspy::client::{check_list_status, check_status, decimal_string, is_success, EruspyClient, FileEntry};

#[test]
fn new_strips_trailing_slashes() {
    let c = EruspyClient::new("http://localhost:3000/transfer///");
    assert_eq!(c.base_url(), "http://localhost:3000/transfer");
    let d = EruspyClient::new("http://localhost:3000/transfer");
    assert_eq!(d.base_url(), "http://localhost:3000/transfer");
}

#[test]
fn new_keeps_inner_slashes() {
    let c = EruspyClient::new("https://example.com/transfer");
    assert_eq!(c.base_url(), "https://example.com/transfer");
    assert_eq!(EruspyClient::new("///").base_url(), "");
}

#[test]
fn url_joins_endpoint_and_path() {
    let c = EruspyClient::new("http://192.168.1.10:3000/transfer/");
    assert_eq!(c.url("up", "remote/file.txt"), "http://192.168.1.10:3000/transfer/up?path=remote/file.txt");
    assert_eq!(c.url("list", ""), "http://192.168.1.10:3000/transfer/list?path=");
}

#[test]
fn success_codes() {
    assert!(is_success(200));
    assert!(is_success(204));
    assert!(is_success(299));
    assert!(!is_success(199));
    assert!(!is_success(300));
    assert!(!is_success(404));
}

#[test]
fn status_errors_carry_the_status() {
    assert_eq!(check_status(200, "200 OK"), Ok(()));
    assert_eq!(check_status(404, "404 Not Found"), Err("server returned 404 Not Found".to_string()));
    assert_eq!(
        check_list_status(403, "403 Forbidden", "\"directory listing is disabled on this server\""),
        Err("server returned 403 Forbidden: \"directory listing is disabled on this server\"".to_string())
    );
    assert_eq!(check_list_status(200, "200 OK", "ignored"), Ok(()));
}

#[test]
fn file_entry_clones() {
    let e = FileEntry { name: "a.txt".to_string(), is_dir: false, size: 3 };
    let f = e.clone();
    assert_eq!(f.name, "a.txt");
    assert!(!f.is_dir);
    assert_eq!(f.size, 3);
}

#[test]
fn repr_shows_all_fields() {
    let e = FileEntry { name: "a.txt".to_string(), is_dir: false, size: 1024 };
    assert_eq!(e.repr(), "FileEntry(name=\"a.txt\", is_dir=false, size=1024)");
    let d = FileEntry { name: "folder".to_string(), is_dir: true, size: 0 };
    assert_eq!(d.repr(), "FileEntry(name=\"folder\", is_dir=true, size=0)");
}

#[test]
fn repr_escapes_the_name() {
    let e = FileEntry { name: "say \"hi\"\n".to_string(), is_dir: false, size: 7 };
    assert_eq!(e.repr(), format!("FileEntry(name={:?}, is_dir={}, size={})", e.name, e.is_dir, e.size));
    assert_eq!(e.repr(), "FileEntry(name=\"say \\\"hi\\\"\\n\", is_dir=false, size=7)");
}

#[test]
fn decimal_matches_display() {
    for n in [0u64, 7, 9, 10, 99, 100, 12345, u64::MAX] {
        assert_eq!(decimal_string(n), n.to_string());
    }
}

#[test]
fn server_returned_message() {
    assert_eq!(eruspy::client::server_returned("500 Internal Server Error"), "server returned 500 Internal Server Error");
}
