use eruspy::archive::{archive_name, is_directory_name, is_safe_name, unzip_entries, zip_entries, ArchiveEntry, ArchiveError};

fn file(name: &str, data: &[u8]) -> ArchiveEntry {
    ArchiveEntry { name: name.to_string(), is_dir: false, data: data.to_vec() }
}

fn dir(name: &str) -> ArchiveEntry {
    ArchiveEntry { name: name.to_string(), is_dir: true, data: Vec::new() }
}

fn views(v: &[ArchiveEntry]) -> Vec<(String, bool, Vec<u8>)> {
    v.iter().map(|e| (e.name.clone(), e.is_dir, e.data.clone())).collect()
}

#[test]
fn archive_roundtrip() {
    let entries = vec![file("a.txt", b"alpha"), dir("sub/"), file("sub/b.txt", b"beta"), file("empty", b"")];
    let bytes = zip_entries(&entries).ok().unwrap();
    let back = unzip_entries(&bytes).ok().unwrap();
    assert_eq!(views(&back), views(&entries));
}

#[test]
fn directories_get_trailing_slash() {
    let entries = vec![dir("d")];
    let bytes = zip_entries(&entries).ok().unwrap();
    let back = unzip_entries(&bytes).ok().unwrap();
    assert_eq!(views(&back), vec![("d/".to_string(), true, Vec::new())]);
}

#[test]
fn empty_archive_roundtrip() {
    let bytes = zip_entries(&Vec::new()).ok().unwrap();
    assert!(unzip_entries(&bytes).ok().unwrap().is_empty());
}

#[test]
fn garbage_is_not_an_archive() {
    assert!(unzip_entries(b"not a zip archive").is_err());
}

#[test]
fn duplicate_names_are_refused() {
    assert!(zip_entries(&vec![file("x", b"1"), file("x", b"2")]).is_err());
}

#[test]
fn archive_names() {
    assert_eq!(archive_name("a\\b\\c.txt", false), "a/b/c.txt");
    assert_eq!(archive_name("sub", true), "sub/");
    assert_eq!(archive_name("x\\y", true), "x/y/");
    assert!(is_directory_name("sub/"));
    assert!(!is_directory_name("sub"));
    assert!(!is_directory_name(""));
}

fn crafted(names: &[&str]) -> Vec<u8> {
    let mut w = zip::ZipWriter::new(std::io::Cursor::new(Vec::new()));
    for n in names {
        w.start_file(*n, zip::write::SimpleFileOptions::default()).unwrap();
        std::io::Write::write_all(&mut w, b"payload").unwrap();
    }
    w.finish().unwrap().into_inner()
}

#[test]
fn escaping_names_are_refused() {
    for bad in ["../evil", "a/../../evil", "/etc/evil", ".."] {
        let bytes = crafted(&["ok.txt", bad]);
        assert!(matches!(unzip_entries(&bytes), Err(ArchiveError::UnsafeName(ref n)) if n == bad));
    }
    let fine = crafted(&["ok.txt", "a/./b..c"]);
    assert_eq!(unzip_entries(&fine).ok().unwrap().len(), 2);
}

#[test]
fn bytes_without_end_record_are_refused() {
    assert!(matches!(unzip_entries(b"hello"), Err(ArchiveError::Open(_))));
    assert!(matches!(unzip_entries(b""), Err(ArchiveError::Open(_))));
}

#[test]
fn long_names_are_refused_before_writing() {
    let long = "x".repeat(65536);
    let r = zip_entries(&vec![file("ok", b"1"), file(&long, b"2")]);
    assert!(matches!(r, Err(ArchiveError::NameTooLong(ref n)) if n.len() == 65536));
    let dir_long = "d".repeat(65535);
    assert!(matches!(zip_entries(&vec![dir(&dir_long)]), Err(ArchiveError::NameTooLong(_))));
    let just_fits = "y".repeat(65535);
    assert!(zip_entries(&vec![file(&just_fits, b"3")]).is_ok());
}

#[test]
fn directory_and_file_of_same_stored_name_clash() {
    assert!(matches!(zip_entries(&vec![dir("d"), dir("d/")]), Err(ArchiveError::Write(_))));
}

#[test]
fn safe_names() {
    assert!(is_safe_name("a/b.txt"));
    assert!(is_safe_name("dir/"));
    assert!(is_safe_name("..."));
    assert!(!is_safe_name("../x"));
    assert!(!is_safe_name("/x"));
    assert!(!is_safe_name("a/.."));
}

#[test]
fn refusals_name_their_cause() {
    assert!(matches!(unzip_entries(b"not a zip"), Err(ArchiveError::Open(_))));
    let bytes = crafted(&["a", "../b", "/c"]);
    assert!(matches!(unzip_entries(&bytes), Err(ArchiveError::UnsafeName(ref n)) if n == "../b"));
    assert!(matches!(zip_entries(&vec![file("same", b"1"), file("same", b"2")]), Err(ArchiveError::Write(_))));
}
