//! Packing a directory tree into a zip archive held in memory, and reading
//! the entries back out of one. Walking and writing the file system is left
//! to the caller; this module only turns entries into bytes and back.
use std::io::Cursor;
use std::io::Read;
use std::io::Write;
use vstd::prelude::*;
use vstd::string::*;
use vstd::utf8::encode_utf8;
use crate::util::escapes;
use crate::util::joined;
use crate::util::join_all;
use crate::util::components;
use crate::util::is_normal_component;
use crate::util::law_joined_stays_below_root;
use crate::util::law_escapes_means_parent_step;
use crate::util::parent_step_at;
use zip::read::ZipFile;
use zip::result::ZipError;
use zip::write::SimpleFileOptions;
use zip::ZipArchive;
use zip::ZipWriter;

verus! {

#[verifier::external_type_specification]
#[verifier::external_body]
#[verifier::reject_recursive_types(T)]
pub struct ExCursor<T>(Cursor<T>);

#[verifier::external_type_specification]
#[verifier::external_body]
#[verifier::reject_recursive_types(R)]
pub struct ExZipArchive<R>(ZipArchive<R>);

#[verifier::external_type_specification]
#[verifier::external_body]
pub struct ExZipError(ZipError);

#[verifier::external_type_specification]
#[verifier::external_body]
pub struct ExIoError(std::io::Error);

/// One entry of an archive: its path inside the archive (with `/` as the
/// separator, and a trailing `/` for a directory), whether it is a
/// directory, and the file's bytes (empty for a directory).
pub struct ArchiveEntry {
    pub name: String,
    pub is_dir: bool,
    pub data: Vec<u8>,
}

impl View for ArchiveEntry {
    type V = (Seq<char>, bool, Seq<u8>);

    open spec fn view(&self) -> (Seq<char>, bool, Seq<u8>) {
        (self.name@, self.is_dir, self.data@)
    }
}

/// Why packing or unpacking an archive failed.
pub enum ArchiveError {
    /// The bytes could not be read as a zip archive.
    Open(ZipError),
    /// An entry of the archive could not be opened.
    Entry(ZipError),
    /// The zip writer refused an entry, or could not finish the archive.
    Write(ZipError),
    /// Entry data could not be written into or read out of the archive.
    Io(std::io::Error),
    /// An entry name is too long for the zip format (this name).
    NameTooLong(String),
    /// An entry name would leave the directory it is extracted into
    /// (this name): it has a `..` component or starts with `/`.
    UnsafeName(String),
}

/// A zip writer over an in-memory buffer.
#[verifier::external_body]
pub struct ArchiveWriter {
    inner: ZipWriter<Cursor<Vec<u8>>>,
}

/// One entry of an open archive, positioned to be read.
#[verifier::external_body]
pub struct ArchiveFile<'a, 'b> {
    file: ZipFile<'a, Cursor<&'b [u8]>>,
}

/// The entries that a writer has been given so far, in order: each entry's
/// stored name and the data written into it.
pub uninterp spec fn written_entries(w: ArchiveWriter) -> Seq<(Seq<char>, Seq<u8>)>;

/// Whether a file entry has been started in the writer and is open for data.
pub uninterp spec fn file_open(w: ArchiveWriter) -> bool;

/// The entries that an opened archive holds, in central-directory order:
/// each entry's name, whether it can be opened by index, and its
/// decompressed data when it opens and reads back in full (`None` when it
/// cannot be read).
pub uninterp spec fn archive_entries(a: ZipArchive<Cursor<&[u8]>>) -> Seq<
    (Seq<char>, bool, Option<Seq<u8>>),
>;

/// What reading the bytes as a zip archive gives: `None` when they cannot
/// be opened as one, else its entries as `archive_entries` describes them.
pub uninterp spec fn zip_contents(bytes: Seq<u8>) -> Option<Seq<(Seq<char>, bool, Option<Seq<u8>>)>>;

/// The name of an opened entry, and the rest of its data when that reads
/// back in full (`None` when it cannot be read).
pub uninterp spec fn file_entry(f: ArchiveFile) -> (Seq<char>, Option<Seq<u8>>);

/// The name under which the zip writer stores a directory: a `/` is
/// appended unless the name already ends in `/` or `\`.
pub open spec fn directory_name(name: Seq<char>) -> Seq<char> {
    if name.len() > 0 && (name.last() == '/' || name.last() == '\\') {
        name
    } else {
        name.push('/')
    }
}

/// The entries with `data` appended to the data of the last one.
pub open spec fn appended_to_last(s: Seq<(Seq<char>, Seq<u8>)>, data: Seq<u8>) -> Seq<
    (Seq<char>, Seq<u8>),
> {
    if s.len() == 0 {
        s
    } else {
        s.update(s.len() - 1, (s.last().0, s.last().1 + data))
    }
}

/// The names of written entries.
pub open spec fn written_names(s: Seq<(Seq<char>, Seq<u8>)>) -> Seq<Seq<char>> {
    s.map_values(|x: (Seq<char>, Seq<u8>)| x.0)
}

/// The largest file that is packed without fail: 2 GiB. Deflate output
/// (with a stored-block fallback) stays well within the zip format's
/// 4 GiB limit for data of this size.
pub open spec fn max_packed_file() -> nat {
    0x8000_0000
}

/// Whether every written entry's data is at most `max_packed_file` bytes.
pub open spec fn data_fits(s: Seq<(Seq<char>, Seq<u8>)>) -> bool {
    forall|i: int| 0 <= i < s.len() ==> (#[trigger] s[i]).1.len() <= max_packed_file()
}

/// Written entries as an archive reads them back: every entry opens and
/// reads back in full.
pub open spec fn readable(s: Seq<(Seq<char>, Seq<u8>)>) -> Seq<(Seq<char>, bool, Option<Seq<u8>>)> {
    s.map_values(|x: (Seq<char>, Seq<u8>)| (x.0, true, Some(x.1)))
}

/// Whether the bytes hold the end-of-central-directory signature
/// `PK\x05\x06` somewhere; every zip archive ends with that record.
pub open spec fn has_end_signature(bytes: Seq<u8>) -> bool {
    exists|i: int|
        0 <= i && i + 4 <= bytes.len() && #[trigger] bytes[i] == 0x50u8 && bytes[i + 1] == 0x4bu8
            && bytes[i + 2] == 0x05u8 && bytes[i + 3] == 0x06u8
}

/// `ZipWriter::new` over an empty in-memory cursor: a writer holding no
/// entries, with no file open.
#[verifier::external_body]
fn writer_new() -> (w: ArchiveWriter)
    ensures
        written_entries(w) == Seq::<(Seq<char>, Seq<u8>)>::empty(),
        !file_open(w),
{
    ArchiveWriter { inner: ZipWriter::new(Cursor::new(Vec::new())) }
}

/// `ZipWriter::add_directory` with default options. The stored name gets a
/// trailing `/` unless it ends in `/` or `\` already, and must fit the
/// format's 65,535-byte limit (a longer one makes the writer panic).
/// It is refused when an entry of that name was written already; it
/// succeeds when none was and the data written so far is within
/// `max_packed_file` per entry (so that finishing the open file succeeds).
/// On success the writer holds one more entry, a directory with no data,
/// and no file is open.
#[verifier::external_body]
fn writer_add_directory(w: &mut ArchiveWriter, name: &str) -> (r: Result<(), ZipError>)
    requires
        name.spec_bytes().len() < 65535,
    ensures
        r is Ok ==> written_entries(*final(w)) == written_entries(*old(w)).push(
            (directory_name(name@), Seq::<u8>::empty()),
        ) && !file_open(*final(w)),
        written_names(written_entries(*old(w))).contains(directory_name(name@)) ==> r is Err,
        !written_names(written_entries(*old(w))).contains(directory_name(name@)) && data_fits(
            written_entries(*old(w)),
        ) ==> r is Ok,
{
    w.inner.add_directory(name, SimpleFileOptions::default())
}

/// `ZipWriter::start_file` with default options. The name must fit the
/// format's 65,535-byte limit (a longer one makes the writer panic). It is
/// refused when an entry of that name was written already; it succeeds
/// when none was and the data written so far is within `max_packed_file`
/// per entry. On success the writer holds one more entry, a file with this
/// name and, so far, no data, and that file is open.
#[verifier::external_body]
fn writer_start_file(w: &mut ArchiveWriter, name: &str) -> (r: Result<(), ZipError>)
    requires
        name.spec_bytes().len() <= 65535,
    ensures
        r is Ok ==> written_entries(*final(w)) == written_entries(*old(w)).push(
            (name@, Seq::<u8>::empty()),
        ) && file_open(*final(w)),
        written_names(written_entries(*old(w))).contains(name@) ==> r is Err,
        !written_names(written_entries(*old(w))).contains(name@) && data_fits(
            written_entries(*old(w)),
        ) ==> r is Ok,
{
    w.inner.start_file(name, SimpleFileOptions::default())
}

/// `Write::write_all` on the zip writer: on success the bytes have been
/// added to the data of the file started last. It succeeds when a file is
/// open and its data stays within 4 GiB - 1 bytes; bytes are refused when
/// no file is open, or when the file's data would pass that limit (the
/// writer does not use the large-file option).
#[verifier::external_body]
fn writer_write_all(w: &mut ArchiveWriter, data: &[u8]) -> (r: Result<(), std::io::Error>)
    ensures
        r is Ok ==> written_entries(*final(w)) == appended_to_last(
            written_entries(*old(w)),
            data@,
        ) && file_open(*final(w)) == file_open(*old(w)),
        file_open(*old(w)) && written_entries(*old(w)).len() > 0 && written_entries(
            *old(w),
        ).last().1.len() + data@.len() <= 0xFFFF_FFFF ==> r is Ok,
        data@.len() > 0 && (!file_open(*old(w)) || written_entries(*old(w)).len() == 0
            || written_entries(*old(w)).last().1.len() + data@.len() > 0xFFFF_FFFF) ==> r is Err,
{
    w.inner.write_all(data)
}

/// `ZipWriter::finish`, then the buffer taken out of its cursor. It
/// succeeds when every entry's data is within `max_packed_file`; on
/// success the bytes open as an archive whose entries, in order, are
/// exactly the entries written, each of which opens and reads back in full.
#[verifier::external_body]
fn writer_finish(w: ArchiveWriter) -> (r: Result<Vec<u8>, ZipError>)
    ensures
        r matches Ok(bytes) ==> zip_contents(bytes@) == Some(readable(written_entries(w))),
        data_fits(written_entries(w)) ==> r is Ok,
{
    w.inner.finish().map(|c| c.into_inner())
}

/// `ZipArchive::new` over a cursor on the bytes: it succeeds exactly when
/// the bytes can be opened as an archive, and then holds their entries.
/// Bytes without an end-of-central-directory signature never open.
#[verifier::external_body]
fn archive_open(data: &[u8]) -> (r: Result<ZipArchive<Cursor<&[u8]>>, ZipError>)
    ensures
        r is Ok <==> zip_contents(data@) is Some,
        r matches Ok(a) ==> zip_contents(data@) == Some(archive_entries(a)),
        !has_end_signature(data@) ==> r is Err,
{
    ZipArchive::new(Cursor::new(data))
}

/// `ZipArchive::len`: the number of entries.
#[verifier::external_body]
fn archive_len(a: &ZipArchive<Cursor<&[u8]>>) -> (r: usize)
    ensures
        r == archive_entries(*a).len(),
{
    a.len()
}

/// `ZipArchive::by_index`: it succeeds exactly for an index within the
/// archive whose entry opens, giving that entry with all of its data still
/// to be read. Opening an entry leaves the entries of the archive as they
/// were.
#[verifier::external_body]
fn archive_by_index<'a, 'b>(a: &'a mut ZipArchive<Cursor<&'b [u8]>>, i: usize) -> (r: Result<
    ArchiveFile<'a, 'b>,
    ZipError,
>)
    ensures
        archive_entries(*final(a)) == archive_entries(*old(a)),
        r is Ok <==> i < archive_entries(*old(a)).len() && archive_entries(*old(a))[i as int].1,
        r matches Ok(f) ==> file_entry(f) == (
            archive_entries(*old(a))[i as int].0,
            archive_entries(*old(a))[i as int].2,
        ),
{
    a.by_index(i).map(|file| ArchiveFile { file })
}

/// `ZipFile::name`: the entry's name.
#[verifier::external_body]
fn file_name(f: &ArchiveFile) -> (r: String)
    ensures
        r@ == file_entry(*f).0,
{
    f.file.name().to_owned()
}

/// `Read::read_to_end` on an opened entry, into an empty buffer: it
/// succeeds exactly when the rest of the entry's data reads back in full,
/// and gives that data.
#[verifier::external_body]
fn file_read_all(f: &mut ArchiveFile) -> (r: Result<Vec<u8>, std::io::Error>)
    ensures
        r is Ok <==> file_entry(*old(f)).1 is Some,
        r matches Ok(v) ==> file_entry(*old(f)).1 == Some(v@),
{
    let mut buf = Vec::new();
    f.file.read_to_end(&mut buf).map(|_| buf)
}

/// How an entry is stored by `zip_entries`: a directory under its
/// directory name with no data, a file under its name with its data.
pub open spec fn stored_entry(e: (Seq<char>, bool, Seq<u8>)) -> (Seq<char>, Seq<u8>) {
    if e.1 {
        (directory_name(e.0), Seq::<u8>::empty())
    } else {
        (e.0, e.2)
    }
}

/// How a sequence of entries is stored, entry by entry.
pub open spec fn stored_listing(es: Seq<(Seq<char>, bool, Seq<u8>)>) -> Seq<(Seq<char>, Seq<u8>)> {
    es.map_values(|e: (Seq<char>, bool, Seq<u8>)| stored_entry(e))
}

/// The names under which a sequence of entries is stored.
pub open spec fn stored_names(es: Seq<(Seq<char>, bool, Seq<u8>)>) -> Seq<Seq<char>> {
    es.map_values(|e: (Seq<char>, bool, Seq<u8>)| stored_entry(e).0)
}

/// Whether an entry's name fits the zip format once stored: at most
/// 65,535 bytes of UTF-8 for a file, at most 65,534 for a directory (whose
/// stored name may gain a `/`).
pub open spec fn name_fits(e: (Seq<char>, bool, Seq<u8>)) -> bool {
    if e.1 {
        encode_utf8(e.0).len() < 65535
    } else {
        encode_utf8(e.0).len() <= 65535
    }
}

/// Whether every entry's name fits the zip format.
pub open spec fn all_names_fit(es: Seq<(Seq<char>, bool, Seq<u8>)>) -> bool {
    forall|i: int| 0 <= i < es.len() ==> name_fits(#[trigger] es[i])
}

/// Whether every file's data stays within the zip format's limit without
/// the large-file option: at most 4 GiB - 1 bytes.
pub open spec fn files_within_format(es: Seq<(Seq<char>, bool, Seq<u8>)>) -> bool {
    forall|i: int| 0 <= i < es.len() ==> !(#[trigger] es[i]).1 ==> es[i].2.len() <= 0xFFFF_FFFF
}

/// Whether every file's data is at most `max_packed_file` bytes.
pub open spec fn files_fit(es: Seq<(Seq<char>, bool, Seq<u8>)>) -> bool {
    forall|i: int| 0 <= i < es.len() ==> !(#[trigger] es[i]).1 ==> es[i].2.len() <= max_packed_file()
}

/// Whether an archive name names a directory: it ends in `/`.
pub open spec fn names_directory(name: Seq<char>) -> bool {
    name.len() > 0 && name.last() == '/'
}

/// Whether an entry name stays inside the directory it is extracted into:
/// it has no `..` component and does not start with `/`.
pub open spec fn name_is_safe(name: Seq<char>) -> bool {
    !escapes(name) && !(name.len() > 0 && name[0] == '/')
}

/// Whether `unzip_entries` takes an entry read from an archive: it opens,
/// its name is safe, and a file's data reads back in full (a directory's
/// data is not read).
pub open spec fn extractable(x: (Seq<char>, bool, Option<Seq<u8>>)) -> bool {
    &&& x.1
    &&& name_is_safe(x.0)
    &&& names_directory(x.0) || x.2 is Some
}

/// How `unzip_entries` reads an entry back: a name ending in `/` is a
/// directory with no data; anything else is a file with its data.
pub open spec fn extracted(x: (Seq<char>, bool, Option<Seq<u8>>)) -> (Seq<char>, bool, Seq<u8>) {
    if names_directory(x.0) {
        (x.0, true, Seq::<u8>::empty())
    } else {
        (x.0, false, x.2->0)
    }
}

/// What `unzip_entries` gives for the bytes: `None` when they do not open
/// as an archive or some entry is not extractable, else every entry as
/// extracted, in order.
pub open spec fn unzipped(bytes: Seq<u8>) -> Option<Seq<(Seq<char>, bool, Seq<u8>)>> {
    match zip_contents(bytes) {
        None => None,
        Some(items) => if forall|i: int| 0 <= i < items.len() ==> extractable(#[trigger] items[i]) {
            Some(items.map_values(|x: (Seq<char>, bool, Option<Seq<u8>>)| extracted(x)))
        } else {
            None
        },
    }
}

/// Whether entry `k` is the first entry of the archive contents that
/// `unzip_entries` cannot take.
pub open spec fn first_refused(
    contents: Option<Seq<(Seq<char>, bool, Option<Seq<u8>>)>>,
    k: int,
) -> bool {
    &&& contents is Some
    &&& 0 <= k < contents->0.len()
    &&& !extractable(contents->0[k])
    &&& forall|j: int| 0 <= j < k ==> extractable(#[trigger] contents->0[j])
}

/// The error `unzip_entries` gives for the first entry it cannot take: an
/// entry that does not open gives `Entry`; one that opens but has an
/// unsafe name gives `UnsafeName` with that name; a file whose data does
/// not read back gives `Io`.
pub open spec fn refusal_for(
    x: (Seq<char>, bool, Option<Seq<u8>>),
    r: Result<Vec<ArchiveEntry>, ArchiveError>,
) -> bool {
    if !x.1 {
        r matches Err(ArchiveError::Entry(_))
    } else if !name_is_safe(x.0) {
        r matches Err(ArchiveError::UnsafeName(n)) && n@ == x.0
    } else {
        r matches Err(ArchiveError::Io(_))
    }
}

/// The views of a vector of entries.
pub open spec fn entry_views(es: Seq<ArchiveEntry>) -> Seq<(Seq<char>, bool, Seq<u8>)> {
    es.map_values(|e: ArchiveEntry| e@)
}

/// An entry that reads back as itself: a directory's name ends in `/` and
/// it has no data; a file's name does not end in `/`.
pub open spec fn is_well_formed_entry(e: (Seq<char>, bool, Seq<u8>)) -> bool {
    &&& e.1 <==> names_directory(e.0)
    &&& e.1 ==> e.2.len() == 0
}

/// The name under which a path relative to the archived directory is
/// stored: every `\` becomes `/`, and a directory gets a trailing `/`.
pub open spec fn archive_name_of(rel: Seq<char>, is_dir: bool) -> Seq<char> {
    let slashed = rel.map_values(|c: char| if c == '\\' { '/' } else { c });
    if is_dir {
        slashed.push('/')
    } else {
        slashed
    }
}

/// Whether an archive name names a directory: it ends in `/`.
pub fn is_directory_name(name: &str) -> (b: bool)
    ensures
        b == names_directory(name@),
{
    let n = name.unicode_len();
    n > 0 && name.get_char(n - 1) == '/'
}

/// Whether an entry name stays inside the directory it is extracted into:
/// no `..` component, and no leading `/`.
pub fn is_safe_name(name: &str) -> (b: bool)
    ensures
        b == name_is_safe(name@),
{
    let n = name.unicode_len();
    if n > 0 && name.get_char(0) == '/' {
        return false;
    }
    crate::util::safe_join("", name).is_some()
}

/// The name under which a path relative to the archived directory is
/// stored: `\` separators become `/`, and a directory gets a trailing `/`.
pub fn archive_name(rel: &str, is_dir: bool) -> (r: String)
    ensures
        r@ == archive_name_of(rel@, is_dir),
{
    let cs = crate::util::chars_of(rel);
    let mut out = String::new();
    let mut i: usize = 0;
    while i < cs.len()
        invariant
            cs@ == rel@,
            i <= cs@.len(),
            out@ == rel@.take(i as int).map_values(|c: char| if c == '\\' { '/' } else { c }),
        decreases cs@.len() - i,
    {
        let c = cs[i];
        proof {
            reveal_strlit("/");
        }
        if c == '\\' {
            out.append("/");
        } else {
            let piece = rel.substring_char(i, i + 1);
            assert(piece@ == seq![c]);
            out.append(piece);
        }
        assert(rel@.take(i + 1) == rel@.take(i as int).push(c));
        i = i + 1;
    }
    assert(rel@.take(cs@.len() as int) == rel@);
    if is_dir {
        proof {
            reveal_strlit("/");
        }
        out.append("/");
    }
    out
}

/// Whether the entry's name fits the zip format (see `name_fits`).
fn entry_name_fits(e: &ArchiveEntry) -> (b: bool)
    ensures
        b == name_fits(e@),
{
    let n = e.name.as_str().as_bytes().len();
    if e.is_dir {
        n < 65535
    } else {
        n <= 65535
    }
}

/// Pack the entries, in order, into a zip archive held in memory, with
/// default options (deflate compression for files).
///
/// A name too long for the format is refused before anything is written
/// (`NameTooLong`). A file of more than 4 GiB - 1 bytes is never packed.
/// When two entries are stored under the same name the archive is refused,
/// with `Write` when every file is within that limit; it is made when the
/// names are distinct and every file holds at most 2 GiB. On success the bytes open as an archive that reads
/// back as the entries: each directory under its directory name with no
/// data, each file under its name with its data.
pub fn zip_entries(entries: &Vec<ArchiveEntry>) -> (r: Result<Vec<u8>, ArchiveError>)
    ensures
        r matches Err(ArchiveError::NameTooLong(_)) <==> !all_names_fit(entry_views(entries@)),
        r is Ok ==> stored_names(entry_views(entries@)).no_duplicates(),
        r is Ok ==> files_within_format(entry_views(entries@)),
        all_names_fit(entry_views(entries@)) && !stored_names(
            entry_views(entries@),
        ).no_duplicates() && files_within_format(entry_views(entries@)) ==> r matches Err(
            ArchiveError::Write(_),
        ),
        all_names_fit(entry_views(entries@)) && stored_names(entry_views(entries@)).no_duplicates()
            && files_fit(entry_views(entries@)) ==> r is Ok,
        r matches Ok(bytes) ==> zip_contents(bytes@) == Some(
            readable(stored_listing(entry_views(entries@))),
        ),
{
    let ghost views = entry_views(entries@);
    let mut k: usize = 0;
    while k < entries.len()
        invariant
            k <= entries@.len(),
            views == entry_views(entries@),
            forall|j: int| 0 <= j < k ==> name_fits(#[trigger] views[j]),
        decreases entries@.len() - k,
    {
        if !entry_name_fits(&entries[k]) {
            assert(!name_fits(views[k as int]));
            return Err(ArchiveError::NameTooLong(entries[k].name.clone()));
        }
        k = k + 1;
    }
    let mut w = writer_new();
    let mut i: usize = 0;
    while i < entries.len()
        invariant
            i <= entries@.len(),
            views == entry_views(entries@),
            all_names_fit(views),
            written_entries(w) == stored_listing(views.take(i as int)),
            written_names(written_entries(w)).no_duplicates(),
            written_names(written_entries(w)) == stored_names(views.take(i as int)),
            files_fit(views) ==> data_fits(written_entries(w)),
            forall|j: int|
                0 <= j < i ==> !(#[trigger] views[j]).1 ==> views[j].2.len() <= 0xFFFF_FFFF,
        decreases entries@.len() - i,
    {
        let e = &entries[i];
        let ghost before = written_entries(w);
        let ghost ev = views[i as int];
        let ghost sname = stored_entry(ev).0;
        proof {
            assert(name_fits(ev));
            if stored_names(views).no_duplicates() {
                assert(!written_names(before).contains(sname)) by {
                    if written_names(before).contains(sname) {
                        let j = choose|j: int|
                            0 <= j < written_names(before).len() && #[trigger] written_names(
                                before,
                            )[j] == sname;
                        assert(stored_names(views.take(i as int))[j] == stored_names(views)[j]);
                        assert(stored_names(views)[i as int] == sname);
                    }
                }
            }
        }
        if e.is_dir {
            match writer_add_directory(&mut w, e.name.as_str()) {
                Ok(()) => {},
                Err(err) => {
                    proof {
                        if stored_names(views).no_duplicates() && files_fit(views) {
                            assert(!written_names(before).contains(sname));
                        }
                    }
                    return Err(ArchiveError::Write(err));
                },
            }
        } else {
            match writer_start_file(&mut w, e.name.as_str()) {
                Ok(()) => {},
                Err(err) => {
                    return Err(ArchiveError::Write(err));
                },
            }
            proof {
                assert(written_entries(w).last().1.len() == 0);
            }
            match writer_write_all(&mut w, e.data.as_slice()) {
                Ok(()) => {},
                Err(err) => {
                    proof {
                        assert(e.data@.len() > 0xFFFF_FFFF);
                        assert(!files_within_format(views)) by {
                            assert(!views[i as int].1);
                        }
                    }
                    return Err(ArchiveError::Io(err));
                },
            }
            proof {
                assert(e.data@.len() <= 0xFFFF_FFFF);
            }
            assert(Seq::<u8>::empty() + e.data@ == e.data@);
        }
        proof {
            assert(views.take(i + 1) == views.take(i as int).push(ev));
            assert(entries@.take(i + 1) == entries@.take(i as int).push(entries@[i as int]));
            let after = written_entries(w);
            assert(after == before.push(stored_entry(ev)));
            assert(after == stored_listing(views.take(i + 1)));
            assert(written_names(after) =~= written_names(before).push(sname));
            assert(stored_names(views.take(i + 1)) =~= stored_names(views.take(i as int)).push(
                sname,
            ));
            assert(written_names(after).no_duplicates()) by {
                assert(!written_names(before).contains(sname));
                assert forall|a: int, b: int|
                    0 <= a < b < written_names(after).len() implies written_names(after)[a]
                    != written_names(after)[b] by {
                    if b == written_names(before).len() {
                        assert(written_names(after)[a] == written_names(before)[a]);
                    } else {
                        assert(written_names(after)[a] == written_names(before)[a]);
                        assert(written_names(after)[b] == written_names(before)[b]);
                    }
                }
            }
            if files_fit(views) {
                assert forall|j: int| 0 <= j < after.len() implies (#[trigger] after[j]).1.len()
                    <= max_packed_file() by {
                    if j < before.len() {
                        assert(after[j] == before[j]);
                    } else {
                        assert(after[j] == stored_entry(ev));
                    }
                }
            }
        }
        i = i + 1;
    }
    assert(views.take(entries@.len() as int) == views);
    match writer_finish(w) {
        Ok(bytes) => Ok(bytes),
        Err(err) => Err(ArchiveError::Write(err)),
    }
}

proof fn lemma_first_refused_unique(contents: Option<Seq<(Seq<char>, bool, Option<Seq<u8>>)>>, i: int)
    requires
        first_refused(contents, i),
    ensures
        forall|k: int| #[trigger] first_refused(contents, k) ==> k == i,
{
    assert forall|k: int| #[trigger] first_refused(contents, k) implies k == i by {
        if k < i {
            assert(extractable(contents->0[k]));
        } else if k > i {
            assert(extractable(contents->0[i]));
        }
    }
}

/// Read every entry of the zip archive in `data`, in order. An entry whose
/// name ends in `/` is a directory, and its data is not read; any other
/// entry is a file, read in full. An entry whose name would leave the
/// directory it is extracted into (a `..` component, or a leading `/`) is
/// refused.
///
/// It succeeds exactly when the bytes open as an archive and every entry
/// opens, has a safe name, and (for a file) reads back in full; bytes with
/// no end-of-central-directory signature are refused. Bytes that do not
/// open give `Open`; otherwise the first entry that cannot be taken decides
/// the error (see `refusal_for`).
pub fn unzip_entries(data: &[u8]) -> (r: Result<Vec<ArchiveEntry>, ArchiveError>)
    ensures
        r is Ok <==> unzipped(data@) is Some,
        r matches Ok(es) ==> unzipped(data@) == Some(entry_views(es@)),
        !has_end_signature(data@) ==> r is Err,
        zip_contents(data@) is None ==> r matches Err(ArchiveError::Open(_)),
        forall|k: int|
            #[trigger] first_refused(zip_contents(data@), k) ==> refusal_for(
                zip_contents(data@)->0[k],
                r,
            ),
{
    let mut archive = match archive_open(data) {
        Ok(a) => a,
        Err(err) => {
            return Err(ArchiveError::Open(err));
        },
    };
    let ghost items = archive_entries(archive);
    let n = archive_len(&archive);
    let mut out: Vec<ArchiveEntry> = Vec::new();
    let mut i: usize = 0;
    while i < n
        invariant
            i <= n,
            n == items.len(),
            archive_entries(archive) == items,
            zip_contents(data@) == Some(items),
            has_end_signature(data@),
            forall|j: int| 0 <= j < i ==> extractable(#[trigger] items[j]),
            entry_views(out@) == items.take(i as int).map_values(
                |x: (Seq<char>, bool, Option<Seq<u8>>)| extracted(x),
            ),
        decreases n - i,
    {
        let mut file = match archive_by_index(&mut archive, i) {
            Ok(f) => f,
            Err(err) => {
                let r = Err(ArchiveError::Entry(err));
                proof {
                    lemma_first_refused_unique(zip_contents(data@), i as int);
                }
                return r;
            },
        };
        let name = file_name(&file);
        if !is_safe_name(name.as_str()) {
            let r = Err(ArchiveError::UnsafeName(name));
            proof {
                lemma_first_refused_unique(zip_contents(data@), i as int);
            }
            return r;
        }
        let is_dir = is_directory_name(name.as_str());
        let contents = if is_dir {
            Vec::new()
        } else {
            match file_read_all(&mut file) {
                Ok(v) => v,
                Err(err) => {
                    let r = Err(ArchiveError::Io(err));
                    proof {
                        lemma_first_refused_unique(zip_contents(data@), i as int);
                    }
                    return r;
                },
            }
        };
        let entry = ArchiveEntry { name, is_dir, data: contents };
        let ghost prev = out@;
        out.push(entry);
        proof {
            assert(extractable(items[i as int]));
            assert(entry@ == extracted(items[i as int]));
            assert(items.take(i + 1) == items.take(i as int).push(items[i as int]));
            assert(out@ == prev.push(entry));
            assert(entry_views(out@) == entry_views(prev).push(entry@));
            assert(items.take(i + 1).map_values(|x: (Seq<char>, bool, Option<Seq<u8>>)| extracted(x))
                == items.take(i as int).map_values(
                |x: (Seq<char>, bool, Option<Seq<u8>>)| extracted(x),
            ).push(extracted(items[i as int])));
        }
        i = i + 1;
    }
    assert(items.take(n as int) == items);
    Ok(out)
}

/// Entries named by `archive_name` read back as themselves: a directory
/// (with no data) always, and a file whenever its relative path does not
/// end in a separator, which is never the case for a file found by walking
/// a directory tree.
pub proof fn law_archive_names_read_back(rel: Seq<char>, is_dir: bool, data: Seq<u8>)
    requires
        is_dir ==> data.len() == 0,
        !is_dir && rel.len() > 0 ==> rel.last() != '/' && rel.last() != '\\',
    ensures
        is_well_formed_entry((archive_name_of(rel, is_dir), is_dir, data)),
{
    let slashed = rel.map_values(|c: char| if c == '\\' { '/' } else { c });
    if !is_dir && rel.len() > 0 {
        assert(slashed.last() == slashed[rel.len() - 1]);
    }
}

/// Unpacking what was packed gives the entries back: when the bytes read
/// as the stored entries (as `zip_entries` promises on success), and the
/// entries read back as themselves and have safe names, unpacking them
/// succeeds and returns the very same entries, in the same order.
pub proof fn law_unzip_inverts_zip(es: Seq<(Seq<char>, bool, Seq<u8>)>, bytes: Seq<u8>)
    requires
        forall|i: int| 0 <= i < es.len() ==> is_well_formed_entry(#[trigger] es[i]),
        forall|i: int| 0 <= i < es.len() ==> name_is_safe((#[trigger] es[i]).0),
        zip_contents(bytes) == Some(readable(stored_listing(es))),
    ensures
        unzipped(bytes) == Some(es),
{
    let items = readable(stored_listing(es));
    assert forall|i: int| 0 <= i < items.len() implies extractable(#[trigger] items[i]) by {
        let e = es[i];
        assert(stored_listing(es)[i] == stored_entry(e));
        if e.1 {
            assert(directory_name(e.0) == e.0);
        }
        assert(name_is_safe(e.0));
    }
    let ex = items.map_values(|x: (Seq<char>, bool, Option<Seq<u8>>)| extracted(x));
    assert forall|i: int| 0 <= i < es.len() implies #[trigger] ex[i] == es[i] by {
        let e = es[i];
        assert(stored_listing(es)[i] == stored_entry(e));
        if e.1 {
            assert(directory_name(e.0) == e.0);
            assert(e.2 == Seq::<u8>::empty());
        }
    }
    assert(ex =~= es);
}

/// Extracted entries stay inside their target: an entry that
/// `unzip_entries` accepts, joined onto any directory, gives a path that
/// starts with that directory and adds only ordinary components below it.
pub proof fn law_extracted_names_stay_inside(dest: Seq<char>, name: Seq<char>)
    requires
        name_is_safe(name),
    ensures
        joined(dest, name) is Some,
        joined(dest, name)->0.take(dest.len() as int) == dest,
        joined(dest, name)->0 == join_all(dest, components(name)),
        forall|i: int|
            0 <= i < components(name).len() ==> is_normal_component(#[trigger] components(name)[i]),
{
    law_joined_stays_below_root(dest, name);
}

/// The stored name changes only backslashes: it has the relative path's
/// characters in order, each `\\` turned into `/` and every other
/// character (every `/` among them) kept, with one `/` more at the end for
/// a directory.
pub proof fn law_archive_name_changes_only_backslashes(rel: Seq<char>, is_dir: bool)
    ensures
        archive_name_of(rel, is_dir).len() == rel.len() + (if is_dir { 1int } else { 0int }),
        forall|k: int|
            0 <= k < rel.len() ==> #[trigger] archive_name_of(rel, is_dir)[k] == (if rel[k] == '\\' {
                '/'
            } else {
                rel[k]
            }),
        is_dir ==> archive_name_of(rel, is_dir).last() == '/',
{
}

/// Which entry names are extracted: exactly those that do not start with
/// `/` and have no `..` component (two dots with a separator or an end of
/// the name on each side). So any name without a dot that does not start
/// with `/` is taken, spaces and all.
pub proof fn law_safe_names_are_those_that_stay_inside(name: Seq<char>)
    ensures
        name_is_safe(name) <==> (name.len() == 0 || name[0] != '/') && !exists|i: int|
            parent_step_at(name, i),
        (forall|k: int| 0 <= k < name.len() ==> name[k] != '.') ==> (name_is_safe(name) <==> (
        name.len() == 0 || name[0] != '/')),
{
    law_escapes_means_parent_step(name);
}

} // verus!
