//! The server side: the directory listing and the rules by which each
//! transfer request is answered.
use vstd::prelude::*;
use vstd::string::*;
use crate::util::joined;
use crate::util::escapes;
use crate::util::law_joined_stays_below_root;
use crate::util::is_normal_component;
use crate::util::components;
use crate::util::join_all;
use crate::util::safe_join;

verus! {

/// Lexicographic order on names, character by character, by code point.
/// This is the order of Rust's `String` comparison (UTF-8 keeps it).
pub open spec fn name_less(a: Seq<char>, b: Seq<char>) -> bool
    decreases a.len(),
{
    if a.len() == 0 {
        b.len() > 0
    } else if b.len() == 0 {
        false
    } else if a[0] != b[0] {
        (a[0] as int) < (b[0] as int)
    } else {
        name_less(a.drop_first(), b.drop_first())
    }
}

proof fn lemma_name_less_irreflexive(a: Seq<char>)
    ensures
        !name_less(a, a),
    decreases a.len(),
{
    if a.len() > 0 {
        lemma_name_less_irreflexive(a.drop_first());
    }
}

proof fn lemma_name_less_asymmetric(a: Seq<char>, b: Seq<char>)
    ensures
        name_less(a, b) ==> !name_less(b, a),
    decreases a.len(),
{
    if a.len() > 0 && b.len() > 0 && a[0] == b[0] {
        lemma_name_less_asymmetric(a.drop_first(), b.drop_first());
    }
}

proof fn lemma_name_less_total(a: Seq<char>, b: Seq<char>)
    ensures
        name_less(a, b) || name_less(b, a) || a == b,
    decreases a.len(),
{
    if a.len() == 0 {
        if b.len() == 0 {
            assert(a =~= b);
        }
    } else if b.len() > 0 {
        if a[0] == b[0] {
            lemma_name_less_total(a.drop_first(), b.drop_first());
            if a.drop_first() == b.drop_first() {
                assert(a.drop_first().len() == a.len() - 1);
                assert(b.drop_first().len() == b.len() - 1);
                assert(a.len() == b.len());
                assert forall|k: int| 0 <= k < a.len() implies a[k] == b[k] by {
                    if k > 0 {
                        assert(a[k] == a.drop_first()[k - 1]);
                        assert(b[k] == b.drop_first()[k - 1]);
                    }
                }
                assert(a =~= b);
            }
        } else {
            assert((a[0] as int) != (b[0] as int));
        }
    }
}

proof fn lemma_name_less_transitive(a: Seq<char>, b: Seq<char>, c: Seq<char>)
    requires
        name_less(a, b),
        name_less(b, c),
    ensures
        name_less(a, c),
    decreases a.len(),
{
    if a.len() > 0 && b.len() > 0 && c.len() > 0 {
        if a[0] == b[0] && b[0] == c[0] {
            lemma_name_less_transitive(a.drop_first(), b.drop_first(), c.drop_first());
        }
    }
}

/// Whether `a` comes before `b` at index `k`: they agree on the first `k`
/// characters and `a`'s next character has the smaller code point.
pub open spec fn differs_first_at(a: Seq<char>, b: Seq<char>, k: int) -> bool {
    &&& 0 <= k < a.len()
    &&& k < b.len()
    &&& a.take(k) == b.take(k)
    &&& (a[k] as int) < (b[k] as int)
}

/// Names are ordered as in a dictionary: `a` comes before `b` exactly when
/// `a` is a proper prefix of `b`, or at the first place where they differ
/// `a` has the smaller character.
pub proof fn law_name_order_is_lexicographic(a: Seq<char>, b: Seq<char>)
    ensures
        name_less(a, b) <==> (a.len() < b.len() && b.take(a.len() as int) == a) || exists|k: int|
            differs_first_at(a, b, k),
    decreases a.len(),
{
    if a.len() == 0 {
        assert(b.take(0) =~= a);
    } else if b.len() == 0 {
    } else if a[0] != b[0] {
        if name_less(a, b) {
            assert(a.take(0) =~= b.take(0));
            assert(differs_first_at(a, b, 0));
        } else {
            if a.len() < b.len() && b.take(a.len() as int) == a {
                assert(b.take(a.len() as int)[0] == b[0]);
            }
            if exists|k: int| differs_first_at(a, b, k) {
                let k = choose|k: int| differs_first_at(a, b, k);
                if k > 0 {
                    assert(a.take(k)[0] == b.take(k)[0]);
                }
            }
        }
    } else {
        let a1 = a.drop_first();
        let b1 = b.drop_first();
        law_name_order_is_lexicographic(a1, b1);
        assert((a.len() < b.len() && b.take(a.len() as int) == a) <==> (a1.len() < b1.len() && b1.take(
            a1.len() as int,
        ) == a1)) by {
            if a.len() < b.len() && b.take(a.len() as int) == a {
                assert forall|i: int| 0 <= i < a1.len() implies b1.take(a1.len() as int)[i] == a1[i] by {
                    assert(b.take(a.len() as int)[i + 1] == a[i + 1]);
                }
                assert(b1.take(a1.len() as int) =~= a1);
            }
            if a1.len() < b1.len() && b1.take(a1.len() as int) == a1 {
                assert forall|i: int| 0 <= i < a.len() implies b.take(a.len() as int)[i] == a[i] by {
                    if i > 0 {
                        assert(b1.take(a1.len() as int)[i - 1] == a1[i - 1]);
                    }
                }
                assert(b.take(a.len() as int) =~= a);
            }
        }
        if exists|k: int| differs_first_at(a1, b1, k) {
            let k = choose|k: int| differs_first_at(a1, b1, k);
            assert forall|i: int| 0 <= i < k + 1 implies #[trigger] a.take(k + 1)[i] == b.take(k + 1)[i] by {
                if i > 0 {
                    assert(a1.take(k)[i - 1] == b1.take(k)[i - 1]);
                }
            }
            assert(a.take(k + 1) =~= b.take(k + 1));
            assert(differs_first_at(a, b, k + 1));
        }
        if exists|k: int| differs_first_at(a, b, k) {
            let k = choose|k: int| differs_first_at(a, b, k);
            assert(k != 0);
            assert forall|i: int| 0 <= i < k - 1 implies #[trigger] a1.take(k - 1)[i] == b1.take(k - 1)[i] by {
                assert(a.take(k)[i + 1] == b.take(k)[i + 1]);
            }
            assert(a1.take(k - 1) =~= b1.take(k - 1));
            assert(differs_first_at(a1, b1, k - 1));
        }
    }
}

/// Name order is a strict total order: no name comes before itself, of two
/// different names one comes first and not the other, and it is transitive.
pub proof fn law_name_order_is_strict_total(a: Seq<char>, b: Seq<char>, c: Seq<char>)
    ensures
        !name_less(a, a),
        a != b ==> (name_less(a, b) <==> !name_less(b, a)),
        name_less(a, b) && name_less(b, c) ==> name_less(a, c),
{
    lemma_name_less_irreflexive(a);
    lemma_name_less_asymmetric(a, b);
    lemma_name_less_total(a, b);
    if name_less(a, b) && name_less(b, c) {
        lemma_name_less_transitive(a, b, c);
    }
}

/// Whether `a` comes before `b` in `a`'s name order.
pub fn names_ordered(a: &str, b: &str) -> (r: bool)
    ensures
        r == name_less(a@, b@),
{
    let ca = crate::util::chars_of(a);
    let cb = crate::util::chars_of(b);
    let mut i: usize = 0;
    assert(a@.skip(0) == a@);
    assert(b@.skip(0) == b@);
    while i < ca.len() && i < cb.len()
        invariant
            ca@ == a@,
            cb@ == b@,
            i <= ca@.len(),
            i <= cb@.len(),
            ca@.take(i as int) == cb@.take(i as int),
            name_less(a@, b@) == name_less(a@.skip(i as int), b@.skip(i as int)),
        decreases ca@.len() - i,
    {
        let x = ca[i];
        let y = cb[i];
        assert(a@.skip(i as int)[0] == x);
        assert(b@.skip(i as int)[0] == y);
        if x != y {
            return x < y;
        }
        assert(a@.skip(i as int).drop_first() == a@.skip(i + 1));
        assert(b@.skip(i as int).drop_first() == b@.skip(i + 1));
        assert(ca@.take(i + 1) == ca@.take(i as int).push(x));
        assert(cb@.take(i + 1) == cb@.take(i as int).push(y));
        i = i + 1;
    }
    i == ca.len() && i < cb.len()
}

/// A single entry of a directory listing.
pub struct FileEntry {
    /// File or directory name (not a full path).
    pub name: String,
    /// `true` if this entry is a directory.
    pub is_dir: bool,
    /// Size in bytes; `0` for directories.
    pub size: u64,
}

impl View for FileEntry {
    type V = (Seq<char>, bool, u64);

    open spec fn view(&self) -> (Seq<char>, bool, u64) {
        (self.name@, self.is_dir, self.size)
    }
}

/// The views of a sequence of entries.
pub open spec fn entry_views(s: Seq<FileEntry>) -> Seq<(Seq<char>, bool, u64)> {
    s.map_values(|e: FileEntry| e@)
}

/// Whether entry `a` is listed before entry `b`: directories come first,
/// then, within each group, names in ascending order.
pub open spec fn listed_before(a: (Seq<char>, bool, u64), b: (Seq<char>, bool, u64)) -> bool {
    (a.1 && !b.1) || (a.1 == b.1 && name_less(a.0, b.0))
}

/// Whether two entries have the same place in the listing order: the same
/// kind and the same name.
pub open spec fn same_place(a: (Seq<char>, bool, u64), b: (Seq<char>, bool, u64)) -> bool {
    a.0 == b.0 && a.1 == b.1
}

/// Whether a listing is in listing order: no entry is listed before one
/// that precedes it.
pub open spec fn is_listing_order(s: Seq<(Seq<char>, bool, u64)>) -> bool {
    forall|i: int, j: int| 0 <= i < j < s.len() ==> !listed_before(#[trigger] s[j], #[trigger] s[i])
}

/// The entries of `s` that have the given name and kind, in their order in `s`.
pub open spec fn entries_at(s: Seq<(Seq<char>, bool, u64)>, name: Seq<char>, is_dir: bool) -> Seq<
    (Seq<char>, bool, u64),
>
    decreases s.len(),
{
    if s.len() == 0 {
        s
    } else if s.last().0 == name && s.last().1 == is_dir {
        entries_at(s.drop_last(), name, is_dir).push(s.last())
    } else {
        entries_at(s.drop_last(), name, is_dir)
    }
}

proof fn lemma_before_asymmetric(a: (Seq<char>, bool, u64), b: (Seq<char>, bool, u64))
    ensures
        listed_before(a, b) ==> !listed_before(b, a),
        !listed_before(a, a),
{
    lemma_name_less_asymmetric(a.0, b.0);
    lemma_name_less_irreflexive(a.0);
}

proof fn lemma_before_transitive(
    a: (Seq<char>, bool, u64),
    b: (Seq<char>, bool, u64),
    c: (Seq<char>, bool, u64),
)
    requires
        listed_before(a, b),
        listed_before(b, c),
    ensures
        listed_before(a, c),
{
    if a.1 == b.1 && b.1 == c.1 {
        lemma_name_less_transitive(a.0, b.0, c.0);
    }
}

proof fn lemma_before_total(a: (Seq<char>, bool, u64), b: (Seq<char>, bool, u64))
    ensures
        listed_before(a, b) || listed_before(b, a) || same_place(a, b),
{
    lemma_name_less_total(a.0, b.0);
}

/// Not being listed after is transitive.
proof fn lemma_not_after_transitive(
    a: (Seq<char>, bool, u64),
    b: (Seq<char>, bool, u64),
    c: (Seq<char>, bool, u64),
)
    requires
        !listed_before(b, a),
        !listed_before(c, b),
    ensures
        !listed_before(c, a),
{
    if listed_before(c, a) {
        lemma_before_total(b, c);
        if listed_before(b, c) {
            lemma_before_transitive(b, c, a);
        }
    }
}

proof fn lemma_entries_at_concat(
    a: Seq<(Seq<char>, bool, u64)>,
    b: Seq<(Seq<char>, bool, u64)>,
    name: Seq<char>,
    is_dir: bool,
)
    ensures
        entries_at(a + b, name, is_dir) == entries_at(a, name, is_dir) + entries_at(b, name, is_dir),
    decreases b.len(),
{
    if b.len() == 0 {
        assert(a + b =~= a);
        assert(entries_at(a, name, is_dir) + entries_at(b, name, is_dir) =~= entries_at(a, name, is_dir));
    } else {
        lemma_entries_at_concat(a, b.drop_last(), name, is_dir);
        assert((a + b).drop_last() =~= a + b.drop_last());
        assert((a + b).last() == b.last());
        if b.last().0 == name && b.last().1 == is_dir {
            assert(entries_at(a + b, name, is_dir) =~= entries_at(a, name, is_dir) + entries_at(
                b,
                name,
                is_dir,
            ));
        }
    }
}

proof fn lemma_entries_at_none(s: Seq<(Seq<char>, bool, u64)>, name: Seq<char>, is_dir: bool)
    requires
        forall|i: int| 0 <= i < s.len() ==> !((#[trigger] s[i]).0 == name && s[i].1 == is_dir),
    ensures
        entries_at(s, name, is_dir) == Seq::<(Seq<char>, bool, u64)>::empty(),
    decreases s.len(),
{
    if s.len() > 0 {
        assert(s.last() == s[s.len() - 1]);
        lemma_entries_at_none(s.drop_last(), name, is_dir);
    }
}

proof fn lemma_entries_at_single(x: (Seq<char>, bool, u64), name: Seq<char>, is_dir: bool)
    ensures
        entries_at(seq![x], name, is_dir) == (if x.0 == name && x.1 == is_dir {
            seq![x]
        } else {
            Seq::<(Seq<char>, bool, u64)>::empty()
        }),
{
    let e = Seq::<(Seq<char>, bool, u64)>::empty();
    assert(seq![x].drop_last() =~= e);
    assert(seq![x].last() == x);
    assert(entries_at(e, name, is_dir) == e);
    assert(e.push(x) =~= seq![x]);
}

proof fn lemma_count_within_place(s: Seq<(Seq<char>, bool, u64)>, x: (Seq<char>, bool, u64))
    ensures
        s.to_multiset().count(x) == entries_at(s, x.0, x.1).to_multiset().count(x),
    decreases s.len(),
{
    broadcast use vstd::seq_lib::to_multiset_build;
    broadcast use vstd::multiset::group_multiset_axioms;

    if s.len() > 0 {
        let init = s.drop_last();
        let y = s.last();
        lemma_count_within_place(init, x);
        assert(init.push(y) == s);
        if y.0 == x.0 && y.1 == x.1 {
            assert(entries_at(s, x.0, x.1) == entries_at(init, x.0, x.1).push(y));
        } else {
            assert(entries_at(s, x.0, x.1) == entries_at(init, x.0, x.1));
            assert(y != x);
        }
    }
}

/// Two listings that agree on the entries of every name and kind hold the
/// same entries, each as many times.
proof fn lemma_same_places_same_multiset(a: Seq<(Seq<char>, bool, u64)>, b: Seq<(Seq<char>, bool, u64)>)
    requires
        forall|name: Seq<char>, is_dir: bool|
            #![trigger entries_at(a, name, is_dir)]
            entries_at(a, name, is_dir) == entries_at(b, name, is_dir),
    ensures
        a.to_multiset() == b.to_multiset(),
{
    assert forall|x: (Seq<char>, bool, u64)| a.to_multiset().count(x) == b.to_multiset().count(x) by {
        lemma_count_within_place(a, x);
        lemma_count_within_place(b, x);
        assert(entries_at(a, x.0, x.1) == entries_at(b, x.0, x.1));
    }
    assert(a.to_multiset() =~= b.to_multiset());
}

/// Whether entry `a` is listed before entry `b`.
fn is_listed_before(a: &FileEntry, b: &FileEntry) -> (r: bool)
    ensures
        r == listed_before(a@, b@),
{
    if a.is_dir && !b.is_dir {
        true
    } else if a.is_dir == b.is_dir {
        names_ordered(a.name.as_str(), b.name.as_str())
    } else {
        false
    }
}

/// Sort a listing: directories first, then alphabetically within each
/// group. The sort is stable: entries with the same name and kind keep
/// their relative order.
pub fn sort_entries(entries: Vec<FileEntry>) -> (r: Vec<FileEntry>)
    ensures
        r@.len() == entries@.len(),
        entry_views(r@).to_multiset() == entry_views(entries@).to_multiset(),
        is_listing_order(entry_views(r@)),
        forall|name: Seq<char>, is_dir: bool|
            #![trigger entries_at(entry_views(r@), name, is_dir)]
            entries_at(entry_views(r@), name, is_dir) == entries_at(
                entry_views(entries@),
                name,
                is_dir,
            ),
{
    let ghost input = entry_views(entries@);
    let mut rest = entries;
    let mut out: Vec<FileEntry> = Vec::new();
    while rest.len() > 0
        invariant
            input.len() == rest@.len() + out@.len(),
            entry_views(rest@) == input.take(rest@.len() as int),
            is_listing_order(entry_views(out@)),
            forall|name: Seq<char>, is_dir: bool|
                #![trigger entries_at(entry_views(out@), name, is_dir)]
                entries_at(entry_views(out@), name, is_dir) == entries_at(
                    input.skip(rest@.len() as int),
                    name,
                    is_dir,
                ),
        decreases rest@.len(),
    {
        let ghost m = rest@.len() as int;
        let x = rest.pop().unwrap();
        let ghost xv = x@;
        proof {
            assert(entry_views(rest@) == input.take(m - 1)) by {
                assert(input.take(m - 1) =~= input.take(m).drop_last());
            }
            assert(xv == input[m - 1]) by {
                assert(input.take(m)[m - 1] == input[m - 1]);
            }
        }
        let ghost vs = entry_views(out@);
        let mut p: usize = 0;
        while p < out.len() && is_listed_before(&out[p], &x)
            invariant
                p <= out@.len(),
                vs == entry_views(out@),
                xv == x@,
                forall|q: int| 0 <= q < p ==> listed_before(#[trigger] vs[q], xv),
            decreases out@.len() - p,
        {
            p = p + 1;
        }
        proof {
            assert forall|q: int| p <= q < vs.len() implies !listed_before(#[trigger] vs[q], xv) by {
                assert(!listed_before(vs[p as int], xv));
                if q > p {
                    assert(!listed_before(vs[q], vs[p as int]));
                    lemma_not_after_transitive(xv, vs[p as int], vs[q]);
                }
            }
        }
        out.insert(p, x);
        proof {
            let ws = entry_views(out@);
            assert(ws =~= vs.insert(p as int, xv));
            assert(ws =~= vs.take(p as int) + seq![xv] + vs.skip(p as int));
            assert forall|i: int, j: int| 0 <= i < j < ws.len() implies !listed_before(
                #[trigger] ws[j],
                #[trigger] ws[i],
            ) by {
                if j < p {
                    assert(ws[i] == vs[i] && ws[j] == vs[j]);
                } else if j == p {
                    assert(ws[i] == vs[i]);
                    lemma_before_asymmetric(vs[i], xv);
                } else if i == p {
                    assert(ws[j] == vs[j - 1]);
                } else if i < p {
                    assert(ws[i] == vs[i] && ws[j] == vs[j - 1]);
                } else {
                    assert(ws[i] == vs[i - 1] && ws[j] == vs[j - 1]);
                }
            }
            let s_old = input.skip(m);
            let s_new = input.skip(m - 1);
            assert(s_new =~= seq![xv] + s_old);
            assert forall|name: Seq<char>, is_dir: bool|
                #![trigger entries_at(entry_views(out@), name, is_dir)]
                entries_at(entry_views(out@), name, is_dir) == entries_at(s_new, name, is_dir) by {
                let a = vs.take(p as int);
                let b = vs.skip(p as int);
                lemma_entries_at_concat(a + seq![xv], b, name, is_dir);
                lemma_entries_at_concat(a, seq![xv], name, is_dir);
                lemma_entries_at_concat(a, b, name, is_dir);
                assert(vs =~= a + b);
                lemma_entries_at_concat(seq![xv], s_old, name, is_dir);
                lemma_entries_at_single(xv, name, is_dir);
                if xv.0 == name && xv.1 == is_dir {
                    assert forall|i: int| 0 <= i < a.len() implies !((#[trigger] a[i]).0 == name
                        && a[i].1 == is_dir) by {
                        assert(a[i] == vs[i]);
                        assert(listed_before(vs[i], xv));
                        lemma_before_asymmetric(vs[i], vs[i]);
                    }
                    lemma_entries_at_none(a, name, is_dir);
                    assert(entries_at(a, name, is_dir) + seq![xv] =~= seq![xv]);
                    assert(seq![xv] + entries_at(b, name, is_dir) =~= entries_at(a, name, is_dir)
                        + seq![xv] + entries_at(b, name, is_dir));
                } else {
                    assert(entries_at(a, name, is_dir) + Seq::<(Seq<char>, bool, u64)>::empty()
                        =~= entries_at(a, name, is_dir));
                    assert(Seq::<(Seq<char>, bool, u64)>::empty() + entries_at(s_old, name, is_dir)
                        =~= entries_at(s_old, name, is_dir));
                }
            }
        }
    }
    assert(input.skip(0) =~= input);
    proof {
        lemma_same_places_same_multiset(entry_views(out@), input);
    }
    out
}

impl FileEntry {
    /// The listing entry for a directory entry with this name and metadata:
    /// a regular file is listed with its length, anything else with size 0.
    pub fn from_metadata(name: String, is_dir: bool, is_file: bool, len: u64) -> (e: FileEntry)
        ensures
            e@ == (name@, is_dir, if is_file { len } else { 0u64 }),
    {
        FileEntry { name, is_dir, size: if is_file { len } else { 0 } }
    }
}

/// Runtime configuration of the transfer routes.
pub struct TransferConfig {
    /// Root directory on the server where files are stored.
    pub root: String,
    /// Whether clients may call the `/list` endpoint.
    pub allow_list: bool,
}

/// The routes of the transfer scope.
#[derive(Clone, Copy)]
pub enum Route {
    /// `POST /up`: upload a file (raw bytes body).
    Upload,
    /// `GET /down`: download a file.
    Download,
    /// `POST /fup`: upload a folder (zip archive body).
    UploadDir,
    /// `GET /fdown`: download a folder as a zip archive.
    DownloadDir,
    /// `GET /list`: list a directory.
    List,
}

/// The body of a reply.
pub enum ReplyBody {
    /// A JSON string with this text.
    Json(String),
    /// The bytes that the route's work produced, of this content type.
    Data(String),
    /// The JSON listing that the route's work produced.
    Listing,
}

/// A reply: an HTTP status code and a body.
pub struct Reply {
    pub status: u16,
    pub body: ReplyBody,
}

/// What the server does next while answering a request.
pub enum Action {
    /// Find out whether the parent directory of this path exists.
    CheckParent(String),
    /// Do the route's work on this path (write, read, unzip, zip or list).
    Perform(String),
    /// Send this reply; the request is answered.
    Respond(Reply),
}

/// What has happened so far while answering a request.
#[derive(Clone, Copy)]
pub enum Event {
    /// The request has just arrived.
    Received,
    /// The parent directory of the target was looked for: whether it exists.
    ParentChecked(bool),
    /// The route's work was done: whether it succeeded.
    Performed(bool),
}

/// The body of a reply, as a value.
pub enum BodyModel {
    Json(Seq<char>),
    Data(Seq<char>),
    Listing,
}

/// A reply, as a value.
pub struct ReplyModel {
    pub status: u16,
    pub body: BodyModel,
}

/// An action, as a value.
pub enum ActionModel {
    CheckParent(Seq<char>),
    Perform(Seq<char>),
    Respond(ReplyModel),
}

impl View for ReplyBody {
    type V = BodyModel;

    open spec fn view(&self) -> BodyModel {
        match self {
            ReplyBody::Json(t) => BodyModel::Json(t@),
            ReplyBody::Data(t) => BodyModel::Data(t@),
            ReplyBody::Listing => BodyModel::Listing,
        }
    }
}

impl View for Reply {
    type V = ReplyModel;

    open spec fn view(&self) -> ReplyModel {
        ReplyModel { status: self.status, body: self.body@ }
    }
}

impl View for Action {
    type V = ActionModel;

    open spec fn view(&self) -> ActionModel {
        match self {
            Action::CheckParent(p) => ActionModel::CheckParent(p@),
            Action::Perform(p) => ActionModel::Perform(p@),
            Action::Respond(r) => ActionModel::Respond(r@),
        }
    }
}

/// A reply with a JSON string.
pub open spec fn json_reply(status: u16, text: Seq<char>) -> ActionModel {
    ActionModel::Respond(ReplyModel { status, body: BodyModel::Json(text) })
}

/// Whether the route writes below the target, so that the target's parent
/// directory must already exist (it is not created).
pub open spec fn needs_parent(route: Route) -> bool {
    route is Upload || route is UploadDir
}

/// The reply once the route's work succeeded.
pub open spec fn success_reply(route: Route) -> ActionModel {
    match route {
        Route::Upload => json_reply(200, "ok"@),
        Route::Download => ActionModel::Respond(
            ReplyModel { status: 200, body: BodyModel::Data("application/octet-stream"@) },
        ),
        Route::UploadDir => json_reply(200, "ok"@),
        Route::DownloadDir => ActionModel::Respond(
            ReplyModel { status: 200, body: BodyModel::Data("application/zip"@) },
        ),
        Route::List => ActionModel::Respond(ReplyModel { status: 200, body: BodyModel::Listing }),
    }
}

/// The reply once the route's work failed.
pub open spec fn failure_reply(route: Route) -> ActionModel {
    match route {
        Route::Upload => json_reply(500, "write failed"@),
        Route::Download => json_reply(404, "file not found"@),
        Route::UploadDir => json_reply(500, "unzip failed"@),
        Route::DownloadDir => json_reply(500, "zip failed"@),
        Route::List => json_reply(404, "path not found or not a directory"@),
    }
}

/// The next step in answering a request for `route` with `?path=rel`,
/// given what has happened so far.
///
/// - Listing is refused with 403 when the server disallows it, whatever
///   the path.
/// - A path with a `..` component is refused with 400.
/// - Uploads need the parent of the target to exist already (else 400).
/// - Then the route's work is done, and its outcome decides the reply.
pub open spec fn next_step(
    root: Seq<char>,
    allow_list: bool,
    route: Route,
    rel: Seq<char>,
    event: Event,
) -> ActionModel {
    match event {
        Event::Received => {
            if route is List && !allow_list {
                json_reply(403, "directory listing is disabled on this server"@)
            } else {
                match joined(root, rel) {
                    None => json_reply(400, "invalid path"@),
                    Some(p) => if needs_parent(route) {
                        ActionModel::CheckParent(p)
                    } else {
                        ActionModel::Perform(p)
                    },
                }
            }
        },
        Event::ParentChecked(exists) => {
            if !exists {
                json_reply(400, "parent directory does not exist"@)
            } else {
                match joined(root, rel) {
                    None => json_reply(400, "invalid path"@),
                    Some(p) => ActionModel::Perform(p),
                }
            }
        },
        Event::Performed(ok) => if ok {
            success_reply(route)
        } else {
            failure_reply(route)
        },
    }
}

fn json_action(status: u16, text: &str) -> (a: Action)
    ensures
        a@ == json_reply(status, text@),
{
    Action::Respond(Reply { status, body: ReplyBody::Json(text.to_owned()) })
}

/// The next step in answering a request for `route` with `?path=rel`,
/// given what has happened so far (see `next_step`).
pub fn next_action(cfg: &TransferConfig, route: Route, rel: &str, event: Event) -> (a: Action)
    ensures
        a@ == next_step(cfg.root@, cfg.allow_list, route, rel@, event),
{
    match event {
        Event::Received => {
            if matches!(route, Route::List) && !cfg.allow_list {
                return json_action(403, "directory listing is disabled on this server");
            }
            match safe_join(cfg.root.as_str(), rel) {
                None => json_action(400, "invalid path"),
                Some(p) => match route {
                    Route::Upload | Route::UploadDir => Action::CheckParent(p),
                    _ => Action::Perform(p),
                },
            }
        },
        Event::ParentChecked(exists) => {
            if !exists {
                return json_action(400, "parent directory does not exist");
            }
            match safe_join(cfg.root.as_str(), rel) {
                None => json_action(400, "invalid path"),
                Some(p) => Action::Perform(p),
            }
        },
        Event::Performed(ok) => {
            if ok {
                match route {
                    Route::Upload => json_action(200, "ok"),
                    Route::Download => Action::Respond(
                        Reply {
                            status: 200,
                            body: ReplyBody::Data("application/octet-stream".to_owned()),
                        },
                    ),
                    Route::UploadDir => json_action(200, "ok"),
                    Route::DownloadDir => Action::Respond(
                        Reply { status: 200, body: ReplyBody::Data("application/zip".to_owned()) },
                    ),
                    Route::List => Action::Respond(Reply { status: 200, body: ReplyBody::Listing }),
                }
            } else {
                match route {
                    Route::Upload => json_action(500, "write failed"),
                    Route::Download => json_action(404, "file not found"),
                    Route::UploadDir => json_action(500, "unzip failed"),
                    Route::DownloadDir => json_action(500, "zip failed"),
                    Route::List => json_action(404, "path not found or not a directory"),
                }
            }
        },
    }
}

/// When the server disallows listing, every listing request is refused
/// with 403, whatever its path.
pub proof fn law_listing_disabled_is_forbidden(root: Seq<char>, rel: Seq<char>)
    ensures
        next_step(root, false, Route::List, rel, Event::Received) == json_reply(
            403,
            "directory listing is disabled on this server"@,
        ),
{
}

/// A path that tries to climb out of the root is refused with 400 before
/// anything touches the file system (unless listing is refused first).
pub proof fn law_traversal_is_rejected(root: Seq<char>, allow_list: bool, route: Route, rel: Seq<char>)
    requires
        escapes(rel),
        !(route is List && !allow_list),
    ensures
        next_step(root, allow_list, route, rel, Event::Received) == json_reply(400, "invalid path"@),
        next_step(root, allow_list, route, rel, Event::ParentChecked(true)) == json_reply(
            400,
            "invalid path"@,
        ),
{
}

/// Whatever the request, the server only ever looks at or works on paths
/// below its root: the root followed by ordinary components.
pub proof fn law_work_stays_below_root(
    root: Seq<char>,
    allow_list: bool,
    route: Route,
    rel: Seq<char>,
    event: Event,
)
    ensures
        next_step(root, allow_list, route, rel, event) matches ActionModel::Perform(p) ==> {
            &&& p.take(root.len() as int) == root
            &&& p == join_all(root, components(rel))
            &&& forall|i: int|
                0 <= i < components(rel).len() ==> is_normal_component(#[trigger] components(rel)[i])
        },
        next_step(root, allow_list, route, rel, event) matches ActionModel::CheckParent(p) ==> {
            &&& p.take(root.len() as int) == root
            &&& p == join_all(root, components(rel))
        },
{
    if joined(root, rel) is Some {
        law_joined_stays_below_root(root, rel);
    }
}

/// Uploads never write without looking first: when a file or folder upload
/// arrives, the server's first step is to check the target's parent (or to
/// refuse the request), never to write.
pub proof fn law_upload_checks_parent_first(
    root: Seq<char>,
    allow_list: bool,
    route: Route,
    rel: Seq<char>,
)
    requires
        needs_parent(route),
    ensures
        !(next_step(root, allow_list, route, rel, Event::Received) is Perform),
        next_step(root, allow_list, route, rel, Event::ParentChecked(false)) == json_reply(
            400,
            "parent directory does not exist"@,
        ),
{
}

/// A request whose path stays inside the root goes ahead: on arrival, a
/// file or folder upload checks the target's parent and every other route
/// (a listing, where listing is allowed) does its work at once, on the
/// root joined with the path's components; once the parent is known to
/// exist, every route does its work on that same path.
pub proof fn law_valid_requests_go_ahead(
    root: Seq<char>,
    allow_list: bool,
    route: Route,
    rel: Seq<char>,
)
    requires
        !escapes(rel),
    ensures
        (route is Upload || route is UploadDir) ==> next_step(
            root,
            allow_list,
            route,
            rel,
            Event::Received,
        ) == ActionModel::CheckParent(join_all(root, components(rel))),
        (route is Download || route is DownloadDir || (route is List && allow_list)) ==> next_step(
            root,
            allow_list,
            route,
            rel,
            Event::Received,
        ) == ActionModel::Perform(join_all(root, components(rel))),
        next_step(root, allow_list, route, rel, Event::ParentChecked(true)) == ActionModel::Perform(
            join_all(root, components(rel)),
        ),
{
}

/// The server reports success exactly when the route's work was done and
/// succeeded: a reply with a 2xx status comes only as the step after
/// `Performed(true)`, and that step always is one.
pub proof fn law_success_only_after_work(
    root: Seq<char>,
    allow_list: bool,
    route: Route,
    rel: Seq<char>,
    event: Event,
)
    ensures
        (next_step(root, allow_list, route, rel, event) matches ActionModel::Respond(r) && 200
            <= r.status <= 299) <==> event matches Event::Performed(true),
{
}

} // verus!
