//! The client side: the server address, the request URLs, and how the
//! server's answers are judged.
use vstd::prelude::*;
use vstd::string::*;

verus! {

broadcast use vstd::string::group_string_axioms;

/// A single file or directory entry returned by a listing.
#[derive(Debug, Clone)]
pub struct FileEntry {
    /// File or directory name (not a full path).
    pub name: String,
    /// `true` if this entry is a directory.
    pub is_dir: bool,
    /// Size in bytes; `0` for directories.
    pub size: u64,
}

/// `s` without the `/` characters at its end.
pub open spec fn without_trailing_slashes(s: Seq<char>) -> Seq<char>
    decreases s.len(),
{
    if s.len() > 0 && s.last() == '/' {
        without_trailing_slashes(s.drop_last())
    } else {
        s
    }
}

/// The client's view of a transfer server: the base URL of its transfer
/// scope, e.g. `http://localhost:3000/transfer`.
pub struct EruspyClient {
    base_url: String,
}

impl EruspyClient {
    /// The base URL, as a value.
    pub closed spec fn base(&self) -> Seq<char> {
        self.base_url@
    }

    /// Create a new client pointing at `base_url`. Trailing slashes are
    /// stripped.
    pub fn new(base_url: &str) -> (c: Self)
        ensures
            c.base() == without_trailing_slashes(base_url@),
    {
        let cs = crate::util::chars_of(base_url);
        let mut k = cs.len();
        assert(base_url@.take(k as int) == base_url@);
        while k > 0 && cs[k - 1] == '/'
            invariant
                cs@ == base_url@,
                k <= cs@.len(),
                without_trailing_slashes(base_url@) == without_trailing_slashes(
                    base_url@.take(k as int),
                ),
            decreases k,
        {
            assert(base_url@.take(k - 1) == base_url@.take(k as int).drop_last());
            k = k - 1;
        }
        let kept = base_url.substring_char(0, k).to_owned();
        assert(base_url@.subrange(0, k as int) == base_url@.take(k as int));
        EruspyClient { base_url: kept }
    }

    /// The base URL of the transfer scope.
    pub fn base_url(&self) -> (r: &str)
        ensures
            r@ == self.base(),
    {
        self.base_url.as_str()
    }

    /// The full URL for `endpoint` and the remote path:
    /// `{base}/{endpoint}?path={path}`.
    pub fn url(&self, endpoint: &str, path: &str) -> (r: String)
        ensures
            r@ == self.base() + "/"@ + endpoint@ + "?path="@ + path@,
    {
        let mut r = self.base_url.clone();
        r.append("/");
        r.append(endpoint);
        r.append("?path=");
        r.append(path);
        r
    }
}

/// Whether an HTTP status code means success: it is in `200..=299`.
pub fn is_success(status: u16) -> (b: bool)
    ensures
        b == (200 <= status <= 299),
{
    200 <= status && status <= 299
}

/// The message of a failed request: `server returned {status}`, where
/// `status_text` is the status as displayed (e.g. `404 Not Found`).
pub fn server_returned(status_text: &str) -> (m: String)
    ensures
        m@ == "server returned "@ + status_text@,
{
    let mut m = "server returned ".to_owned();
    m.append(status_text);
    m
}

/// How an upload or download judges the server's answer: success codes
/// pass, anything else fails with `server returned {status}`.
pub fn check_status(status: u16, status_text: &str) -> (r: Result<(), String>)
    ensures
        r is Ok <==> 200 <= status <= 299,
        r matches Err(m) ==> m@ == "server returned "@ + status_text@,
{
    if is_success(status) {
        Ok(())
    } else {
        Err(server_returned(status_text))
    }
}

/// How a listing judges the server's answer: success codes pass, anything
/// else fails with `server returned {status}: {body}`.
pub fn check_list_status(status: u16, status_text: &str, body: &str) -> (r: Result<(), String>)
    ensures
        r is Ok <==> 200 <= status <= 299,
        r matches Err(m) ==> m@ == "server returned "@ + status_text@ + ": "@ + body@,
{
    if is_success(status) {
        Ok(())
    } else {
        let mut m = server_returned(status_text);
        m.append(": ");
        m.append(body);
        Err(m)
    }
}

/// The base URL that a client keeps never ends in `/`, and stripping again
/// changes nothing.
pub proof fn law_base_url_has_no_trailing_slash(s: Seq<char>)
    ensures
        without_trailing_slashes(s).len() == 0 || without_trailing_slashes(s).last() != '/',
        without_trailing_slashes(without_trailing_slashes(s)) == without_trailing_slashes(s),
    decreases s.len(),
{
    if s.len() > 0 && s.last() == '/' {
        law_base_url_has_no_trailing_slash(s.drop_last());
    }
}

/// Trailing slashes on the address given to a client do not matter:
/// `http://h/t/` and `http://h/t` make the same client.
pub proof fn law_trailing_slash_ignored(s: Seq<char>)
    ensures
        without_trailing_slashes(s.push('/')) == without_trailing_slashes(s),
{
    assert(s.push('/').drop_last() == s);
}

/// Stripping removes only slashes, and only at the end: what is kept is a
/// prefix of the address, everything after it is `/`, and an address that
/// does not end in `/` is kept whole.
pub proof fn law_stripping_removes_only_slashes(s: Seq<char>)
    ensures
        without_trailing_slashes(s).len() <= s.len(),
        s.take(without_trailing_slashes(s).len() as int) == without_trailing_slashes(s),
        forall|k: int| without_trailing_slashes(s).len() <= k < s.len() ==> s[k] == '/',
        (s.len() == 0 || s.last() != '/') ==> without_trailing_slashes(s) == s,
    decreases s.len(),
{
    if s.len() > 0 && s.last() == '/' {
        law_stripping_removes_only_slashes(s.drop_last());
        let r = without_trailing_slashes(s);
        assert(s.take(r.len() as int) == s.drop_last().take(r.len() as int));
        assert forall|k: int| r.len() <= k < s.len() implies s[k] == '/' by {
            if k < s.len() - 1 {
                assert(s[k] == s.drop_last()[k]);
            }
        }
    } else {
        assert(s.take(s.len() as int) == s);
    }
}

/// What Rust's `Debug` formatting makes of a string: the text in double
/// quotes, with quotes, backslashes and unprintable characters escaped.
pub uninterp spec fn debug_form(s: Seq<char>) -> Seq<char>;

/// A character that `Debug` leaves as it is inside a string: printable
/// ASCII other than `"` and `\`.
pub open spec fn is_plain_char(c: char) -> bool {
    ' ' <= c <= '~' && c != '"' && c != '\\'
}

/// `format!("{:?}", s)`: the string's `Debug` form. For a string of plain
/// characters only, that is the string in double quotes.
#[verifier::external_body]
fn debug_string(s: &str) -> (r: String)
    ensures
        r@ == debug_form(s@),
        (forall|i: int| 0 <= i < s@.len() ==> is_plain_char(#[trigger] s@[i])) ==> r@ == seq!['"']
            + s@ + seq!['"'],
{
    format!("{:?}", s)
}

/// The decimal digit for `d < 10`.
pub open spec fn digit_char(d: nat) -> char {
    if d == 0 { '0' }
    else if d == 1 { '1' }
    else if d == 2 { '2' }
    else if d == 3 { '3' }
    else if d == 4 { '4' }
    else if d == 5 { '5' }
    else if d == 6 { '6' }
    else if d == 7 { '7' }
    else if d == 8 { '8' }
    else { '9' }
}

/// The decimal representation of `n`, without leading zeros.
pub open spec fn decimal(n: nat) -> Seq<char>
    decreases n,
{
    if n < 10 {
        seq![digit_char(n)]
    } else {
        decimal(n / 10).push(digit_char(n % 10))
    }
}

/// The number that a string of decimal digits denotes.
pub open spec fn digits_value(s: Seq<char>) -> int
    decreases s.len(),
{
    if s.len() == 0 {
        0
    } else {
        digits_value(s.drop_last()) * 10 + (s.last() as int - '0' as int)
    }
}

proof fn lemma_digit_value(d: nat)
    requires
        d < 10,
    ensures
        digit_char(d) as int - '0' as int == d,
        '0' <= digit_char(d) <= '9',
{
}

/// The decimal form of a number reads back as that number: it is made of
/// the digits `0` to `9` only, denotes `n`, and has no leading zero (only
/// `0` itself starts with `0`).
pub proof fn law_decimal_reads_back(n: nat)
    ensures
        forall|i: int| 0 <= i < decimal(n).len() ==> '0' <= #[trigger] decimal(n)[i] <= '9',
        digits_value(decimal(n)) == n,
        decimal(n).len() >= 1,
        decimal(n)[0] == '0' ==> n == 0 && decimal(n).len() == 1,
    decreases n,
{
    if n < 10 {
        let s = decimal(n);
        lemma_digit_value(n);
        assert(s.drop_last() =~= Seq::<char>::empty());
        assert(s.last() == digit_char(n));
        assert(digits_value(s.drop_last()) == 0);
        assert(digits_value(s) == digits_value(s.drop_last()) * 10 + (s.last() as int - '0' as int));
    } else {
        law_decimal_reads_back(n / 10);
        let s = decimal(n);
        let d = digit_char(n % 10);
        lemma_digit_value(n % 10);
        assert(s == decimal(n / 10).push(d));
        assert(s.last() == d);
        assert(n == (n / 10) * 10 + n % 10);
        assert(digits_value(s) == digits_value(s.drop_last()) * 10 + (s.last() as int - '0' as int));
        assert(s.drop_last() =~= decimal(n / 10));
        assert(digits_value(s.drop_last()) == n / 10);
        assert(s[0] == decimal(n / 10)[0]);
        assert forall|i: int| 0 <= i < s.len() implies '0' <= #[trigger] s[i] <= '9' by {
            if i < s.len() - 1 {
                assert(s[i] == decimal(n / 10)[i]);
            }
        }
    }
}

/// `n` written in decimal, as `Display` writes an integer.
pub fn decimal_string(n: u64) -> (r: String)
    ensures
        r@ == decimal(n as nat),
{
    let mut digits: Vec<u8> = Vec::new();
    let mut m = n;
    while m >= 10
        invariant
            decimal(n as nat) == decimal(m as nat) + digits@.reverse().map_values(
                |d: u8| digit_char(d as nat),
            ),
            forall|i: int| 0 <= i < digits@.len() ==> digits@[i] < 10,
        decreases m,
    {
        let d = (m % 10) as u8;
        let ghost old_digits = digits@;
        digits.push(d);
        proof {
            assert(digits@.reverse() =~= seq![d] + old_digits.reverse());
            assert(decimal(m as nat) == decimal((m / 10) as nat).push(digit_char(d as nat)));
            let tail = old_digits.reverse().map_values(|x: u8| digit_char(x as nat));
            assert(digits@.reverse().map_values(|x: u8| digit_char(x as nat)) =~= seq![
                digit_char(d as nat),
            ] + tail);
            assert(decimal((m / 10) as nat).push(digit_char(d as nat)) + tail =~= decimal(
                (m / 10) as nat,
            ) + (seq![digit_char(d as nat)] + tail));
        }
        m = m / 10;
    }
    let mut r = String::new();
    let all = "0123456789";
    proof {
        reveal_strlit("0123456789");
    }
    let top = m as usize;
    r.append(all.substring_char(top, top + 1));
    let mut i = digits.len();
    while i > 0
        invariant
            i <= digits@.len(),
            all@ == "0123456789"@,
            forall|k: int| 0 <= k < digits@.len() ==> digits@[k] < 10,
            r@ + digits@.take(i as int).reverse().map_values(|d: u8| digit_char(d as nat))
                == decimal(n as nat),
        decreases i,
    {
        i = i - 1;
        let d = digits[i] as usize;
        proof {
            reveal_strlit("0123456789");
        }
        let piece = all.substring_char(d, d + 1);
        assert(piece@ =~= seq![digit_char(d as nat)]);
        let ghost before = r@;
        r.append(piece);
        proof {
            let rest = digits@.take(i as int).reverse().map_values(|x: u8| digit_char(x as nat));
            assert(digits@.take(i + 1).reverse().map_values(|x: u8| digit_char(x as nat)) =~= seq![
                digit_char(d as nat),
            ] + rest);
            assert(before + (seq![digit_char(d as nat)] + rest) =~= r@ + rest);
        }
    }
    assert(digits@.take(0).reverse().map_values(|d: u8| digit_char(d as nat)) =~= Seq::<
        char,
    >::empty());
    assert(r@ + Seq::<char>::empty() =~= r@);
    r
}

impl FileEntry {
    /// A readable form of the entry:
    /// `FileEntry(name="a.txt", is_dir=false, size=3)`, with the name in its
    /// `Debug` form.
    pub fn repr(&self) -> (r: String)
        ensures
            r@ == "FileEntry(name="@ + debug_form(self.name@) + ", is_dir="@ + (if self.is_dir {
                "true"@
            } else {
                "false"@
            }) + ", size="@ + decimal(self.size as nat) + ")"@,
        (forall|i: int| 0 <= i < self.name@.len() ==> is_plain_char(#[trigger] self.name@[i])) ==> r@
            == "FileEntry(name="@ + seq!['"'] + self.name@ + seq!['"'] + ", is_dir="@ + (
        if self.is_dir {
            "true"@
        } else {
            "false"@
        }) + ", size="@ + decimal(self.size as nat) + ")"@,
    {
        let mut r = "FileEntry(name=".to_owned();
        let quoted = debug_string(self.name.as_str());
        r.append(quoted.as_str());
        r.append(", is_dir=");
        if self.is_dir {
            r.append("true");
        } else {
            r.append("false");
        }
        r.append(", size=");
        let size = decimal_string(self.size);
        r.append(size.as_str());
        r.append(")");
        r
    }
}

} // verus!
