//! Utilities shared by the server and the client: joining a client-supplied
//! relative path onto the storage root.
use vstd::prelude::*;
use vstd::string::*;

verus! {

broadcast use vstd::string::group_string_axioms;

/// The pieces of `s` between `/` separators, in order. A path with `k`
/// separators has `k + 1` pieces, some of which may be empty.
pub open spec fn split_on_slash(s: Seq<char>) -> Seq<Seq<char>>
    decreases s.len(),
{
    if s.len() == 0 {
        seq![Seq::<char>::empty()]
    } else {
        let prev = split_on_slash(s.drop_last());
        if s.last() == '/' {
            prev.push(Seq::<char>::empty())
        } else {
            prev.update(prev.len() - 1, prev.last().push(s.last()))
        }
    }
}

/// The piece `..`, which names the parent directory.
pub open spec fn parent_piece() -> Seq<char> {
    seq!['.', '.']
}

/// A piece that names no directory step: empty (repeated or trailing
/// separators) or `.` (the current directory).
pub open spec fn is_skipped(p: Seq<char>) -> bool {
    p.len() == 0 || p == seq!['.']
}

/// The pieces that name a directory step, in order.
pub open spec fn kept_pieces(ps: Seq<Seq<char>>) -> Seq<Seq<char>>
    decreases ps.len(),
{
    if ps.len() == 0 {
        Seq::<Seq<char>>::empty()
    } else if is_skipped(ps.last()) {
        kept_pieces(ps.drop_last())
    } else {
        kept_pieces(ps.drop_last()).push(ps.last())
    }
}

/// The components of a relative path: its pieces without empty ones and `.`.
pub open spec fn components(rel: Seq<char>) -> Seq<Seq<char>> {
    kept_pieces(split_on_slash(rel))
}

/// Whether the relative path has a `..` component, i.e. tries to climb out.
pub open spec fn escapes(rel: Seq<char>) -> bool {
    split_on_slash(rel).contains(parent_piece())
}

/// Appending one relative component to a path: a separator goes between
/// them unless the path is empty or already ends in one.
pub open spec fn push_component(base: Seq<char>, c: Seq<char>) -> Seq<char> {
    if base.len() == 0 || base.last() == '/' {
        base + c
    } else {
        base + seq!['/'] + c
    }
}

/// `base` with each of `cs` appended in turn.
pub open spec fn join_all(base: Seq<char>, cs: Seq<Seq<char>>) -> Seq<char>
    decreases cs.len(),
{
    if cs.len() == 0 {
        base
    } else {
        push_component(join_all(base, cs.drop_last()), cs.last())
    }
}

/// What joining `rel` onto `root` gives: nothing when `rel` has a `..`
/// component, else `root` extended by the components of `rel`.
pub open spec fn joined(root: Seq<char>, rel: Seq<char>) -> Option<Seq<char>> {
    if escapes(rel) {
        None
    } else {
        Some(join_all(root, components(rel)))
    }
}

/// A component that names a step down into a directory entry: not empty,
/// not `.` or `..`, and free of separators.
pub open spec fn is_normal_component(c: Seq<char>) -> bool {
    &&& c.len() > 0
    &&& c != seq!['.']
    &&& c != parent_piece()
    &&& !c.contains('/')
}

proof fn lemma_split_nonempty(s: Seq<char>)
    ensures
        split_on_slash(s).len() >= 1,
    decreases s.len(),
{
    if s.len() > 0 {
        lemma_split_nonempty(s.drop_last());
    }
}

proof fn lemma_split_step(s: Seq<char>, c: char)
    ensures
        split_on_slash(s.push(c)) == (if c == '/' {
            split_on_slash(s).push(Seq::<char>::empty())
        } else {
            split_on_slash(s).update(
                split_on_slash(s).len() - 1,
                split_on_slash(s).last().push(c),
            )
        }),
{
    assert(s.push(c).drop_last() == s);
}

proof fn lemma_kept_step(ps: Seq<Seq<char>>, p: Seq<char>)
    ensures
        kept_pieces(ps.push(p)) == (if is_skipped(p) {
            kept_pieces(ps)
        } else {
            kept_pieces(ps).push(p)
        }),
{
    assert(ps.push(p).drop_last() == ps);
}

proof fn lemma_pieces_have_no_separator(s: Seq<char>)
    ensures
        forall|i: int|
            0 <= i < split_on_slash(s).len() ==> !(#[trigger] split_on_slash(s)[i]).contains('/'),
    decreases s.len(),
{
    if s.len() > 0 {
        lemma_pieces_have_no_separator(s.drop_last());
        lemma_split_nonempty(s.drop_last());
        let prev = split_on_slash(s.drop_last());
        if s.last() != '/' {
            assert forall|i: int| 0 <= i < split_on_slash(s).len() implies !(
            #[trigger] split_on_slash(s)[i]).contains('/') by {
                if i == prev.len() - 1 {
                    let q = prev.last().push(s.last());
                    if q.contains('/') {
                        let k = choose|k: int| 0 <= k < q.len() && q[k] == '/';
                        if k < prev.last().len() {
                            assert(prev.last()[k] == '/');
                        }
                    }
                }
            }
        } else {
            assert forall|i: int| 0 <= i < split_on_slash(s).len() implies !(
            #[trigger] split_on_slash(s)[i]).contains('/') by {
                if i == prev.len() {
                    assert(split_on_slash(s)[i] == Seq::<char>::empty());
                }
            }
        }
    }
}

proof fn lemma_split_after_slash(s: Seq<char>)
    ensures
        split_on_slash(seq!['/'] + s) =~= seq![Seq::<char>::empty()] + split_on_slash(s),
    decreases s.len(),
{
    let e = Seq::<char>::empty();
    if s.len() == 0 {
        assert(seq!['/'] + s =~= seq!['/']);
        let one = seq!['/'];
        assert(one.drop_last() =~= e);
        assert(one.len() == 1 && one.last() == '/');
        assert(split_on_slash(one.drop_last()) == seq![e]);
        assert(split_on_slash(one) == split_on_slash(one.drop_last()).push(e));
        assert(split_on_slash(one) =~= seq![e].push(e));
        assert(split_on_slash(s) =~= seq![e]);
    } else {
        let t = seq!['/'] + s;
        lemma_split_after_slash(s.drop_last());
        lemma_split_nonempty(s.drop_last());
        assert(t.drop_last() =~= seq!['/'] + s.drop_last());
        assert(t.last() == s.last());
        let a = split_on_slash(s.drop_last());
        let b = seq![e] + a;
        assert(split_on_slash(t.drop_last()) == b);
        if s.last() == '/' {
            assert(split_on_slash(t) == b.push(e));
            assert(split_on_slash(s) == a.push(e));
            assert(b.push(e) =~= seq![e] + a.push(e));
        } else {
            assert(split_on_slash(t) == b.update(b.len() - 1, b.last().push(s.last())));
            assert(split_on_slash(s) == a.update(a.len() - 1, a.last().push(s.last())));
            assert(b.last() == a.last());
            assert(b.update(b.len() - 1, b.last().push(s.last())) =~= seq![e] + a.update(
                a.len() - 1,
                a.last().push(s.last()),
            ));
        }
    }
}

proof fn lemma_kept_after_skipped(e: Seq<char>, ps: Seq<Seq<char>>)
    requires
        is_skipped(e),
    ensures
        kept_pieces(seq![e] + ps) == kept_pieces(ps),
    decreases ps.len(),
{
    if ps.len() == 0 {
        assert(seq![e] + ps =~= seq![e]);
        assert(seq![e].drop_last() =~= Seq::<Seq<char>>::empty());
        assert(kept_pieces(seq![e]) == kept_pieces(Seq::<Seq<char>>::empty()));
    } else {
        let t = seq![e] + ps;
        lemma_kept_after_skipped(e, ps.drop_last());
        assert(t.drop_last() =~= seq![e] + ps.drop_last());
        assert(t.last() == ps.last());
        assert(kept_pieces(t.drop_last()) == kept_pieces(ps.drop_last()));
    }
}

proof fn lemma_kept_are_normal(ps: Seq<Seq<char>>)
    requires
        !ps.contains(parent_piece()),
        forall|i: int| 0 <= i < ps.len() ==> !(#[trigger] ps[i]).contains('/'),
    ensures
        forall|i: int|
            0 <= i < kept_pieces(ps).len() ==> is_normal_component(#[trigger] kept_pieces(ps)[i]),
    decreases ps.len(),
{
    if ps.len() > 0 {
        let init = ps.drop_last();
        let last = ps.last();
        assert forall|i: int| 0 <= i < init.len() implies !(#[trigger] init[i]).contains('/') by {
            assert(init[i] == ps[i]);
        }
        assert(!init.contains(parent_piece())) by {
            if init.contains(parent_piece()) {
                let k = choose|k: int| 0 <= k < init.len() && #[trigger] init[k] == parent_piece();
                assert(ps[k] == parent_piece());
            }
        }
        lemma_kept_are_normal(init);
        assert(last == ps[ps.len() - 1]);
        assert(last != parent_piece());
        assert(!last.contains('/'));
        if !is_skipped(last) {
            let kp = kept_pieces(init).push(last);
            assert(kept_pieces(ps) == kp);
            assert forall|i: int| 0 <= i < kp.len() implies is_normal_component(#[trigger] kp[i]) by {
                if i < kp.len() - 1 {
                    assert(kp[i] == kept_pieces(init)[i]);
                }
            }
        }
    }
}

proof fn lemma_join_keeps_base(base: Seq<char>, cs: Seq<Seq<char>>)
    ensures
        base.len() <= join_all(base, cs).len(),
        join_all(base, cs).take(base.len() as int) == base,
    decreases cs.len(),
{
    if cs.len() > 0 {
        lemma_join_keeps_base(base, cs.drop_last());
        let b = join_all(base, cs.drop_last());
        assert(push_component(b, cs.last()).take(b.len() as int) == b);
        assert(push_component(b, cs.last()).take(base.len() as int) == b.take(base.len() as int));
    }
}

/// Whether a `..` component starts at index `i` of `s`: two dots with a
/// separator or an end of the path on each side.
pub open spec fn parent_step_at(s: Seq<char>, i: int) -> bool {
    &&& 0 <= i
    &&& i + 2 <= s.len()
    &&& s[i] == '.'
    &&& s[i + 1] == '.'
    &&& i == 0 || s[i - 1] == '/'
    &&& i + 2 == s.len() || s[i + 2] == '/'
}

proof fn lemma_split_without_slash(s: Seq<char>)
    requires
        !s.contains('/'),
    ensures
        split_on_slash(s) == seq![s],
    decreases s.len(),
{
    if s.len() > 0 {
        let init = s.drop_last();
        assert(!init.contains('/')) by {
            if init.contains('/') {
                let k = choose|k: int| 0 <= k < init.len() && init[k] == '/';
                assert(s[k] == '/');
            }
        }
        lemma_split_without_slash(init);
        assert(s.last() == s[s.len() - 1]);
        assert(s.last() != '/');
        assert(init.push(s.last()) =~= s);
        assert(seq![init].update(0, init.push(s.last())) =~= seq![s]);
    } else {
        assert(s =~= Seq::<char>::empty());
    }
}

proof fn lemma_split_concat(a: Seq<char>, b: Seq<char>)
    ensures
        split_on_slash(a + seq!['/'] + b) == split_on_slash(a) + split_on_slash(b),
    decreases b.len(),
{
    let e = Seq::<char>::empty();
    if b.len() == 0 {
        let t = a + seq!['/'];
        assert(a + seq!['/'] + b =~= t);
        assert(t.drop_last() =~= a);
        assert(split_on_slash(t) == split_on_slash(a).push(e));
        assert(split_on_slash(b) == seq![e]);
        assert(split_on_slash(a).push(e) =~= split_on_slash(a) + seq![e]);
    } else {
        let t = a + seq!['/'] + b;
        let b0 = b.drop_last();
        let c = b.last();
        lemma_split_concat(a, b0);
        lemma_split_nonempty(b0);
        assert(t.drop_last() =~= a + seq!['/'] + b0);
        assert(t.last() == c);
        let pa = split_on_slash(a);
        let pb = split_on_slash(b0);
        if c == '/' {
            assert(split_on_slash(t) == (pa + pb).push(e));
            assert(split_on_slash(b) == pb.push(e));
            assert((pa + pb).push(e) =~= pa + pb.push(e));
        } else {
            let q = pa + pb;
            assert(split_on_slash(t) == q.update(q.len() - 1, q.last().push(c)));
            assert(split_on_slash(b) == pb.update(pb.len() - 1, pb.last().push(c)));
            assert(q.last() == pb.last());
            assert(q.update(q.len() - 1, q.last().push(c)) =~= pa + pb.update(
                pb.len() - 1,
                pb.last().push(c),
            ));
        }
    }
}

/// A path climbs out exactly when it has a `..` component: somewhere in it
/// stand two dots with a separator or an end of the path on each side.
pub proof fn law_escapes_means_parent_step(s: Seq<char>)
    ensures
        escapes(s) <==> exists|i: int| parent_step_at(s, i),
    decreases s.len(),
{
    let pp = parent_piece();
    if !s.contains('/') {
        lemma_split_without_slash(s);
        if escapes(s) {
            let k = choose|k: int| 0 <= k < seq![s].len() && seq![s][k] == pp;
            assert(s == pp);
            assert(parent_step_at(s, 0));
        }
        if exists|i: int| parent_step_at(s, i) {
            let i = choose|i: int| parent_step_at(s, i);
            if i > 0 {
                assert(s[i - 1] == '/');
            }
            if i + 2 < s.len() {
                assert(s[i + 2] == '/');
            }
            assert(s =~= pp);
            assert(seq![s][0] == pp);
        }
    } else {
        let k = choose|k: int| 0 <= k < s.len() && s[k] == '/';
        let a = s.take(k);
        let b = s.skip(k + 1);
        assert(s =~= a + seq!['/'] + b);
        lemma_split_concat(a, b);
        law_escapes_means_parent_step(a);
        law_escapes_means_parent_step(b);
        let pa = split_on_slash(a);
        let pb = split_on_slash(b);
        assert(split_on_slash(s) == pa + pb);
        if escapes(s) {
            let j = choose|j: int| 0 <= j < (pa + pb).len() && (pa + pb)[j] == pp;
            if j < pa.len() {
                assert(pa[j] == pp);
                assert(escapes(a));
                let i = choose|i: int| parent_step_at(a, i);
                assert(a[i] == s[i] && a[i + 1] == s[i + 1]);
                if i > 0 {
                    assert(a[i - 1] == s[i - 1]);
                }
                if i + 2 < a.len() {
                    assert(a[i + 2] == s[i + 2]);
                }
                assert(parent_step_at(s, i));
            } else {
                assert(pb[j - pa.len()] == pp);
                assert(escapes(b));
                let i = choose|i: int| parent_step_at(b, i);
                let m = i + k + 1;
                assert(b[i] == s[m] && b[i + 1] == s[m + 1]);
                if i > 0 {
                    assert(b[i - 1] == s[m - 1]);
                }
                if i + 2 < b.len() {
                    assert(b[i + 2] == s[m + 2]);
                }
                assert(parent_step_at(s, m));
            }
        }
        if exists|i: int| parent_step_at(s, i) {
            let i = choose|i: int| parent_step_at(s, i);
            if i + 2 <= k {
                assert(a[i] == s[i] && a[i + 1] == s[i + 1]);
                if i > 0 {
                    assert(a[i - 1] == s[i - 1]);
                }
                if i + 2 < k {
                    assert(a[i + 2] == s[i + 2]);
                }
                assert(parent_step_at(a, i));
                let j = choose|j: int| 0 <= j < pa.len() && pa[j] == pp;
                assert((pa + pb)[j] == pp);
            } else {
                assert(i != k && i + 1 != k);
                let m = i - k - 1;
                assert(b[m] == s[i] && b[m + 1] == s[i + 1]);
                if m > 0 {
                    assert(b[m - 1] == s[i - 1]);
                }
                if m + 2 < b.len() {
                    assert(b[m + 2] == s[i + 2]);
                }
                assert(parent_step_at(b, m));
                let j = choose|j: int| 0 <= j < pb.len() && pb[j] == pp;
                assert((pa + pb)[j + pa.len()] == pp);
            }
        }
    }
}

proof fn lemma_kept_concat(ps: Seq<Seq<char>>, qs: Seq<Seq<char>>)
    ensures
        kept_pieces(ps + qs) == kept_pieces(ps) + kept_pieces(qs),
    decreases qs.len(),
{
    if qs.len() == 0 {
        assert(ps + qs =~= ps);
        assert(kept_pieces(ps) + kept_pieces(qs) =~= kept_pieces(ps));
    } else {
        let q0 = qs.drop_last();
        lemma_kept_concat(ps, q0);
        assert((ps + qs).drop_last() =~= ps + q0);
        assert((ps + qs).last() == qs.last());
        if !is_skipped(qs.last()) {
            assert((kept_pieces(ps) + kept_pieces(q0)).push(qs.last()) =~= kept_pieces(ps) + kept_pieces(
                q0,
            ).push(qs.last()));
        }
    }
}

proof fn lemma_join_concat(base: Seq<char>, xs: Seq<Seq<char>>, ys: Seq<Seq<char>>)
    ensures
        join_all(base, xs + ys) == join_all(join_all(base, xs), ys),
    decreases ys.len(),
{
    if ys.len() == 0 {
        assert(xs + ys =~= xs);
    } else {
        lemma_join_concat(base, xs, ys.drop_last());
        assert((xs + ys).drop_last() =~= xs + ys.drop_last());
        assert((xs + ys).last() == ys.last());
    }
}

/// Joining a path onto a root is joining its parts in turn: for `a/b`,
/// join `a` onto the root, then `b` onto what that gave; if either part
/// climbs out, so does the whole.
pub proof fn law_join_goes_part_by_part(root: Seq<char>, a: Seq<char>, b: Seq<char>)
    ensures
        joined(root, a + seq!['/'] + b) == (match joined(root, a) {
            None => None,
            Some(p) => joined(p, b),
        }),
{
    lemma_split_concat(a, b);
    let pa = split_on_slash(a);
    let pb = split_on_slash(b);
    let pp = parent_piece();
    assert((pa + pb).contains(pp) <==> pa.contains(pp) || pb.contains(pp)) by {
        if (pa + pb).contains(pp) {
            let j = choose|j: int| 0 <= j < (pa + pb).len() && (pa + pb)[j] == pp;
            if j < pa.len() {
                assert(pa[j] == pp);
            } else {
                assert(pb[j - pa.len()] == pp);
            }
        }
        if pa.contains(pp) {
            let j = choose|j: int| 0 <= j < pa.len() && pa[j] == pp;
            assert((pa + pb)[j] == pp);
        }
        if pb.contains(pp) {
            let j = choose|j: int| 0 <= j < pb.len() && pb[j] == pp;
            assert((pa + pb)[j + pa.len()] == pp);
        }
    }
    lemma_kept_concat(pa, pb);
    lemma_join_concat(root, kept_pieces(pa), kept_pieces(pb));
}

/// A single name (no separator) joined onto a root: empty and `.` leave
/// the root as it is, `..` is refused, and any other name is appended,
/// after a `/` unless the root is empty or already ends in one.
pub proof fn law_join_single_name(root: Seq<char>, name: Seq<char>)
    requires
        !name.contains('/'),
    ensures
        (name.len() == 0 || name == seq!['.']) ==> joined(root, name) == Some(root),
        name == seq!['.', '.'] ==> joined(root, name) is None,
        (name.len() > 0 && name != seq!['.'] && name != seq!['.', '.']) ==> joined(root, name)
            == Some(
            if root.len() == 0 || root.last() == '/' {
                root + name
            } else {
                root + seq!['/'] + name
            },
        ),
{
    lemma_split_without_slash(name);
    let ps = seq![name];
    let none = Seq::<Seq<char>>::empty();
    assert(none.push(name) =~= ps);
    lemma_kept_step(none, name);
    assert(kept_pieces(none) == none);
    assert(join_all(root, none) == root);
    if name == parent_piece() {
        assert(ps[0] == parent_piece());
    } else {
        assert(!ps.contains(parent_piece())) by {
            if ps.contains(parent_piece()) {
                let j = choose|j: int| 0 <= j < ps.len() && ps[j] == parent_piece();
                assert(ps[j] == name);
            }
        }
        if !is_skipped(name) {
            assert(kept_pieces(ps) == ps);
            assert(ps.drop_last() =~= none);
            assert(join_all(root, ps) == push_component(root, name));
        }
    }
}

/// Leading slashes do not matter: `/file.txt` names the same place as
/// `file.txt` below the root.
pub proof fn law_leading_slash_ignored(root: Seq<char>, rel: Seq<char>)
    ensures
        joined(root, seq!['/'] + rel) == joined(root, rel),
{
    lemma_split_after_slash(rel);
    let e = Seq::<char>::empty();
    lemma_kept_after_skipped(e, split_on_slash(rel));
    let ps = split_on_slash(rel);
    assert((seq![e] + ps).contains(parent_piece()) == ps.contains(parent_piece())) by {
        if (seq![e] + ps).contains(parent_piece()) {
            let k = choose|k: int|
                0 <= k < (seq![e] + ps).len() && #[trigger] (seq![e] + ps)[k] == parent_piece();
            assert(k > 0);
            assert(ps[k - 1] == parent_piece());
        }
        if ps.contains(parent_piece()) {
            let k = choose|k: int| 0 <= k < ps.len() && #[trigger] ps[k] == parent_piece();
            assert((seq![e] + ps)[k + 1] == parent_piece());
        }
    }
}

/// A joined path never leaves the root: it starts with the root, and what
/// follows consists only of ordinary components (no `..`, no `.`, no empty
/// ones), added one by one below the root.
pub proof fn law_joined_stays_below_root(root: Seq<char>, rel: Seq<char>)
    requires
        joined(root, rel) is Some,
    ensures
        ({
            let p = joined(root, rel)->0;
            &&& root.len() <= p.len()
            &&& p.take(root.len() as int) == root
            &&& p == join_all(root, components(rel))
            &&& forall|i: int|
                0 <= i < components(rel).len() ==> is_normal_component(
                    #[trigger] components(rel)[i],
                )
        }),
{
    lemma_pieces_have_no_separator(rel);
    lemma_kept_are_normal(split_on_slash(rel));
    lemma_join_keeps_base(root, components(rel));
}

/// The characters of `s`, one by one.
pub fn chars_of(s: &str) -> (r: Vec<char>)
    ensures
        r@ == s@,
{
    let mut r: Vec<char> = Vec::new();
    for c in it: s.chars()
        invariant
            it.seq() == s@,
            r@ == s@.take(it.index()),
    {
        r.push(c);
        assert(s@.take(it.index() + 1) == s@.take(it.index()).push(c));
    }
    assert(s@.take(s@.len() as int) == s@);
    r
}

/// The pieces of `s` between `/` separators.
pub fn split_pieces(s: &str) -> (r: Vec<String>)
    ensures
        r@.len() == split_on_slash(s@).len(),
        forall|i: int| 0 <= i < r@.len() ==> #[trigger] r@[i]@ == split_on_slash(s@)[i],
{
    let cs = chars_of(s);
    let n = cs.len();
    let mut done: Vec<String> = Vec::new();
    let mut start: usize = 0;
    let mut i: usize = 0;
    while i < n
        invariant
            n == cs@.len(),
            cs@ == s@,
            start <= i <= n,
            split_on_slash(s@.take(i as int)).len() == done@.len() + 1,
            forall|k: int|
                0 <= k < done@.len() ==> #[trigger] done@[k]@ == split_on_slash(
                    s@.take(i as int),
                )[k],
            split_on_slash(s@.take(i as int)).last() == s@.subrange(start as int, i as int),
        decreases n - i,
    {
        let c = cs[i];
        proof {
            assert(s@.take(i + 1) == s@.take(i as int).push(c));
            lemma_split_step(s@.take(i as int), c);
        }
        if c == '/' {
            let piece = s.substring_char(start, i).to_owned();
            done.push(piece);
            start = i + 1;
            assert(s@.subrange(start as int, (i + 1) as int) == Seq::<char>::empty());
        } else {
            assert(s@.subrange(start as int, i + 1) == s@.subrange(start as int, i as int).push(c));
        }
        i = i + 1;
    }
    let last = s.substring_char(start, n).to_owned();
    done.push(last);
    assert(s@.take(n as int) == s@);
    done
}

/// Whether `p` is `..`.
fn is_parent_piece(p: &str) -> (b: bool)
    ensures
        b == (p@ == parent_piece()),
{
    let n = p.unicode_len();
    if n == 2 {
        let c0 = p.get_char(0);
        let c1 = p.get_char(1);
        assert(c0 == '.' && c1 == '.' ==> p@ == parent_piece());
        c0 == '.' && c1 == '.'
    } else {
        false
    }
}

/// Whether `p` is empty or `.`.
fn is_skipped_piece(p: &str) -> (b: bool)
    ensures
        b == is_skipped(p@),
{
    let n = p.unicode_len();
    if n == 0 {
        true
    } else if n == 1 {
        let c0 = p.get_char(0);
        assert(c0 == '.' ==> p@ == seq!['.']);
        c0 == '.'
    } else {
        false
    }
}

/// Join `root` with `rel`, rejecting any path-traversal components (`..`).
///
/// Leading slashes, repeated slashes and `.` components of `rel` are
/// ignored, so `rel` always stays below `root`. Returns `None` if `rel`
/// contains a component that would escape `root`.
pub fn safe_join(root: &str, rel: &str) -> (r: Option<String>)
    ensures
        r matches Some(p) ==> joined(root@, rel@) == Some(p@),
        r is None ==> joined(root@, rel@) is None,
{
    let pieces = split_pieces(rel);
    let ghost ps = split_on_slash(rel@);
    proof {
        lemma_pieces_have_no_separator(rel@);
    }
    let rn = root.unicode_len();
    let mut ends_sep = rn == 0 || root.get_char(rn - 1) == '/';
    let mut result = root.to_owned();
    let mut j: usize = 0;
    while j < pieces.len()
        invariant
            pieces@.len() == ps.len(),
            forall|i: int| 0 <= i < ps.len() ==> #[trigger] pieces@[i]@ == ps[i],
            forall|i: int| 0 <= i < ps.len() ==> !(#[trigger] ps[i]).contains('/'),
            ps == split_on_slash(rel@),
            0 <= j <= ps.len(),
            result@ == join_all(root@, kept_pieces(ps.take(j as int))),
            !ps.take(j as int).contains(parent_piece()),
            ends_sep == (result@.len() == 0 || result@.last() == '/'),
        decreases ps.len() - j,
    {
        let piece = pieces[j].as_str();
        proof {
            assert(ps.take(j + 1) == ps.take(j as int).push(ps[j as int]));
            lemma_kept_step(ps.take(j as int), ps[j as int]);
        }
        if is_parent_piece(piece) {
            assert(ps[j as int] == parent_piece());
            return None;
        }
        if !is_skipped_piece(piece) {
            let ghost before = result@;
            let ghost kept = kept_pieces(ps.take(j as int));
            assert(kept.push(piece@).drop_last() == kept);
            if !ends_sep {
                proof {
                    reveal_strlit("/");
                }
                result.append("/");
            }
            result.append(piece);
            ends_sep = false;
            assert(result@ == push_component(before, piece@));
            assert(result@.last() == piece@.last());
            assert(piece@.contains(piece@.last()));
        }
        assert(!ps.take(j + 1).contains(parent_piece())) by {
            if ps.take(j + 1).contains(parent_piece()) {
                let k = choose|k: int| 0 <= k < j + 1 && #[trigger] ps.take(j + 1)[k] == parent_piece();
                if k < j {
                    assert(ps.take(j as int)[k] == parent_piece());
                }
            }
        }
        j = j + 1;
    }
    assert(ps.take(ps.len() as int) == ps);
    Some(result)
}

/// Whether a path is absolute: it starts with `/`.
pub open spec fn has_root(p: Seq<char>) -> bool {
    p.len() > 0 && p[0] == '/'
}

/// Whether a relative path starts with a `.` component (`.` or `./...`),
/// which a path keeps as its first component.
pub open spec fn leading_current_dir(p: Seq<char>) -> bool {
    !has_root(p) && split_on_slash(p)[0] == seq!['.']
}

/// What stands before a path's ordinary components: `/` for an absolute
/// path, `.` for one that starts with a `.` component, else nothing.
pub open spec fn path_prefix(p: Seq<char>) -> Seq<char> {
    if has_root(p) {
        seq!['/']
    } else if leading_current_dir(p) {
        seq!['.']
    } else {
        Seq::<char>::empty()
    }
}

/// The parent of a path: the path without its final component, written
/// with single separators. `None` when the path is empty or only a root;
/// the empty path for a relative path of one component.
pub open spec fn parent_of(p: Seq<char>) -> Option<Seq<char>> {
    let cs = components(p);
    if cs.len() > 0 {
        Some(join_all(path_prefix(p), cs.drop_last()))
    } else if leading_current_dir(p) {
        Some(Seq::<char>::empty())
    } else {
        None
    }
}

/// A path in the form that joining gives (its prefix followed by its
/// components, single separators between them).
pub open spec fn is_tidy_path(p: Seq<char>) -> bool {
    p == join_all(path_prefix(p), components(p))
}

/// The parent of a path with one more name appended is the path itself:
/// for a tidy path `p` and a single ordinary name `n`, the parent of
/// `p/n` is `p`. This is why the server checks the parent of the joined
/// target before an upload: it is the directory that will hold it.
pub proof fn law_parent_undoes_push(p: Seq<char>, name: Seq<char>)
    requires
        is_tidy_path(p),
        is_normal_component(name),
    ensures
        parent_of(push_component(p, name)) == Some(p),
{
    let q = push_component(p, name);
    let e = Seq::<char>::empty();
    lemma_split_without_slash(name);
    let none = Seq::<Seq<char>>::empty();
    assert(none.push(name) =~= seq![name]);
    lemma_kept_step(none, name);
    assert(kept_pieces(none) == none);
    assert(kept_pieces(seq![name]) == seq![name]);
    if p.len() == 0 {
        assert(q =~= name);
        assert(none.push(e) =~= seq![e]);
        lemma_kept_step(none, e);
        assert(split_on_slash(p) == seq![e]);
        assert(components(p) == none);
        assert(components(q) =~= components(p).push(name));
        assert(name[0] != '/');
        assert(split_on_slash(q)[0] == name);
        assert(split_on_slash(p)[0] == e);
        assert(path_prefix(q) == path_prefix(p));
    } else {
        let base = if p.last() == '/' { p.drop_last() } else { p };
        assert(q =~= base + seq!['/'] + name);
        lemma_split_concat(base, name);
        lemma_kept_concat(split_on_slash(base), seq![name]);
        lemma_split_nonempty(base);
        assert(split_on_slash(q) == split_on_slash(base) + seq![name]);
        assert(components(q) == kept_pieces(split_on_slash(base)).push(name));
        if p.last() == '/' {
            assert(p =~= base.push('/'));
            lemma_split_step(base, '/');
            lemma_kept_step(split_on_slash(base), e);
            assert(split_on_slash(p) == split_on_slash(base).push(e));
            assert(split_on_slash(p)[0] == split_on_slash(base)[0]);
        }
        assert(components(q) == components(p).push(name));
        assert(split_on_slash(q)[0] == split_on_slash(base)[0]);
        assert(split_on_slash(q)[0] == split_on_slash(p)[0]);
        assert(q[0] == p[0]);
        assert(path_prefix(q) == path_prefix(p));
    }
    assert(components(q).drop_last() =~= components(p));
}

/// The parent directory of a path, as `Path::parent` gives it on Unix (the
/// same components): the path without its final component. Repeated
/// separators, trailing separators and inner `.` components are ignored;
/// a leading `/` or `.` is kept. `None` for the empty path and for `/`;
/// the empty path for a relative path of one component.
pub fn parent_dir(p: &str) -> (r: Option<String>)
    ensures
        r matches Some(q) ==> parent_of(p@) == Some(q@),
        r is None ==> parent_of(p@) is None,
{
    let pieces = split_pieces(p);
    let ghost ps = split_on_slash(p@);
    proof {
        lemma_pieces_have_no_separator(p@);
        lemma_split_nonempty(p@);
    }
    let mut kept: Vec<String> = Vec::new();
    let mut j: usize = 0;
    while j < pieces.len()
        invariant
            pieces@.len() == ps.len(),
            forall|i: int| 0 <= i < ps.len() ==> #[trigger] pieces@[i]@ == ps[i],
            forall|i: int| 0 <= i < ps.len() ==> !(#[trigger] ps[i]).contains('/'),
            ps == split_on_slash(p@),
            0 <= j <= ps.len(),
            kept@.len() == kept_pieces(ps.take(j as int)).len(),
            forall|i: int|
                0 <= i < kept@.len() ==> #[trigger] kept@[i]@ == kept_pieces(ps.take(j as int))[i],
            forall|i: int|
                0 <= i < kept@.len() ==> kept@[i]@.len() > 0 && !(#[trigger] kept@[i]@).contains(
                    '/',
                ),
        decreases ps.len() - j,
    {
        proof {
            assert(ps.take(j + 1) == ps.take(j as int).push(ps[j as int]));
            lemma_kept_step(ps.take(j as int), ps[j as int]);
        }
        if !is_skipped_piece(pieces[j].as_str()) {
            let piece = pieces[j].clone();
            kept.push(piece);
        }
        j = j + 1;
    }
    assert(ps.take(ps.len() as int) == ps);
    let ghost cs = components(p@);
    let n = p.unicode_len();
    let rooted = n > 0 && p.get_char(0) == '/';
    let first = pieces[0].as_str();
    let current = !rooted && first.unicode_len() == 1 && first.get_char(0) == '.';
    proof {
        if !rooted && first@.len() == 1 && first@[0] == '.' {
            assert(first@ =~= seq!['.']);
        }
    }
    assert(current == leading_current_dir(p@));
    if kept.len() == 0 {
        if current {
            return Some(String::new());
        } else {
            return None;
        }
    }
    let mut result = if rooted {
        "/".to_owned()
    } else if current {
        ".".to_owned()
    } else {
        String::new()
    };
    proof {
        reveal_strlit("/");
        reveal_strlit(".");
    }
    assert(result@ == path_prefix(p@));
    let mut ends_sep = !current;
    let last = kept.len() - 1;
    let mut k: usize = 0;
    while k < last
        invariant
            last == cs.len() - 1,
            kept@.len() == cs.len(),
            forall|i: int| 0 <= i < cs.len() ==> #[trigger] kept@[i]@ == cs[i],
            forall|i: int|
                0 <= i < kept@.len() ==> kept@[i]@.len() > 0 && !(#[trigger] kept@[i]@).contains(
                    '/',
                ),
            0 <= k <= last,
            result@ == join_all(path_prefix(p@), cs.take(k as int)),
            ends_sep == (result@.len() == 0 || result@.last() == '/'),
        decreases last - k,
    {
        let piece = kept[k].as_str();
        let ghost before = result@;
        proof {
            assert(cs.take(k + 1) == cs.take(k as int).push(cs[k as int]));
            assert(cs.take(k + 1).drop_last() == cs.take(k as int));
        }
        if !ends_sep {
            proof {
                reveal_strlit("/");
            }
            result.append("/");
        }
        result.append(piece);
        ends_sep = false;
        assert(result@ == push_component(before, piece@));
        assert(result@.last() == piece@.last());
        assert(piece@.contains(piece@.last()));
        k = k + 1;
    }
    assert(cs.take(last as int) == cs.drop_last());
    Some(result)
}

} // verus!
