use vstd::prelude::*;
use crate::text::{chars_of, string_of};

verus! {

/// `s` with every slash dropped that stands at the start or follows a slash.
pub open spec fn squeezed(s: Seq<char>) -> Seq<char>
    decreases s.len(),
{
    if s.len() == 0 {
        Seq::empty()
    } else {
        let head = squeezed(s.drop_last());
        if s.last() == '/' && (head.len() == 0 || head.last() == '/') {
            head
        } else {
            head.push(s.last())
        }
    }
}

/// The normal form of a path: its non-empty segments, joined by single
/// slashes, with no slash at either end.
pub open spec fn normalized(s: Seq<char>) -> Seq<char> {
    let q = squeezed(s);
    if q.len() > 0 && q.last() == '/' {
        q.drop_last()
    } else {
        q
    }
}

/// Whether a path has no slash at its start and no two slashes in a row.
pub open spec fn clean(q: Seq<char>) -> bool {
    &&& q.len() > 0 ==> q[0] != '/'
    &&& forall|i: int| 0 < i < q.len() ==> !(q[i - 1] == '/' && #[trigger] q[i] == '/')
}

/// Whether a path is in normal form: clean, and no slash at its end.
pub open spec fn canonical(q: Seq<char>) -> bool {
    &&& clean(q)
    &&& q.len() > 0 ==> q.last() != '/'
}

/// The position of the last slash of `p`, or -1 where it has none.
pub open spec fn last_slash(p: Seq<char>) -> int
    decreases p.len(),
{
    if p.len() == 0 {
        -1
    } else if p.last() == '/' {
        p.len() - 1
    } else {
        last_slash(p.drop_last())
    }
}

/// The parent of a normalised path: none for the root, the root for a path
/// of one segment, else the path up to its last slash.
pub open spec fn parent_of(p: Seq<char>) -> Option<Seq<char>> {
    if p.len() == 0 {
        None
    } else if last_slash(p) < 0 {
        Some(Seq::empty())
    } else {
        Some(p.subrange(0, last_slash(p)))
    }
}

/// The prefix that the paths below directory `dir` share: empty for the
/// root, else the directory and a slash.
pub open spec fn dir_prefix(dir: Seq<char>) -> Seq<char> {
    if dir.len() == 0 {
        dir
    } else {
        dir.push('/')
    }
}

/// Whether `k` begins with `p`.
pub open spec fn begins_with(k: Seq<char>, p: Seq<char>) -> bool {
    p.len() <= k.len() && k.subrange(0, p.len() as int) == p
}

/// Whether position `k` ends a segment of the normalised path `p`.
pub open spec fn is_boundary(p: Seq<char>, k: int) -> bool {
    0 < k <= p.len() && (k == p.len() || p[k] == '/')
}

proof fn lemma_squeezed_clean(s: Seq<char>)
    ensures
        clean(squeezed(s)),
    decreases s.len(),
{
    if s.len() > 0 {
        lemma_squeezed_clean(s.drop_last());
    }
}

proof fn lemma_clean_fixed(q: Seq<char>)
    requires
        clean(q),
    ensures
        squeezed(q) == q,
    decreases q.len(),
{
    if q.len() > 0 {
        let head = q.drop_last();
        assert(clean(head)) by {
            assert forall|i: int| 0 < i < head.len() implies !(head[i - 1] == '/'
                && #[trigger] head[i] == '/') by {
                assert(!(q[i - 1] == '/' && q[i] == '/'));
            }
        }
        lemma_clean_fixed(head);
        if head.len() > 0 {
            assert(!(q[q.len() - 2] == '/' && q[q.len() - 1] == '/'));
        }
        assert(head.push(q.last()) =~= q);
    }
}

/// The normal form of any path is canonical.
pub proof fn lemma_normalized_canonical(s: Seq<char>)
    ensures
        canonical(normalized(s)),
{
    let q = squeezed(s);
    lemma_squeezed_clean(s);
    if q.len() > 0 && q.last() == '/' {
        let r = q.drop_last();
        assert forall|i: int| 0 < i < r.len() implies !(r[i - 1] == '/' && #[trigger] r[i]
            == '/') by {
            assert(!(q[i - 1] == '/' && q[i] == '/'));
        }
        if r.len() > 0 {
            assert(!(q[q.len() - 2] == '/' && q[q.len() - 1] == '/'));
        }
    }
}

/// A canonical path is its own normal form.
pub proof fn lemma_canonical_fixed(p: Seq<char>)
    requires
        canonical(p),
    ensures
        normalized(p) == p,
{
    lemma_clean_fixed(p);
}

/// Normalising is idempotent: a normal form normalises to itself.
pub proof fn lemma_normalized_idempotent(p: Seq<char>)
    ensures
        normalized(normalized(p)) == normalized(p),
{
    lemma_normalized_canonical(p);
    lemma_canonical_fixed(normalized(p));
}

proof fn lemma_squeezed_leading_slash(p: Seq<char>)
    ensures
        squeezed(seq!['/'] + p) == squeezed(p),
    decreases p.len(),
{
    let s = seq!['/'] + p;
    if p.len() == 0 {
        assert(s.drop_last() =~= Seq::<char>::empty());
        assert(squeezed(s.drop_last()) =~= Seq::<char>::empty());
    } else {
        lemma_squeezed_leading_slash(p.drop_last());
        assert(s.drop_last() =~= seq!['/'] + p.drop_last());
    }
}

/// A path with a slash in front has the normal form of the path without it.
pub proof fn lemma_normalized_leading_slash(p: Seq<char>)
    ensures
        normalized(seq!['/'] + p) == normalized(p),
{
    lemma_squeezed_leading_slash(p);
}

/// The segments of a path: its longest runs of characters other than the
/// slash, in order.
pub open spec fn segments(s: Seq<char>) -> Seq<Seq<char>>
    decreases s.len(),
{
    if s.len() == 0 {
        Seq::empty()
    } else {
        let head = segments(s.drop_last());
        if s.last() == '/' {
            head
        } else if s.len() >= 2 && s[s.len() - 2] != '/' && head.len() > 0 {
            head.drop_last().push(head.last().push(s.last()))
        } else {
            head.push(seq![s.last()])
        }
    }
}

/// The segments joined by single slashes.
pub open spec fn joined(segs: Seq<Seq<char>>) -> Seq<char>
    decreases segs.len(),
{
    if segs.len() == 0 {
        Seq::empty()
    } else if segs.len() == 1 {
        segs[0]
    } else {
        joined(segs.drop_last()) + seq!['/'] + segs.last()
    }
}

/// The slash that the squeezed form of `s` ends with, where it ends with
/// one.
pub open spec fn trailing(s: Seq<char>) -> Seq<char> {
    if s.len() > 0 && s.last() == '/' && segments(s).len() > 0 {
        seq!['/']
    } else {
        Seq::empty()
    }
}

proof fn lemma_last_segment(s: Seq<char>)
    ensures
        s.len() > 0 && s.last() != '/' ==> segments(s).len() > 0,
        segments(s).len() > 0 ==> segments(s).last().len() > 0 && segments(s).last().last() != '/',
        segments(s).len() > 0 ==> joined(segments(s)).len() > 0 && joined(segments(s)).last()
            != '/',
    decreases s.len(),
{
    if s.len() > 0 {
        lemma_last_segment(s.drop_last());
    }
}

proof fn lemma_joined_grows(h: Seq<Seq<char>>, c: char)
    requires
        h.len() > 0,
    ensures
        joined(h.drop_last().push(h.last().push(c))) == joined(h).push(c),
{
    let g = h.drop_last().push(h.last().push(c));
    assert(g.last() == h.last().push(c));
    assert(g.drop_last() =~= h.drop_last());
    if h.len() == 1 {
        assert(joined(g) =~= joined(h).push(c));
    } else {
        assert(joined(g) =~= joined(h).push(c));
    }
}

proof fn lemma_squeezed_segments(s: Seq<char>)
    ensures
        squeezed(s) == joined(segments(s)) + trailing(s),
    decreases s.len(),
{
    if s.len() == 0 {
        assert(squeezed(s) =~= joined(segments(s)) + trailing(s));
    } else {
        let front = s.drop_last();
        let c = s.last();
        let head = segments(front);
        lemma_squeezed_segments(front);
        lemma_last_segment(front);
        lemma_last_segment(s);
        if c == '/' {
            if head.len() == 0 {
                assert(squeezed(front) =~= Seq::<char>::empty());
            } else if front.last() == '/' {
                assert(squeezed(front) =~= joined(head) + seq!['/']);
                assert(squeezed(front).last() == '/');
            } else {
                assert(squeezed(front) =~= joined(head));
            }
            assert(squeezed(s) =~= joined(segments(s)) + trailing(s));
        } else {
            if front.len() > 0 && front.last() != '/' {
                assert(s[s.len() - 2] == front.last());
                lemma_joined_grows(head, c);
                assert(squeezed(front) =~= joined(head));
            } else {
                let g = head.push(seq![c]);
                assert(g.drop_last() =~= head);
                if head.len() == 0 {
                    assert(squeezed(front) =~= Seq::<char>::empty());
                } else {
                    assert(front.len() > 0);
                    assert(s[s.len() - 2] == front.last());
                    assert(squeezed(front) =~= joined(head) + seq!['/']);
                }
            }
            assert(squeezed(s) =~= joined(segments(s)) + trailing(s));
        }
    }
}

/// The normal form of a path is its segments joined by single slashes:
/// empty segments are dropped, and no slash stands at either end.
pub proof fn lemma_normalized_joins_segments(s: Seq<char>)
    ensures
        normalized(s) == joined(segments(s)),
{
    lemma_squeezed_segments(s);
    lemma_last_segment(s);
    let q = squeezed(s);
    let j = joined(segments(s));
    if trailing(s).len() > 0 {
        assert(q =~= j.push('/'));
        assert(q.drop_last() =~= j);
    } else {
        assert(q =~= j);
    }
}

/// Normalises a path held as characters.
pub fn normalise_text(path: &Vec<char>) -> (out: Vec<char>)
    ensures
        out@ == normalized(path@),
        out@ == joined(segments(path@)),
        canonical(out@),
{
    proof {
        lemma_normalized_canonical(path@);
        lemma_normalized_joins_segments(path@);
    }
    let mut out: Vec<char> = Vec::new();
    let mut i: usize = 0;
    assert(path@.subrange(0, 0) =~= Seq::<char>::empty());
    while i < path.len()
        invariant
            i <= path.len(),
            out@ == squeezed(path@.subrange(0, i as int)),
        decreases path.len() - i,
    {
        let c: char = path[i];
        assert(path@.subrange(0, i + 1).drop_last() =~= path@.subrange(0, i as int));
        if c == '/' && (out.len() == 0 || out[out.len() - 1] == '/') {
        } else {
            out.push(c);
        }
        i += 1;
    }
    assert(path@.subrange(0, i as int) =~= path@);
    if out.len() > 0 && out[out.len() - 1] == '/' {
        out.pop();
    }
    out
}

/// Normalises a path: a leading slash is stripped and empty segments are
/// removed.
pub fn normalise(path: &str) -> (out: String)
    ensures
        out@ == normalized(path@),
        out@ == joined(segments(path@)),
        canonical(out@),
{
    let text = chars_of(path);
    let norm = normalise_text(&text);
    string_of(&norm)
}

/// The first `n` characters of `text`.
pub fn take_text(text: &Vec<char>, n: usize) -> (r: Vec<char>)
    requires
        n <= text.len(),
    ensures
        r@ == text@.subrange(0, n as int),
{
    let mut r: Vec<char> = Vec::new();
    let mut i: usize = 0;
    while i < n
        invariant
            i <= n <= text.len(),
            r@ == text@.subrange(0, i as int),
        decreases n - i,
    {
        r.push(text[i]);
        i += 1;
        assert(r@ =~= text@.subrange(0, i as int));
    }
    r
}

/// The characters of `text` from position `n` on.
pub fn skip_text(text: &Vec<char>, n: usize) -> (r: Vec<char>)
    requires
        n <= text.len(),
    ensures
        r@ == text@.subrange(n as int, text@.len() as int),
{
    let mut r: Vec<char> = Vec::new();
    let mut i: usize = n;
    while i < text.len()
        invariant
            n <= i <= text.len(),
            r@ == text@.subrange(n as int, i as int),
        decreases text.len() - i,
    {
        r.push(text[i]);
        i += 1;
        assert(r@ =~= text@.subrange(n as int, i as int));
    }
    r
}

/// The characters of `a` followed by those of `b`.
pub fn join_text(a: &Vec<char>, b: &Vec<char>) -> (r: Vec<char>)
    ensures
        r@ == a@ + b@,
{
    let mut r: Vec<char> = Vec::new();
    let mut i: usize = 0;
    while i < a.len()
        invariant
            i <= a.len(),
            r@ == a@.subrange(0, i as int),
        decreases a.len() - i,
    {
        r.push(a[i]);
        i += 1;
        assert(r@ =~= a@.subrange(0, i as int));
    }
    assert(r@ =~= a@);
    let mut j: usize = 0;
    while j < b.len()
        invariant
            j <= b.len(),
            r@ == a@ + b@.subrange(0, j as int),
        decreases b.len() - j,
    {
        r.push(b[j]);
        j += 1;
        assert(r@ =~= a@ + b@.subrange(0, j as int));
    }
    assert(r@ =~= a@ + b@);
    r
}

/// The parent of a normalised path held as characters.
pub fn parent_text(path: &Vec<char>) -> (r: Option<Vec<char>>)
    ensures
        r is Some <==> parent_of(path@) is Some,
        r is Some ==> r->0@ == parent_of(path@)->0,
{
    if path.len() == 0 {
        return None;
    }
    let mut i: usize = path.len();
    assert(path@.subrange(0, i as int) =~= path@);
    while i > 0
        invariant
            i <= path.len(),
            last_slash(path@) == last_slash(path@.subrange(0, i as int)),
        decreases i,
    {
        assert(path@.subrange(0, i as int).drop_last() =~= path@.subrange(0, i - 1));
        if path[i - 1] == '/' {
            let r = take_text(path, i - 1);
            return Some(r);
        }
        i -= 1;
    }
    let r: Vec<char> = Vec::new();
    assert(r@ =~= Seq::<char>::empty());
    Some(r)
}

/// Returns the parent of a normalised path; the empty string stands for the
/// root, which has no parent.
pub fn parent(path: &str) -> (r: Option<String>)
    ensures
        r is Some <==> parent_of(path@) is Some,
        r is Some ==> r->0@ == parent_of(path@)->0,
{
    let text = chars_of(path);
    match parent_text(&text) {
        Some(p) => Some(string_of(&p)),
        None => None,
    }
}

/// Whether `text` begins with `prefix`.
pub fn starts_with(text: &Vec<char>, prefix: &Vec<char>) -> (r: bool)
    ensures
        r == begins_with(text@, prefix@),
{
    if prefix.len() > text.len() {
        return false;
    }
    let mut i: usize = 0;
    while i < prefix.len()
        invariant
            i <= prefix.len() <= text.len(),
            forall|k: int| 0 <= k < i ==> text@[k] == prefix@[k],
        decreases prefix.len() - i,
    {
        if text[i] != prefix[i] {
            assert(text@.subrange(0, prefix@.len() as int)[i as int] != prefix@[i as int]);
            return false;
        }
        i += 1;
    }
    assert(text@.subrange(0, prefix@.len() as int) =~= prefix@);
    true
}

/// The prefix shared by the paths below a directory.
pub fn prefix_of_dir(dir: &Vec<char>) -> (r: Vec<char>)
    ensures
        r@ == dir_prefix(dir@),
{
    let mut r = take_text(dir, dir.len());
    assert(r@ =~= dir@);
    if dir.len() > 0 {
        r.push('/');
    }
    r
}

} // verus!
