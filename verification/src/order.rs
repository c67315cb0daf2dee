use vstd::prelude::*;

verus! {

/// How one path stands to another in the order of their characters.
#[derive(Debug, Clone, Copy, PartialEq, Eq, Structural)]
pub enum Rank {
    Before,
    Same,
    After,
}

/// Whether `a` comes before `b` when both agree below position `i`: at the
/// first position where they differ the smaller character decides, and a
/// path that ends first comes first.
pub open spec fn before_from(a: Seq<char>, b: Seq<char>, i: int) -> bool
    decreases a.len() - i,
{
    if i < 0 || i >= b.len() {
        false
    } else if i >= a.len() {
        true
    } else if a[i] != b[i] {
        (a[i] as int) < (b[i] as int)
    } else {
        before_from(a, b, i + 1)
    }
}

/// The order of paths: character by character, by code point.
pub open spec fn path_lt(a: Seq<char>, b: Seq<char>) -> bool {
    before_from(a, b, 0)
}

/// Whether each path of `s` comes before all that follow it.
pub open spec fn ascending(s: Seq<Seq<char>>) -> bool {
    forall|i: int, j: int| 0 <= i < j < s.len() ==> path_lt(#[trigger] s[i], #[trigger] s[j])
}

/// Whether `s` lists exactly the paths of `set`, in ascending order.
pub open spec fn lists_in_order(s: Seq<Seq<char>>, set: Set<Seq<char>>) -> bool {
    &&& ascending(s)
    &&& forall|p: Seq<char>| s.contains(p) <==> set.contains(p)
}

proof fn lemma_before_irreflexive(a: Seq<char>, i: int)
    requires
        0 <= i,
    ensures
        !before_from(a, a, i),
    decreases a.len() - i,
{
    if i < a.len() {
        lemma_before_irreflexive(a, i + 1);
    }
}

proof fn lemma_before_transitive(a: Seq<char>, b: Seq<char>, c: Seq<char>, i: int)
    requires
        0 <= i,
        before_from(a, b, i),
        before_from(b, c, i),
    ensures
        before_from(a, c, i),
    decreases a.len() - i,
{
    if i < a.len() && i < b.len() && i < c.len() && a[i] == b[i] && b[i] == c[i] {
        lemma_before_transitive(a, b, c, i + 1);
    }
}

proof fn lemma_before_total(a: Seq<char>, b: Seq<char>, i: int)
    requires
        0 <= i <= a.len(),
        i <= b.len(),
        forall|k: int| 0 <= k < i ==> a[k] == b[k],
        !before_from(a, b, i),
        !before_from(b, a, i),
    ensures
        a == b,
    decreases a.len() - i,
{
    if i < a.len() && i < b.len() {
        lemma_before_total(a, b, i + 1);
    } else {
        assert(a =~= b);
    }
}

/// No path comes before itself.
pub proof fn lemma_lt_irreflexive(a: Seq<char>)
    ensures
        !path_lt(a, a),
{
    lemma_before_irreflexive(a, 0);
}

/// The order of paths is transitive.
pub proof fn lemma_lt_transitive(a: Seq<char>, b: Seq<char>, c: Seq<char>)
    requires
        path_lt(a, b),
        path_lt(b, c),
    ensures
        path_lt(a, c),
{
    lemma_before_transitive(a, b, c, 0);
}

/// Of two different paths one comes before the other.
pub proof fn lemma_lt_total(a: Seq<char>, b: Seq<char>)
    requires
        !path_lt(a, b),
        !path_lt(b, a),
    ensures
        a == b,
{
    lemma_before_total(a, b, 0);
}

/// No two paths come each before the other.
pub proof fn lemma_lt_asymmetric(a: Seq<char>, b: Seq<char>)
    requires
        path_lt(a, b),
    ensures
        !path_lt(b, a),
{
    if path_lt(b, a) {
        lemma_lt_transitive(a, b, a);
        lemma_lt_irreflexive(a);
    }
}

/// Two ascending listings of the same paths are the same listing.
pub proof fn lemma_ascending_unique(s: Seq<Seq<char>>, t: Seq<Seq<char>>)
    requires
        ascending(s),
        ascending(t),
        forall|p: Seq<char>| s.contains(p) <==> t.contains(p),
    ensures
        s == t,
    decreases s.len(),
{
    if s.len() == 0 {
        if t.len() > 0 {
            assert(t.contains(t[0]));
        }
        assert(s =~= t);
    } else {
        assert(s.contains(s[0]));
        assert(t.contains(s[0]));
        assert(t.len() > 0);
        assert(t.contains(t[0]));
        assert(s.contains(t[0]));
        let i = choose|i: int| 0 <= i < t.len() && t[i] == s[0];
        let j = choose|j: int| 0 <= j < s.len() && s[j] == t[0];
        if i > 0 && j > 0 {
            assert(path_lt(t[0], t[i]));
            assert(path_lt(s[0], s[j]));
            lemma_lt_asymmetric(t[0], s[0]);
        }
        if i > 0 && j == 0 {
            assert(path_lt(t[0], t[i]));
            lemma_lt_irreflexive(s[0]);
        }
        if i == 0 && j > 0 {
            assert(path_lt(s[0], s[j]));
            lemma_lt_irreflexive(s[0]);
        }
        assert(s[0] == t[0]);
        let s1 = s.drop_first();
        let t1 = t.drop_first();
        assert(ascending(s1)) by {
            assert forall|x: int, y: int| 0 <= x < y < s1.len() implies path_lt(
                #[trigger] s1[x],
                #[trigger] s1[y],
            ) by {
                assert(path_lt(s[x + 1], s[y + 1]));
            }
        }
        assert(ascending(t1)) by {
            assert forall|x: int, y: int| 0 <= x < y < t1.len() implies path_lt(
                #[trigger] t1[x],
                #[trigger] t1[y],
            ) by {
                assert(path_lt(t[x + 1], t[y + 1]));
            }
        }
        assert forall|p: Seq<char>| s1.contains(p) <==> t1.contains(p) by {
            lemma_lt_irreflexive(s[0]);
            if s1.contains(p) {
                let x = choose|x: int| 0 <= x < s1.len() && s1[x] == p;
                assert(s[x + 1] == p);
                assert(path_lt(s[0], s[x + 1]));
                assert(s.contains(p));
                assert(t.contains(p));
                let y = choose|y: int| 0 <= y < t.len() && t[y] == p;
                assert(y != 0);
                assert(t1[y - 1] == p);
            }
            if t1.contains(p) {
                let x = choose|x: int| 0 <= x < t1.len() && t1[x] == p;
                assert(t[x + 1] == p);
                assert(path_lt(t[0], t[x + 1]));
                assert(t.contains(p));
                assert(s.contains(p));
                let y = choose|y: int| 0 <= y < s.len() && s[y] == p;
                assert(y != 0);
                assert(s1[y - 1] == p);
            }
        }
        lemma_ascending_unique(s1, t1);
        assert(s =~= seq![s[0]] + s1);
        assert(t =~= seq![t[0]] + t1);
    }
}

/// Compares two paths character by character.
pub fn order_of(a: &Vec<char>, b: &Vec<char>) -> (r: Rank)
    ensures
        r is Before <==> path_lt(a@, b@),
        r is Same <==> a@ == b@,
        r is After <==> path_lt(b@, a@),
{
    let mut i: usize = 0;
    while i < a.len() && i < b.len()
        invariant
            i <= a.len(),
            i <= b.len(),
            forall|k: int| 0 <= k < i ==> a@[k] == b@[k],
            path_lt(a@, b@) == before_from(a@, b@, i as int),
            path_lt(b@, a@) == before_from(b@, a@, i as int),
        decreases a.len() - i,
    {
        let x: char = a[i];
        let y: char = b[i];
        if x < y {
            proof {
                lemma_lt_asymmetric(a@, b@);
                lemma_lt_irreflexive(a@);
            }
            return Rank::Before;
        }
        if y < x {
            proof {
                lemma_lt_asymmetric(b@, a@);
                lemma_lt_irreflexive(a@);
            }
            return Rank::After;
        }
        assert(a@[i as int] == b@[i as int]);
        i += 1;
    }
    proof {
        lemma_lt_irreflexive(a@);
        if path_lt(a@, b@) {
            lemma_lt_asymmetric(a@, b@);
        }
        if !path_lt(a@, b@) && !path_lt(b@, a@) {
            lemma_lt_total(a@, b@);
        }
    }
    if i < b.len() {
        Rank::Before
    } else if i < a.len() {
        Rank::After
    } else {
        Rank::Same
    }
}

} // verus!
