use vstd::prelude::*;
use crate::text::{rows, same_text};

verus! {

/// One step of an edit script between an old and a new sequence of lines.
/// Each step carries the position reached in the old and in the new lines.
#[derive(Debug, Clone, Copy, PartialEq, Eq, Structural)]
pub enum Edit {
    /// The old line at the first index equals the new line at the second.
    Equal(usize, usize),
    /// The old line at the first index is removed.
    Delete(usize, usize),
    /// The new line at the second index is added.
    Insert(usize, usize),
}

/// Length of a longest common subsequence of `a[i..]` and `b[j..]`.
pub open spec fn lcs_len(a: Seq<Seq<char>>, b: Seq<Seq<char>>, i: int, j: int) -> nat
    decreases (a.len() - i) + (b.len() - j),
{
    if i < 0 || j < 0 || i >= a.len() || j >= b.len() {
        0
    } else if a[i] == b[j] {
        1 + lcs_len(a, b, i + 1, j + 1)
    } else {
        let down = lcs_len(a, b, i + 1, j);
        let right = lcs_len(a, b, i, j + 1);
        if down >= right {
            down
        } else {
            right
        }
    }
}

/// The edit script that turns `a[i..]` into `b[j..]`: common lines are kept,
/// and where the lines differ an insertion is preferred whenever skipping the
/// new line loses no more of the common subsequence than skipping the old one.
pub open spec fn edit_script(a: Seq<Seq<char>>, b: Seq<Seq<char>>, i: int, j: int) -> Seq<Edit>
    decreases (a.len() - i) + (b.len() - j),
{
    if i < 0 || j < 0 || i > a.len() || j > b.len() || (i == a.len() && j == b.len()) {
        Seq::empty()
    } else if i < a.len() && j < b.len() && a[i] == b[j] {
        seq![Edit::Equal(i as usize, j as usize)] + edit_script(a, b, i + 1, j + 1)
    } else if j < b.len() && (i == a.len() || lcs_len(a, b, i, j + 1) >= lcs_len(a, b, i + 1, j)) {
        seq![Edit::Insert(i as usize, j as usize)] + edit_script(a, b, i, j + 1)
    } else {
        seq![Edit::Delete(i as usize, j as usize)] + edit_script(a, b, i + 1, j)
    }
}

/// Number of `Equal` steps in a script.
pub open spec fn equal_count(s: Seq<Edit>) -> nat
    decreases s.len(),
{
    if s.len() == 0 {
        0
    } else {
        (if s[0] is Equal { 1nat } else { 0nat }) + equal_count(s.drop_first())
    }
}

/// Number of `Delete` steps in a script.
pub open spec fn delete_count(s: Seq<Edit>) -> nat
    decreases s.len(),
{
    if s.len() == 0 {
        0
    } else {
        (if s[0] is Delete { 1nat } else { 0nat }) + delete_count(s.drop_first())
    }
}

/// Number of `Insert` steps in a script.
pub open spec fn insert_count(s: Seq<Edit>) -> nat
    decreases s.len(),
{
    if s.len() == 0 {
        0
    } else {
        (if s[0] is Insert { 1nat } else { 0nat }) + insert_count(s.drop_first())
    }
}

/// Whether a step names only lines that exist: an old index below `m` where
/// it reads an old line, a new index below `n` where it reads a new one.
pub open spec fn step_fits(e: Edit, m: int, n: int) -> bool {
    match e {
        Edit::Equal(o, k) => o < m && k < n,
        Edit::Delete(o, k) => o < m && k <= n,
        Edit::Insert(o, k) => o <= m && k < n,
    }
}

/// Whether every step of a script fits lines of lengths `m` and `n`.
pub open spec fn script_fits(s: Seq<Edit>, m: int, n: int) -> bool {
    forall|k: int| 0 <= k < s.len() ==> step_fits(#[trigger] s[k], m, n)
}

/// A common subsequence of `a[i..]` and `b[j..]` is no longer than either.
pub proof fn lemma_lcs_bound(a: Seq<Seq<char>>, b: Seq<Seq<char>>, i: int, j: int)
    requires
        0 <= i <= a.len(),
        0 <= j <= b.len(),
    ensures
        lcs_len(a, b, i, j) <= a.len() - i,
        lcs_len(a, b, i, j) <= b.len() - j,
    decreases (a.len() - i) + (b.len() - j),
{
    if i < a.len() && j < b.len() {
        lemma_lcs_bound(a, b, i + 1, j + 1);
        lemma_lcs_bound(a, b, i + 1, j);
        lemma_lcs_bound(a, b, i, j + 1);
    }
}

/// Every edit script accounts for each remaining old line exactly once, as an
/// `Equal` or a `Delete` step, and for each remaining new line exactly once,
/// as an `Equal` or an `Insert` step.
pub proof fn lemma_script_counts(a: Seq<Seq<char>>, b: Seq<Seq<char>>, i: int, j: int)
    requires
        0 <= i <= a.len(),
        0 <= j <= b.len(),
    ensures
        equal_count(edit_script(a, b, i, j)) + delete_count(edit_script(a, b, i, j)) == a.len() - i,
        equal_count(edit_script(a, b, i, j)) + insert_count(edit_script(a, b, i, j)) == b.len() - j,
    decreases (a.len() - i) + (b.len() - j),
{
    let s = edit_script(a, b, i, j);
    if i == a.len() && j == b.len() {
    } else if i < a.len() && j < b.len() && a[i] == b[j] {
        lemma_script_counts(a, b, i + 1, j + 1);
        assert(s.drop_first() =~= edit_script(a, b, i + 1, j + 1));
    } else if j < b.len() && (i == a.len() || lcs_len(a, b, i, j + 1) >= lcs_len(a, b, i + 1, j)) {
        lemma_script_counts(a, b, i, j + 1);
        assert(s.drop_first() =~= edit_script(a, b, i, j + 1));
    } else {
        lemma_script_counts(a, b, i + 1, j);
        assert(s.drop_first() =~= edit_script(a, b, i + 1, j));
    }
}

/// The old lines that a script passes: those that it keeps or removes.
pub open spec fn old_side(s: Seq<Edit>, a: Seq<Seq<char>>) -> Seq<Seq<char>>
    decreases s.len(),
{
    if s.len() == 0 {
        Seq::empty()
    } else {
        (match s[0] {
            Edit::Equal(o, _) => seq![a[o as int]],
            Edit::Delete(o, _) => seq![a[o as int]],
            Edit::Insert(_, _) => Seq::empty(),
        }) + old_side(s.drop_first(), a)
    }
}

/// The lines that a script leaves: those that it keeps or adds.
pub open spec fn new_side(s: Seq<Edit>, a: Seq<Seq<char>>, b: Seq<Seq<char>>) -> Seq<Seq<char>>
    decreases s.len(),
{
    if s.len() == 0 {
        Seq::empty()
    } else {
        (match s[0] {
            Edit::Equal(o, _) => seq![a[o as int]],
            Edit::Insert(_, n) => seq![b[n as int]],
            Edit::Delete(_, _) => Seq::empty(),
        }) + new_side(s.drop_first(), a, b)
    }
}

/// An edit script turns the old lines into the new ones: it passes every
/// old line in order, and what it keeps and adds are the new lines in order.
pub proof fn lemma_script_transforms(a: Seq<Seq<char>>, b: Seq<Seq<char>>, i: int, j: int)
    requires
        0 <= i <= a.len(),
        0 <= j <= b.len(),
        a.len() <= usize::MAX,
        b.len() <= usize::MAX,
    ensures
        old_side(edit_script(a, b, i, j), a) == a.subrange(i, a.len() as int),
        new_side(edit_script(a, b, i, j), a, b) == b.subrange(j, b.len() as int),
    decreases (a.len() - i) + (b.len() - j),
{
    let s = edit_script(a, b, i, j);
    let ra = a.subrange(i, a.len() as int);
    let rb = b.subrange(j, b.len() as int);
    if i == a.len() && j == b.len() {
        assert(old_side(s, a) =~= ra);
        assert(new_side(s, a, b) =~= rb);
    } else if i < a.len() && j < b.len() && a[i] == b[j] {
        lemma_script_transforms(a, b, i + 1, j + 1);
        assert(s.drop_first() =~= edit_script(a, b, i + 1, j + 1));
        assert(old_side(s, a) =~= ra);
        assert(new_side(s, a, b) =~= rb);
    } else if j < b.len() && (i == a.len() || lcs_len(a, b, i, j + 1) >= lcs_len(a, b, i + 1, j)) {
        lemma_script_transforms(a, b, i, j + 1);
        assert(s.drop_first() =~= edit_script(a, b, i, j + 1));
        assert(old_side(s, a) =~= ra);
        assert(new_side(s, a, b) =~= rb);
    } else {
        lemma_script_transforms(a, b, i + 1, j);
        assert(s.drop_first() =~= edit_script(a, b, i + 1, j));
        assert(old_side(s, a) =~= ra);
        assert(new_side(s, a, b) =~= rb);
    }
}

/// An edit script keeps as many lines as a longest common subsequence has.
pub proof fn lemma_script_keeps_lcs(a: Seq<Seq<char>>, b: Seq<Seq<char>>, i: int, j: int)
    requires
        0 <= i <= a.len(),
        0 <= j <= b.len(),
    ensures
        equal_count(edit_script(a, b, i, j)) == lcs_len(a, b, i, j),
    decreases (a.len() - i) + (b.len() - j),
{
    let s = edit_script(a, b, i, j);
    if i == a.len() && j == b.len() {
    } else if i < a.len() && j < b.len() && a[i] == b[j] {
        lemma_script_keeps_lcs(a, b, i + 1, j + 1);
        assert(s.drop_first() =~= edit_script(a, b, i + 1, j + 1));
    } else if j < b.len() && (i == a.len() || lcs_len(a, b, i, j + 1) >= lcs_len(a, b, i + 1, j)) {
        lemma_script_keeps_lcs(a, b, i, j + 1);
        assert(s.drop_first() =~= edit_script(a, b, i, j + 1));
    } else {
        lemma_script_keeps_lcs(a, b, i + 1, j);
        assert(s.drop_first() =~= edit_script(a, b, i + 1, j));
    }
}

/// Every step of an edit script names lines that exist.
pub proof fn lemma_script_fits(a: Seq<Seq<char>>, b: Seq<Seq<char>>, i: int, j: int)
    requires
        0 <= i <= a.len(),
        0 <= j <= b.len(),
        a.len() <= usize::MAX,
        b.len() <= usize::MAX,
    ensures
        script_fits(edit_script(a, b, i, j), a.len() as int, b.len() as int),
    decreases (a.len() - i) + (b.len() - j),
{
    let s = edit_script(a, b, i, j);
    if i == a.len() && j == b.len() {
    } else if i < a.len() && j < b.len() && a[i] == b[j] {
        lemma_script_fits(a, b, i + 1, j + 1);
    } else if j < b.len() && (i == a.len() || lcs_len(a, b, i, j + 1) >= lcs_len(a, b, i + 1, j)) {
        lemma_script_fits(a, b, i, j + 1);
    } else {
        lemma_script_fits(a, b, i + 1, j);
    }
}

/// The table entry for `(i, j)`: rows are stored from the last old line
/// upwards, and entries past either end are zero.
pub open spec fn cell(table: Seq<Vec<usize>>, m: int, n: int, i: int, j: int) -> int {
    if i >= m || j >= n {
        0
    } else {
        table[m - 1 - i]@[j] as int
    }
}

/// Whether the stored rows hold the subsequence lengths for old lines
/// `from..m`.
pub open spec fn table_filled(
    table: Seq<Vec<usize>>,
    a: Seq<Seq<char>>,
    b: Seq<Seq<char>>,
    from: int,
) -> bool {
    &&& table.len() == a.len() - from
    &&& forall|i: int|
        from <= i < a.len() ==> (#[trigger] table[a.len() - 1 - i])@.len() == b.len()
    &&& forall|i: int, j: int|
        from <= i < a.len() && 0 <= j < b.len() ==> #[trigger] cell(
            table,
            a.len() as int,
            b.len() as int,
            i,
            j,
        ) == lcs_len(a, b, i, j)
}

fn cell_at(table: &Vec<Vec<usize>>, m: usize, n: usize, i: usize, j: usize) -> (r: usize)
    requires
        i >= m || j >= n || (m - 1 - i < table@.len() && j < table@[m - 1 - i]@.len()),
    ensures
        r == cell(table@, m as int, n as int, i as int, j as int),
{
    if i >= m || j >= n {
        0
    } else {
        table[m - 1 - i][j]
    }
}

fn zeros(n: usize) -> (r: Vec<usize>)
    ensures
        r@.len() == n,
        forall|k: int| 0 <= k < n ==> r@[k] == 0,
{
    let mut r: Vec<usize> = Vec::new();
    let mut k: usize = 0;
    while k < n
        invariant
            k <= n,
            r@.len() == k,
            forall|t: int| 0 <= t < k ==> r@[t] == 0,
        decreases n - k,
    {
        r.push(0);
        k += 1;
    }
    r
}

/// Fills the row of subsequence lengths for old line `i` from the rows below.
fn fill_row(old: &Vec<Vec<char>>, new: &Vec<Vec<char>>, table: &Vec<Vec<usize>>, i: usize) -> (row:
    Vec<usize>)
    requires
        i < old.len(),
        table_filled(table@, rows(old@), rows(new@), i + 1),
    ensures
        row@.len() == new.len(),
        forall|j: int|
            0 <= j < new.len() ==> row@[j] == lcs_len(rows(old@), rows(new@), i as int, j),
{
    let m: usize = old.len();
    let n: usize = new.len();
    let ghost a = rows(old@);
    let ghost b = rows(new@);
    let mut row: Vec<usize> = zeros(n);
    let mut j: usize = n;
    while j > 0
        invariant
            j <= n,
            n == new.len(),
            m == old.len(),
            i < m,
            a == rows(old@),
            b == rows(new@),
            row@.len() == n,
            table_filled(table@, a, b, i + 1),
            forall|k: int| j <= k < n ==> row@[k] == lcs_len(a, b, i as int, k),
        decreases j,
    {
        j -= 1;
        proof {
            lemma_lcs_bound(a, b, i + 1, j + 1);
            lemma_lcs_bound(a, b, i + 1, j as int);
            lemma_lcs_bound(a, b, i as int, j + 1);
            if i + 1 < m {
                assert(table@[m - 1 - (i + 1)]@.len() == n);
                assert(cell(table@, m as int, n as int, i + 1, j as int) == lcs_len(
                    a,
                    b,
                    i + 1,
                    j as int,
                ));
                if j + 1 < n {
                    assert(cell(table@, m as int, n as int, i + 1, j + 1) == lcs_len(
                        a,
                        b,
                        i + 1,
                        j + 1,
                    ));
                }
            }
        }
        let value: usize = if same_text(&old[i], &new[j]) {
            cell_at(table, m, n, i + 1, j + 1) + 1
        } else {
            let down: usize = cell_at(table, m, n, i + 1, j);
            let right: usize = if j + 1 < n {
                row[j + 1]
            } else {
                0
            };
            if down >= right {
                down
            } else {
                right
            }
        };
        row[j] = value;
    }
    row
}

/// Computes the edit script between two sequences of lines from the table of
/// longest-common-subsequence lengths.
pub fn lcs_diff(old: &Vec<Vec<char>>, new: &Vec<Vec<char>>) -> (edits: Vec<Edit>)
    ensures
        edits@ == edit_script(rows(old@), rows(new@), 0, 0),
        script_fits(edits@, old.len() as int, new.len() as int),
        equal_count(edits@) + delete_count(edits@) == old.len(),
        equal_count(edits@) + insert_count(edits@) == new.len(),
        equal_count(edits@) == lcs_len(rows(old@), rows(new@), 0, 0),
        old_side(edits@, rows(old@)) == rows(old@),
        new_side(edits@, rows(old@), rows(new@)) == rows(new@),
{
    let m: usize = old.len();
    let n: usize = new.len();
    let ghost a = rows(old@);
    let ghost b = rows(new@);
    let mut table: Vec<Vec<usize>> = Vec::new();
    let mut i: usize = m;
    while i > 0
        invariant
            i <= m,
            m == old.len(),
            n == new.len(),
            a == rows(old@),
            b == rows(new@),
            table_filled(table@, a, b, i as int),
        decreases i,
    {
        i -= 1;
        let row = fill_row(old, new, &table, i);
        let ghost before = table@;
        table.push(row);
        proof {
            assert forall|r: int| i <= r < m implies (#[trigger] table@[m - 1 - r])@.len() == n by {
                if r > i {
                    assert(table@[m - 1 - r] == before[m - 1 - r]);
                }
            }
            assert forall|r: int, c: int| i <= r < m && 0 <= c < n implies #[trigger] cell(
                table@,
                m as int,
                n as int,
                r,
                c,
            ) == lcs_len(a, b, r, c) by {
                if r > i {
                    assert(table@[m - 1 - r] == before[m - 1 - r]);
                    assert(cell(before, m as int, n as int, r, c) == lcs_len(a, b, r, c));
                }
            }
        }
    }
    let mut edits: Vec<Edit> = Vec::new();
    let mut i: usize = 0;
    let mut j: usize = 0;
    while i < m || j < n
        invariant
            i <= m,
            j <= n,
            m == old.len(),
            n == new.len(),
            a == rows(old@),
            b == rows(new@),
            table_filled(table@, a, b, 0),
            edits@ + edit_script(a, b, i as int, j as int) == edit_script(a, b, 0, 0),
        decreases (m - i) + (n - j),
    {
        let ghost rest = edit_script(a, b, i as int, j as int);
        let ghost done = edits@;
        proof {
            if i < m {
                assert(table@[m - 1 - i]@.len() == n);
                if j + 1 < n {
                    assert(cell(table@, m as int, n as int, i as int, j + 1) == lcs_len(
                        a,
                        b,
                        i as int,
                        j + 1,
                    ));
                }
            }
            if i + 1 < m {
                assert(table@[m - 1 - (i + 1)]@.len() == n);
                if j < n {
                    assert(cell(table@, m as int, n as int, i + 1, j as int) == lcs_len(
                        a,
                        b,
                        i + 1,
                        j as int,
                    ));
                }
            }
        }
        if i < m && j < n && same_text(&old[i], &new[j]) {
            edits.push(Edit::Equal(i, j));
            i += 1;
            j += 1;
        } else if j < n && (i >= m || cell_at(&table, m, n, i, j + 1) >= cell_at(
            &table,
            m,
            n,
            i + 1,
            j,
        )) {
            edits.push(Edit::Insert(i, j));
            j += 1;
        } else {
            edits.push(Edit::Delete(i, j));
            i += 1;
        }
        assert(edits@ + edit_script(a, b, i as int, j as int) =~= done + rest);
    }
    proof {
        assert(edits@ =~= edits@ + edit_script(a, b, m as int, n as int));
        lemma_script_counts(a, b, 0, 0);
        lemma_script_keeps_lcs(a, b, 0, 0);
        lemma_script_transforms(a, b, 0, 0);
        assert(a.subrange(0, a.len() as int) =~= a);
        assert(b.subrange(0, b.len() as int) =~= b);
        lemma_script_fits(a, b, 0, 0);
    }
    edits
}

} // verus!
