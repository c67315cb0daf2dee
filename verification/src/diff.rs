use vstd::prelude::*;
use crate::lcs::{edit_script, lcs_diff, script_fits, step_fits, Edit};
use crate::text::{chars_of, rows, texts};

verus! {

/// A hunk inside a unified diff.
#[derive(Debug, Clone, PartialEq, Eq)]
pub struct DiffHunk {
    /// First line of the hunk in the old text, counted from 1.
    pub old_start: usize,
    /// First line of the hunk in the new text, counted from 1.
    pub new_start: usize,
    /// Lines including the diff prefix (`+`, `-`, or ` `).
    pub lines: Vec<String>,
}

/// What a hunk holds, as mathematical values.
pub struct HunkView {
    pub old_start: nat,
    pub new_start: nat,
    pub lines: Seq<Seq<char>>,
}

impl View for DiffHunk {
    type V = HunkView;

    open spec fn view(&self) -> HunkView {
        HunkView {
            old_start: self.old_start as nat,
            new_start: self.new_start as nat,
            lines: texts(self.lines@),
        }
    }
}

/// The views of a vector of hunks.
pub open spec fn hunk_views(v: Seq<DiffHunk>) -> Seq<HunkView> {
    Seq::new(v.len(), |i: int| v[i]@)
}

/// The number of context lines kept on each side of a change.
pub const CONTEXT: usize = 3;

/// A line without the carriage return that may end it.
pub open spec fn without_return(line: Seq<char>) -> Seq<char> {
    if line.len() > 0 && line.last() == '\r' {
        line.drop_last()
    } else {
        line
    }
}

/// The lines of `s` from position `i` on, where the line being read started
/// at `start`. A line ends at a line feed, which is dropped together with a
/// carriage return just before it; text after the last line feed is a line
/// of its own, kept as it is.
pub open spec fn lines_from(s: Seq<char>, start: int, i: int) -> Seq<Seq<char>>
    decreases s.len() - i,
{
    if i < 0 || start < 0 || start > i {
        Seq::empty()
    } else if i >= s.len() {
        if start < s.len() {
            seq![s.subrange(start, s.len() as int)]
        } else {
            Seq::empty()
        }
    } else if s[i] == '\n' {
        seq![without_return(s.subrange(start, i))] + lines_from(s, i + 1, i + 1)
    } else {
        lines_from(s, start, i + 1)
    }
}

/// The lines of a text.
pub open spec fn lines_of(s: Seq<char>) -> Seq<Seq<char>> {
    lines_from(s, 0, 0)
}

/// A line as it stands in a hunk: the mark, the line, a line feed.
pub open spec fn marked(mark: char, line: Seq<char>) -> Seq<char> {
    seq![mark] + line + seq!['\n']
}

/// Every line of `lines` with the mark in front.
pub open spec fn all_marked(mark: char, lines: Seq<Seq<char>>) -> Seq<Seq<char>> {
    Seq::new(lines.len(), |i: int| marked(mark, lines[i]))
}

/// The hunks of a file that is new as a whole: none for a file without
/// lines, else one hunk that adds every line.
pub open spec fn added_hunks(lines: Seq<Seq<char>>) -> Seq<HunkView> {
    if lines.len() == 0 {
        Seq::empty()
    } else {
        seq![HunkView { old_start: 0, new_start: 1, lines: all_marked('+', lines) }]
    }
}

/// The hunks of a file that is gone as a whole: none for a file without
/// lines, else one hunk that removes every line.
pub open spec fn deleted_hunks(lines: Seq<Seq<char>>) -> Seq<HunkView> {
    if lines.len() == 0 {
        Seq::empty()
    } else {
        seq![HunkView { old_start: 1, new_start: 0, lines: all_marked('-', lines) }]
    }
}

/// Where a hunk starts whose first change is at `at`: up to three `Equal`
/// steps before it are taken in, `taken` of them so far.
pub open spec fn context_start(s: Seq<Edit>, at: int, taken: int) -> int
    decreases at,
{
    if 0 < at <= s.len() && taken < CONTEXT && s[at - 1] is Equal {
        context_start(s, at - 1, taken + 1)
    } else {
        at
    }
}

/// The end of the run of `Equal` steps that starts at `j`.
pub open spec fn equal_run_end(s: Seq<Edit>, j: int) -> int
    decreases s.len() - j,
{
    if 0 <= j < s.len() && s[j] is Equal {
        equal_run_end(s, j + 1)
    } else {
        j
    }
}

/// The end of the group of changes that holds position `e`: a run of `Equal`
/// steps is bridged where it is at most six steps long and a change follows
/// it.
pub open spec fn change_end(s: Seq<Edit>, e: int) -> int
    decreases s.len() - e,
{
    if e < 0 || e >= s.len() {
        e
    } else if s[e] is Equal {
        let j = equal_run_end(s, e);
        if e < j && j - e <= 2 * CONTEXT && j < s.len() {
            change_end(s, j)
        } else {
            e
        }
    } else {
        change_end(s, e + 1)
    }
}

/// Where a hunk ends whose changes end at `e`: up to three `Equal` steps
/// after them are taken in, `taken` of them so far.
pub open spec fn context_end(s: Seq<Edit>, e: int, taken: int) -> int
    decreases s.len() - e,
{
    if 0 <= e < s.len() && taken < CONTEXT && s[e] is Equal {
        context_end(s, e + 1, taken + 1)
    } else {
        e
    }
}

/// The hunk line that a step stands for.
pub open spec fn line_of(a: Seq<Seq<char>>, b: Seq<Seq<char>>, e: Edit) -> Seq<char> {
    match e {
        Edit::Equal(o, _) => marked(' ', a[o as int]),
        Edit::Delete(o, _) => marked('-', a[o as int]),
        Edit::Insert(_, n) => marked('+', b[n as int]),
    }
}

/// The old line number that a hunk starting with step `e` records.
pub open spec fn old_start_of(e: Edit) -> nat {
    match e {
        Edit::Equal(o, _) => (o + 1) as nat,
        Edit::Insert(_, n) => n as nat,
        Edit::Delete(o, _) => (o + 1) as nat,
    }
}

/// The new line number that a hunk starting with step `e` records.
pub open spec fn new_start_of(e: Edit) -> nat {
    match e {
        Edit::Equal(_, n) => (n + 1) as nat,
        Edit::Insert(_, n) => (n + 1) as nat,
        Edit::Delete(o, _) => o as nat,
    }
}

/// The hunk made of the steps `start..end` of a script.
pub open spec fn hunk_at(
    a: Seq<Seq<char>>,
    b: Seq<Seq<char>>,
    s: Seq<Edit>,
    start: int,
    end: int,
) -> HunkView {
    HunkView {
        old_start: old_start_of(s[start]),
        new_start: new_start_of(s[start]),
        lines: Seq::new((end - start) as nat, |k: int| line_of(a, b, s[start + k])),
    }
}

/// The hunks of the script from position `i` on: `Equal` steps are passed
/// over up to the next change, which opens a hunk with its context.
pub open spec fn hunks_from(a: Seq<Seq<char>>, b: Seq<Seq<char>>, s: Seq<Edit>, i: int) -> Seq<
    HunkView,
>
    decreases s.len() - i,
{
    if i < 0 || i >= s.len() {
        Seq::empty()
    } else if s[i] is Equal {
        hunks_from(a, b, s, i + 1)
    } else {
        let start = context_start(s, i, 0);
        let end = context_end(s, change_end(s, i), 0);
        if i < end <= s.len() {
            seq![hunk_at(a, b, s, start, end)] + hunks_from(a, b, s, end)
        } else {
            Seq::empty()
        }
    }
}

/// The hunks between two texts given by their lines.
pub open spec fn modified_hunks(a: Seq<Seq<char>>, b: Seq<Seq<char>>) -> Seq<HunkView> {
    hunks_from(a, b, edit_script(a, b, 0, 0), 0)
}

/// The characters `from..to` of `text`.
fn slice_text(text: &Vec<char>, from: usize, to: usize) -> (r: Vec<char>)
    requires
        from <= to <= text.len(),
    ensures
        r@ == text@.subrange(from as int, to as int),
{
    let mut r: Vec<char> = Vec::new();
    let mut i: usize = from;
    while i < to
        invariant
            from <= i <= to,
            to <= text.len(),
            r@ == text@.subrange(from as int, i as int),
        decreases to - i,
    {
        r.push(text[i]);
        i += 1;
        assert(r@ =~= text@.subrange(from as int, i as int));
    }
    r
}

/// Splits a text into its lines.
pub fn split_lines(text: &Vec<char>) -> (lines: Vec<Vec<char>>)
    ensures
        rows(lines@) == lines_of(text@),
{
    let n: usize = text.len();
    let mut lines: Vec<Vec<char>> = Vec::new();
    let mut start: usize = 0;
    let mut i: usize = 0;
    assert(rows(lines@) + lines_from(text@, 0, 0) =~= lines_of(text@));
    while i < n
        invariant
            n == text.len(),
            start <= i <= n,
            rows(lines@) + lines_from(text@, start as int, i as int) == lines_of(text@),
        decreases n - i,
    {
        let ghost done = rows(lines@);
        if text[i] == '\n' {
            let end: usize = if start < i && text[i - 1] == '\r' {
                i - 1
            } else {
                i
            };
            let line = slice_text(text, start, end);
            assert(line@ =~= without_return(text@.subrange(start as int, i as int)));
            lines.push(line);
            assert(rows(lines@) =~= done.push(line@));
            i += 1;
            start = i;
            assert(rows(lines@) + lines_from(text@, start as int, i as int) =~= done + (
            seq![line@] + lines_from(text@, start as int, i as int)));
        } else {
            i += 1;
        }
    }
    if start < n {
        let ghost done = rows(lines@);
        let line = slice_text(text, start, n);
        lines.push(line);
        assert(rows(lines@) =~= done + seq![line@]);
    } else {
        assert(rows(lines@) =~= rows(lines@) + Seq::<Seq<char>>::empty());
    }
    lines
}

/// A hunk line: the mark, the line, a line feed.
fn mark_line(mark: char, line: &Vec<char>) -> (out: String)
    ensures
        out@ == marked(mark, line@),
{
    let mut out = String::new();
    out.push(mark);
    let mut i: usize = 0;
    while i < line.len()
        invariant
            i <= line.len(),
            out@ == seq![mark] + line@.subrange(0, i as int),
        decreases line.len() - i,
    {
        out.push(line[i]);
        i += 1;
        assert(out@ =~= seq![mark] + line@.subrange(0, i as int));
    }
    assert(line@.subrange(0, i as int) =~= line@);
    out.push('\n');
    assert(out@ =~= marked(mark, line@));
    out
}

/// Every line with the mark in front.
fn mark_all(mark: char, lines: &Vec<Vec<char>>) -> (out: Vec<String>)
    ensures
        texts(out@) == all_marked(mark, rows(lines@)),
{
    let mut out: Vec<String> = Vec::new();
    let mut i: usize = 0;
    while i < lines.len()
        invariant
            i <= lines.len(),
            out@.len() == i,
            forall|k: int| 0 <= k < i ==> (#[trigger] out@[k])@ == marked(mark, lines@[k]@),
        decreases lines.len() - i,
    {
        let line = mark_line(mark, &lines[i]);
        out.push(line);
        i += 1;
    }
    assert(texts(out@) =~= all_marked(mark, rows(lines@)));
    out
}

/// The hunks of a new file from its lines.
pub fn added_from_lines(lines: &Vec<Vec<char>>) -> (hunks: Vec<DiffHunk>)
    ensures
        hunk_views(hunks@) == added_hunks(rows(lines@)),
{
    let mut hunks: Vec<DiffHunk> = Vec::new();
    if lines.len() > 0 {
        hunks.push(DiffHunk { old_start: 0, new_start: 1, lines: mark_all('+', lines) });
    }
    assert(hunk_views(hunks@) =~= added_hunks(rows(lines@)));
    hunks
}

/// The hunks of a removed file from its lines.
pub fn deleted_from_lines(lines: &Vec<Vec<char>>) -> (hunks: Vec<DiffHunk>)
    ensures
        hunk_views(hunks@) == deleted_hunks(rows(lines@)),
{
    let mut hunks: Vec<DiffHunk> = Vec::new();
    if lines.len() > 0 {
        hunks.push(DiffHunk { old_start: 1, new_start: 0, lines: mark_all('-', lines) });
    }
    assert(hunk_views(hunks@) =~= deleted_hunks(rows(lines@)));
    hunks
}

/// Produces the hunks for a newly added file: every line is marked `+`.
pub fn diff_added(content: &str) -> (hunks: Vec<DiffHunk>)
    ensures
        hunk_views(hunks@) == added_hunks(lines_of(content@)),
{
    let text = chars_of(content);
    let lines = split_lines(&text);
    added_from_lines(&lines)
}

/// Produces the hunks for a deleted file: every line is marked `-`.
pub fn diff_deleted(content: &str) -> (hunks: Vec<DiffHunk>)
    ensures
        hunk_views(hunks@) == deleted_hunks(lines_of(content@)),
{
    let text = chars_of(content);
    let lines = split_lines(&text);
    deleted_from_lines(&lines)
}

fn is_equal_step(e: Edit) -> (r: bool)
    ensures
        r == (e is Equal),
{
    match e {
        Edit::Equal(_, _) => true,
        _ => false,
    }
}

fn find_context_start(script: &Vec<Edit>, at: usize) -> (r: usize)
    requires
        at <= script.len(),
    ensures
        r == context_start(script@, at as int, 0),
        r <= at,
{
    let mut s: usize = at;
    let mut taken: usize = 0;
    let mut open: bool = true;
    while open && s > 0 && taken < CONTEXT
        invariant
            s <= at <= script.len(),
            taken <= CONTEXT,
            context_start(script@, s as int, taken as int) == context_start(script@, at as int, 0),
            !open ==> context_start(script@, s as int, taken as int) == s,
        decreases s + (if open { 1int } else { 0int }),
    {
        if is_equal_step(script[s - 1]) {
            s -= 1;
            taken += 1;
        } else {
            open = false;
        }
    }
    s
}

fn find_equal_run_end(script: &Vec<Edit>, from: usize) -> (r: usize)
    requires
        from <= script.len(),
    ensures
        r == equal_run_end(script@, from as int),
        from <= r <= script.len(),
        from < script.len() && script@[from as int] is Equal ==> from < r,
{
    let mut j: usize = from;
    while j < script.len() && is_equal_step(script[j])
        invariant
            from <= j <= script.len(),
            equal_run_end(script@, j as int) == equal_run_end(script@, from as int),
            from < script.len() && script@[from as int] is Equal ==> j > from || script@[j as int] is Equal,
        decreases script.len() - j,
    {
        j += 1;
    }
    j
}

fn find_change_end(script: &Vec<Edit>, from: usize) -> (r: usize)
    requires
        from <= script.len(),
    ensures
        r == change_end(script@, from as int),
        from <= r <= script.len(),
        from < script.len() && !(script@[from as int] is Equal) ==> from < r,
{
    let mut e: usize = from;
    let mut open: bool = true;
    while open && e < script.len()
        invariant
            from <= e <= script.len(),
            change_end(script@, e as int) == change_end(script@, from as int),
            !open ==> change_end(script@, e as int) == e,
            from < script.len() && !(script@[from as int] is Equal) ==> from < e || open,
        decreases (script.len() - e) + (if open { 1int } else { 0int }),
    {
        if is_equal_step(script[e]) {
            let j: usize = find_equal_run_end(script, e);
            if j - e <= 2 * CONTEXT && j < script.len() {
                e = j;
            } else {
                open = false;
            }
        } else {
            e += 1;
        }
    }
    e
}

fn find_context_end(script: &Vec<Edit>, from: usize) -> (r: usize)
    requires
        from <= script.len(),
    ensures
        r == context_end(script@, from as int, 0),
        from <= r <= script.len(),
{
    let mut e: usize = from;
    let mut taken: usize = 0;
    let mut open: bool = true;
    while open && e < script.len() && taken < CONTEXT
        invariant
            from <= e <= script.len(),
            taken <= CONTEXT,
            context_end(script@, e as int, taken as int) == context_end(script@, from as int, 0),
            !open ==> context_end(script@, e as int, taken as int) == e,
        decreases (script.len() - e) + (if open { 1int } else { 0int }),
    {
        if is_equal_step(script[e]) {
            e += 1;
            taken += 1;
        } else {
            open = false;
        }
    }
    e
}

/// The hunk made of the steps `start..end`.
fn build_hunk(
    old_lines: &Vec<Vec<char>>,
    new_lines: &Vec<Vec<char>>,
    script: &Vec<Edit>,
    start: usize,
    end: usize,
) -> (hunk: DiffHunk)
    requires
        start < end <= script.len(),
        script_fits(script@, old_lines.len() as int, new_lines.len() as int),
    ensures
        hunk@ == hunk_at(rows(old_lines@), rows(new_lines@), script@, start as int, end as int),
{
    let ghost a = rows(old_lines@);
    let ghost b = rows(new_lines@);
    assert(step_fits(script@[start as int], old_lines.len() as int, new_lines.len() as int));
    let (old_start, new_start): (usize, usize) = match script[start] {
        Edit::Equal(o, n) => (o + 1, n + 1),
        Edit::Insert(_, n) => (n, n + 1),
        Edit::Delete(o, _) => (o + 1, o),
    };
    let mut lines: Vec<String> = Vec::new();
    let mut k: usize = start;
    while k < end
        invariant
            start <= k <= end <= script.len(),
            a == rows(old_lines@),
            b == rows(new_lines@),
            script_fits(script@, old_lines.len() as int, new_lines.len() as int),
            lines@.len() == k - start,
            forall|t: int|
                0 <= t < k - start ==> (#[trigger] lines@[t])@ == line_of(a, b, script@[start + t]),
        decreases end - k,
    {
        assert(step_fits(script@[k as int], old_lines.len() as int, new_lines.len() as int));
        let line = match script[k] {
            Edit::Equal(o, _) => mark_line(' ', &old_lines[o]),
            Edit::Delete(o, _) => mark_line('-', &old_lines[o]),
            Edit::Insert(_, n) => mark_line('+', &new_lines[n]),
        };
        lines.push(line);
        k += 1;
    }
    let hunk = DiffHunk { old_start, new_start, lines };
    assert(hunk@.lines =~= hunk_at(a, b, script@, start as int, end as int).lines);
    hunk
}

/// Groups an edit script into hunks with three lines of context.
pub fn hunks_of_script(
    old_lines: &Vec<Vec<char>>,
    new_lines: &Vec<Vec<char>>,
    script: &Vec<Edit>,
) -> (hunks: Vec<DiffHunk>)
    requires
        script_fits(script@, old_lines.len() as int, new_lines.len() as int),
    ensures
        hunk_views(hunks@) == hunks_from(rows(old_lines@), rows(new_lines@), script@, 0),
{
    let ghost a = rows(old_lines@);
    let ghost b = rows(new_lines@);
    let mut hunks: Vec<DiffHunk> = Vec::new();
    let mut i: usize = 0;
    assert(hunk_views(hunks@) + hunks_from(a, b, script@, 0) =~= hunks_from(a, b, script@, 0));
    while i < script.len()
        invariant
            i <= script.len(),
            a == rows(old_lines@),
            b == rows(new_lines@),
            script_fits(script@, old_lines.len() as int, new_lines.len() as int),
            hunk_views(hunks@) + hunks_from(a, b, script@, i as int) == hunks_from(
                a,
                b,
                script@,
                0,
            ),
        decreases script.len() - i,
    {
        if is_equal_step(script[i]) {
            i += 1;
        } else {
            let ghost done = hunk_views(hunks@);
            let ghost rest = hunks_from(a, b, script@, i as int);
            let start: usize = find_context_start(script, i);
            let changed: usize = find_change_end(script, i);
            let end: usize = find_context_end(script, changed);
            let hunk = build_hunk(old_lines, new_lines, script, start, end);
            hunks.push(hunk);
            assert(hunk_views(hunks@) =~= done.push(hunk@));
            i = end;
            assert(hunk_views(hunks@) + hunks_from(a, b, script@, i as int) =~= done + rest);
        }
    }
    assert(hunk_views(hunks@) =~= hunk_views(hunks@) + Seq::<HunkView>::empty());
    hunks
}

/// The hunks between two texts given by their lines.
pub fn modified_from_lines(old_lines: &Vec<Vec<char>>, new_lines: &Vec<Vec<char>>) -> (hunks: Vec<
    DiffHunk,
>)
    ensures
        hunk_views(hunks@) == modified_hunks(rows(old_lines@), rows(new_lines@)),
{
    let script = lcs_diff(old_lines, new_lines);
    hunks_of_script(old_lines, new_lines, &script)
}

/// Produces the hunks for a modified file: the lines of both texts are
/// compared by their longest common subsequence, and the changes are grouped
/// with three lines of context.
pub fn diff_modified(old: &str, new: &str) -> (hunks: Vec<DiffHunk>)
    ensures
        hunk_views(hunks@) == modified_hunks(lines_of(old@), lines_of(new@)),
{
    let old_text = chars_of(old);
    let new_text = chars_of(new);
    let old_lines = split_lines(&old_text);
    let new_lines = split_lines(&new_text);
    modified_from_lines(&old_lines, &new_lines)
}

} // verus!
