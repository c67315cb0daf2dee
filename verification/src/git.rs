use vstd::prelude::*;
use vstd::string::StringExecFns;
use vstd::utf8::{decode_utf8, valid_utf8};
use crate::diff::{
    added_from_lines, added_hunks, deleted_from_lines, deleted_hunks, hunk_views, lines_of,
    modified_from_lines, modified_hunks, split_lines, DiffHunk, HunkView,
};
use crate::fs::{contents, copy_tree, seen, Filesystem, MemoryFilesystem};
use crate::order::{lemma_ascending_unique, lists_in_order};
use crate::path::take_text;
use crate::pathmap::{position, PathMap};
use crate::text::{chars_of, copy_text, same_bytes, same_text, string_of};

verus! {

/// Errors produced by [`GitRepository`] operations.
#[derive(Debug, Clone, PartialEq, Eq)]
pub enum GitError {
    /// The repository has not been initialised.
    NotInitialised,
    /// Nothing to commit (the index equals HEAD).
    NothingToCommit,
    /// A general-purpose error with a human-readable message.
    Other(String),
}

/// A repository error with its text as a sequence of characters.
pub enum GitErrorView {
    NotInitialised,
    NothingToCommit,
    Other(Seq<char>),
}

impl View for GitError {
    type V = GitErrorView;

    open spec fn view(&self) -> GitErrorView {
        match self {
            GitError::NotInitialised => GitErrorView::NotInitialised,
            GitError::NothingToCommit => GitErrorView::NothingToCommit,
            GitError::Other(m) => GitErrorView::Other(m@),
        }
    }
}

impl GitError {
    /// The error as a line of text.
    pub fn message(&self) -> (out: String)
        ensures
            out@ == match self@ {
                GitErrorView::NotInitialised => "repository not initialised"@,
                GitErrorView::NothingToCommit => "nothing to commit"@,
                GitErrorView::Other(m) => m,
            },
    {
        match self {
            GitError::NotInitialised => String::from_str("repository not initialised"),
            GitError::NothingToCommit => String::from_str("nothing to commit"),
            GitError::Other(m) => m.clone(),
        }
    }
}

/// The status of a file relative to HEAD and the staging area.
#[derive(Debug, Clone, Copy, PartialEq, Eq, Structural)]
pub enum FileStatus {
    Added,
    Modified,
    Deleted,
    Untracked,
}

impl FileStatus {
    /// The name of the status.
    pub fn label(&self) -> (out: String)
        ensures
            out@ == match *self {
                FileStatus::Added => "Added"@,
                FileStatus::Modified => "Modified"@,
                FileStatus::Deleted => "Deleted"@,
                FileStatus::Untracked => "Untracked"@,
            },
    {
        match self {
            FileStatus::Added => String::from_str("Added"),
            FileStatus::Modified => String::from_str("Modified"),
            FileStatus::Deleted => String::from_str("Deleted"),
            FileStatus::Untracked => String::from_str("Untracked"),
        }
    }
}

/// An entry in the output of [`GitRepository::status`].
#[derive(Debug, Clone, PartialEq, Eq)]
pub struct StatusEntry {
    pub path: String,
    /// Status relative to the staging area / working directory.
    pub status: FileStatus,
    /// `true` when the change is staged (in the index).
    pub staged: bool,
}

/// A status entry as mathematical values.
pub struct StatusView {
    pub path: Seq<char>,
    pub status: FileStatus,
    pub staged: bool,
}

impl View for StatusEntry {
    type V = StatusView;

    open spec fn view(&self) -> StatusView {
        StatusView { path: self.path@, status: self.status, staged: self.staged }
    }
}

/// Per-file diff information returned by diff operations.
#[derive(Debug, Clone, PartialEq, Eq)]
pub struct FileDiff {
    pub path: String,
    pub status: FileStatus,
    pub hunks: Vec<DiffHunk>,
}

/// A file diff as mathematical values.
pub struct FileDiffView {
    pub path: Seq<char>,
    pub status: FileStatus,
    pub hunks: Seq<HunkView>,
}

impl View for FileDiff {
    type V = FileDiffView;

    open spec fn view(&self) -> FileDiffView {
        FileDiffView { path: self.path@, status: self.status, hunks: hunk_views(self.hunks@) }
    }
}

/// Metadata for a commit in the log.
#[derive(Debug, Clone, PartialEq, Eq)]
pub struct CommitInfo {
    /// Full hexadecimal identifier.
    pub sha: String,
    /// Abbreviated identifier (first 7 characters).
    pub short_sha: String,
    /// First line of the commit message.
    pub summary: String,
    /// Author name.
    pub author: String,
}

/// A log entry as mathematical values.
pub struct CommitInfoView {
    pub sha: Seq<char>,
    pub short_sha: Seq<char>,
    pub summary: Seq<char>,
    pub author: Seq<char>,
}

impl View for CommitInfo {
    type V = CommitInfoView;

    open spec fn view(&self) -> CommitInfoView {
        CommitInfoView {
            sha: self.sha@,
            short_sha: self.short_sha@,
            summary: self.summary@,
            author: self.author@,
        }
    }
}

/// A commit as mathematical values: what it is called, what was said of it,
/// and the whole tree it recorded.
pub struct CommitView {
    pub sha: Seq<char>,
    pub message: Seq<char>,
    pub author: Seq<char>,
    pub tree: Map<Seq<char>, Seq<u8>>,
}

/// The views of a vector of status entries.
pub open spec fn status_views(v: Seq<StatusEntry>) -> Seq<StatusView> {
    Seq::new(v.len(), |i: int| v[i]@)
}

/// The views of a vector of file diffs.
pub open spec fn diff_views(v: Seq<FileDiff>) -> Seq<FileDiffView> {
    Seq::new(v.len(), |i: int| v[i]@)
}

/// The views of a vector of log entries.
pub open spec fn info_views(v: Seq<CommitInfo>) -> Seq<CommitInfoView> {
    Seq::new(v.len(), |i: int| v[i]@)
}

/// The contents of `p` in a tree, if the tree holds it.
pub open spec fn lookup(tree: Map<Seq<char>, Seq<u8>>, p: Seq<char>) -> Option<Seq<u8>> {
    if tree.contains_key(p) {
        Some(tree[p])
    } else {
        None
    }
}

/// The paths of `s` in ascending order.
pub open spec fn ordered(s: Set<Seq<char>>) -> Seq<Seq<char>> {
    choose|q: Seq<Seq<char>>| lists_in_order(q, s)
}

/// An ascending listing of a set is the listing of that set.
pub proof fn lemma_ordered(q: Seq<Seq<char>>, s: Set<Seq<char>>)
    requires
        lists_in_order(q, s),
    ensures
        ordered(s) == q,
{
    lemma_ascending_unique(ordered(s), q);
}

/// The staged change of a path, from its contents in HEAD and in the index.
pub open spec fn staged_change(head: Option<Seq<u8>>, index: Option<Seq<u8>>) -> Option<
    FileStatus,
> {
    match (head, index) {
        (None, Some(_)) => Some(FileStatus::Added),
        (Some(h), Some(x)) => if h != x {
            Some(FileStatus::Modified)
        } else {
            None
        },
        (Some(_), None) => Some(FileStatus::Deleted),
        (None, None) => None,
    }
}

/// What the working tree is compared with: the index where it holds the
/// path, else HEAD.
pub open spec fn baseline(head: Option<Seq<u8>>, index: Option<Seq<u8>>) -> Option<Seq<u8>> {
    if index is Some {
        index
    } else {
        head
    }
}

/// The unstaged change of a path. A path that is gone from the working tree
/// shows as deleted unless its deletion is staged already.
pub open spec fn unstaged_change(
    head: Option<Seq<u8>>,
    index: Option<Seq<u8>>,
    work: Option<Seq<u8>>,
) -> Option<FileStatus> {
    match (baseline(head, index), work) {
        (None, Some(_)) => Some(FileStatus::Untracked),
        (Some(b), Some(w)) => if b != w {
            Some(FileStatus::Modified)
        } else {
            None
        },
        (Some(_), None) => if staged_change(head, index) == Some(FileStatus::Deleted) {
            None
        } else {
            Some(FileStatus::Deleted)
        },
        (None, None) => None,
    }
}

/// The status entries of one path: the staged one first.
pub open spec fn status_for(
    head: Map<Seq<char>, Seq<u8>>,
    index: Map<Seq<char>, Seq<u8>>,
    work: Map<Seq<char>, Seq<u8>>,
    p: Seq<char>,
) -> Seq<StatusView> {
    let staged = staged_change(lookup(head, p), lookup(index, p));
    let unstaged = unstaged_change(lookup(head, p), lookup(index, p), lookup(work, p));
    (if staged is Some {
        seq![StatusView { path: p, status: staged->0, staged: true }]
    } else {
        Seq::empty()
    }) + (if unstaged is Some {
        seq![StatusView { path: p, status: unstaged->0, staged: false }]
    } else {
        Seq::empty()
    })
}

/// The status entries of the paths of `paths`, path after path.
pub open spec fn status_over(
    paths: Seq<Seq<char>>,
    head: Map<Seq<char>, Seq<u8>>,
    index: Map<Seq<char>, Seq<u8>>,
    work: Map<Seq<char>, Seq<u8>>,
) -> Seq<StatusView>
    decreases paths.len(),
{
    if paths.len() == 0 {
        Seq::empty()
    } else {
        status_over(paths.drop_last(), head, index, work) + status_for(
            head,
            index,
            work,
            paths.last(),
        )
    }
}

/// The status of a repository: the entries of every path of HEAD, the
/// index and the working tree, in ascending order of path.
pub open spec fn status_of(
    head: Map<Seq<char>, Seq<u8>>,
    index: Map<Seq<char>, Seq<u8>>,
    work: Map<Seq<char>, Seq<u8>>,
) -> Seq<StatusView> {
    status_over(ordered(head.dom().union(index.dom()).union(work.dom())), head, index, work)
}

/// The text that a file's bytes stand for, with each invalid sequence
/// replaced as `String::from_utf8_lossy` does.
pub uninterp spec fn utf8_lossy(bytes: Seq<u8>) -> Seq<char>;

/// `String::from_utf8_lossy`, as a vector of characters: the decoded text
/// where the bytes are valid UTF-8, and the lossy text in every case.
#[verifier::external_body]
fn decode_lossy(bytes: &Vec<u8>) -> (out: Vec<char>)
    ensures
        out@ == utf8_lossy(bytes@),
        valid_utf8(bytes@) ==> out@ == decode_utf8(bytes@),
{
    String::from_utf8_lossy(bytes).chars().collect()
}

/// The diff of one path between two trees, if the path differs.
pub open spec fn file_diff(old: Option<Seq<u8>>, new: Option<Seq<u8>>, p: Seq<char>) -> Option<
    FileDiffView,
> {
    match (old, new) {
        (None, Some(n)) => Some(
            FileDiffView {
                path: p,
                status: FileStatus::Added,
                hunks: added_hunks(lines_of(utf8_lossy(n))),
            },
        ),
        (Some(o), None) => Some(
            FileDiffView {
                path: p,
                status: FileStatus::Deleted,
                hunks: deleted_hunks(lines_of(utf8_lossy(o))),
            },
        ),
        (Some(o), Some(n)) => if o != n {
            Some(
                FileDiffView {
                    path: p,
                    status: FileStatus::Modified,
                    hunks: modified_hunks(lines_of(utf8_lossy(o)), lines_of(utf8_lossy(n))),
                },
            )
        } else {
            None
        },
        (None, None) => None,
    }
}

/// The diffs of the paths of `paths`, path after path.
pub open spec fn diffs_over(
    paths: Seq<Seq<char>>,
    old: Map<Seq<char>, Seq<u8>>,
    new: Map<Seq<char>, Seq<u8>>,
) -> Seq<FileDiffView>
    decreases paths.len(),
{
    if paths.len() == 0 {
        Seq::empty()
    } else {
        let rest = diffs_over(paths.drop_last(), old, new);
        let last = file_diff(lookup(old, paths.last()), lookup(new, paths.last()), paths.last());
        if last is Some {
            rest.push(last->0)
        } else {
            rest
        }
    }
}

/// The diff between two trees: one entry for each path that differs, in
/// ascending order of path.
pub open spec fn tree_diff(old: Map<Seq<char>, Seq<u8>>, new: Map<Seq<char>, Seq<u8>>) -> Seq<
    FileDiffView,
> {
    diffs_over(ordered(old.dom().union(new.dom())), old, new)
}

/// The hexadecimal digit of a value below 16.
pub open spec fn hex_char(d: nat) -> char {
    if d < 10 {
        (48 + d) as char
    } else {
        (97 + d - 10) as char
    }
}

/// The lowest `width` hexadecimal digits of `n`, lowest first.
pub open spec fn low_digits(n: nat, width: nat) -> Seq<char>
    decreases width,
{
    if width == 0 {
        Seq::empty()
    } else {
        seq![hex_char(n % 16)] + low_digits(n / 16, (width - 1) as nat)
    }
}

/// `n` as sixteen hexadecimal digits, highest first.
pub open spec fn hex16(n: u64) -> Seq<char> {
    low_digits(n as nat, 16).reverse()
}

/// 16 to the power of `w`.
pub open spec fn pow16(w: nat) -> nat
    decreases w,
{
    if w == 0 {
        1
    } else {
        16 * pow16((w - 1) as nat)
    }
}

proof fn lemma_low_digits_injective(a: nat, b: nat, w: nat)
    requires
        low_digits(a, w) == low_digits(b, w),
    ensures
        pow16(w) > 0,
        a % pow16(w) == b % pow16(w),
    decreases w,
{
    if w > 0 {
        let da = low_digits(a, w);
        let db = low_digits(b, w);
        let p = pow16((w - 1) as nat);
        assert(da[0] == db[0]);
        assert(hex_char(a % 16) == hex_char(b % 16));
        assert(a % 16 == b % 16);
        assert(da.drop_first() =~= low_digits(a / 16, (w - 1) as nat));
        assert(db.drop_first() =~= low_digits(b / 16, (w - 1) as nat));
        lemma_low_digits_injective(a / 16, b / 16, (w - 1) as nat);
        vstd::arithmetic::div_mod::lemma_breakdown(a as int, 16, p as int);
        vstd::arithmetic::div_mod::lemma_breakdown(b as int, 16, p as int);
    }
}

/// Different numbers are written as different identifiers.
pub proof fn lemma_hex16_injective(a: u64, b: u64)
    requires
        hex16(a) == hex16(b),
    ensures
        a == b,
{
    let la = low_digits(a as nat, 16);
    let lb = low_digits(b as nat, 16);
    assert(la.reverse() == lb.reverse());
    assert(la.reverse().reverse() =~= la);
    assert(lb.reverse().reverse() =~= lb);
    assert(la == lb);
    lemma_low_digits_injective(a as nat, b as nat, 16);
    assert(pow16(16) == 0x1_0000_0000_0000_0000) by {
        reveal_with_fuel(pow16, 17);
    }
    vstd::arithmetic::div_mod::lemma_small_mod(a as nat, pow16(16));
    vstd::arithmetic::div_mod::lemma_small_mod(b as nat, pow16(16));
}

/// The position of the first commit called `sha`, or -1.
pub open spec fn first_called(history: Seq<CommitView>, sha: Seq<char>, from: int) -> int
    decreases history.len() - from,
{
    if from < 0 || from >= history.len() {
        -1
    } else if history[from].sha == sha {
        from
    } else {
        first_called(history, sha, from + 1)
    }
}

/// The tree before the commit at position `i`: that of the commit before
/// it, or the empty tree for the first commit.
pub open spec fn parent_tree(history: Seq<CommitView>, i: int) -> Map<Seq<char>, Seq<u8>> {
    if i > 0 {
        history[i - 1].tree
    } else {
        Map::empty()
    }
}

/// The short form of an identifier: its first seven characters.
pub open spec fn short_form(sha: Seq<char>) -> Seq<char> {
    if sha.len() >= 7 {
        sha.subrange(0, 7)
    } else {
        sha
    }
}

/// The first line of a message, empty where the message has no line.
pub open spec fn summary_of(message: Seq<char>) -> Seq<char> {
    if lines_of(message).len() > 0 {
        lines_of(message)[0]
    } else {
        Seq::empty()
    }
}

/// The log entry of a commit.
pub open spec fn info_of(c: CommitView) -> CommitInfoView {
    CommitInfoView {
        sha: c.sha,
        short_sha: short_form(c.sha),
        summary: summary_of(c.message),
        author: c.author,
    }
}

/// The newest `count` commits of a history, newest first.
pub open spec fn log_of(history: Seq<CommitView>, count: nat) -> Seq<CommitInfoView> {
    Seq::new(
        if count < history.len() {
            count
        } else {
            history.len()
        },
        |i: int| info_of(history[history.len() - 1 - i]),
    )
}

/// The hexadecimal digit of a value below 16.
fn hex_digit(d: u8) -> (c: char)
    requires
        d < 16,
    ensures
        c == hex_char(d as nat),
{
    if d < 10 {
        (48u8 + d) as char
    } else {
        (97u8 + (d - 10)) as char
    }
}

/// Formats an identifier as sixteen hexadecimal digits.
pub fn format_sha(id: u64) -> (out: String)
    ensures
        out@ == hex16(id),
        out@.len() == 16,
{
    let mut low: Vec<char> = Vec::new();
    let mut v: u64 = id;
    let mut i: usize = 0;
    assert(low@ + low_digits(v as nat, 16) =~= low_digits(id as nat, 16));
    while i < 16
        invariant
            i <= 16,
            low@.len() == i,
            low@ + low_digits(v as nat, (16 - i) as nat) == low_digits(id as nat, 16),
        decreases 16 - i,
    {
        let ghost done = low@;
        let ghost rest = low_digits(v as nat, (16 - i) as nat);
        let d: u8 = (v % 16) as u8;
        low.push(hex_digit(d));
        v = v / 16;
        i += 1;
        assert(low@ + low_digits(v as nat, (16 - i) as nat) =~= done + rest);
    }
    assert(low@ =~= low_digits(id as nat, 16));
    let mut out = String::new();
    let mut k: usize = 16;
    while k > 0
        invariant
            k <= 16,
            low@.len() == 16,
            out@ == low@.reverse().subrange(0, 16 - k),
        decreases k,
    {
        k -= 1;
        out.push(low[k]);
        assert(out@ =~= low@.reverse().subrange(0, 16 - k));
    }
    assert(out@ =~= low@.reverse());
    out
}


/// The bytes behind an optional reference.
pub open spec fn bytes_of(o: Option<&Vec<u8>>) -> Option<Seq<u8>> {
    match o {
        Some(v) => Some(v@),
        None => None,
    }
}

/// Adds the paths of `t` to `all`.
fn add_paths(all: &mut PathMap<()>, t: &PathMap<Vec<u8>>)
    requires
        old(all).wf(),
        t.wf(),
    ensures
        final(all).wf(),
        final(all)@.dom() == old(all)@.dom().union(contents(t@).dom()),
{
    let ghost start = all@.dom();
    let n: usize = t.len();
    let mut i: usize = 0;
    while i < n
        invariant
            t.wf(),
            all.wf(),
            n == t.keys().len(),
            i <= n,
            forall|k: Seq<char>| #[trigger]
                all@.contains_key(k) <==> start.contains(k) || seen(t.keys(), i as int, k),
        decreases n - i,
    {
        let key = copy_text(t.key_at(i));
        all.insert(key, ());
        proof {
            assert forall|k: Seq<char>| #[trigger]
                all@.contains_key(k) <==> start.contains(k) || seen(t.keys(), i + 1, k) by {
                if seen(t.keys(), i + 1, k) {
                    let j = choose|j: int| 0 <= j < i + 1 && #[trigger] t.keys()[j] == k;
                    if j < i {
                        assert(seen(t.keys(), i as int, k));
                    }
                }
                if seen(t.keys(), i as int, k) {
                    let j = choose|j: int| 0 <= j < i && #[trigger] t.keys()[j] == k;
                    assert(t.keys()[j] == k);
                }
                if k == key@ {
                    assert(t.keys()[i as int] == k);
                }
            }
        }
        i += 1;
    }
    proof {
        assert forall|k: Seq<char>| seen(t.keys(), n as int, k) <==> t@.contains_key(k) by {
            if t@.contains_key(k) {
                t.lemma_member(k);
                let j = position(t.keys(), k);
                assert(t.keys()[j] == k);
            }
            if seen(t.keys(), n as int, k) {
                let j = choose|j: int| 0 <= j < n && #[trigger] t.keys()[j] == k;
                t.lemma_entry(j);
            }
        }
        assert(all@.dom() =~= start.union(contents(t@).dom()));
    }
}

/// Whether two trees hold the same files with the same contents.
pub fn trees_equal(a: &PathMap<Vec<u8>>, b: &PathMap<Vec<u8>>) -> (r: bool)
    requires
        a.wf(),
        b.wf(),
    ensures
        r == (contents(a@) == contents(b@)),
{
    proof {
        a.lemma_keys_listed();
        b.lemma_keys_listed();
        if contents(a@) == contents(b@) {
            assert(a@.dom() =~= contents(a@).dom());
            assert(b@.dom() =~= contents(b@).dom());
            lemma_ascending_unique(a.keys(), b.keys());
        }
    }
    if a.len() != b.len() {
        return false;
    }
    let n: usize = a.len();
    let mut i: usize = 0;
    while i < n
        invariant
            a.wf(),
            b.wf(),
            n == a.keys().len(),
            n == b.keys().len(),
            i <= n,
            contents(a@) == contents(b@) ==> a.keys() == b.keys(),
            forall|j: int| 0 <= j < i ==> #[trigger] a.keys()[j] == b.keys()[j],
            forall|j: int| 0 <= j < i ==> (#[trigger] a.values()[j])@ == b.values()[j]@,
        decreases n - i,
    {
        proof {
            a.lemma_entry(i as int);
            b.lemma_entry(i as int);
        }
        if !same_text(a.key_at(i), b.key_at(i)) {
            return false;
        }
        if !same_bytes(a.value_at(i), b.value_at(i)) {
            proof {
                let k = a.keys()[i as int];
                assert(contents(a@)[k] == a.values()[i as int]@);
                assert(contents(b@)[k] == b.values()[i as int]@);
            }
            return false;
        }
        i += 1;
    }
    proof {
        assert(a.keys() =~= b.keys());
        assert forall|k: Seq<char>| a@.contains_key(k) implies a@[k]@ == b@[k]@ by {
            a.lemma_member(k);
            let j = position(a.keys(), k);
            a.lemma_entry(j);
            b.lemma_entry(j);
        }
        assert(contents(a@) =~= contents(b@));
    }
    true
}

/// The staged change of a path.
fn staged_of(head: Option<&Vec<u8>>, index: Option<&Vec<u8>>) -> (r: Option<FileStatus>)
    ensures
        r == staged_change(bytes_of(head), bytes_of(index)),
{
    match (head, index) {
        (None, Some(_)) => Some(FileStatus::Added),
        (Some(h), Some(x)) => if !same_bytes(h, x) {
            Some(FileStatus::Modified)
        } else {
            None
        },
        (Some(_), None) => Some(FileStatus::Deleted),
        (None, None) => None,
    }
}

/// The unstaged change of a path.
fn unstaged_of(head: Option<&Vec<u8>>, index: Option<&Vec<u8>>, work: Option<&Vec<u8>>) -> (r:
    Option<FileStatus>)
    ensures
        r == unstaged_change(bytes_of(head), bytes_of(index), bytes_of(work)),
{
    let base: Option<&Vec<u8>> = if index.is_some() {
        index
    } else {
        head
    };
    match (base, work) {
        (None, Some(_)) => Some(FileStatus::Untracked),
        (Some(b), Some(w)) => if !same_bytes(b, w) {
            Some(FileStatus::Modified)
        } else {
            None
        },
        (Some(_), None) => if head.is_some() && index.is_none() {
            None
        } else {
            Some(FileStatus::Deleted)
        },
        (None, None) => None,
    }
}

/// The diff of one path between two trees, if the path differs.
fn diff_file(old: Option<&Vec<u8>>, new: Option<&Vec<u8>>, path: &Vec<char>) -> (r: Option<FileDiff>)
    ensures
        r is Some <==> file_diff(bytes_of(old), bytes_of(new), path@) is Some,
        r is Some ==> r->0@ == file_diff(bytes_of(old), bytes_of(new), path@)->0,
{
    match (old, new) {
        (None, Some(n)) => {
            let text = decode_lossy(n);
            let lines = split_lines(&text);
            let hunks = added_from_lines(&lines);
            Some(FileDiff { path: string_of(path), status: FileStatus::Added, hunks })
        },
        (Some(o), None) => {
            let text = decode_lossy(o);
            let lines = split_lines(&text);
            let hunks = deleted_from_lines(&lines);
            Some(FileDiff { path: string_of(path), status: FileStatus::Deleted, hunks })
        },
        (Some(o), Some(n)) => {
            if same_bytes(o, n) {
                None
            } else {
                let old_text = decode_lossy(o);
                let new_text = decode_lossy(n);
                let old_lines = split_lines(&old_text);
                let new_lines = split_lines(&new_text);
                let hunks = modified_from_lines(&old_lines, &new_lines);
                Some(FileDiff { path: string_of(path), status: FileStatus::Modified, hunks })
            }
        },
        (None, None) => None,
    }
}

/// Abstraction over version-control operations.
///
/// The state of a repository is three trees (HEAD, the index and the
/// working tree) and a history of commits, oldest first.
pub trait GitRepository {
    /// The invariant of the repository.
    spec fn valid(&self) -> bool;

    /// The tree of the last commit, empty before the first.
    spec fn head(&self) -> Map<Seq<char>, Seq<u8>>;

    /// The staging area.
    spec fn index(&self) -> Map<Seq<char>, Seq<u8>>;

    /// The files of the working tree.
    spec fn work(&self) -> Map<Seq<char>, Seq<u8>>;

    /// The commits, oldest first.
    spec fn history(&self) -> Seq<CommitView>;

    /// Return the status: staged, changed and untracked files.
    fn status(&self) -> (r: Result<Vec<StatusEntry>, GitError>)
        requires
            self.valid(),
        ensures
            r is Ok,
            status_views(r->Ok_0@) == status_of(self.head(), self.index(), self.work()),
    ;

    /// Produce the diff of the unstaged changes: from the index, or from
    /// HEAD for a path that the index lacks, to the working tree.
    fn diff_unstaged(&self) -> (r: Result<Vec<FileDiff>, GitError>)
        requires
            self.valid(),
        ensures
            r is Ok,
            diff_views(r->Ok_0@) == tree_diff(
                self.head().union_prefer_right(self.index()),
                self.work(),
            ),
    ;

    /// Produce the diff of the staged changes (HEAD to index).
    fn diff_staged(&self) -> (r: Result<Vec<FileDiff>, GitError>)
        requires
            self.valid(),
        ensures
            r is Ok,
            diff_views(r->Ok_0@) == tree_diff(self.head(), self.index()),
    ;

    /// Produce the diff that a commit introduced: from the tree of the
    /// commit before it to its own.
    fn diff_commit(&self, sha: &str) -> (r: Result<Vec<FileDiff>, GitError>)
        requires
            self.valid(),
        ensures
            r is Ok <==> first_called(self.history(), sha@, 0) >= 0,
            r is Ok ==> diff_views(r->Ok_0@) == tree_diff(
                parent_tree(self.history(), first_called(self.history(), sha@, 0)),
                self.history()[first_called(self.history(), sha@, 0)].tree,
            ),
            r is Err ==> r->Err_0@ == GitErrorView::Other("commit not found: "@ + sha@),
    ;

    /// Stage a file: its working-tree contents go to the index, or, where
    /// the file is gone from the working tree and HEAD has it, it leaves the
    /// index.
    fn stage_file(&mut self, path: &str) -> (r: Result<(), GitError>)
        requires
            old(self).valid(),
        ensures
            final(self).valid(),
            final(self).head() == old(self).head(),
            final(self).work() == old(self).work(),
            final(self).history() == old(self).history(),
            r is Ok <==> old(self).work().contains_key(path@) || old(self).head().contains_key(
                path@,
            ),
            r is Err ==> r->Err_0@ == GitErrorView::Other("file not found: "@ + path@),
            final(self).index() == (if old(self).work().contains_key(path@) {
                old(self).index().insert(path@, old(self).work()[path@])
            } else if old(self).head().contains_key(path@) {
                old(self).index().remove(path@)
            } else {
                old(self).index()
            }),
    ;

    /// Unstage a file: the index goes back to what HEAD has for it.
    fn unstage_file(&mut self, path: &str) -> (r: Result<(), GitError>)
        requires
            old(self).valid(),
        ensures
            final(self).valid(),
            r is Ok,
            final(self).head() == old(self).head(),
            final(self).work() == old(self).work(),
            final(self).history() == old(self).history(),
            final(self).index() == (if old(self).head().contains_key(path@) {
                old(self).index().insert(path@, old(self).head()[path@])
            } else {
                old(self).index().remove(path@)
            }),
    ;

    /// Record the index as a new commit and return its identifier: the
    /// number of the commit, counted from 1, as sixteen hexadecimal digits.
    fn commit(&mut self, message: &str, author: &str) -> (r: Result<String, GitError>)
        requires
            old(self).valid(),
            old(self).history().len() + 1 < u64::MAX,
        ensures
            final(self).valid(),
            final(self).index() == old(self).index(),
            final(self).work() == old(self).work(),
            r is Ok <==> old(self).index() != old(self).head(),
            r is Err ==> r->Err_0@ == GitErrorView::NothingToCommit && final(self).head() == old(self).head() && final(self).history() == old(self).history(),
            r is Ok ==> r->Ok_0@ == hex16((old(self).history().len() + 1) as u64) && final(self).head() == old(self).index() && final(self).history() == old(self).history().push(
                CommitView {
                    sha: r->Ok_0@,
                    message: message@,
                    author: author@,
                    tree: old(self).index(),
                },
            ),
    ;

    /// Return the most recent commits (newest first), up to `max_count`.
    fn log(&self, max_count: usize) -> (r: Result<Vec<CommitInfo>, GitError>)
        requires
            self.valid(),
        ensures
            r is Ok,
            info_views(r->Ok_0@) == log_of(self.history(), max_count as nat),
    ;
}

/// An in-memory commit record.
#[derive(Debug, Clone)]
struct Commit {
    sha: String,
    message: String,
    author: String,
    /// Snapshot of the full tree at this commit.
    tree: PathMap<Vec<u8>>,
}

impl View for Commit {
    type V = CommitView;

    closed spec fn view(&self) -> CommitView {
        CommitView {
            sha: self.sha@,
            message: self.message@,
            author: self.author@,
            tree: contents(self.tree@),
        }
    }
}

/// A fully in-memory [`GitRepository`] that operates on a
/// [`MemoryFilesystem`].
///
/// It holds the HEAD tree, the index and a linear history of commits.
#[derive(Debug, Clone)]
pub struct InMemoryGitRepository {
    /// The underlying filesystem (working tree).
    fs: MemoryFilesystem,
    /// HEAD tree snapshot.
    head: PathMap<Vec<u8>>,
    /// Staging area (index).
    index: PathMap<Vec<u8>>,
    /// Linear commit history, newest last.
    commits: Vec<Commit>,
    /// Counter for the identifiers.
    next_id: u64,
}

impl InMemoryGitRepository {
    /// The filesystem of the repository.
    pub closed spec fn files(&self) -> MemoryFilesystem {
        self.fs
    }

    /// Initialise a new repository over the given filesystem.
    pub fn new(fs: MemoryFilesystem) -> (repo: Self)
        requires
            fs.valid(),
        ensures
            repo.valid(),
            repo.files() == fs,
            repo.work() == fs.files(),
            repo.head() == Map::<Seq<char>, Seq<u8>>::empty(),
            repo.index() == Map::<Seq<char>, Seq<u8>>::empty(),
            repo.history() == Seq::<CommitView>::empty(),
    {
        let repo = InMemoryGitRepository {
            fs,
            head: PathMap::new(),
            index: PathMap::new(),
            commits: Vec::new(),
            next_id: 1,
        };
        assert(repo.head() =~= Map::<Seq<char>, Seq<u8>>::empty());
        assert(repo.index() =~= Map::<Seq<char>, Seq<u8>>::empty());
        assert(repo.history() =~= Seq::<CommitView>::empty());
        repo
    }

    /// Return a shared reference to the underlying filesystem.
    pub fn filesystem(&self) -> (fs: &MemoryFilesystem)
        ensures
            *fs == self.files(),
    {
        &self.fs
    }

    /// Return a mutable reference to the underlying filesystem. What is
    /// done through it changes the working tree and nothing else.
    pub fn filesystem_mut(&mut self) -> (fs: &mut MemoryFilesystem)
        requires
            old(self).valid(),
        ensures
            *fs == old(self).files(),
            fs.valid(),
            final(self).files() == *final(fs),
            final(self).head() == old(self).head(),
            final(self).index() == old(self).index(),
            final(self).history() == old(self).history(),
            final(self).work() == final(fs).files(),
            final(fs).valid() ==> final(self).valid(),
    {
        &mut self.fs
    }

    /// HEAD is the tree of the newest commit, and empty before the first.
    pub proof fn lemma_head_is_newest(&self)
        requires
            self.valid(),
        ensures
            self.head() == (if self.history().len() == 0 {
                Map::<Seq<char>, Seq<u8>>::empty()
            } else {
                self.history().last().tree
            }),
    {
    }

    /// The commit at position `i` of the history is called by the number
    /// `i + 1`, written as sixteen hexadecimal digits.
    pub proof fn lemma_identifiers(&self, i: int)
        requires
            self.valid(),
            0 <= i < self.history().len(),
        ensures
            self.history()[i].sha == hex16((i + 1) as u64),
    {
    }

    /// No two commits of the history have the same identifier.
    pub proof fn lemma_identifiers_differ(&self, i: int, j: int)
        requires
            self.valid(),
            0 <= i < j < self.history().len(),
        ensures
            self.history()[i].sha != self.history()[j].sha,
    {
        if self.history()[i].sha == self.history()[j].sha {
            lemma_hex16_injective((i + 1) as u64, (j + 1) as u64);
        }
    }

    /// Mint the next identifier.
    fn make_sha(&mut self) -> (sha: String)
        requires
            old(self).next_id < u64::MAX,
        ensures
            sha@ == hex16(old(self).next_id),
            final(self).next_id == old(self).next_id + 1,
            final(self).fs == old(self).fs,
            final(self).head == old(self).head,
            final(self).index == old(self).index,
            final(self).commits == old(self).commits,
    {
        let id: u64 = self.next_id;
        self.next_id = id + 1;
        format_sha(id)
    }

    /// Build a snapshot of the current working tree from the filesystem.
    pub fn working_tree(&self) -> (tree: PathMap<Vec<u8>>)
        requires
            self.valid(),
        ensures
            tree.wf(),
            contents(tree@) == self.work(),
    {
        self.fs.tree()
    }

    /// Compute the diff between two trees.
    pub fn diff_trees(old: &PathMap<Vec<u8>>, new: &PathMap<Vec<u8>>) -> (diffs: Vec<FileDiff>)
        requires
            old.wf(),
            new.wf(),
        ensures
            diff_views(diffs@) == tree_diff(contents(old@), contents(new@)),
    {
        let mut all: PathMap<()> = PathMap::new();
        add_paths(&mut all, old);
        add_paths(&mut all, new);
        let ghost a = contents(old@);
        let ghost b = contents(new@);
        proof {
            all.lemma_keys_listed();
            assert(all@.dom() =~= a.dom().union(b.dom()));
            lemma_ordered(all.keys(), a.dom().union(b.dom()));
        }
        let mut diffs: Vec<FileDiff> = Vec::new();
        let n: usize = all.len();
        let mut i: usize = 0;
        assert(all.keys().take(0) =~= Seq::<Seq<char>>::empty());
        assert(diff_views(diffs@) =~= diffs_over(all.keys().take(0), a, b));
        while i < n
            invariant
                all.wf(),
                old.wf(),
                new.wf(),
                a == contents(old@),
                b == contents(new@),
                n == all.keys().len(),
                i <= n,
                diff_views(diffs@) == diffs_over(all.keys().take(i as int), a, b),
            decreases n - i,
        {
            let path = all.key_at(i);
            let ghost done = diff_views(diffs@);
            proof {
                assert(all.keys().take(i + 1).drop_last() =~= all.keys().take(i as int));
                assert(all.keys().take(i + 1).last() == path@);
            }
            let before = old.get(path);
            let after = new.get(path);
            assert(bytes_of(before) == lookup(a, path@));
            assert(bytes_of(after) == lookup(b, path@));
            match diff_file(before, after, path) {
                Some(d) => {
                    diffs.push(d);
                    assert(diff_views(diffs@) =~= done.push(d@));
                },
                None => {},
            }
            i += 1;
        }
        assert(all.keys().take(n as int) =~= all.keys());
        diffs
    }
}

impl GitRepository for InMemoryGitRepository {
    closed spec fn valid(&self) -> bool {
        &&& self.fs.valid()
        &&& self.head.wf()
        &&& self.index.wf()
        &&& forall|i: int| 0 <= i < self.commits@.len() ==> (#[trigger] self.commits@[i]).tree.wf()
        &&& forall|i: int|
            0 <= i < self.commits@.len() ==> (#[trigger] self.commits@[i]).sha@ == hex16(
                (i + 1) as u64,
            )
        &&& self.next_id == self.commits@.len() + 1
        &&& contents(self.head@) == (if self.commits@.len() == 0 {
            Map::<Seq<char>, Seq<u8>>::empty()
        } else {
            contents(self.commits@.last().tree@)
        })
    }

    closed spec fn head(&self) -> Map<Seq<char>, Seq<u8>> {
        contents(self.head@)
    }

    closed spec fn index(&self) -> Map<Seq<char>, Seq<u8>> {
        contents(self.index@)
    }

    closed spec fn work(&self) -> Map<Seq<char>, Seq<u8>> {
        self.fs.files()
    }

    closed spec fn history(&self) -> Seq<CommitView> {
        Seq::new(self.commits@.len(), |i: int| self.commits@[i]@)
    }

    fn status(&self) -> (r: Result<Vec<StatusEntry>, GitError>) {
        let work = self.working_tree();
        let mut all: PathMap<()> = PathMap::new();
        add_paths(&mut all, &self.head);
        add_paths(&mut all, &self.index);
        add_paths(&mut all, &work);
        let ghost h = self.head();
        let ghost x = self.index();
        let ghost w = self.work();
        proof {
            all.lemma_keys_listed();
            assert(all@.dom() =~= h.dom().union(x.dom()).union(w.dom()));
            lemma_ordered(all.keys(), h.dom().union(x.dom()).union(w.dom()));
        }
        let mut entries: Vec<StatusEntry> = Vec::new();
        let n: usize = all.len();
        let mut i: usize = 0;
        assert(all.keys().take(0) =~= Seq::<Seq<char>>::empty());
        assert(status_views(entries@) =~= status_over(all.keys().take(0), h, x, w));
        while i < n
            invariant
                self.valid(),
                all.wf(),
                work.wf(),
                h == contents(self.head@),
                x == contents(self.index@),
                w == contents(work@),
                n == all.keys().len(),
                i <= n,
                status_views(entries@) == status_over(all.keys().take(i as int), h, x, w),
            decreases n - i,
        {
            let path = all.key_at(i);
            let ghost done = status_views(entries@);
            proof {
                assert(all.keys().take(i + 1).drop_last() =~= all.keys().take(i as int));
                assert(all.keys().take(i + 1).last() == path@);
            }
            let in_head = self.head.get(path);
            let in_index = self.index.get(path);
            let in_work = work.get(path);
            assert(bytes_of(in_head) == lookup(h, path@));
            assert(bytes_of(in_index) == lookup(x, path@));
            assert(bytes_of(in_work) == lookup(w, path@));
            let staged = staged_of(in_head, in_index);
            let unstaged = unstaged_of(in_head, in_index, in_work);
            match staged {
                Some(status) => {
                    entries.push(StatusEntry { path: string_of(path), status, staged: true });
                },
                None => {},
            }
            match unstaged {
                Some(status) => {
                    entries.push(StatusEntry { path: string_of(path), status, staged: false });
                },
                None => {},
            }
            assert(status_views(entries@) =~= done + status_for(h, x, w, path@));
            i += 1;
        }
        assert(all.keys().take(n as int) =~= all.keys());
        Ok(entries)
    }

    fn diff_unstaged(&self) -> (r: Result<Vec<FileDiff>, GitError>) {
        let work = self.working_tree();
        let mut base = copy_tree(&self.head);
        let top = copy_tree(&self.index);
        let ghost before = base@;
        base.overlay(top);
        assert(contents(base@) =~= contents(self.head@).union_prefer_right(contents(self.index@)))
            by {
            assert(contents(before) == contents(self.head@));
            assert(contents(top@) == contents(self.index@));
            assert(before.dom() =~= contents(before).dom());
            assert(top@.dom() =~= contents(top@).dom());
            assert(self.head@.dom() =~= contents(self.head@).dom());
            assert(self.index@.dom() =~= contents(self.index@).dom());
            assert forall|k: Seq<char>| base@.contains_key(k) implies #[trigger] contents(base@)[k]
                == contents(self.head@).union_prefer_right(contents(self.index@))[k] by {
                if top@.contains_key(k) {
                    assert(contents(top@)[k] == contents(self.index@)[k]);
                } else {
                    assert(contents(before)[k] == contents(self.head@)[k]);
                }
            }
        }
        Ok(Self::diff_trees(&base, &work))
    }

    fn diff_staged(&self) -> (r: Result<Vec<FileDiff>, GitError>) {
        Ok(Self::diff_trees(&self.head, &self.index))
    }

    fn diff_commit(&self, sha: &str) -> (r: Result<Vec<FileDiff>, GitError>) {
        let wanted = chars_of(sha);
        let n: usize = self.commits.len();
        let mut i: usize = 0;
        while i < n
            invariant
                self.valid(),
                wanted@ == sha@,
                n == self.commits@.len(),
                i <= n,
                first_called(self.history(), sha@, i as int) == first_called(
                    self.history(),
                    sha@,
                    0,
                ),
            decreases n - i,
        {
            let name = chars_of(self.commits[i].sha.as_str());
            assert(self.history()[i as int].sha == name@);
            if same_text(&name, &wanted) {
                assert(self.history()[i as int].tree == contents(self.commits@[i as int].tree@));
                if i > 0 {
                    assert(self.history()[i - 1].tree == contents(self.commits@[i - 1].tree@));
                    return Ok(Self::diff_trees(&self.commits[i - 1].tree, &self.commits[i].tree));
                } else {
                    let empty: PathMap<Vec<u8>> = PathMap::new();
                    assert(contents(empty@) =~= Map::<Seq<char>, Seq<u8>>::empty());
                    return Ok(Self::diff_trees(&empty, &self.commits[i].tree));
                }
            }
            i += 1;
        }
        let message = String::from_str("commit not found: ").concat(sha);
        Err(GitError::Other(message))
    }

    fn stage_file(&mut self, path: &str) -> (r: Result<(), GitError>) {
        let key = chars_of(path);
        let work = self.working_tree();
        let ghost before = self.index@;
        match work.get(&key) {
            Some(data) => {
                let copy = crate::text::copy_bytes(data);
                self.index.insert(key, copy);
                assert(contents(self.index@) =~= contents(before).insert(
                    path@,
                    contents(work@)[path@],
                ));
                Ok(())
            },
            None => {
                if self.head.contains(&key) {
                    let _ = self.index.remove(&key);
                    assert(contents(self.index@) =~= contents(before).remove(path@));
                    Ok(())
                } else {
                    let message = String::from_str("file not found: ").concat(path);
                    Err(GitError::Other(message))
                }
            },
        }
    }

    fn unstage_file(&mut self, path: &str) -> (r: Result<(), GitError>) {
        let key = chars_of(path);
        let ghost before = self.index@;
        match self.head.get(&key) {
            Some(data) => {
                let copy = crate::text::copy_bytes(data);
                self.index.insert(key, copy);
                assert(contents(self.index@) =~= contents(before).insert(
                    path@,
                    contents(self.head@)[path@],
                ));
            },
            None => {
                let _ = self.index.remove(&key);
                assert(contents(self.index@) =~= contents(before).remove(path@));
            },
        }
        Ok(())
    }

    fn commit(&mut self, message: &str, author: &str) -> (r: Result<String, GitError>) {
        if trees_equal(&self.index, &self.head) {
            return Err(GitError::NothingToCommit);
        }
        let ghost before = self.history();
        let ghost old_commits = self.commits@;
        let sha = self.make_sha();
        let commit = Commit {
            sha: sha.clone(),
            message: String::from_str(message),
            author: String::from_str(author),
            tree: copy_tree(&self.index),
        };
        self.head = copy_tree(&self.index);
        self.commits.push(commit);
        proof {
            assert(self.commits@ =~= old_commits.push(commit));
            assert forall|i: int| 0 <= i < self.commits@.len() implies (
            #[trigger] self.commits@[i]).tree.wf() by {
                if i < old_commits.len() {
                    assert(self.commits@[i] == old_commits[i]);
                }
            }
            assert forall|i: int| 0 <= i < self.commits@.len() implies (
            #[trigger] self.commits@[i]).sha@ == hex16((i + 1) as u64) by {
                if i < old_commits.len() {
                    assert(self.commits@[i] == old_commits[i]);
                }
            }
            assert(self.history() =~= before.push(
                CommitView {
                    sha: sha@,
                    message: message@,
                    author: author@,
                    tree: contents(self.index@),
                },
            ));
        }
        Ok(sha)
    }

    fn log(&self, max_count: usize) -> (r: Result<Vec<CommitInfo>, GitError>) {
        let n: usize = self.commits.len();
        let count: usize = if max_count < n {
            max_count
        } else {
            n
        };
        let mut infos: Vec<CommitInfo> = Vec::new();
        let mut i: usize = 0;
        while i < count
            invariant
                n == self.commits@.len(),
                count <= n,
                i <= count,
                infos@.len() == i,
                forall|j: int|
                    0 <= j < i ==> (#[trigger] infos@[j])@ == info_of(self.history()[n - 1 - j]),
            decreases count - i,
        {
            let c = &self.commits[n - 1 - i];
            let name = chars_of(c.sha.as_str());
            let short = if name.len() >= 7 {
                string_of(&take_text(&name, 7))
            } else {
                c.sha.clone()
            };
            let text = chars_of(c.message.as_str());
            let lines = split_lines(&text);
            let summary = if lines.len() > 0 {
                string_of(&lines[0])
            } else {
                String::new()
            };
            let info = CommitInfo {
                sha: c.sha.clone(),
                short_sha: short,
                summary,
                author: c.author.clone(),
            };
            assert(info@ == info_of(self.history()[n - 1 - i]));
            infos.push(info);
            i += 1;
        }
        assert(info_views(infos@) =~= log_of(self.history(), max_count as nat));
        Ok(infos)
    }
}

/// While the index equals HEAD, no entry of the status is staged.
pub proof fn lemma_status_without_staged(
    paths: Seq<Seq<char>>,
    head: Map<Seq<char>, Seq<u8>>,
    work: Map<Seq<char>, Seq<u8>>,
    k: int,
)
    requires
        0 <= k < status_over(paths, head, head, work).len(),
    ensures
        !status_over(paths, head, head, work)[k].staged,
    decreases paths.len(),
{
    if paths.len() > 0 {
        let front = status_over(paths.drop_last(), head, head, work);
        if k < front.len() {
            lemma_status_without_staged(paths.drop_last(), head, work, k);
        }
    }
}

/// A path that HEAD and the index hold and the working tree lacks shows in
/// the status as deleted and not staged.
pub proof fn lemma_status_of_deleted(
    head: Map<Seq<char>, Seq<u8>>,
    index: Map<Seq<char>, Seq<u8>>,
    work: Map<Seq<char>, Seq<u8>>,
    p: Seq<char>,
)
    requires
        head.contains_key(p),
        index.contains_key(p),
        !work.contains_key(p),
    ensures
        status_for(head, index, work, p).last() == (StatusView {
            path: p,
            status: FileStatus::Deleted,
            staged: false,
        }),
{
}

} // verus!
