use vstd::prelude::*;
use vstd::string::StringExecFns;
use vstd::utf8::{decode_utf8, valid_utf8};
use vstd::slice::slice_to_vec;
use crate::order::lists_in_order;
use crate::path::{
    begins_with, dir_prefix, is_boundary, join_text, normalise_text, normalized, parent_of,
    parent_text, prefix_of_dir, skip_text, starts_with, take_text,
};
use crate::pathmap::PathMap;
use crate::text::{chars_of, copy_bytes, copy_text, string_of, texts};

verus! {

/// Errors produced by [`Filesystem`] operations.
#[derive(Debug, Clone, PartialEq, Eq)]
pub enum FsError {
    /// The requested path was not found.
    NotFound(String),
    /// The path already exists.
    AlreadyExists(String),
    /// A parent directory in the path does not exist.
    ParentNotFound(String),
    /// The operation expected a file but found a directory, or vice-versa.
    WrongKind(String),
}

/// A filesystem error with its text as a sequence of characters.
pub enum FsErrorView {
    NotFound(Seq<char>),
    AlreadyExists(Seq<char>),
    ParentNotFound(Seq<char>),
    WrongKind(Seq<char>),
}

impl View for FsError {
    type V = FsErrorView;

    open spec fn view(&self) -> FsErrorView {
        match self {
            FsError::NotFound(p) => FsErrorView::NotFound(p@),
            FsError::AlreadyExists(p) => FsErrorView::AlreadyExists(p@),
            FsError::ParentNotFound(p) => FsErrorView::ParentNotFound(p@),
            FsError::WrongKind(p) => FsErrorView::WrongKind(p@),
        }
    }
}

impl FsError {
    /// The error as a line of text.
    pub fn message(&self) -> (out: String)
        ensures
            out@ == match self@ {
                FsErrorView::NotFound(p) => "not found: "@ + p,
                FsErrorView::AlreadyExists(p) => "already exists: "@ + p,
                FsErrorView::ParentNotFound(p) => "parent directory not found: "@ + p,
                FsErrorView::WrongKind(p) => "wrong kind: "@ + p,
            },
    {
        match self {
            FsError::NotFound(p) => String::from_str("not found: ").concat(p.as_str()),
            FsError::AlreadyExists(p) => String::from_str("already exists: ").concat(p.as_str()),
            FsError::ParentNotFound(p) => String::from_str("parent directory not found: ").concat(
                p.as_str(),
            ),
            FsError::WrongKind(p) => String::from_str("wrong kind: ").concat(p.as_str()),
        }
    }
}

/// Entry returned by [`Filesystem::read_dir`].
#[derive(Debug, Clone, PartialEq, Eq)]
pub struct DirEntry {
    /// Name of the entry (not the full path).
    pub name: String,
    /// Whether this entry is a directory.
    pub is_dir: bool,
}

/// Metadata about a file or directory.
#[derive(Debug, Clone, PartialEq, Eq)]
pub struct Metadata {
    /// `true` when the path is a directory.
    pub is_dir: bool,
    /// Size in bytes (always 0 for directories).
    pub len: u64,
}

/// The failure of a result without a value, if it is one.
pub open spec fn failure(r: Result<(), FsError>) -> Option<FsErrorView> {
    match r {
        Ok(_) => None,
        Err(e) => Some(e@),
    }
}

/// What reading gave, as mathematical values.
pub open spec fn read_view(r: Result<Vec<u8>, FsError>) -> Result<Seq<u8>, FsErrorView> {
    match r {
        Ok(data) => Ok(data@),
        Err(e) => Err(e@),
    }
}

/// What reading the normalised path `n` gives: the contents of the file
/// there, or that there is none.
pub open spec fn read_result(files: Map<Seq<char>, Seq<u8>>, n: Seq<char>) -> Result<
    Seq<u8>,
    FsErrorView,
> {
    if files.contains_key(n) {
        Ok(files[n])
    } else {
        Err(FsErrorView::NotFound(n))
    }
}

/// Whether the parent directory of the normalised path `n` is missing. The
/// root is a parent that is always there.
pub open spec fn parent_missing(dirs: Set<Seq<char>>, n: Seq<char>) -> bool {
    parent_of(n) matches Some(p) && p.len() > 0 && !dirs.contains(p)
}

/// Whether path `k` lies below directory `dir`.
pub open spec fn below(dir: Seq<char>, k: Seq<char>) -> bool {
    begins_with(k, dir_prefix(dir)) && k != dir
}

/// Whether a file or a directory lies below directory `dir`.
pub open spec fn occupied(files: Set<Seq<char>>, dirs: Set<Seq<char>>, dir: Seq<char>) -> bool {
    exists|k: Seq<char>| (files.contains(k) || dirs.contains(k)) && #[trigger] below(dir, k)
}

/// Why writing a file at `n` fails, if it does.
pub open spec fn write_error(dirs: Set<Seq<char>>, n: Seq<char>) -> Option<FsErrorView> {
    if dirs.contains(n) {
        Some(FsErrorView::WrongKind(n))
    } else if parent_missing(dirs, n) {
        Some(FsErrorView::ParentNotFound(n))
    } else {
        None
    }
}

/// Why removing the file at `n` fails, if it does.
pub open spec fn remove_file_error(
    files: Map<Seq<char>, Seq<u8>>,
    dirs: Set<Seq<char>>,
    n: Seq<char>,
) -> Option<FsErrorView> {
    if dirs.contains(n) {
        Some(FsErrorView::WrongKind(n))
    } else if !files.contains_key(n) {
        Some(FsErrorView::NotFound(n))
    } else {
        None
    }
}

/// Why removing the directory at `n` fails, if it does. The root is never
/// removed.
pub open spec fn remove_dir_error(
    files: Map<Seq<char>, Seq<u8>>,
    dirs: Set<Seq<char>>,
    n: Seq<char>,
) -> Option<FsErrorView> {
    if !dirs.contains(n) {
        Some(FsErrorView::NotFound(n))
    } else if n.len() == 0 || occupied(files.dom(), dirs, n) {
        Some(FsErrorView::AlreadyExists(n + " is not empty"@))
    } else {
        None
    }
}

/// Why creating a directory at `n` fails, if it does.
pub open spec fn create_dir_error(
    files: Map<Seq<char>, Seq<u8>>,
    dirs: Set<Seq<char>>,
    n: Seq<char>,
) -> Option<FsErrorView> {
    if dirs.contains(n) || files.contains_key(n) {
        Some(FsErrorView::AlreadyExists(n))
    } else if parent_missing(dirs, n) {
        Some(FsErrorView::ParentNotFound(n))
    } else {
        None
    }
}

/// Why renaming `from` to `to` fails, if it does.
pub open spec fn rename_error(
    files: Map<Seq<char>, Seq<u8>>,
    dirs: Set<Seq<char>>,
    from: Seq<char>,
    to: Seq<char>,
) -> Option<FsErrorView> {
    if files.contains_key(from) {
        if parent_missing(dirs, to) {
            Some(FsErrorView::ParentNotFound(to))
        } else {
            None
        }
    } else if dirs.contains(from) {
        None
    } else {
        Some(FsErrorView::NotFound(from))
    }
}

/// The first segment boundary of `p` at or after `k` whose prefix is a file,
/// or the length of `p` plus one where there is none.
pub open spec fn first_blocked(files: Set<Seq<char>>, p: Seq<char>, k: int) -> int
    decreases p.len() + 1 - k,
{
    if k < 0 || k > p.len() {
        (p.len() + 1) as int
    } else if is_boundary(p, k) && files.contains(p.subrange(0, k)) {
        k
    } else {
        first_blocked(files, p, k + 1)
    }
}

/// Whether `d` is the prefix of `p` that ends at the segment boundary `k`.
pub open spec fn ancestor_at(p: Seq<char>, d: Seq<char>, k: int) -> bool {
    is_boundary(p, k) && d == p.subrange(0, k)
}

/// `dirs` together with every prefix of `p` that ends at a segment boundary
/// below `stop`.
pub open spec fn with_ancestors(dirs: Set<Seq<char>>, p: Seq<char>, stop: int) -> Set<Seq<char>> {
    Set::new(
        |d: Seq<char>| dirs.contains(d) || exists|k: int| k < stop && #[trigger] ancestor_at(p, d, k),
    )
}

/// The path that a rename from prefix `op` to prefix `np` moves to `k`.
pub open spec fn source_of(op: Seq<char>, np: Seq<char>, k: Seq<char>) -> Seq<char> {
    op + k.subrange(np.len() as int, k.len() as int)
}

/// The map after every path that begins with `op` has moved to the same
/// place below `np`. Where a moved path meets one that stayed, the moved one
/// is kept.
pub open spec fn relocated<T>(m: Map<Seq<char>, T>, op: Seq<char>, np: Seq<char>) -> Map<
    Seq<char>,
    T,
> {
    Map::new(
        |k: Seq<char>|
            (begins_with(k, np) && m.contains_key(source_of(op, np, k))) || (m.contains_key(k)
                && !begins_with(k, op)),
        |k: Seq<char>|
            if begins_with(k, np) && m.contains_key(source_of(op, np, k)) {
                m[source_of(op, np, k)]
            } else {
                m[k]
            },
    )
}

/// The directories after renaming directory `from` to `to`: the marker of
/// `from` becomes that of `to`, the directories below `from` move below `to`,
/// and the root stays.
pub open spec fn renamed_dirs(dirs: Set<Seq<char>>, from: Seq<char>, to: Seq<char>) -> Set<
    Seq<char>,
> {
    let op = dir_prefix(from);
    let np = dir_prefix(to);
    Set::new(
        |k: Seq<char>|
            k.len() == 0 || k == to || (begins_with(k, np) && dirs.contains(source_of(op, np, k))
                && source_of(op, np, k) != from) || (dirs.contains(k) && k != from && !begins_with(
                k,
                op,
            )),
    )
}

/// The part of `rest` before its first slash.
pub open spec fn first_segment(rest: Seq<char>) -> Seq<char>
    decreases rest.len(),
{
    if rest.len() == 0 || rest[0] == '/' {
        Seq::empty()
    } else {
        seq![rest[0]] + first_segment(rest.drop_first())
    }
}

/// Whether file path `k` shows as `name` in the listing of the directory
/// with prefix `prefix`.
pub open spec fn file_shows(prefix: Seq<char>, k: Seq<char>, name: Seq<char>) -> bool {
    begins_with(k, prefix) && k.len() > prefix.len() && name == first_segment(
        k.subrange(prefix.len() as int, k.len() as int),
    )
}

/// Whether directory path `k` shows as `name` in the listing of the
/// directory with prefix `prefix`.
pub open spec fn dir_shows(prefix: Seq<char>, k: Seq<char>, name: Seq<char>) -> bool {
    begins_with(k, prefix) && k.len() > prefix.len() && name == k.subrange(
        prefix.len() as int,
        k.len() as int,
    ) && !name.contains('/')
}

/// Whether some directory shows as `name`.
pub open spec fn names_dir(dirs: Set<Seq<char>>, prefix: Seq<char>, name: Seq<char>) -> bool {
    exists|k: Seq<char>| dirs.contains(k) && #[trigger] dir_shows(prefix, k, name)
}

/// Whether some file shows as `name`.
pub open spec fn names_file(files: Set<Seq<char>>, prefix: Seq<char>, name: Seq<char>) -> bool {
    exists|k: Seq<char>| files.contains(k) && #[trigger] file_shows(prefix, k, name)
}

/// The listing of directory `dir`: each name one segment below it, with
/// whether a directory bears it. A name borne by a file and a directory is a
/// directory.
pub open spec fn listing(files: Set<Seq<char>>, dirs: Set<Seq<char>>, dir: Seq<char>) -> Map<
    Seq<char>,
    bool,
> {
    Map::new(
        |name: Seq<char>|
            names_file(files, dir_prefix(dir), name) || names_dir(dirs, dir_prefix(dir), name),
        |name: Seq<char>| names_dir(dirs, dir_prefix(dir), name),
    )
}

/// The names of a vector of directory entries.
pub open spec fn entry_names(v: Seq<DirEntry>) -> Seq<Seq<char>> {
    Seq::new(v.len(), |i: int| v[i].name@)
}

/// The paths of a snapshot.
pub open spec fn snapshot_paths(v: Seq<(String, Vec<u8>)>) -> Seq<Seq<char>> {
    Seq::new(v.len(), |i: int| v[i].0@)
}

/// The files that restoring `entries` gives: each entry is written at its
/// normalised path, a later one over an earlier one.
pub open spec fn restored_files(entries: Seq<(String, Vec<u8>)>) -> Map<Seq<char>, Seq<u8>>
    decreases entries.len(),
{
    if entries.len() == 0 {
        Map::empty()
    } else {
        restored_files(entries.drop_last()).insert(
            normalized(entries.last().0@),
            entries.last().1@,
        )
    }
}

/// The directories that restoring `entries` gives: the root and every proper
/// ancestor of an entry's normalised path.
pub open spec fn restored_dirs(entries: Seq<(String, Vec<u8>)>) -> Set<Seq<char>>
    decreases entries.len(),
{
    if entries.len() == 0 {
        set![Seq::<char>::empty()]
    } else {
        with_ancestors(
            restored_dirs(entries.drop_last()),
            normalized(entries.last().0@),
            normalized(entries.last().0@).len() as int,
        )
    }
}

/// The byte contents of a map of byte vectors.
pub open spec fn contents(m: Map<Seq<char>, Vec<u8>>) -> Map<Seq<char>, Seq<u8>> {
    Map::new(|k: Seq<char>| m.contains_key(k), |k: Seq<char>| m[k]@)
}

/// `String::from_utf8`: the text that the bytes encode where they are valid
/// UTF-8, and nothing where they are not.
#[verifier::external_body]
fn text_of_utf8(bytes: Vec<u8>) -> (r: Option<String>)
    ensures
        r is Some <==> valid_utf8(bytes@),
        r is Some ==> r->0@ == decode_utf8(bytes@),
{
    String::from_utf8(bytes).ok()
}

/// Abstraction over filesystem operations.
///
/// Paths are forward-slash separated; a leading `/` is optional, and every
/// operation normalises the path it is given. The state of a filesystem is a
/// map from file paths to contents and a set of directory paths.
pub trait Filesystem {
    /// The invariant of the filesystem.
    spec fn valid(&self) -> bool;

    /// The files: normalised path to contents.
    spec fn files(&self) -> Map<Seq<char>, Seq<u8>>;

    /// The directories, by normalised path.
    spec fn dirs(&self) -> Set<Seq<char>>;

    /// Read the entire contents of a file.
    fn read_file(&self, path: &str) -> (r: Result<Vec<u8>, FsError>)
        requires
            self.valid(),
        ensures
            read_view(r) == read_result(self.files(), normalized(path@)),
    ;

    /// Read a file as a UTF-8 string.
    fn read_to_string(&self, path: &str) -> (r: Result<String, FsError>)
        requires
            self.valid(),
        ensures
            r is Ok <==> self.files().contains_key(normalized(path@)) && valid_utf8(
                self.files()[normalized(path@)],
            ),
            r is Ok ==> r->Ok_0@ == decode_utf8(self.files()[normalized(path@)]),
            r is Err ==> r->Err_0@ == (if self.files().contains_key(normalized(path@)) {
                FsErrorView::WrongKind(path@)
            } else {
                FsErrorView::NotFound(normalized(path@))
            }),
    {
        match self.read_file(path) {
            Ok(bytes) => match text_of_utf8(bytes) {
                Some(text) => Ok(text),
                None => Err(FsError::WrongKind(String::from_str(path))),
            },
            Err(e) => Err(e),
        }
    }

    /// Create or overwrite a file with the given contents.
    /// Parent directories must already exist.
    fn write_file(&mut self, path: &str, content: &[u8]) -> (r: Result<(), FsError>)
        requires
            old(self).valid(),
        ensures
            final(self).valid(),
            failure(r) == write_error(old(self).dirs(), normalized(path@)),
            final(self).dirs() == old(self).dirs(),
            r is Ok ==> final(self).files() == old(self).files().insert(
                normalized(path@),
                content@,
            ),
            r is Err ==> final(self).files() == old(self).files(),
    ;

    /// Remove a file.
    fn remove_file(&mut self, path: &str) -> (r: Result<(), FsError>)
        requires
            old(self).valid(),
        ensures
            final(self).valid(),
            failure(r) == remove_file_error(old(self).files(), old(self).dirs(), normalized(path@)),
            final(self).dirs() == old(self).dirs(),
            r is Ok ==> final(self).files() == old(self).files().remove(normalized(path@)),
            r is Err ==> final(self).files() == old(self).files(),
    ;

    /// Remove a directory that has nothing below it.
    fn remove_dir(&mut self, path: &str) -> (r: Result<(), FsError>)
        requires
            old(self).valid(),
        ensures
            final(self).valid(),
            failure(r) == remove_dir_error(old(self).files(), old(self).dirs(), normalized(path@)),
            final(self).files() == old(self).files(),
            r is Ok ==> final(self).dirs() == old(self).dirs().remove(normalized(path@)),
            r is Err ==> final(self).dirs() == old(self).dirs(),
    ;

    /// Check whether a path exists (file or directory).
    fn path_exists(&self, path: &str) -> (r: bool)
        requires
            self.valid(),
        ensures
            r == (self.files().contains_key(normalized(path@)) || self.dirs().contains(
                normalized(path@),
            )),
    ;

    /// Check whether a path is a directory.
    fn is_dir(&self, path: &str) -> (r: bool)
        requires
            self.valid(),
        ensures
            r == self.dirs().contains(normalized(path@)),
    ;

    /// Check whether a path is a file.
    fn is_file(&self, path: &str) -> (r: bool)
        requires
            self.valid(),
        ensures
            r == self.files().contains_key(normalized(path@)),
    ;

    /// Create a single directory. The parent must already exist.
    fn create_dir(&mut self, path: &str) -> (r: Result<(), FsError>)
        requires
            old(self).valid(),
        ensures
            final(self).valid(),
            failure(r) == create_dir_error(old(self).files(), old(self).dirs(), normalized(path@)),
            final(self).files() == old(self).files(),
            r is Ok ==> final(self).dirs() == old(self).dirs().insert(normalized(path@)),
            r is Err ==> final(self).dirs() == old(self).dirs(),
    ;

    /// Create a directory and all its missing ancestors, from the outermost
    /// inwards, up to the first ancestor that is a file.
    fn create_dir_all(&mut self, path: &str) -> (r: Result<(), FsError>)
        requires
            old(self).valid(),
        ensures
            final(self).valid(),
            final(self).files() == old(self).files(),
            final(self).dirs() == with_ancestors(
                old(self).dirs(),
                normalized(path@),
                first_blocked(old(self).files().dom(), normalized(path@), 1),
            ),
            r is Ok <==> first_blocked(old(self).files().dom(), normalized(path@), 1)
                > normalized(path@).len(),
            r is Err ==> r->Err_0@ == FsErrorView::WrongKind(
                normalized(path@).subrange(
                    0,
                    first_blocked(old(self).files().dom(), normalized(path@), 1),
                ),
            ),
    ;

    /// List the names one segment below a directory, in ascending order.
    fn read_dir(&self, path: &str) -> (r: Result<Vec<DirEntry>, FsError>)
        requires
            self.valid(),
        ensures
            r is Ok <==> self.dirs().contains(normalized(path@)),
            r is Err ==> r->Err_0@ == FsErrorView::NotFound(normalized(path@)),
            r is Ok ==> lists_in_order(
                entry_names(r->Ok_0@),
                listing(self.files().dom(), self.dirs(), normalized(path@)).dom(),
            ),
            r is Ok ==> forall|i: int|
                0 <= i < r->Ok_0@.len() ==> (#[trigger] r->Ok_0@[i]).is_dir == listing(
                    self.files().dom(),
                    self.dirs(),
                    normalized(path@),
                )[r->Ok_0@[i].name@],
    ;

    /// Return metadata for a path.
    fn metadata(&self, path: &str) -> (r: Result<Metadata, FsError>)
        requires
            self.valid(),
        ensures
            r is Ok <==> self.dirs().contains(normalized(path@)) || self.files().contains_key(
                normalized(path@),
            ),
            r is Err ==> r->Err_0@ == FsErrorView::NotFound(normalized(path@)),
            r is Ok ==> r->Ok_0.is_dir == self.dirs().contains(normalized(path@)),
            r is Ok ==> r->Ok_0.len == (if self.dirs().contains(normalized(path@)) {
                0
            } else {
                self.files()[normalized(path@)].len()
            }),
    ;

    /// List every file path in the filesystem, in ascending order.
    fn list_files(&self) -> (r: Vec<String>)
        requires
            self.valid(),
        ensures
            lists_in_order(texts(r@), self.files().dom()),
    ;

    /// Rename a file, or a directory with everything below it.
    fn rename(&mut self, from: &str, to: &str) -> (r: Result<(), FsError>)
        requires
            old(self).valid(),
        ensures
            final(self).valid(),
            failure(r) == rename_error(
                old(self).files(),
                old(self).dirs(),
                normalized(from@),
                normalized(to@),
            ),
            r is Err ==> final(self).files() == old(self).files() && final(self).dirs() == old(self).dirs(),
            r is Ok && old(self).files().contains_key(normalized(from@)) ==> final(self).dirs()
                == old(self).dirs() && final(self).files() == old(self).files().remove(
                normalized(from@),
            ).insert(normalized(to@), old(self).files()[normalized(from@)]),
            r is Ok && !old(self).files().contains_key(normalized(from@)) ==> final(self).files()
                == relocated(
                old(self).files(),
                dir_prefix(normalized(from@)),
                dir_prefix(normalized(to@)),
            ) && final(self).dirs() == renamed_dirs(
                old(self).dirs(),
                normalized(from@),
                normalized(to@),
            ),
    ;
}


/// Whether one of the first `i` paths of `keys` is `k`.
pub open spec fn seen(keys: Seq<Seq<char>>, i: int, k: Seq<char>) -> bool {
    exists|j: int| 0 <= j < i && #[trigger] keys[j] == k
}

/// A copy of a map of byte vectors.
pub fn copy_tree(t: &PathMap<Vec<u8>>) -> (out: PathMap<Vec<u8>>)
    requires
        t.wf(),
    ensures
        out.wf(),
        contents(out@) == contents(t@),
{
    let mut out: PathMap<Vec<u8>> = PathMap::new();
    let n: usize = t.len();
    let mut i: usize = 0;
    while i < n
        invariant
            t.wf(),
            out.wf(),
            n == t.keys().len(),
            i <= n,
            forall|k: Seq<char>| #[trigger] out@.contains_key(k) <==> seen(t.keys(), i as int, k),
            forall|k: Seq<char>| #[trigger] out@.contains_key(k) ==> out@[k]@ == t@[k]@,
        decreases n - i,
    {
        let key = copy_text(t.key_at(i));
        let value = copy_bytes(t.value_at(i));
        proof {
            t.lemma_entry(i as int);
        }
        let ghost before = out@;
        out.insert(key, value);
        proof {
            assert forall|k: Seq<char>| #[trigger] out@.contains_key(k) <==> seen(
                t.keys(),
                i + 1,
                k,
            ) by {
                if seen(t.keys(), i + 1, k) {
                    let j = choose|j: int| 0 <= j < i + 1 && #[trigger] t.keys()[j] == k;
                    if j < i {
                        assert(seen(t.keys(), i as int, k));
                    }
                }
                if before.contains_key(k) {
                    let j = choose|j: int| 0 <= j < i && #[trigger] t.keys()[j] == k;
                    assert(t.keys()[j] == k);
                }
                if k == key@ {
                    assert(t.keys()[i as int] == k);
                }
            }
        }
        i += 1;
    }
    proof {
        assert forall|k: Seq<char>| out@.contains_key(k) <==> t@.contains_key(k) by {
            if t@.contains_key(k) {
                t.lemma_member(k);
                let j = crate::pathmap::position(t.keys(), k);
                assert(t.keys()[j] == k);
            }
            if out@.contains_key(k) {
                let j = choose|j: int| 0 <= j < n && #[trigger] t.keys()[j] == k;
                t.lemma_entry(j);
            }
        }
        assert(contents(out@) =~= contents(t@));
    }
    out
}

/// Whether the map holds a path that begins with `prefix`.
fn any_with_prefix<T>(m: &PathMap<T>, prefix: &Vec<char>) -> (r: bool)
    requires
        m.wf(),
    ensures
        r == exists|k: Seq<char>| m@.contains_key(k) && #[trigger] begins_with(k, prefix@),
{
    let n: usize = m.len();
    let mut i: usize = 0;
    while i < n
        invariant
            m.wf(),
            n == m.keys().len(),
            i <= n,
            forall|j: int| 0 <= j < i ==> !begins_with(#[trigger] m.keys()[j], prefix@),
        decreases n - i,
    {
        if starts_with(m.key_at(i), prefix) {
            proof {
                m.lemma_entry(i as int);
            }
            return true;
        }
        i += 1;
    }
    proof {
        assert forall|k: Seq<char>| m@.contains_key(k) implies !#[trigger] begins_with(
            k,
            prefix@,
        ) by {
            m.lemma_member(k);
        }
    }
    false
}

/// The first segment boundary of `norm` whose prefix is a file.
fn find_blocked(files: &PathMap<Vec<u8>>, norm: &Vec<char>) -> (r: Option<usize>)
    requires
        files.wf(),
    ensures
        r is Some ==> 0 < r->0 <= norm.len() && r->0 == first_blocked(files@.dom(), norm@, 1),
        r is None ==> first_blocked(files@.dom(), norm@, 1) == norm.len() + 1,
{
    let mut j: usize = 0;
    while j < norm.len()
        invariant
            files.wf(),
            j <= norm.len(),
            first_blocked(files@.dom(), norm@, j + 1) == first_blocked(files@.dom(), norm@, 1),
        decreases norm.len() - j,
    {
        let k: usize = j + 1;
        if k == norm.len() || norm[k] == '/' {
            let prefix = take_text(norm, k);
            if files.contains(&prefix) {
                return Some(k);
            }
        }
        j += 1;
    }
    None
}

/// Marks as directories the prefixes of `norm` that end at a segment
/// boundary up to `last`.
fn mark_ancestors(dirs: &mut PathMap<()>, norm: &Vec<char>, last: usize)
    requires
        old(dirs).wf(),
        last <= norm.len(),
    ensures
        final(dirs).wf(),
        final(dirs)@.dom() == with_ancestors(old(dirs)@.dom(), norm@, last + 1),
{
    let ghost start = dirs@.dom();
    let mut j: usize = 0;
    assert(dirs@.dom() =~= with_ancestors(start, norm@, 1));
    while j < last
        invariant
            dirs.wf(),
            j <= last <= norm.len(),
            dirs@.dom() == with_ancestors(start, norm@, j + 1),
        decreases last - j,
    {
        let k: usize = j + 1;
        let ghost before = dirs@.dom();
        if k == norm.len() || norm[k] == '/' {
            let prefix = take_text(norm, k);
            dirs.insert(prefix, ());
            proof {
                assert(ancestor_at(norm@, prefix@, k as int));
                assert(dirs@.dom() =~= before.insert(prefix@));
                assert(dirs@.dom() =~= with_ancestors(start, norm@, k + 1));
            }
        } else {
            assert(dirs@.dom() =~= with_ancestors(start, norm@, k + 1));
        }
        j += 1;
    }
}

/// The part of `rest` before its first slash.
fn segment_of(rest: &Vec<char>) -> (r: Vec<char>)
    ensures
        r@ == first_segment(rest@),
{
    let mut r: Vec<char> = Vec::new();
    let mut i: usize = 0;
    assert(rest@.subrange(0, rest@.len() as int) =~= rest@);
    assert(r@ + first_segment(rest@) =~= first_segment(rest@));
    while i < rest.len() && rest[i] != '/'
        invariant
            i <= rest.len(),
            r@ + first_segment(rest@.subrange(i as int, rest@.len() as int)) == first_segment(
                rest@,
            ),
        decreases rest.len() - i,
    {
        let ghost tail = rest@.subrange(i as int, rest@.len() as int);
        let ghost done = r@;
        r.push(rest[i]);
        assert(tail.drop_first() =~= rest@.subrange(i + 1, rest@.len() as int));
        assert(r@ + first_segment(tail.drop_first()) =~= done + first_segment(tail));
        i += 1;
    }
    proof {
        let tail = rest@.subrange(i as int, rest@.len() as int);
        assert(first_segment(tail) =~= Seq::<char>::empty());
        assert(r@ + first_segment(tail) =~= r@);
    }
    r
}

/// Whether `text` holds a slash.
fn has_slash(text: &Vec<char>) -> (r: bool)
    ensures
        r == text@.contains('/'),
{
    let mut i: usize = 0;
    while i < text.len()
        invariant
            i <= text.len(),
            forall|j: int| 0 <= j < i ==> text@[j] != '/',
        decreases text.len() - i,
    {
        if text[i] == '/' {
            return true;
        }
        i += 1;
    }
    false
}

proof fn lemma_source_of_target(op: Seq<char>, np: Seq<char>, key: Seq<char>)
    requires
        begins_with(key, op),
    ensures
        begins_with(np + key.subrange(op.len() as int, key.len() as int), np),
        source_of(op, np, np + key.subrange(op.len() as int, key.len() as int)) == key,
{
    let rest = key.subrange(op.len() as int, key.len() as int);
    let target = np + rest;
    assert(target.subrange(0, np.len() as int) =~= np);
    assert(target.subrange(np.len() as int, target.len() as int) =~= rest);
    assert(op + rest =~= key);
}

proof fn lemma_source_injective(op: Seq<char>, np: Seq<char>, a: Seq<char>, b: Seq<char>)
    requires
        begins_with(a, np),
        begins_with(b, np),
        source_of(op, np, a) == source_of(op, np, b),
    ensures
        a == b,
{
    let ra = a.subrange(np.len() as int, a.len() as int);
    let rb = b.subrange(np.len() as int, b.len() as int);
    assert((op + ra).subrange(op.len() as int, (op + ra).len() as int) =~= ra);
    assert((op + rb).subrange(op.len() as int, (op + rb).len() as int) =~= rb);
    assert(a =~= np + ra);
    assert(b =~= np + rb);
}

/// Moves every path that begins with `op` to the same place below `np`.
fn relocate<T>(m: &mut PathMap<T>, op: &Vec<char>, np: &Vec<char>)
    requires
        old(m).wf(),
    ensures
        final(m).wf(),
        final(m)@ == relocated(old(m)@, op@, np@),
{
    let ghost start = m@;
    let mut stay: PathMap<T> = PathMap::new();
    let mut moved: PathMap<T> = PathMap::new();
    let mut open: bool = true;
    while open
        invariant
            m.wf(),
            stay.wf(),
            moved.wf(),
            !open ==> m@ == Map::<Seq<char>, T>::empty(),
            forall|k: Seq<char>| #[trigger]
                m@.contains_key(k) ==> start.contains_key(k) && m@[k] == start[k],
            forall|k: Seq<char>| #[trigger]
                stay@.contains_key(k) <==> start.contains_key(k) && !m@.contains_key(k)
                    && !begins_with(k, op@),
            forall|k: Seq<char>| #[trigger] stay@.contains_key(k) ==> stay@[k] == start[k],
            forall|k: Seq<char>| #[trigger]
                moved@.contains_key(k) <==> begins_with(k, np@) && start.contains_key(
                    source_of(op@, np@, k),
                ) && !m@.contains_key(source_of(op@, np@, k)),
            forall|k: Seq<char>| #[trigger]
                moved@.contains_key(k) ==> moved@[k] == start[source_of(op@, np@, k)],
        decreases m@.dom().len() + (if open { 1int } else { 0int }),
    {
        let ghost left = m@;
        let ghost moved0 = moved@;
        proof {
            m.lemma_finite();
        }
        match m.pop_last() {
            Some((key, value)) => {
                proof {
                    assert(m@.dom() =~= left.dom().remove(key@));
                }
                if starts_with(&key, op) {
                    let rest = skip_text(&key, op.len());
                    let target = join_text(np, &rest);
                    proof {
                        lemma_source_of_target(op@, np@, key@);
                    }
                    moved.insert(target, value);
                    proof {
                        assert forall|k: Seq<char>| #[trigger]
                            moved@.contains_key(k) <==> begins_with(k, np@) && start.contains_key(
                                source_of(op@, np@, k),
                            ) && !m@.contains_key(source_of(op@, np@, k)) by {
                            if begins_with(k, np@) && source_of(op@, np@, k) == key@ {
                                lemma_source_injective(op@, np@, k, target@);
                            }
                            if moved0.contains_key(k) {
                                assert(!left.contains_key(source_of(op@, np@, k)));
                            }
                        }
                        assert forall|k: Seq<char>| #[trigger]
                            moved@.contains_key(k) implies moved@[k] == start[source_of(
                            op@,
                            np@,
                            k,
                        )] by {
                            if k != target@ {
                                assert(moved0.contains_key(k));
                            }
                        }
                        assert forall|k: Seq<char>| #[trigger]
                            stay@.contains_key(k) <==> start.contains_key(k) && !m@.contains_key(k)
                                && !begins_with(k, op@) by {
                        }
                    }
                } else {
                    stay.insert(key, value);
                    proof {
                        assert forall|k: Seq<char>| #[trigger]
                            moved@.contains_key(k) <==> begins_with(k, np@) && start.contains_key(
                                source_of(op@, np@, k),
                            ) && !m@.contains_key(source_of(op@, np@, k)) by {
                            if begins_with(k, np@) && source_of(op@, np@, k) == key@ {
                                assert(source_of(op@, np@, k).subrange(0, op@.len() as int)
                                    =~= op@);
                            }
                        }
                    }
                }
            },
            None => {
                open = false;
            },
        }
    }
    m.overlay(stay);
    m.overlay(moved);
    assert(m@ =~= relocated(start, op@, np@));
}

/// A fully in-memory [`Filesystem`].
///
/// Files are kept in a map ordered by normalised path, and directories are
/// kept separately so that empty directories are preserved.
#[derive(Debug, Clone)]
pub struct MemoryFilesystem {
    files: PathMap<Vec<u8>>,
    dirs: PathMap<()>,
}

impl Default for MemoryFilesystem {
    fn default() -> (fs: Self)
        ensures
            fs.valid(),
            fs.files() == Map::<Seq<char>, Seq<u8>>::empty(),
            fs.dirs() == set![Seq::<char>::empty()],
    {
        Self::new()
    }
}

impl MemoryFilesystem {
    /// Create a new, empty filesystem. Only the root directory exists.
    pub fn new() -> (fs: Self)
        ensures
            fs.valid(),
            fs.files() == Map::<Seq<char>, Seq<u8>>::empty(),
            fs.dirs() == set![Seq::<char>::empty()],
    {
        let mut dirs: PathMap<()> = PathMap::new();
        let root: Vec<char> = Vec::new();
        dirs.insert(root, ());
        let fs = MemoryFilesystem { files: PathMap::new(), dirs };
        assert(fs.files() =~= Map::<Seq<char>, Seq<u8>>::empty());
        assert(fs.dirs() =~= set![Seq::<char>::empty()]);
        fs
    }

    /// The root directory always exists.
    pub proof fn lemma_root_exists(&self)
        requires
            self.valid(),
        ensures
            self.dirs().contains(Seq::<char>::empty()),
    {
    }

    /// The files as a map of their own, for taking a snapshot of the tree.
    pub fn tree(&self) -> (t: PathMap<Vec<u8>>)
        requires
            self.valid(),
        ensures
            t.wf(),
            contents(t@) == self.files(),
    {
        copy_tree(&self.files)
    }

    /// Serialise the files to a flat list of `(path, contents)` pairs, in
    /// ascending order of path. Directories are not listed.
    pub fn snapshot(&self) -> (r: Vec<(String, Vec<u8>)>)
        requires
            self.valid(),
        ensures
            lists_in_order(snapshot_paths(r@), self.files().dom()),
            forall|i: int| 0 <= i < r@.len() ==> (#[trigger] r@[i]).1@ == self.files()[r@[i].0@],
    {
        let n: usize = self.files.len();
        let mut out: Vec<(String, Vec<u8>)> = Vec::new();
        let mut i: usize = 0;
        while i < n
            invariant
                self.valid(),
                n == self.files.keys().len(),
                i <= n,
                out@.len() == i,
                forall|j: int| 0 <= j < i ==> (#[trigger] out@[j]).0@ == self.files.keys()[j],
                forall|j: int| 0 <= j < i ==> (#[trigger] out@[j]).1@ == self.files.values()[j]@,
            decreases n - i,
        {
            let path = string_of(self.files.key_at(i));
            let data = copy_bytes(self.files.value_at(i));
            out.push((path, data));
            i += 1;
        }
        proof {
            assert(snapshot_paths(out@) =~= self.files.keys());
            self.files.lemma_keys_listed();
            assert(self.files().dom() =~= self.files@.dom());
            assert forall|j: int| 0 <= j < out@.len() implies (#[trigger] out@[j]).1@
                == self.files()[out@[j].0@] by {
                self.files.lemma_entry(j);
            }
        }
        out
    }

    /// Replace all state by the files of `entries`; every ancestor of a
    /// file's path becomes a directory.
    pub fn restore(&mut self, entries: Vec<(String, Vec<u8>)>)
        ensures
            final(self).valid(),
            final(self).files() == restored_files(entries@),
            final(self).dirs() == restored_dirs(entries@),
    {
        let mut files: PathMap<Vec<u8>> = PathMap::new();
        let mut dirs: PathMap<()> = PathMap::new();
        let root: Vec<char> = Vec::new();
        dirs.insert(root, ());
        let mut i: usize = 0;
        assert(entries@.take(0) =~= Seq::<(String, Vec<u8>)>::empty());
        assert(contents(files@) =~= restored_files(entries@.take(0)));
        assert(dirs@.dom() =~= restored_dirs(entries@.take(0)));
        while i < entries.len()
            invariant
                i <= entries.len(),
                files.wf(),
                dirs.wf(),
                dirs@.contains_key(Seq::<char>::empty()),
                contents(files@) == restored_files(entries@.take(i as int)),
                dirs@.dom() == restored_dirs(entries@.take(i as int)),
            decreases entries.len() - i,
        {
            let text = chars_of(entries[i].0.as_str());
            let norm = normalise_text(&text);
            let data = copy_bytes(&entries[i].1);
            let ghost before = files@;
            proof {
                assert(entries@.take(i + 1).drop_last() =~= entries@.take(i as int));
                assert(entries@.take(i + 1).last() == entries@[i as int]);
            }
            if norm.len() > 0 {
                mark_ancestors(&mut dirs, &norm, norm.len() - 1);
            } else {
                assert(dirs@.dom() =~= with_ancestors(dirs@.dom(), norm@, 0));
            }
            files.insert(norm, data);
            assert(contents(files@) =~= contents(before).insert(norm@, data@));
            i += 1;
        }
        assert(entries@.take(i as int) =~= entries@);
        self.files = files;
        self.dirs = dirs;
    }

    /// Whether the parent directory of `norm` is missing.
    fn lacks_parent(&self, norm: &Vec<char>) -> (r: bool)
        requires
            self.valid(),
        ensures
            r == parent_missing(self.dirs(), norm@),
    {
        match parent_text(norm) {
            Some(p) => p.len() > 0 && !self.dirs.contains(&p),
            None => false,
        }
    }
}


impl MemoryFilesystem {
    /// The listing of the directory with prefix `prefix`, as a map from
    /// name to whether a directory bears it.
    fn children(&self, prefix: &Vec<char>) -> (found: PathMap<bool>)
        requires
            self.valid(),
        ensures
            found.wf(),
            forall|name: Seq<char>| #[trigger]
                found@.contains_key(name) <==> names_file(self.files().dom(), prefix@, name)
                    || names_dir(self.dirs(), prefix@, name),
            forall|name: Seq<char>| #[trigger]
                found@.contains_key(name) ==> found@[name] == names_dir(
                    self.dirs(),
                    prefix@,
                    name,
                ),
    {
        let mut found: PathMap<bool> = PathMap::new();
        let ghost fkeys = self.files.keys();
        let ghost dkeys = self.dirs.keys();
        let n: usize = self.files.len();
        let mut i: usize = 0;
        while i < n
            invariant
                self.valid(),
                found.wf(),
                fkeys == self.files.keys(),
                n == fkeys.len(),
                i <= n,
                forall|name: Seq<char>| #[trigger]
                    found@.contains_key(name) <==> file_seen(prefix@, fkeys, i as int, name),
                forall|name: Seq<char>| #[trigger] found@.contains_key(name) ==> !found@[name],
            decreases n - i,
        {
            let key = self.files.key_at(i);
            let ghost before = found@;
            if starts_with(key, prefix) && key.len() > prefix.len() {
                let rest = skip_text(key, prefix.len());
                let name = segment_of(&rest);
                found.insert(name, false);
                proof {
                    assert forall|x: Seq<char>| #[trigger]
                        found@.contains_key(x) <==> file_seen(prefix@, fkeys, i + 1, x) by {
                        if file_seen(prefix@, fkeys, i + 1, x) {
                            let j = choose|j: int|
                                0 <= j < i + 1 && #[trigger] file_shows(prefix@, fkeys[j], x);
                            if j < i {
                                assert(file_seen(prefix@, fkeys, i as int, x));
                            }
                        }
                        if before.contains_key(x) {
                            let j = choose|j: int|
                                0 <= j < i && #[trigger] file_shows(prefix@, fkeys[j], x);
                            assert(file_shows(prefix@, fkeys[j], x));
                        }
                        if x == name@ {
                            assert(file_shows(prefix@, fkeys[i as int], x));
                        }
                    }
                }
            } else {
                proof {
                    assert forall|x: Seq<char>| #[trigger]
                        found@.contains_key(x) <==> file_seen(prefix@, fkeys, i + 1, x) by {
                        if file_seen(prefix@, fkeys, i + 1, x) {
                            let j = choose|j: int|
                                0 <= j < i + 1 && #[trigger] file_shows(prefix@, fkeys[j], x);
                            if j < i {
                                assert(file_seen(prefix@, fkeys, i as int, x));
                            }
                        }
                        if before.contains_key(x) {
                            let j = choose|j: int|
                                0 <= j < i && #[trigger] file_shows(prefix@, fkeys[j], x);
                            assert(file_shows(prefix@, fkeys[j], x));
                        }
                    }
                }
            }
            i += 1;
        }
        proof {
            assert(self.files().dom() =~= self.files@.dom());
            assert forall|x: Seq<char>|
                file_seen(prefix@, fkeys, n as int, x) <==> names_file(
                    self.files().dom(),
                    prefix@,
                    x,
                ) by {
                if file_seen(prefix@, fkeys, n as int, x) {
                    let j = choose|j: int|
                        0 <= j < n && #[trigger] file_shows(prefix@, fkeys[j], x);
                    self.files.lemma_entry(j);
                    assert(file_shows(prefix@, fkeys[j], x));
                }
                if names_file(self.files().dom(), prefix@, x) {
                    let k = choose|k: Seq<char>|
                        self.files().dom().contains(k) && #[trigger] file_shows(prefix@, k, x);
                    self.files.lemma_member(k);
                    let j = crate::pathmap::position(fkeys, k);
                    assert(file_shows(prefix@, fkeys[j], x));
                }
            }
        }
        let m: usize = self.dirs.len();
        let mut i: usize = 0;
        while i < m
            invariant
                self.valid(),
                found.wf(),
                dkeys == self.dirs.keys(),
                m == dkeys.len(),
                i <= m,
                forall|name: Seq<char>| #[trigger]
                    found@.contains_key(name) <==> names_file(self.files().dom(), prefix@, name)
                        || dir_seen(prefix@, dkeys, i as int, name),
                forall|name: Seq<char>| #[trigger]
                    found@.contains_key(name) ==> found@[name] == dir_seen(
                        prefix@,
                        dkeys,
                        i as int,
                        name,
                    ),
            decreases m - i,
        {
            let key = self.dirs.key_at(i);
            let ghost before = found@;
            let mut shown: bool = false;
            if starts_with(key, prefix) && key.len() > prefix.len() {
                let rest = skip_text(key, prefix.len());
                if !has_slash(&rest) {
                    shown = true;
                    found.insert(rest, true);
                }
            }
            proof {
                assert forall|x: Seq<char>|
                    dir_shows(prefix@, dkeys[i as int], x) <==> shown && x == dkeys[i as int].subrange(
                        prefix@.len() as int,
                        dkeys[i as int].len() as int,
                    ) by {
                }
                assert forall|x: Seq<char>|
                    found@.contains_key(x) <==> before.contains_key(x) || dir_shows(
                        prefix@,
                        dkeys[i as int],
                        x,
                    ) by {
                }
                assert forall|x: Seq<char>| found@.contains_key(x) implies found@[x] == (
                dir_seen(prefix@, dkeys, i as int, x) || dir_shows(prefix@, dkeys[i as int], x)) by {
                }
                assert forall|x: Seq<char>|
                    #![trigger dir_seen(prefix@, dkeys, i + 1, x)]
                    dir_seen(prefix@, dkeys, i + 1, x) <==> dir_seen(prefix@, dkeys, i as int, x)
                        || dir_shows(prefix@, dkeys[i as int], x) by {
                    if dir_seen(prefix@, dkeys, i + 1, x) {
                        let j = choose|j: int|
                            0 <= j < i + 1 && #[trigger] dir_shows(prefix@, dkeys[j], x);
                        if j < i {
                            assert(dir_seen(prefix@, dkeys, i as int, x));
                        }
                    }
                    if dir_seen(prefix@, dkeys, i as int, x) {
                        let j = choose|j: int|
                            0 <= j < i && #[trigger] dir_shows(prefix@, dkeys[j], x);
                        assert(dir_shows(prefix@, dkeys[j], x));
                    }
                    if dir_shows(prefix@, dkeys[i as int], x) {
                        assert(dir_seen(prefix@, dkeys, i + 1, x));
                    }
                }
            }
            i += 1;
        }
        proof {
            assert(self.dirs() =~= self.dirs@.dom());
            assert forall|x: Seq<char>|
                dir_seen(prefix@, dkeys, m as int, x) <==> names_dir(self.dirs(), prefix@, x) by {
                if dir_seen(prefix@, dkeys, m as int, x) {
                    let j = choose|j: int|
                        0 <= j < m && #[trigger] dir_shows(prefix@, dkeys[j], x);
                    self.dirs.lemma_entry(j);
                    assert(dir_shows(prefix@, dkeys[j], x));
                }
                if names_dir(self.dirs(), prefix@, x) {
                    let k = choose|k: Seq<char>|
                        self.dirs().contains(k) && #[trigger] dir_shows(prefix@, k, x);
                    self.dirs.lemma_member(k);
                    let j = crate::pathmap::position(dkeys, k);
                    assert(dir_shows(prefix@, dkeys[j], x));
                }
            }
        }
        found
    }
}

/// Whether one of the first `i` file paths shows as `name`.
pub open spec fn file_seen(prefix: Seq<char>, keys: Seq<Seq<char>>, i: int, name: Seq<char>) -> bool {
    exists|j: int| 0 <= j < i && #[trigger] file_shows(prefix, keys[j], name)
}

/// Whether one of the first `i` directory paths shows as `name`.
pub open spec fn dir_seen(prefix: Seq<char>, keys: Seq<Seq<char>>, i: int, name: Seq<char>) -> bool {
    exists|j: int| 0 <= j < i && #[trigger] dir_shows(prefix, keys[j], name)
}

impl Filesystem for MemoryFilesystem {
    closed spec fn valid(&self) -> bool {
        &&& self.files.wf()
        &&& self.dirs.wf()
        &&& self.dirs@.contains_key(Seq::<char>::empty())
    }

    closed spec fn files(&self) -> Map<Seq<char>, Seq<u8>> {
        contents(self.files@)
    }

    closed spec fn dirs(&self) -> Set<Seq<char>> {
        self.dirs@.dom()
    }

    fn read_file(&self, path: &str) -> (r: Result<Vec<u8>, FsError>) {
        let text = chars_of(path);
        let norm = normalise_text(&text);
        match self.files.get(&norm) {
            Some(data) => Ok(copy_bytes(data)),
            None => Err(FsError::NotFound(string_of(&norm))),
        }
    }

    fn write_file(&mut self, path: &str, content: &[u8]) -> (r: Result<(), FsError>) {
        let text = chars_of(path);
        let norm = normalise_text(&text);
        if self.dirs.contains(&norm) {
            return Err(FsError::WrongKind(string_of(&norm)));
        }
        if self.lacks_parent(&norm) {
            return Err(FsError::ParentNotFound(string_of(&norm)));
        }
        let ghost before = self.files@;
        let data = slice_to_vec(content);
        self.files.insert(norm, data);
        assert(contents(self.files@) =~= contents(before).insert(norm@, content@));
        Ok(())
    }

    fn remove_file(&mut self, path: &str) -> (r: Result<(), FsError>) {
        let text = chars_of(path);
        let norm = normalise_text(&text);
        if self.dirs.contains(&norm) {
            return Err(FsError::WrongKind(string_of(&norm)));
        }
        let ghost before = self.files@;
        match self.files.remove(&norm) {
            Some(_) => {
                assert(contents(self.files@) =~= contents(before).remove(norm@));
                Ok(())
            },
            None => {
                assert(contents(self.files@) =~= contents(before));
                Err(FsError::NotFound(string_of(&norm)))
            },
        }
    }

    fn remove_dir(&mut self, path: &str) -> (r: Result<(), FsError>) {
        let text = chars_of(path);
        let norm = normalise_text(&text);
        if !self.dirs.contains(&norm) {
            return Err(FsError::NotFound(string_of(&norm)));
        }
        let prefix = prefix_of_dir(&norm);
        let blocked = norm.len() == 0 || any_with_prefix(&self.files, &prefix) || any_with_prefix(
            &self.dirs,
            &prefix,
        );
        proof {
            assert(self.files().dom() =~= self.files@.dom());
            if norm.len() > 0 {
                if occupied(self.files().dom(), self.dirs(), norm@) {
                    let k = choose|k: Seq<char>|
                        (self.files().dom().contains(k) || self.dirs().contains(k))
                            && #[trigger] below(norm@, k);
                    assert(begins_with(k, prefix@));
                }
                if blocked {
                    let k = choose|k: Seq<char>|
                        (self.files@.contains_key(k) || self.dirs@.contains_key(k))
                            && #[trigger] begins_with(k, prefix@);
                    assert(below(norm@, k));
                }
            }
        }
        if blocked {
            let suffix = chars_of(" is not empty");
            let message = join_text(&norm, &suffix);
            return Err(FsError::AlreadyExists(string_of(&message)));
        }
        let _ = self.dirs.remove(&norm);
        Ok(())
    }

    fn path_exists(&self, path: &str) -> (r: bool) {
        let text = chars_of(path);
        let norm = normalise_text(&text);
        self.files.contains(&norm) || self.dirs.contains(&norm)
    }

    fn is_dir(&self, path: &str) -> (r: bool) {
        let text = chars_of(path);
        let norm = normalise_text(&text);
        self.dirs.contains(&norm)
    }

    fn is_file(&self, path: &str) -> (r: bool) {
        let text = chars_of(path);
        let norm = normalise_text(&text);
        self.files.contains(&norm)
    }

    fn create_dir(&mut self, path: &str) -> (r: Result<(), FsError>) {
        let text = chars_of(path);
        let norm = normalise_text(&text);
        if self.dirs.contains(&norm) || self.files.contains(&norm) {
            return Err(FsError::AlreadyExists(string_of(&norm)));
        }
        if self.lacks_parent(&norm) {
            return Err(FsError::ParentNotFound(string_of(&norm)));
        }
        let ghost before = self.dirs@;
        let ghost n = norm@;
        self.dirs.insert(norm, ());
        assert(self.dirs@.dom() =~= before.dom().insert(n));
        Ok(())
    }

    fn create_dir_all(&mut self, path: &str) -> (r: Result<(), FsError>) {
        let text = chars_of(path);
        let norm = normalise_text(&text);
        assert(self.files().dom() =~= self.files@.dom());
        match find_blocked(&self.files, &norm) {
            Some(k) => {
                mark_ancestors(&mut self.dirs, &norm, k - 1);
                assert(self.dirs@.dom().contains(Seq::<char>::empty()));
                let prefix = take_text(&norm, k);
                Err(FsError::WrongKind(string_of(&prefix)))
            },
            None => {
                mark_ancestors(&mut self.dirs, &norm, norm.len());
                assert(self.dirs@.dom().contains(Seq::<char>::empty()));
                Ok(())
            },
        }
    }

    fn read_dir(&self, path: &str) -> (r: Result<Vec<DirEntry>, FsError>) {
        let text = chars_of(path);
        let norm = normalise_text(&text);
        if !self.dirs.contains(&norm) {
            return Err(FsError::NotFound(string_of(&norm)));
        }
        let prefix = prefix_of_dir(&norm);
        let found = self.children(&prefix);
        let ghost goal = listing(self.files().dom(), self.dirs(), norm@);
        assert(found@.dom() =~= goal.dom());
        let n: usize = found.len();
        let mut out: Vec<DirEntry> = Vec::new();
        let mut i: usize = 0;
        while i < n
            invariant
                found.wf(),
                n == found.keys().len(),
                i <= n,
                out@.len() == i,
                forall|j: int| 0 <= j < i ==> (#[trigger] out@[j]).name@ == found.keys()[j],
                forall|j: int| 0 <= j < i ==> (#[trigger] out@[j]).is_dir == found.values()[j],
            decreases n - i,
        {
            let name = string_of(found.key_at(i));
            let is_dir: bool = *found.value_at(i);
            out.push(DirEntry { name, is_dir });
            i += 1;
        }
        proof {
            assert(entry_names(out@) =~= found.keys());
            found.lemma_keys_listed();
            assert forall|j: int| 0 <= j < out@.len() implies (#[trigger] out@[j]).is_dir
                == goal[out@[j].name@] by {
                found.lemma_entry(j);
            }
        }
        Ok(out)
    }

    fn metadata(&self, path: &str) -> (r: Result<Metadata, FsError>) {
        let text = chars_of(path);
        let norm = normalise_text(&text);
        if self.dirs.contains(&norm) {
            return Ok(Metadata { is_dir: true, len: 0 });
        }
        match self.files.get(&norm) {
            Some(data) => Ok(Metadata { is_dir: false, len: data.len() as u64 }),
            None => Err(FsError::NotFound(string_of(&norm))),
        }
    }

    fn list_files(&self) -> (r: Vec<String>) {
        let n: usize = self.files.len();
        let mut out: Vec<String> = Vec::new();
        let mut i: usize = 0;
        while i < n
            invariant
                self.valid(),
                n == self.files.keys().len(),
                i <= n,
                out@.len() == i,
                forall|j: int| 0 <= j < i ==> (#[trigger] out@[j])@ == self.files.keys()[j],
            decreases n - i,
        {
            out.push(string_of(self.files.key_at(i)));
            i += 1;
        }
        proof {
            assert(texts(out@) =~= self.files.keys());
            self.files.lemma_keys_listed();
            assert(self.files().dom() =~= self.files@.dom());
        }
        out
    }

    fn rename(&mut self, from: &str, to: &str) -> (r: Result<(), FsError>) {
        let from_text = chars_of(from);
        let from_norm = normalise_text(&from_text);
        let to_text = chars_of(to);
        let to_norm = normalise_text(&to_text);
        let ghost files0 = self.files@;
        let ghost dirs0 = self.dirs@;
        if self.files.contains(&from_norm) {
            if self.lacks_parent(&to_norm) {
                return Err(FsError::ParentNotFound(string_of(&to_norm)));
            }
            let data = self.files.remove(&from_norm).unwrap();
            self.files.insert(to_norm, data);
            assert(contents(self.files@) =~= contents(files0).remove(from_norm@).insert(
                to_norm@,
                contents(files0)[from_norm@],
            ));
            Ok(())
        } else if self.dirs.contains(&from_norm) {
            let old_prefix = prefix_of_dir(&from_norm);
            let new_prefix = prefix_of_dir(&to_norm);
            relocate(&mut self.files, &old_prefix, &new_prefix);
            let _ = self.dirs.remove(&from_norm);
            relocate(&mut self.dirs, &old_prefix, &new_prefix);
            let ghost target = to_norm@;
            self.dirs.insert(to_norm, ());
            let root: Vec<char> = Vec::new();
            self.dirs.insert(root, ());
            proof {
                assert(contents(self.files@) =~= relocated(
                    contents(files0),
                    old_prefix@,
                    new_prefix@,
                ));
                assert forall|k: Seq<char>|
                    self.dirs@.dom().contains(k) <==> renamed_dirs(
                        dirs0.dom(),
                        from_norm@,
                        target,
                    ).contains(k) by {
                    if k.len() == 0 {
                        assert(k =~= root@);
                    }
                }
                assert(self.dirs@.dom() =~= renamed_dirs(dirs0.dom(), from_norm@, target));
            }
            Ok(())
        } else {
            Err(FsError::NotFound(string_of(&from_norm)))
        }
    }
}

/// Reading a path gives the bytes that were last written to it.
pub proof fn lemma_write_then_read(
    files: Map<Seq<char>, Seq<u8>>,
    dirs: Set<Seq<char>>,
    path: Seq<char>,
    content: Seq<u8>,
)
    requires
        write_error(dirs, normalized(path)) is None,
    ensures
        read_result(files.insert(normalized(path), content), normalized(path)) == Ok::<
            Seq<u8>,
            FsErrorView,
        >(content),
{
}

/// Writing below a directory that does not exist fails, and names the
/// missing parent as the reason.
pub proof fn lemma_write_needs_parent(dirs: Set<Seq<char>>, path: Seq<char>)
    requires
        !dirs.contains(normalized(path)),
        parent_missing(dirs, normalized(path)),
    ensures
        write_error(dirs, normalized(path)) == Some(
            FsErrorView::ParentNotFound(normalized(path)),
        ),
{
}

/// Removing a directory fails while a file or a directory lies below it.
pub proof fn lemma_remove_dir_blocked(
    files: Map<Seq<char>, Seq<u8>>,
    dirs: Set<Seq<char>>,
    dir: Seq<char>,
    k: Seq<char>,
)
    requires
        files.contains_key(k) || dirs.contains(k),
        begins_with(k, dir.push('/')),
    ensures
        remove_dir_error(files, dirs, dir) is Some,
{
    if dir.len() > 0 {
        assert(below(dir, k));
    }
}

/// Removing a directory other than the root succeeds when nothing lies
/// below it, and the directory is gone afterwards.
pub proof fn lemma_remove_dir_empty(
    files: Map<Seq<char>, Seq<u8>>,
    dirs: Set<Seq<char>>,
    dir: Seq<char>,
)
    requires
        dirs.contains(dir),
        dir.len() > 0,
        forall|k: Seq<char>|
            files.contains_key(k) || dirs.contains(k) ==> !#[trigger] begins_with(
                k,
                dir.push('/'),
            ),
    ensures
        remove_dir_error(files, dirs, dir) is None,
        !dirs.remove(dir).contains(dir),
{
    if occupied(files.dom(), dirs, dir) {
        let k = choose|k: Seq<char>|
            (files.dom().contains(k) || dirs.contains(k)) && #[trigger] below(dir, k);
        assert(begins_with(k, dir.push('/')));
    }
}

/// Renaming a directory keeps every file below it: the file stands at the
/// same relative path below the new name, with the same contents.
pub proof fn lemma_rename_keeps_files(
    files: Map<Seq<char>, Seq<u8>>,
    from: Seq<char>,
    to: Seq<char>,
    rest: Seq<char>,
)
    requires
        files.contains_key(dir_prefix(from) + rest),
    ensures
        relocated(files, dir_prefix(from), dir_prefix(to)).contains_key(dir_prefix(to) + rest),
        relocated(files, dir_prefix(from), dir_prefix(to))[dir_prefix(to) + rest]
            == files[dir_prefix(from) + rest],
{
    let op = dir_prefix(from);
    let np = dir_prefix(to);
    let key = op + rest;
    assert(key.subrange(0, op.len() as int) =~= op);
    assert(key.subrange(op.len() as int, key.len() as int) =~= rest);
    lemma_source_of_target(op, np, key);
}

/// Renaming a directory keeps every directory below it, at the same
/// relative path below the new name.
pub proof fn lemma_rename_keeps_dirs(
    dirs: Set<Seq<char>>,
    from: Seq<char>,
    to: Seq<char>,
    rest: Seq<char>,
)
    requires
        dirs.contains(dir_prefix(from) + rest),
        dir_prefix(from) + rest != from,
    ensures
        renamed_dirs(dirs, from, to).contains(dir_prefix(to) + rest),
        renamed_dirs(dirs, from, to).contains(to),
{
    let op = dir_prefix(from);
    let np = dir_prefix(to);
    let key = op + rest;
    assert(key.subrange(0, op.len() as int) =~= op);
    assert(key.subrange(op.len() as int, key.len() as int) =~= rest);
    lemma_source_of_target(op, np, key);
}

/// Renaming a directory leaves alone every file that lies neither below
/// its old name nor below its new one.
pub proof fn lemma_rename_keeps_others(
    files: Map<Seq<char>, Seq<u8>>,
    from: Seq<char>,
    to: Seq<char>,
    k: Seq<char>,
)
    requires
        !begins_with(k, dir_prefix(from)),
        !begins_with(k, dir_prefix(to)),
    ensures
        relocated(files, dir_prefix(from), dir_prefix(to)).contains_key(k) == files.contains_key(
            k,
        ),
        files.contains_key(k) ==> relocated(files, dir_prefix(from), dir_prefix(to))[k]
            == files[k],
{
}

/// After a directory is renamed, a path below its old name holds a file
/// only where the rename has moved one there.
pub proof fn lemma_rename_leaves_only_moved(
    files: Map<Seq<char>, Seq<u8>>,
    from: Seq<char>,
    to: Seq<char>,
    k: Seq<char>,
)
    requires
        begins_with(k, dir_prefix(from)),
    ensures
        relocated(files, dir_prefix(from), dir_prefix(to)).contains_key(k) <==> begins_with(
            k,
            dir_prefix(to),
        ) && files.contains_key(source_of(dir_prefix(from), dir_prefix(to), k)),
{
}

/// After a directory is renamed to a place that is neither below it nor
/// above it, no file and no directory is left below its old name.
pub proof fn lemma_rename_clears_source(
    files: Map<Seq<char>, Seq<u8>>,
    dirs: Set<Seq<char>>,
    from: Seq<char>,
    to: Seq<char>,
    k: Seq<char>,
)
    requires
        begins_with(k, dir_prefix(from)),
        !begins_with(dir_prefix(from), dir_prefix(to)),
        !begins_with(dir_prefix(to), dir_prefix(from)),
    ensures
        !relocated(files, dir_prefix(from), dir_prefix(to)).contains_key(k),
        !renamed_dirs(dirs, from, to).contains(k),
{
    let op = dir_prefix(from);
    let np = dir_prefix(to);
    assert(op.subrange(0, 0) =~= Seq::<char>::empty());
    assert(np.subrange(0, 0) =~= Seq::<char>::empty());
    if begins_with(k, np) {
        if np.len() <= op.len() {
            assert(op.subrange(0, np.len() as int) =~= k.subrange(0, op.len() as int).subrange(
                0,
                np.len() as int,
            ));
            assert(op.subrange(0, np.len() as int) =~= np);
        } else {
            assert(np.subrange(0, op.len() as int) =~= k.subrange(0, np.len() as int).subrange(
                0,
                op.len() as int,
            ));
            assert(np.subrange(0, op.len() as int) =~= op);
        }
    }
    if op.len() == 0 {
        assert(np.subrange(0, 0) =~= op);
    } else if k == to {
        assert(np =~= to.push('/'));
        assert(np.subrange(0, op.len() as int) =~= k.subrange(0, op.len() as int));
        assert(begins_with(np, op));
    }
}

} // verus!
