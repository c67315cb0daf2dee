use tui2web::diff::{diff_added, diff_deleted, diff_modified, split_lines, DiffHunk};
use tui2web::fs::{Filesystem, MemoryFilesystem};
use tui2web::git::{
    format_sha, trees_equal, CommitInfo, FileStatus, GitError, GitRepository,
    InMemoryGitRepository, StatusEntry,
};
use tui2web::lcs::{lcs_diff, Edit};
use tui2web::text::{chars_of, string_of};

fn setup() -> InMemoryGitRepository {
    let fs = MemoryFilesystem::new();
    InMemoryGitRepository::new(fs)
}

fn numbered(from: usize, to: usize) -> Vec<String> {
    (from..=to).map(|n| n.to_string()).collect()
}

fn joined(lines: &[String]) -> String {
    let mut out = String::new();
    for l in lines {
        out.push_str(l);
        out.push('\n');
    }
    out
}

fn as_lines(lines: &[&str]) -> Vec<Vec<char>> {
    lines.iter().map(|l| chars_of(l)).collect()
}

#[test]
fn status_empty_repo() {
    let repo = setup();
    let st = repo.status().unwrap();
    assert!(st.is_empty());
}

#[test]
fn status_untracked_file() {
    let mut repo = setup();
    repo.filesystem_mut().write_file("hello.txt", b"world").unwrap();
    let st = repo.status().unwrap();
    assert_eq!(st.len(), 1);
    assert_eq!(st[0].path, "hello.txt");
    assert_eq!(st[0].status, FileStatus::Untracked);
    assert!(!st[0].staged);
}

#[test]
fn stage_and_commit() {
    let mut repo = setup();
    repo.filesystem_mut().write_file("a.txt", b"hello").unwrap();
    repo.stage_file("a.txt").unwrap();

    let st = repo.status().unwrap();
    let staged: Vec<_> = st.iter().filter(|e| e.staged).collect();
    assert_eq!(staged.len(), 1);
    assert_eq!(staged[0].status, FileStatus::Added);

    let sha = repo.commit("initial", "test").unwrap();
    assert!(!sha.is_empty());

    let st = repo.status().unwrap();
    let relevant: Vec<_> = st.iter().filter(|e| e.status != FileStatus::Untracked).collect();
    assert!(relevant.is_empty(), "expected clean status after commit");
}

#[test]
fn nothing_to_commit() {
    let mut repo = setup();
    let err = repo.commit("empty", "test").unwrap_err();
    assert_eq!(err, GitError::NothingToCommit);
}

#[test]
fn diff_staged_shows_additions() {
    let mut repo = setup();
    repo.filesystem_mut().write_file("f.txt", b"line1\nline2\n").unwrap();
    repo.stage_file("f.txt").unwrap();

    let diffs = repo.diff_staged().unwrap();
    assert_eq!(diffs.len(), 1);
    assert_eq!(diffs[0].status, FileStatus::Added);
    assert!(!diffs[0].hunks.is_empty());
    assert!(diffs[0].hunks[0].lines.iter().all(|l| l.starts_with('+')));
}

#[test]
fn diff_unstaged_shows_modifications() {
    let mut repo = setup();
    repo.filesystem_mut().write_file("f.txt", b"line1\n").unwrap();
    repo.stage_file("f.txt").unwrap();
    repo.commit("init", "test").unwrap();

    repo.filesystem_mut().write_file("f.txt", b"line1\nline2\n").unwrap();

    let diffs = repo.diff_unstaged().unwrap();
    assert_eq!(diffs.len(), 1);
    assert_eq!(diffs[0].status, FileStatus::Modified);
    assert!(!diffs[0].hunks.is_empty());
}

#[test]
fn log_returns_commits_newest_first() {
    let mut repo = setup();
    repo.filesystem_mut().write_file("a.txt", b"v1").unwrap();
    repo.stage_file("a.txt").unwrap();
    repo.commit("first", "alice").unwrap();

    repo.filesystem_mut().write_file("a.txt", b"v2").unwrap();
    repo.stage_file("a.txt").unwrap();
    repo.commit("second", "bob").unwrap();

    let log = repo.log(10).unwrap();
    assert_eq!(log.len(), 2);
    assert_eq!(log[0].summary, "second");
    assert_eq!(log[0].author, "bob");
    assert_eq!(log[1].summary, "first");
    assert_eq!(log[1].author, "alice");
}

#[test]
fn unstage_reverts_to_head() {
    let mut repo = setup();
    repo.filesystem_mut().write_file("f.txt", b"original").unwrap();
    repo.stage_file("f.txt").unwrap();
    repo.commit("init", "test").unwrap();

    repo.filesystem_mut().write_file("f.txt", b"changed").unwrap();
    repo.stage_file("f.txt").unwrap();

    assert!(!repo.diff_staged().unwrap().is_empty());

    repo.unstage_file("f.txt").unwrap();
    assert!(repo.diff_staged().unwrap().is_empty());
}

#[test]
fn diff_commit_shows_changes() {
    let mut repo = setup();
    repo.filesystem_mut().write_file("f.txt", b"v1\n").unwrap();
    repo.stage_file("f.txt").unwrap();
    let sha1 = repo.commit("first", "test").unwrap();

    repo.filesystem_mut().write_file("f.txt", b"v2\n").unwrap();
    repo.stage_file("f.txt").unwrap();
    let sha2 = repo.commit("second", "test").unwrap();

    let d1 = repo.diff_commit(&sha1).unwrap();
    assert_eq!(d1.len(), 1);
    assert_eq!(d1[0].status, FileStatus::Added);

    let d2 = repo.diff_commit(&sha2).unwrap();
    assert_eq!(d2.len(), 1);
    assert_eq!(d2[0].status, FileStatus::Modified);
}

#[test]
fn diff_modified_produces_correct_hunks() {
    let hunks = diff_modified("a\nb\nc\n", "a\nB\nc\n");
    assert_eq!(hunks.len(), 1);
    let lines = &hunks[0].lines;
    assert!(lines.iter().any(|l| l.starts_with("-b")));
    assert!(lines.iter().any(|l| l.starts_with("+B")));
}

#[test]
fn file_deletion_status() {
    let mut repo = setup();
    repo.filesystem_mut().write_file("f.txt", b"data").unwrap();
    repo.stage_file("f.txt").unwrap();
    repo.commit("add", "test").unwrap();

    repo.filesystem_mut().remove_file("f.txt").unwrap();

    let st = repo.status().unwrap();
    let deleted: Vec<_> = st.iter().filter(|e| e.status == FileStatus::Deleted).collect();
    assert!(!deleted.is_empty());
}

#[test]
fn text_round_trips_through_characters() {
    let s = "pl\u{e4}in \u{1f600} text/\n";
    let chars = chars_of(s);
    assert_eq!(chars, s.chars().collect::<Vec<char>>());
    assert_eq!(string_of(&chars), s);
    assert_eq!(string_of(&Vec::new()), "");
}

#[test]
fn lines_are_split_at_line_feeds() {
    let split = |s: &str| -> Vec<String> {
        split_lines(&chars_of(s)).iter().map(|l| string_of(l)).collect()
    };
    assert_eq!(split(""), Vec::<String>::new());
    assert_eq!(split("a"), vec!["a"]);
    assert_eq!(split("a\n"), vec!["a"]);
    assert_eq!(split("a\n\nb"), vec!["a", "", "b"]);
    assert_eq!(split("a\r\nb\r"), vec!["a", "b\r"]);
    assert_eq!(split("\n"), vec![""]);
    assert_eq!(split("\r\n\r\n"), vec!["", ""]);
    for s in ["", "x", "x\n", "\n\n", "a\r\nb", "a\rb\n", "one\ntwo\r\n\r\nlast\r"] {
        let expected: Vec<String> = s.lines().map(|l| l.to_string()).collect();
        assert_eq!(split(s), expected);
    }
}

#[test]
fn edit_script_prefers_insertion_on_ties() {
    let old = as_lines(&["a", "b", "c"]);
    let new = as_lines(&["a", "B", "c"]);
    assert_eq!(
        lcs_diff(&old, &new),
        vec![Edit::Equal(0, 0), Edit::Insert(1, 1), Edit::Delete(1, 2), Edit::Equal(2, 2)]
    );
    assert_eq!(lcs_diff(&Vec::new(), &Vec::new()), Vec::<Edit>::new());
    assert_eq!(
        lcs_diff(&Vec::new(), &as_lines(&["x", "y"])),
        vec![Edit::Insert(0, 0), Edit::Insert(0, 1)]
    );
    assert_eq!(
        lcs_diff(&as_lines(&["x", "y"]), &Vec::new()),
        vec![Edit::Delete(0, 0), Edit::Delete(1, 0)]
    );
}

#[test]
fn edit_script_accounts_for_every_line() {
    let samples: Vec<(Vec<&str>, Vec<&str>)> = vec![
        (vec![], vec![]),
        (vec!["a"], vec![]),
        (vec![], vec!["a"]),
        (vec!["a", "b", "c", "d"], vec!["b", "d", "e"]),
        (vec!["x", "x", "y"], vec!["y", "x", "x"]),
        (vec!["1", "2", "3"], vec!["1", "2", "3"]),
    ];
    for (old, new) in samples {
        let script = lcs_diff(&as_lines(&old), &as_lines(&new));
        let equal = script.iter().filter(|e| matches!(e, Edit::Equal(_, _))).count();
        let delete = script.iter().filter(|e| matches!(e, Edit::Delete(_, _))).count();
        let insert = script.iter().filter(|e| matches!(e, Edit::Insert(_, _))).count();
        assert_eq!(equal + delete, old.len());
        assert_eq!(equal + insert, new.len());
    }
}

#[test]
fn whole_file_hunks() {
    assert_eq!(
        diff_added("x\ny\n"),
        vec![DiffHunk {
            old_start: 0,
            new_start: 1,
            lines: vec!["+x\n".to_string(), "+y\n".to_string()],
        }]
    );
    assert_eq!(diff_added(""), Vec::<DiffHunk>::new());
    assert_eq!(
        diff_deleted("x"),
        vec![DiffHunk { old_start: 1, new_start: 0, lines: vec!["-x\n".to_string()] }]
    );
    assert_eq!(diff_deleted(""), Vec::<DiffHunk>::new());
}

#[test]
fn modified_hunk_is_exact() {
    let hunks = diff_modified("a\nb\nc\n", "a\nB\nc\n");
    assert_eq!(
        hunks,
        vec![DiffHunk {
            old_start: 1,
            new_start: 1,
            lines: vec![
                " a\n".to_string(),
                "+B\n".to_string(),
                "-b\n".to_string(),
                " c\n".to_string(),
            ],
        }]
    );
    assert_eq!(diff_modified("same\n", "same\n"), Vec::<DiffHunk>::new());
}

#[test]
fn hunk_keeps_three_lines_of_context() {
    let old = numbered(1, 10);
    let mut new = old.clone();
    new[4] = "five".to_string();
    let hunks = diff_modified(&joined(&old), &joined(&new));
    assert_eq!(
        hunks,
        vec![DiffHunk {
            old_start: 2,
            new_start: 2,
            lines: vec![" 2\n", " 3\n", " 4\n", "+five\n", "-5\n", " 6\n", " 7\n", " 8\n"]
                .into_iter()
                .map(String::from)
                .collect(),
        }]
    );
}

#[test]
fn changes_six_lines_apart_share_a_hunk() {
    let old = numbered(1, 12);
    let mut new = old.clone();
    new[1] = "two".to_string();
    new[8] = "nine".to_string();
    let hunks = diff_modified(&joined(&old), &joined(&new));
    assert_eq!(hunks.len(), 1);
    assert_eq!(hunks[0].old_start, 1);
    assert_eq!(hunks[0].new_start, 1);
    assert_eq!(
        hunks[0].lines,
        vec![
            " 1\n", "+two\n", "-2\n", " 3\n", " 4\n", " 5\n", " 6\n", " 7\n", " 8\n", "+nine\n",
            "-9\n", " 10\n", " 11\n", " 12\n"
        ]
    );
}

#[test]
fn changes_seven_lines_apart_get_two_hunks() {
    let old = numbered(1, 13);
    let mut new = old.clone();
    new[1] = "two".to_string();
    new[9] = "ten".to_string();
    let hunks = diff_modified(&joined(&old), &joined(&new));
    assert_eq!(hunks.len(), 2);
    assert_eq!(hunks[0].old_start, 1);
    assert_eq!(hunks[0].new_start, 1);
    assert_eq!(hunks[0].lines, vec![" 1\n", "+two\n", "-2\n", " 3\n", " 4\n", " 5\n"]);
    assert_eq!(hunks[1].old_start, 7);
    assert_eq!(hunks[1].new_start, 7);
    assert_eq!(
        hunks[1].lines,
        vec![" 7\n", " 8\n", " 9\n", "+ten\n", "-10\n", " 11\n", " 12\n", " 13\n"]
    );
}

#[test]
fn hunk_that_starts_with_a_change() {
    let hunks = diff_modified("b\n", "a\nb\n");
    assert_eq!(
        hunks,
        vec![DiffHunk {
            old_start: 0,
            new_start: 1,
            lines: vec!["+a\n".to_string(), " b\n".to_string()],
        }]
    );
    let hunks = diff_modified("a\nb\n", "b\n");
    assert_eq!(
        hunks,
        vec![DiffHunk {
            old_start: 1,
            new_start: 0,
            lines: vec!["-a\n".to_string(), " b\n".to_string()],
        }]
    );
}

#[test]
fn identifiers_are_sixteen_hex_digits() {
    assert_eq!(format_sha(1), "0000000000000001");
    assert_eq!(format_sha(255), "00000000000000ff");
    assert_eq!(format_sha(0xdead_beef), "00000000deadbeef");
    assert_eq!(format_sha(u64::MAX), "ffffffffffffffff");
    assert_eq!(format_sha(0), "0000000000000000");
}

#[test]
fn commits_are_numbered_from_one() {
    let mut repo = setup();
    repo.filesystem_mut().write_file("a", b"1").unwrap();
    repo.stage_file("a").unwrap();
    assert_eq!(repo.commit("one\nmore text\n", "ann").unwrap(), "0000000000000001");
    assert_eq!(repo.commit("again", "ann").unwrap_err(), GitError::NothingToCommit);
    repo.filesystem_mut().write_file("a", b"2").unwrap();
    repo.stage_file("a").unwrap();
    assert_eq!(repo.commit("", "bob").unwrap(), "0000000000000002");
    assert_eq!(
        repo.log(5).unwrap(),
        vec![
            CommitInfo {
                sha: "0000000000000002".to_string(),
                short_sha: "0000000".to_string(),
                summary: String::new(),
                author: "bob".to_string(),
            },
            CommitInfo {
                sha: "0000000000000001".to_string(),
                short_sha: "0000000".to_string(),
                summary: "one".to_string(),
                author: "ann".to_string(),
            },
        ]
    );
    assert_eq!(repo.log(1).unwrap().len(), 1);
    assert_eq!(repo.log(1).unwrap()[0].author, "bob");
    assert!(repo.log(0).unwrap().is_empty());
}

#[test]
fn diff_commit_gives_the_hunks_of_each_commit() {
    let mut repo = setup();
    repo.filesystem_mut().write_file("f.txt", b"line1\n").unwrap();
    repo.stage_file("f.txt").unwrap();
    let sha1 = repo.commit("first", "test").unwrap();
    repo.filesystem_mut().write_file("f.txt", b"line1\nline2\n").unwrap();
    repo.stage_file("f.txt").unwrap();
    let sha2 = repo.commit("second", "test").unwrap();

    let d1 = repo.diff_commit(&sha1).unwrap();
    assert_eq!(d1.len(), 1);
    assert_eq!(d1[0].path, "f.txt");
    assert_eq!(d1[0].status, FileStatus::Added);
    assert_eq!(
        d1[0].hunks,
        vec![DiffHunk { old_start: 0, new_start: 1, lines: vec!["+line1\n".to_string()] }]
    );

    let d2 = repo.diff_commit(&sha2).unwrap();
    assert_eq!(d2.len(), 1);
    assert_eq!(d2[0].status, FileStatus::Modified);
    assert_eq!(
        d2[0].hunks,
        vec![DiffHunk {
            old_start: 1,
            new_start: 1,
            lines: vec![" line1\n".to_string(), "+line2\n".to_string()],
        }]
    );
}

#[test]
fn diff_commit_of_unknown_identifier() {
    let repo = setup();
    assert_eq!(
        repo.diff_commit("xyz").unwrap_err(),
        GitError::Other("commit not found: xyz".to_string())
    );
}

#[test]
fn stage_file_that_is_nowhere() {
    let mut repo = setup();
    assert_eq!(
        repo.stage_file("nope.txt").unwrap_err(),
        GitError::Other("file not found: nope.txt".to_string())
    );
    repo.filesystem_mut().write_file("a.txt", b"x").unwrap();
    assert_eq!(
        repo.stage_file("/a.txt").unwrap_err(),
        GitError::Other("file not found: /a.txt".to_string())
    );
}

#[test]
fn staged_deletion_shows_once() {
    let mut repo = setup();
    repo.filesystem_mut().write_file("f.txt", b"data").unwrap();
    repo.stage_file("f.txt").unwrap();
    repo.commit("add", "test").unwrap();
    repo.filesystem_mut().remove_file("f.txt").unwrap();
    assert_eq!(
        repo.status().unwrap(),
        vec![StatusEntry { path: "f.txt".to_string(), status: FileStatus::Deleted, staged: false }]
    );
    repo.stage_file("f.txt").unwrap();
    assert_eq!(
        repo.status().unwrap(),
        vec![StatusEntry { path: "f.txt".to_string(), status: FileStatus::Deleted, staged: true }]
    );
    let diffs = repo.diff_staged().unwrap();
    assert_eq!(diffs.len(), 1);
    assert_eq!(diffs[0].status, FileStatus::Deleted);
    assert_eq!(
        diffs[0].hunks,
        vec![DiffHunk { old_start: 1, new_start: 0, lines: vec!["-data\n".to_string()] }]
    );
    repo.commit("remove", "test").unwrap();
    assert!(repo.status().unwrap().is_empty());
}

#[test]
fn status_lists_paths_in_order_with_staged_entries_first() {
    let mut repo = setup();
    repo.filesystem_mut().write_file("b.txt", b"1").unwrap();
    repo.filesystem_mut().write_file("a.txt", b"1").unwrap();
    repo.filesystem_mut().write_file("c.txt", b"1").unwrap();
    repo.stage_file("b.txt").unwrap();
    repo.stage_file("c.txt").unwrap();
    repo.commit("base", "t").unwrap();
    repo.filesystem_mut().write_file("b.txt", b"2").unwrap();
    repo.stage_file("b.txt").unwrap();
    repo.filesystem_mut().write_file("b.txt", b"3").unwrap();
    repo.filesystem_mut().write_file("d.txt", b"new").unwrap();
    repo.stage_file("d.txt").unwrap();
    repo.filesystem_mut().remove_file("d.txt").unwrap();
    let entry = |p: &str, status, staged| StatusEntry { path: p.to_string(), status, staged };
    assert_eq!(
        repo.status().unwrap(),
        vec![
            entry("a.txt", FileStatus::Untracked, false),
            entry("b.txt", FileStatus::Modified, true),
            entry("b.txt", FileStatus::Modified, false),
            entry("d.txt", FileStatus::Added, true),
            entry("d.txt", FileStatus::Deleted, false),
        ]
    );
}

#[test]
fn unstage_of_a_new_file_removes_it_from_the_index() {
    let mut repo = setup();
    repo.filesystem_mut().write_file("n.txt", b"x").unwrap();
    repo.stage_file("n.txt").unwrap();
    assert_eq!(repo.diff_staged().unwrap().len(), 1);
    repo.unstage_file("n.txt").unwrap();
    assert!(repo.diff_staged().unwrap().is_empty());
    assert_eq!(repo.commit("none", "t").unwrap_err(), GitError::NothingToCommit);
}

#[test]
fn commit_keeps_its_own_tree() {
    let mut repo = setup();
    repo.filesystem_mut().write_file("f", b"one\n").unwrap();
    repo.stage_file("f").unwrap();
    let sha = repo.commit("c1", "t").unwrap();
    let before = repo.diff_commit(&sha).unwrap();
    repo.filesystem_mut().write_file("f", b"two\n").unwrap();
    repo.filesystem_mut().write_file("g", b"three\n").unwrap();
    repo.stage_file("f").unwrap();
    repo.stage_file("g").unwrap();
    assert_eq!(repo.diff_commit(&sha).unwrap(), before);
    assert_eq!(repo.diff_staged().unwrap().len(), 2);
}

#[test]
fn diff_unstaged_compares_with_index_before_head() {
    let mut repo = setup();
    repo.filesystem_mut().write_file("f", b"v1\n").unwrap();
    repo.stage_file("f").unwrap();
    repo.commit("c1", "t").unwrap();
    repo.filesystem_mut().write_file("f", b"v2\n").unwrap();
    repo.stage_file("f").unwrap();
    assert!(repo.diff_unstaged().unwrap().is_empty());
    repo.filesystem_mut().write_file("u", b"new\n").unwrap();
    let diffs = repo.diff_unstaged().unwrap();
    assert_eq!(diffs.len(), 1);
    assert_eq!(diffs[0].path, "u");
    assert_eq!(diffs[0].status, FileStatus::Added);
}

#[test]
fn invalid_bytes_show_as_replacement_characters() {
    let mut repo = setup();
    repo.filesystem_mut().write_file("b", &[0x61, 0xff, 0x0a, 0xc3, 0xa9, 0x0a]).unwrap();
    repo.stage_file("b").unwrap();
    let diffs = repo.diff_staged().unwrap();
    assert_eq!(diffs.len(), 1);
    assert_eq!(
        diffs[0].hunks,
        vec![DiffHunk {
            old_start: 0,
            new_start: 1,
            lines: vec!["+a\u{fffd}\n".to_string(), "+\u{e9}\n".to_string()],
        }]
    );
}

#[test]
fn working_tree_copies_the_files() {
    let mut repo = setup();
    repo.filesystem_mut().create_dir("d").unwrap();
    repo.filesystem_mut().write_file("d/f", b"x").unwrap();
    let tree = repo.working_tree();
    assert!(trees_equal(&tree, &repo.filesystem().tree()));
    assert_eq!(tree.len(), 1);
    assert_eq!(string_of(tree.key_at(0)), "d/f");
    assert_eq!(tree.value_at(0), &b"x".to_vec());
    let other = MemoryFilesystem::new().tree();
    assert!(!trees_equal(&tree, &other));
    let diffs = InMemoryGitRepository::diff_trees(&other, &tree);
    assert_eq!(diffs.len(), 1);
    assert_eq!(diffs[0].path, "d/f");
    assert_eq!(diffs[0].status, FileStatus::Added);
}

#[test]
fn labels_and_messages() {
    assert_eq!(FileStatus::Added.label(), "Added");
    assert_eq!(FileStatus::Modified.label(), "Modified");
    assert_eq!(FileStatus::Deleted.label(), "Deleted");
    assert_eq!(FileStatus::Untracked.label(), "Untracked");
    assert_eq!(GitError::NotInitialised.message(), "repository not initialised");
    assert_eq!(GitError::NothingToCommit.message(), "nothing to commit");
    assert_eq!(GitError::Other("boom".to_string()).message(), "boom");
}

#[test]
fn edit_script_turns_old_into_new() {
    let samples: Vec<(Vec<&str>, Vec<&str>)> = vec![
        (vec![], vec!["a"]),
        (vec!["a", "b", "c", "d"], vec!["b", "d", "e"]),
        (vec!["x", "x", "y"], vec!["y", "x", "x"]),
        (vec!["k", "l", "m"], vec!["m", "l", "k", "l"]),
    ];
    for (old, new) in samples {
        let script = lcs_diff(&as_lines(&old), &as_lines(&new));
        let mut passed: Vec<&str> = Vec::new();
        let mut left: Vec<&str> = Vec::new();
        let mut kept = 0;
        for step in &script {
            match *step {
                Edit::Equal(o, n) => {
                    assert_eq!(old[o], new[n]);
                    passed.push(old[o]);
                    left.push(old[o]);
                    kept += 1;
                }
                Edit::Delete(o, _) => passed.push(old[o]),
                Edit::Insert(_, n) => left.push(new[n]),
            }
        }
        assert_eq!(passed, old);
        assert_eq!(left, new);
        assert!(kept <= old.len().min(new.len()));
    }
    let script = lcs_diff(&as_lines(&["a", "b", "c", "d"]), &as_lines(&["b", "d", "e"]));
    assert_eq!(script.iter().filter(|e| matches!(e, Edit::Equal(_, _))).count(), 2);
}
