use tui2web::order::{order_of, Rank};
use tui2web::path::{join_text, prefix_of_dir, skip_text, starts_with, take_text};
use tui2web::pathmap::PathMap;
use tui2web::text::{chars_of, copy_bytes, copy_text, same_bytes, same_text, string_of};

fn keys_of(m: &PathMap<u32>) -> Vec<String> {
    (0..m.len()).map(|i| string_of(m.key_at(i))).collect()
}

#[test]
fn paths_are_ordered_by_code_point() {
    let rank = |a: &str, b: &str| order_of(&chars_of(a), &chars_of(b));
    assert_eq!(rank("a", "b"), Rank::Before);
    assert_eq!(rank("b", "a"), Rank::After);
    assert_eq!(rank("a", "a"), Rank::Same);
    assert_eq!(rank("", ""), Rank::Same);
    assert_eq!(rank("", "a"), Rank::Before);
    assert_eq!(rank("a", "a/b"), Rank::Before);
    assert_eq!(rank("a/b", "a.txt"), Rank::After);
    assert_eq!(rank("Z", "a"), Rank::Before);
    assert_eq!(rank("\u{e9}", "z"), Rank::After);
    for (a, b) in [("a/b", "a.b"), ("x", "xy"), ("\u{4e16}", "\u{e9}"), ("ab", "aB")] {
        let expected = match a.cmp(b) {
            std::cmp::Ordering::Less => Rank::Before,
            std::cmp::Ordering::Equal => Rank::Same,
            std::cmp::Ordering::Greater => Rank::After,
        };
        assert_eq!(rank(a, b), expected);
    }
}

#[test]
fn map_keeps_paths_in_order() {
    let mut m: PathMap<u32> = PathMap::new();
    assert_eq!(m.len(), 0);
    m.insert(chars_of("m"), 1);
    m.insert(chars_of("a"), 2);
    m.insert(chars_of("z"), 3);
    m.insert(chars_of("m/n"), 4);
    m.insert(chars_of("a"), 5);
    assert_eq!(keys_of(&m), vec!["a", "m", "m/n", "z"]);
    assert_eq!(m.get(&chars_of("a")), Some(&5));
    assert_eq!(m.get(&chars_of("m")), Some(&1));
    assert_eq!(m.get(&chars_of("b")), None);
    assert!(m.contains(&chars_of("m/n")));
    assert!(!m.contains(&chars_of("m/")));
    assert_eq!(m.locate(&chars_of("m")), (1, true));
    assert_eq!(m.locate(&chars_of("b")), (1, false));
    assert_eq!(m.locate(&chars_of("zz")), (4, false));
    assert_eq!(*m.value_at(3), 3);
}

#[test]
fn map_remove_pop_and_overlay() {
    let mut m: PathMap<u32> = PathMap::new();
    m.insert(chars_of("b"), 2);
    m.insert(chars_of("a"), 1);
    m.insert(chars_of("c"), 3);
    assert_eq!(m.remove(&chars_of("b")), Some(2));
    assert_eq!(m.remove(&chars_of("b")), None);
    assert_eq!(keys_of(&m), vec!["a", "c"]);
    let mut top: PathMap<u32> = PathMap::new();
    top.insert(chars_of("c"), 30);
    top.insert(chars_of("d"), 40);
    m.overlay(top);
    assert_eq!(keys_of(&m), vec!["a", "c", "d"]);
    assert_eq!(m.get(&chars_of("c")), Some(&30));
    assert_eq!(m.get(&chars_of("a")), Some(&1));
    assert_eq!(m.pop_last(), Some((chars_of("d"), 40)));
    assert_eq!(m.pop_last(), Some((chars_of("c"), 30)));
    assert_eq!(m.pop_last(), Some((chars_of("a"), 1)));
    assert_eq!(m.pop_last(), None);
    assert_eq!(m.len(), 0);
}

#[test]
fn text_helpers() {
    let t = chars_of("dir/file.txt");
    assert_eq!(string_of(&take_text(&t, 3)), "dir");
    assert_eq!(string_of(&take_text(&t, 0)), "");
    assert_eq!(string_of(&skip_text(&t, 4)), "file.txt");
    assert_eq!(string_of(&skip_text(&t, 12)), "");
    assert_eq!(string_of(&join_text(&chars_of("a/"), &chars_of("b"))), "a/b");
    assert!(starts_with(&t, &chars_of("dir/")));
    assert!(starts_with(&t, &chars_of("")));
    assert!(!starts_with(&t, &chars_of("dir/file.txt.bak")));
    assert!(!starts_with(&t, &chars_of("dis")));
    assert_eq!(string_of(&prefix_of_dir(&chars_of("a/b"))), "a/b/");
    assert_eq!(string_of(&prefix_of_dir(&chars_of(""))), "");
    assert!(same_text(&t, &copy_text(&t)));
    assert!(!same_text(&t, &chars_of("dir/file.txT")));
    assert!(!same_text(&t, &chars_of("dir")));
    assert_eq!(copy_bytes(&vec![1, 2, 3]), vec![1, 2, 3]);
    assert!(same_bytes(&vec![1, 2], &vec![1, 2]));
    assert!(!same_bytes(&vec![1, 2], &vec![1, 3]));
    assert!(!same_bytes(&vec![1, 2], &vec![1]));
}
