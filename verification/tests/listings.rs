use mac_file_analyzer::aggregator::{DirNode, SortOrder};
use mac_file_analyzer::order::{arrange, reversed, Standing};
use mac_file_analyzer::path::PathBuf;
use mac_file_analyzer::text::{
    chars_of, compare_text, decimal_text, push_right_aligned, text_of, to_ascii_lower,
};

fn root_with(files: &[(&str, u64)]) -> DirNode {
    let mut root = DirNode::new(PathBuf::from("/r"));
    for (path, size) in files {
        root.add_file(PathBuf::from(*path), *size);
    }
    root
}

#[test]
fn arranging_keeps_the_order_of_equals() {
    let paths: Vec<PathBuf> = (0..40).map(|i| PathBuf::from(format!("p{}", i).as_str())).collect();
    let items: Vec<(&PathBuf, u64)> = paths.iter().enumerate().map(|(i, p)| (p, (i * 7 % 5) as u64)).collect();
    let sorted = arrange(&items, SortOrder::Size);
    let mut expected = items.clone();
    expected.sort_by(|a, b| b.1.cmp(&a.1));
    assert_eq!(sorted.len(), expected.len());
    for (s, e) in sorted.iter().zip(expected.iter()) {
        assert_eq!(s.1, e.1);
        assert_eq!(s.0.as_bytes(), e.0.as_bytes());
    }
}

#[test]
fn arranging_nothing_or_one_thing() {
    let none: Vec<(&PathBuf, u64)> = Vec::new();
    assert!(arrange(&none, SortOrder::Size).is_empty());
    let p = PathBuf::from("p");
    assert_eq!(arrange(&vec![(&p, 3u64)], SortOrder::Name).len(), 1);
}

#[test]
fn listings_by_name_follow_path_parts() {
    let root = root_with(&[("/r/a-b", 1), ("/r/a/z", 2), ("/r/a", 3), ("/r/A", 4)]);
    let names: Vec<String> =
        root.flat_sorted_with(SortOrder::Name, None).iter().map(|e| e.0.display()).collect();
    assert_eq!(names, vec!["/r/A", "/r/a", "/r/a/z", "/r/a-b"]);
}

#[test]
fn zero_limit_is_no_limit() {
    let root = root_with(&[("/r/a", 0), ("/r/b", 5)]);
    assert_eq!(root.flat_sorted_with(SortOrder::Size, Some(0)).len(), 2);
    assert_eq!(root.flat_sorted_with(SortOrder::Size, None).len(), 2);
    assert_eq!(root.flat_sorted_with(SortOrder::Size, Some(1)).len(), 1);
    assert_eq!(root.flat_sorted_with(SortOrder::Size, Some(6)).len(), 0);
}

#[test]
fn listings_hold_each_entry_as_often_as_found() {
    let root = root_with(&[("/r/a", 5), ("/r/a", 5), ("/r/b", 7)]);
    let sizes: Vec<u64> = root.flat_sorted().iter().map(|e| e.1).collect();
    assert_eq!(sizes, vec![7, 5, 5]);
}

#[test]
fn breakdown_rows_add_up() {
    let root = root_with(&[
        ("/r/a.RS", 1),
        ("/r/b.rs", 2),
        ("/r/c", 4),
        ("/r/.hidden", 8),
        ("/r/d.tar.gz", 16),
        ("/r/e.", 32),
    ]);
    let rows = root.by_extension_sorted(SortOrder::Name);
    let expected = vec![
        ("".to_string(), 44u64, 3u64),
        ("gz".to_string(), 16, 1),
        ("rs".to_string(), 3, 2),
    ];
    assert_eq!(rows, expected);
    assert_eq!(rows.iter().map(|r| r.1).sum::<u64>(), root.total_size);
    assert_eq!(rows.iter().map(|r| r.2).sum::<u64>(), root.file_count);
}

#[test]
fn breakdown_by_size_breaks_ties_alphabetically() {
    let root = root_with(&[("/r/a.z", 5), ("/r/b.m", 5), ("/r/c.a", 5), ("/r/d.q", 9)]);
    let exts: Vec<String> =
        root.by_extension_sorted(SortOrder::Size).into_iter().map(|r| r.0).collect();
    assert_eq!(exts, vec!["q", "a", "m", "z"]);
}

#[test]
fn extensions_that_are_not_text_count_as_none() {
    let mut root = DirNode::new(PathBuf::from("/r"));
    root.add_file(PathBuf::from_bytes(vec![b'a', b'.', 0xfe]), 3);
    assert_eq!(root.by_extension_sorted(SortOrder::Size), vec![("".to_string(), 3, 1)]);
}

#[test]
fn many_extensions_are_kept_apart() {
    let mut root = DirNode::new(PathBuf::from("/r"));
    for i in 0..200u64 {
        root.add_file(PathBuf::from(format!("/r/f.e{}", i * 37 % 50).as_str()), i);
    }
    let rows = root.by_extension_sorted(SortOrder::Name);
    assert_eq!(rows.len(), 50);
    assert!(rows.iter().all(|r| r.2 == 4));
    for pair in rows.windows(2) {
        assert!(pair[0].0 < pair[1].0);
    }
}

#[test]
fn text_helpers() {
    assert_eq!(decimal_text(0), "0");
    assert_eq!(decimal_text(9), "9");
    assert_eq!(decimal_text(10), "10");
    assert_eq!(decimal_text(u64::MAX), u64::MAX.to_string());
    assert_eq!(to_ascii_lower("AbZ[@ÄÖ"), "abz[@ÄÖ");
    assert_eq!(text_of(&chars_of("a…b")), "a…b");
    let mut out = String::from("|");
    push_right_aligned(&mut out, "ä", 3);
    push_right_aligned(&mut out, "long", 3);
    assert_eq!(out, "|  älong");
    assert_eq!(reversed(vec![1u8, 2, 3]), vec![3, 2, 1]);
}

#[test]
fn text_order_is_that_of_strings() {
    let words = ["", "a", "A", "ab", "b", "ä", "z", "\u{ffff}", "\u{10000}", "aa"];
    for a in words {
        for b in words {
            let expected = match a.cmp(b) {
                std::cmp::Ordering::Less => Standing::Before,
                std::cmp::Ordering::Equal => Standing::Same,
                std::cmp::Ordering::Greater => Standing::Behind,
            };
            assert_eq!(compare_text(a, b), expected);
        }
    }
}
