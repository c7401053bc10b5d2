use mac_file_analyzer::aggregator::{DirNode, EntryNode, FileEntry, SizeMode, SortOrder};
use mac_file_analyzer::cli::{
    done_message, flag_conflict, progress_due, progress_message, render_report, stats_line,
    tree_note, truncate_path, walk_options, warning, OutputFormat, ReportOptions, Trouble,
};
use mac_file_analyzer::formatter::{
    render_by_extension, render_dirs_flat, render_flat, render_tree, top_len,
};
use mac_file_analyzer::output::csv::{csv_escape_path, render_csv, render_csv_by_ext, render_csv_dirs};
use mac_file_analyzer::output::json::{
    render_json, render_json_by_ext, render_json_dirs, text_or_empty_array,
};
use mac_file_analyzer::path::PathBuf;
use mac_file_analyzer::walker::WalkOptions;

fn file(path: &str, size: u64) -> EntryNode {
    EntryNode::File(FileEntry { path: PathBuf::from(path), size })
}

/// /r with b/ (inner/ with deep.RS and note, big.rs) and a.txt
fn tree() -> DirNode {
    let mut inner = DirNode::new(PathBuf::from("/r/b/inner"));
    inner.add_file(PathBuf::from("/r/b/inner/deep.RS"), 1024);
    inner.add_file(PathBuf::from("/r/b/inner/note"), 10);
    let mut b = DirNode::new(PathBuf::from("/r/b"));
    b.adopt(inner);
    b.add_file(PathBuf::from("/r/b/big.rs"), 5000);
    let mut root = DirNode::new(PathBuf::from("/r"));
    root.adopt(b);
    root.add_file(PathBuf::from("/r/a.txt"), 2048);
    root
}

fn options(format: OutputFormat) -> ReportOptions {
    ReportOptions {
        format,
        by_ext: false,
        dirs_only: false,
        depth: None,
        top: 20,
        sort: SortOrder::Size,
        min_size: None,
    }
}

#[test]
fn totals_roll_up() {
    let root = tree();
    assert_eq!(root.total_size, 8082);
    assert_eq!(root.file_count, 4);
    let sum: u64 = root.flat_sorted().iter().map(|e| e.1).sum();
    assert_eq!(sum, root.total_size);
    assert_eq!(root.flat_sorted().len() as u64, root.file_count);
    for (path, size) in root.dirs_sorted_with(SortOrder::Size, None) {
        let dir = format!("{}/", path.display());
        let below: u64 = root
            .flat_sorted()
            .iter()
            .filter(|e| e.0.display().starts_with(&dir))
            .map(|e| e.1)
            .sum();
        assert_eq!(size, below);
    }
}

#[test]
fn tree_view_is_drawn_exactly() {
    let expected = concat_lines(&[
        "   7.9 KiB  /r",
        "├──    5.9 KiB  b/",
        "│   ├──    4.9 KiB  big.rs",
        "│   └──    1.0 KiB  inner/",
        "│       ├──    1.0 KiB  deep.RS",
        "│       └──       10 B  note",
        "└──    2.0 KiB  a.txt",
    ]);
    assert_eq!(render_tree(&tree(), None, SortOrder::Size), expected);
    assert_eq!(render_tree(&tree(), Some(9), SortOrder::Size), expected);
}

fn concat_lines(lines: &[&str]) -> String {
    let mut out = String::new();
    for line in lines {
        out.push_str(line);
        out.push('\n');
    }
    out
}

#[test]
fn tree_view_shows_as_many_levels_as_asked() {
    let one = concat_lines(&["   7.9 KiB  /r", "├──    2.0 KiB  a.txt", "└──    5.9 KiB  b/"]);
    assert_eq!(render_tree(&tree(), Some(1), SortOrder::Name), one);
    assert_eq!(render_tree(&tree(), Some(0), SortOrder::Name), one);
    let two = concat_lines(&[
        "   7.9 KiB  /r",
        "├──    2.0 KiB  a.txt",
        "└──    5.9 KiB  b/",
        "    ├──    4.9 KiB  big.rs",
        "    └──    1.0 KiB  inner/",
    ]);
    assert_eq!(render_tree(&tree(), Some(2), SortOrder::Name), two);
}

#[test]
fn tree_view_names_entries_without_a_file_name_by_their_path() {
    let mut root = DirNode::new(PathBuf::from("/"));
    root.children.push(file("..", 1));
    assert_eq!(
        render_tree(&root, None, SortOrder::Size),
        concat_lines(&["       0 B  /", "└──        1 B  .."])
    );
}

#[test]
fn flat_view_is_written_exactly() {
    assert_eq!(
        render_flat(&tree(), Some(2), SortOrder::Size, None),
        "   4.9 KiB\t/r/b/big.rs\n   2.0 KiB\t/r/a.txt\n"
    );
    assert_eq!(
        render_flat(&tree(), None, SortOrder::Name, Some(1025)),
        "   2.0 KiB\t/r/a.txt\n   4.9 KiB\t/r/b/big.rs\n"
    );
    assert_eq!(
        render_dirs_flat(&tree(), None, SortOrder::Size, None),
        "   5.9 KiB\t/r/b\n   1.0 KiB\t/r/b/inner\n"
    );
}

#[test]
fn extension_view_is_written_exactly() {
    assert_eq!(
        render_by_extension(&tree(), SortOrder::Size),
        concat_lines(&[
            "   5.9 KiB         2 files  .rs",
            "   2.0 KiB         1 files  .txt",
            "      10 B         1 files  (no ext)",
        ])
    );
    assert_eq!(
        render_by_extension(&tree(), SortOrder::Name),
        concat_lines(&[
            "      10 B         1 files  (no ext)",
            "   5.9 KiB         2 files  .rs",
            "   2.0 KiB         1 files  .txt",
        ])
    );
}

#[test]
fn csv_is_written_exactly() {
    assert_eq!(
        render_csv(&tree(), Some(1), SortOrder::Size, None),
        "path,bytes,human_size\n\"/r/b/big.rs\",5000,4.9 KiB\n"
    );
    assert_eq!(
        render_csv_dirs(&tree(), None, SortOrder::Name, Some(2000)),
        "path,bytes,human_size\n\"/r/b\",6034,5.9 KiB\n"
    );
    assert_eq!(
        render_csv_by_ext(&tree(), SortOrder::Name),
        "extension,bytes,human_size,file_count\n\"\",10,10 B,1\n\"rs\",6024,5.9 KiB,2\n\"txt\",2048,2.0 KiB,1\n"
    );
}

#[test]
fn csv_fields_are_escaped() {
    assert_eq!(csv_escape_path(""), "");
    assert_eq!(csv_escape_path("plain"), "plain");
    assert_eq!(csv_escape_path("say \"hi\""), "say \"\"hi\"\"");
    assert_eq!(csv_escape_path("a\nb\r\nc"), "a\\nb\\r\\nc");
    for c in ["=", "+", "-", "@"] {
        assert_eq!(csv_escape_path(&format!("{}CMD()", c)), format!("\t{}CMD()", c));
    }
    assert_eq!(csv_escape_path("\"=1"), "\"\"=1");
}

/// Reads a quoted field: the field and what is behind it.
fn read_quoted(text: &str) -> (String, String) {
    let mut field = String::new();
    let mut rest = text.chars().skip(1).peekable();
    while let Some(c) = rest.next() {
        if c != '"' {
            field.push(c);
        } else if rest.peek() == Some(&'"') {
            rest.next();
            field.push('"');
        } else {
            break;
        }
    }
    (field, rest.collect())
}

#[test]
fn csv_fields_read_back() {
    for name in ["a", "\"", "\"\"x\"", "q\"\nr\"", "=1\"2", "", "ä,\"ö\""] {
        let (field, rest) = read_quoted(&format!("\"{}\",12", csv_escape_path(name)));
        let mut flat = name.replace('\n', "\\n").replace('\r', "\\r");
        if flat.starts_with('=') {
            flat.insert(0, '\t');
        }
        assert_eq!(field, flat);
        assert_eq!(rest, ",12");
    }
}

#[test]
fn csv_has_one_line_for_each_row() {
    let mut root = DirNode::new(PathBuf::from("/r"));
    root.add_file(PathBuf::from("/r/a\n\nb.x\ny"), 1);
    root.add_file(PathBuf::from("/r/\r.z"), 2);
    assert_eq!(render_csv(&root, None, SortOrder::Size, None).matches('\n').count(), 3);
    assert_eq!(render_csv_by_ext(&root, SortOrder::Size).matches('\n').count(), 3);
}

#[test]
fn json_holds_the_listed_entries() {
    let text = render_json(&tree(), Some(2), SortOrder::Size, None);
    assert_eq!(
        text,
        "[\n  {\n    \"bytes\": 5000,\n    \"human\": \"4.9 KiB\",\n    \"path\": \"/r/b/big.rs\"\n  },\n  {\n    \"bytes\": 2048,\n    \"human\": \"2.0 KiB\",\n    \"path\": \"/r/a.txt\"\n  }\n]"
    );
    assert_eq!(render_json(&tree(), Some(0), SortOrder::Size, None), "[]");
    let dirs: serde_json::Value =
        serde_json::from_str(&render_json_dirs(&tree(), None, SortOrder::Name, None)).unwrap();
    assert_eq!(dirs[0]["path"], "/r/b");
    assert_eq!(dirs[0]["bytes"], 6034u64);
    assert_eq!(dirs[1]["path"], "/r/b/inner");
    assert_eq!(dirs.as_array().unwrap().len(), 2);
    let exts: serde_json::Value =
        serde_json::from_str(&render_json_by_ext(&tree(), SortOrder::Size)).unwrap();
    assert_eq!(exts[0]["extension"], "rs");
    assert_eq!(exts[0]["human"], "5.9 KiB");
    assert_eq!(exts[0]["file_count"], 2u64);
    assert_eq!(exts[2]["extension"], "");
}

#[test]
fn failed_json_becomes_an_empty_array() {
    let error = serde_json::from_str::<serde_json::Value>("{").unwrap_err();
    assert_eq!(text_or_empty_array(Err(error)), "[]");
    assert_eq!(text_or_empty_array(Ok("[1]".to_string())), "[1]");
}

#[test]
fn reports_choose_their_view() {
    let root = tree();
    let size = SortOrder::Size;
    let o = options;
    assert_eq!(render_report(&root, &o(OutputFormat::Tree)), render_tree(&root, None, size));
    assert_eq!(render_report(&root, &o(OutputFormat::Flat)), render_flat(&root, Some(20), size, None));
    assert_eq!(render_report(&root, &o(OutputFormat::Json)), render_json(&root, Some(20), size, None));
    assert_eq!(render_report(&root, &o(OutputFormat::Csv)), render_csv(&root, Some(20), size, None));

    let dirs = |format: OutputFormat| ReportOptions { dirs_only: true, top: 1, ..options(format) };
    assert_eq!(render_report(&root, &dirs(OutputFormat::Tree)), render_tree(&root, None, size));
    assert_eq!(render_report(&root, &dirs(OutputFormat::Flat)), render_dirs_flat(&root, Some(1), size, None));
    assert_eq!(render_report(&root, &dirs(OutputFormat::Json)), render_json_dirs(&root, Some(1), size, None));
    assert_eq!(render_report(&root, &dirs(OutputFormat::Csv)), render_csv_dirs(&root, Some(1), size, None));

    let exts = |format: OutputFormat| ReportOptions { by_ext: true, ..options(format) };
    assert_eq!(render_report(&root, &exts(OutputFormat::Tree)), render_by_extension(&root, size));
    assert_eq!(render_report(&root, &exts(OutputFormat::Flat)), render_by_extension(&root, size));
    assert_eq!(render_report(&root, &exts(OutputFormat::Json)), render_json_by_ext(&root, size));
    assert_eq!(render_report(&root, &exts(OutputFormat::Csv)), render_csv_by_ext(&root, size));
}

#[test]
fn flags_that_exclude_each_other() {
    assert_eq!(
        flag_conflict(true, true),
        Some("--by-ext and --dirs-only cannot be used together".to_string())
    );
    assert_eq!(flag_conflict(true, false), None);
    assert_eq!(flag_conflict(false, true), None);
    assert_eq!(flag_conflict(false, false), None);
}

#[test]
fn tree_note_comes_with_directories_only() {
    let mut o = options(OutputFormat::Tree);
    assert_eq!(tree_note(&o), None);
    o.dirs_only = true;
    assert!(tree_note(&o).unwrap().starts_with("note: --dirs-only has no effect with --format tree;"));
    o.format = OutputFormat::Flat;
    assert_eq!(tree_note(&o), None);
}

#[test]
fn walk_options_come_from_the_flags() {
    let o = walk_options(true, Some(3), true, Some("MP4".to_string()), true, true);
    assert_eq!(o.size_mode, SizeMode::Apparent);
    assert_eq!(o.max_depth, Some(3));
    assert!(o.follow_symlinks && o.include_rsrc && o.quiet);
    assert_eq!(o.filter_ext, Some("mp4".to_string()));
    let o = walk_options(false, None, false, None, false, false);
    assert_eq!(o.size_mode, SizeMode::DiskUsage);
    assert_eq!(o.filter_ext, None);
}

#[test]
fn messages_are_written_exactly() {
    assert!(progress_due(0) && progress_due(32) && progress_due(64));
    assert!(!progress_due(1) && !progress_due(31) && !progress_due(33));
    assert_eq!(progress_message(41, &PathBuf::from("/a/b")), "42 files  /a/b");
    assert_eq!(done_message(&tree()), "4 files  7.9 KiB  done");
    assert_eq!(stats_line(&tree(), "1.25s"), "\n4 unique files  |  total 7.9 KiB  |  1.25s");
}

#[test]
fn warnings_are_left_out_on_demand() {
    let path = PathBuf::from("/x");
    let loud = WalkOptions::default();
    let quiet = WalkOptions { quiet: true, ..WalkOptions::default() };
    assert_eq!(
        warning(Trouble::ReadDir, &path, "denied", &loud),
        Some("warning: cannot read directory /x: denied".to_string())
    );
    assert_eq!(
        warning(Trouble::DirEntry, &path, "gone", &loud),
        Some("warning: directory entry error in /x: gone".to_string())
    );
    assert_eq!(
        warning(Trouble::Stat, &path, "gone", &loud),
        Some("warning: cannot stat /x: gone".to_string())
    );
    assert_eq!(
        warning(Trouble::Follow, &path, "loop", &loud),
        Some("warning: cannot follow symlink /x: loop".to_string())
    );
    assert_eq!(warning(Trouble::Stat, &path, "gone", &quiet), None);
}

#[test]
fn truncated_paths_count_characters() {
    // Five characters, six bytes.
    let p = PathBuf::from("/a/bä");
    assert_eq!(truncate_path(&p, 5), "/a/bä");
    assert_eq!(truncate_path(&p, 4), "…/a/bä");
    // Eight characters, eleven bytes.
    let p = PathBuf::from("/tmp/ééé");
    assert_eq!(truncate_path(&p, 8), "/tmp/ééé");
    assert_eq!(truncate_path(&p, 7), "…/tmp/ééé");
    assert_eq!(truncate_path(&PathBuf::from("/.."), 0), "…//");
    assert_eq!(truncate_path(&PathBuf::from("file"), 2), "…//file");
}

/// Whether `a` is what is left of `b` when some of its lines are struck out.
fn picked_from(a: &str, b: &str) -> bool {
    let mut rest = b.lines();
    a.lines().all(|line| rest.any(|other| other == line))
}

#[test]
fn fewer_levels_leave_lines_out() {
    let mut deep = DirNode::new(PathBuf::from("/r"));
    let mut a = DirNode::new(PathBuf::from("/r/a"));
    let mut b = DirNode::new(PathBuf::from("/r/a/b"));
    b.add_file(PathBuf::from("/r/a/b/f"), 30);
    a.adopt(b);
    a.add_file(PathBuf::from("/r/a/g"), 20);
    deep.adopt(a);
    deep.add_file(PathBuf::from("/r/h"), 10);
    for sort in [SortOrder::Size, SortOrder::Name] {
        let shown = |depth| render_tree(&deep, depth, sort);
        assert_eq!(shown(Some(0)), shown(Some(1)));
        assert_eq!(shown(Some(3)), shown(None));
        assert_eq!(shown(Some(7)), shown(None));
        let lengths: Vec<usize> = (1..4).map(|m| shown(Some(m)).lines().count()).collect();
        assert_eq!(lengths, vec![3, 5, 6]);
        for m in 0..4 {
            for k in m..5 {
                assert!(picked_from(&shown(Some(m)), &shown(Some(k))));
            }
            assert!(picked_from(&shown(Some(m)), &shown(None)));
        }
    }
}

#[test]
fn top_cuts_a_listing() {
    assert_eq!(top_len(5, None), 5);
    assert_eq!(top_len(5, Some(2)), 2);
    assert_eq!(top_len(5, Some(9)), 5);
    let root = tree();
    let all = root.flat_sorted();
    for shown in &all[..2] {
        for cut in &all[2..] {
            assert!(shown.1 >= cut.1);
        }
    }
}
