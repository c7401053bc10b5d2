//! Walks over a disk that is held in memory.

use mac_file_analyzer::aggregator::{DirNode, EntryNode, SizeMode, SortOrder};
use mac_file_analyzer::path::PathBuf;
use mac_file_analyzer::scan::{DirScan, Noted};
use mac_file_analyzer::stat::{
    stat_from_attrs, stat_from_raw, FileStat, InodeSet, RawStat, NEEDED_COMMON, NEEDED_FILE,
    S_IFDIR, S_IFLNK, S_IFREG, VDIR, VLNK, VREG,
};
use mac_file_analyzer::traversal::{Asked, Walk};
use mac_file_analyzer::walker::{needs_target, WalkOptions};
use mac_file_analyzer::{formatter, output};

#[derive(Clone)]
enum Kind {
    Dir,
    File,
    Link(String),
    Pipe,
}

#[derive(Clone)]
struct Node {
    path: String,
    kind: Kind,
    ino: u64,
    size: i64,
    blocks: i64,
    fork: i64,
}

/// A small filesystem, scanned at `/scan`.
struct Disk {
    nodes: Vec<Node>,
    unreadable: Vec<String>,
}

impl Disk {
    fn new() -> Disk {
        let mut disk = Disk { nodes: Vec::new(), unreadable: Vec::new() };
        disk.dir_at("/scan");
        disk
    }

    fn put(&mut self, path: &str, kind: Kind, size: i64, blocks: i64) {
        let ino = 100 + self.nodes.len() as u64;
        self.nodes.push(Node { path: path.to_string(), kind, ino, size, blocks, fork: 0 });
    }

    fn dir_at(&mut self, path: &str) {
        self.put(path, Kind::Dir, 64, 0);
    }

    fn file_at(&mut self, path: &str, size: i64) {
        // Storage comes in pages of eight blocks.
        self.put(path, Kind::File, size, (size + 4095) / 4096 * 8);
    }

    fn dir(&mut self, path: &str) {
        self.dir_at(format!("/scan/{}", path).as_str());
    }

    fn file(&mut self, path: &str, size: i64) {
        self.file_at(format!("/scan/{}", path).as_str(), size);
    }

    fn sparse_file(&mut self, path: &str, size: i64, blocks: i64) {
        self.put(format!("/scan/{}", path).as_str(), Kind::File, size, blocks);
    }

    fn pipe(&mut self, path: &str) {
        self.put(format!("/scan/{}", path).as_str(), Kind::Pipe, 0, 0);
    }

    fn symlink(&mut self, target: &str, path: &str) {
        let kind = Kind::Link(target.to_string());
        self.put(format!("/scan/{}", path).as_str(), kind, target.len() as i64, 0);
    }

    fn hard_link(&mut self, from: &str, path: &str) {
        let mut node = self.find(format!("/scan/{}", from).as_str()).unwrap().clone();
        node.path = format!("/scan/{}", path);
        self.nodes.push(node);
    }

    fn fork(&mut self, path: &str, size: i64) {
        self.fork_at(format!("/scan/{}", path).as_str(), size);
    }

    fn fork_at(&mut self, full: &str, size: i64) {
        for node in self.nodes.iter_mut() {
            if node.path == full {
                node.fork = size;
            }
        }
    }

    /// The node at `path`, through symbolic links among its directories.
    fn find(&self, path: &str) -> Option<&Node> {
        let direct = self.nodes.iter().find(|n| n.path == path);
        if direct.is_some() {
            return direct;
        }
        for node in self.nodes.iter() {
            if let Kind::Link(target) = &node.kind {
                let dir = format!("{}/", node.path);
                if path.starts_with(dir.as_str()) {
                    return self.find(format!("{}/{}", target, &path[dir.len()..]).as_str());
                }
            }
        }
        None
    }

    fn real_path(&self, path: &str) -> Option<String> {
        let node = self.find(path)?;
        match &node.kind {
            Kind::Link(target) => self.real_path(target),
            _ => Some(node.path.clone()),
        }
    }

    fn list(&self, path: &PathBuf) -> Option<Vec<PathBuf>> {
        let shown = path.display();
        let real = self.real_path(shown.as_str())?;
        if self.unreadable.contains(&real) {
            return None;
        }
        let dir = format!("{}/", real);
        let mut entries = Vec::new();
        for node in self.nodes.iter() {
            if node.path.starts_with(dir.as_str()) && !node.path[dir.len()..].contains('/') {
                let name = &node.path[dir.len()..];
                entries.push(PathBuf::from(format!("{}/{}", shown, name).as_str()));
            }
        }
        Some(entries)
    }

    fn raw(&self, node: &Node) -> FileStat {
        let mode = match node.kind {
            Kind::Dir => S_IFDIR,
            Kind::File => S_IFREG,
            Kind::Link(_) => S_IFLNK,
            Kind::Pipe => 0x1000,
        };
        let nlink = self.nodes.iter().filter(|n| n.ino == node.ino).count() as u64;
        stat_from_raw(&RawStat {
            st_dev: 1,
            st_ino: node.ino,
            st_mode: mode | 0o644,
            st_nlink: nlink,
            st_size: node.size,
            st_blocks: node.blocks,
        })
    }

    fn lstat(&self, path: &PathBuf) -> Option<FileStat> {
        let node = self.find(path.display().as_str())?;
        Some(self.raw(node))
    }

    fn stat_follow(&self, path: &PathBuf) -> Option<FileStat> {
        let real = self.real_path(path.display().as_str())?;
        let node = self.find(real.as_str())?;
        Some(self.raw(node))
    }

    fn getattrlist(&self, path: &PathBuf) -> Option<FileStat> {
        let node = self.find(path.display().as_str())?;
        self.attributes(node)
    }

    fn getattrlist_follow(&self, path: &PathBuf) -> Option<FileStat> {
        let real = self.real_path(path.display().as_str())?;
        let node = self.find(real.as_str())?;
        self.attributes(node)
    }

    fn attributes(&self, node: &Node) -> Option<FileStat> {
        let kind = match node.kind {
            Kind::Dir => VDIR,
            Kind::File => VREG,
            Kind::Link(_) => VLNK,
            Kind::Pipe => 7,
        };
        let nlink = self.nodes.iter().filter(|n| n.ino == node.ino).count() as u32;
        stat_from_attrs(0, &reply(1, kind, node.ino, nlink, node.size, node.blocks * 512, node.fork))
    }
}

/// A reply of `getattrlist` with all attributes.
fn reply(dev: i32, kind: u32, ino: u64, nlink: u32, len: i64, alloc: i64, rsrc: i64) -> Vec<u8> {
    let mut b = Vec::new();
    b.extend_from_slice(&68u32.to_le_bytes());
    for attrs in [NEEDED_COMMON, 0, 0, NEEDED_FILE, 0] {
        b.extend_from_slice(&attrs.to_le_bytes());
    }
    b.extend_from_slice(&dev.to_le_bytes());
    b.extend_from_slice(&kind.to_le_bytes());
    b.extend_from_slice(&ino.to_le_bytes());
    b.extend_from_slice(&nlink.to_le_bytes());
    b.extend_from_slice(&len.to_le_bytes());
    b.extend_from_slice(&alloc.to_le_bytes());
    b.extend_from_slice(&rsrc.to_le_bytes());
    b
}

/// A walk of one thread; the paths counted, in order.
fn walk_noting(disk: &Disk, opts: &WalkOptions) -> (DirNode, Vec<String>) {
    enum Next {
        List(PathBuf),
        Stat(PathBuf),
        Follow(PathBuf),
        Done,
    }
    let mut walk = Walk::new(PathBuf::from("/scan"), opts.clone());
    let mut counted = Vec::new();
    loop {
        let next = match walk.asked() {
            Asked::List(path) => Next::List(path.clone()),
            Asked::Stat(path) => Next::Stat(path.clone()),
            Asked::Follow(path, _) => Next::Follow(path.clone()),
            Asked::Done(_) => Next::Done,
            Asked::Overflow => panic!("overflow"),
        };
        match next {
            Next::List(path) => {
                walk = walk.answer_list(disk.list(&path));
            }
            Next::Stat(path) => {
                let (w, noted) = walk.answer_stat(disk.lstat(&path));
                walk = w;
                if noted {
                    counted.push(path.display());
                }
            }
            Next::Follow(path) => {
                let (w, noted) = walk.answer_follow(disk.stat_follow(&path));
                walk = w;
                if noted {
                    counted.push(path.display());
                }
            }
            Next::Done => return (walk.into_tree(), counted),
        }
    }
}

fn walk(disk: &Disk, opts: &WalkOptions) -> DirNode {
    walk_noting(disk, opts).0
}

/// A walk in scans, the last directory put aside scanned first.
fn walk_in_scans(
    disk: &Disk,
    opts: &WalkOptions,
    path: PathBuf,
    depth: usize,
    seen: &mut InodeSet,
    bulk: bool,
) -> DirNode {
    let entries = disk.list(&path).unwrap_or_default();
    let mut scan = DirScan::new(path, depth);
    for child in entries {
        let st = if bulk { disk.getattrlist(&child) } else { disk.lstat(&child) };
        let st = match st {
            Some(st) => st,
            None => continue,
        };
        let target = if !needs_target(&st, opts) {
            None
        } else if bulk {
            disk.getattrlist_follow(&child)
        } else {
            disk.stat_follow(&child)
        };
        assert_ne!(scan.take(child, &st, &target, opts, seen), Noted::Overflow);
    }
    let mut below = Vec::new();
    for dir in scan.subdirs().iter().rev() {
        below.push(walk_in_scans(disk, opts, dir.clone(), depth + 1, seen, bulk));
    }
    below.reverse();
    scan.close(below).unwrap()
}

fn walk_parallel(disk: &Disk, opts: &WalkOptions) -> DirNode {
    walk_in_scans(disk, opts, PathBuf::from("/scan"), 0, &mut InodeSet::new(), false)
}

fn walk_parallel_getattrlist(disk: &Disk, opts: &WalkOptions) -> DirNode {
    walk_in_scans(disk, opts, PathBuf::from("/scan"), 0, &mut InodeSet::new(), true)
}

fn opts() -> WalkOptions {
    WalkOptions::default()
}

fn walk_seq(disk: &Disk) -> DirNode {
    walk(disk, &opts())
}

/// Three directories with files of different sizes and extensions.
fn build_mixed_tree() -> Disk {
    let mut tmp = Disk::new();
    for (dir_name, files) in [
        ("docs", vec![("guide.md", 2048), ("notes.txt", 512)]),
        ("src", vec![("main.rs", 4096), ("lib.rs", 1024)]),
        ("data", vec![("dump.csv", 8192), ("archive.tar", 65536)]),
    ] {
        tmp.dir(dir_name);
        for (filename, size) in files {
            tmp.file(format!("{}/{}", dir_name, filename).as_str(), size);
        }
    }
    tmp
}

#[test]
fn walk_empty_dir() {
    let tmp = Disk::new();
    let node = walk(&tmp, &WalkOptions::default());
    assert_eq!(node.total_size, 0);
    assert_eq!(node.file_count, 0);
}

#[test]
fn walk_single_file() {
    let mut tmp = Disk::new();
    tmp.file("file.txt", 11);
    let node = walk(&tmp, &WalkOptions {
            size_mode: SizeMode::Apparent,
            ..Default::default()
        });
    assert_eq!(node.total_size, 11);
    assert_eq!(node.file_count, 1);
}

#[test]
fn walker_hardlinks_counted_once() {
    let mut tmp = Disk::new();
    tmp.file("orig.txt", 14);
    tmp.hard_link("orig.txt", "hard.txt");

    let node = walk(&tmp, &WalkOptions {
            size_mode: SizeMode::Apparent,
            ..Default::default()
        });
    // Only one of the two hard links should be counted.
    assert_eq!(node.file_count, 1);
    assert_eq!(node.total_size, 14);
}

#[test]
fn symlinks_not_followed_by_default() {
    let mut tmp = Disk::new();
    // Write 1000 bytes into target.
    tmp.file("big.txt", 1000);
    tmp.symlink("/scan/big.txt", "link_to_big.txt");

    let node = walk(&tmp, &WalkOptions {
            size_mode: SizeMode::Apparent,
            ..Default::default()
        });
    // Only the real file should be counted, not the symlink.
    assert_eq!(node.file_count, 1);
    assert_eq!(node.total_size, 1000);
}

#[test]
fn nested_dirs_aggregate() {
    let mut tmp = Disk::new();
    tmp.dir("sub");
    tmp.file("a.txt", 100);
    tmp.file("sub/b.txt", 200);

    let node = walk(&tmp, &WalkOptions {
            size_mode: SizeMode::Apparent,
            ..Default::default()
        });
    assert_eq!(node.total_size, 300);
    assert_eq!(node.file_count, 2);
}

#[test]
fn max_depth_limits_walk() {
    let mut tmp = Disk::new();
    tmp.dir("sub");
    tmp.dir("sub/subsub");
    tmp.file("top.txt", 10);
    tmp.file("sub/mid.txt", 20);
    tmp.file("sub/subsub/deep.txt", 30);

    // depth=1: top.txt + sub/mid.txt counted; sub/subsub/ NOT descended.
    let node = walk(&tmp, &WalkOptions {
            size_mode: SizeMode::Apparent,
            max_depth: Some(1),
            ..Default::default()
        });
    assert_eq!(node.total_size, 30); // 10 + 20
    assert_eq!(node.file_count, 2);
}

#[test]
fn extension_filter() {
    let mut tmp = Disk::new();
    tmp.file("keep.rs", 50);
    tmp.file("skip.txt", 50);

    let node = walk(&tmp, &WalkOptions {
            size_mode: SizeMode::Apparent,
            filter_ext: Some("rs".into()),
            ..Default::default()
        });
    assert_eq!(node.file_count, 1);
    assert_eq!(node.total_size, 50);
}

#[test]
fn walker_parallel_walk_matches_sequential() {
    let mut tmp = Disk::new();
    tmp.dir("sub");
    tmp.file("a.txt", 100);
    tmp.file("sub/b.txt", 200);

    let opts = WalkOptions {
        size_mode: SizeMode::Apparent,
        ..Default::default()
    };
    let seq = walk(&tmp, &opts);
    let par = walk_parallel(&tmp, &opts);

    assert_eq!(par.total_size, seq.total_size);
    assert_eq!(par.file_count, seq.file_count);
}

#[test]
fn parallel_hardlinks_counted_once() {
    let mut tmp = Disk::new();
    tmp.file("orig.txt", 14);
    tmp.hard_link("orig.txt", "hard.txt");

    let node = walk_parallel(&tmp, &WalkOptions {
            size_mode: SizeMode::Apparent,
            ..Default::default()
        });
    assert_eq!(node.file_count, 1);
    assert_eq!(node.total_size, 14);
}

#[test]
fn parallel_max_depth() {
    let mut tmp = Disk::new();
    tmp.dir("sub");
    tmp.dir("sub/subsub");
    tmp.file("top.txt", 10);
    tmp.file("sub/mid.txt", 20);
    tmp.file("sub/subsub/deep.txt", 30);

    let node = walk_parallel(&tmp, &WalkOptions {
            size_mode: SizeMode::Apparent,
            max_depth: Some(1),
            ..Default::default()
        });
    assert_eq!(node.total_size, 30); // 10 + 20 only
    assert_eq!(node.file_count, 2);
}

/// Two hardlinks to the same inode must be counted as a single file.
#[test]
fn accuracy_tests_hardlinks_counted_once() {
    let mut tmp = Disk::new();
    tmp.file("real.dat", 4096);
    tmp.hard_link("real.dat", "link.dat");

    let node = walk_seq(&tmp);
    assert_eq!(node.file_count, 1, "hardlinked inode must be counted exactly once");
}

/// Three files where two share an inode (hardlinks) → file_count must equal 2.
#[test]
fn multiple_hardlinks_counted_correctly() {
    let mut tmp = Disk::new();
    tmp.file("a.dat", 1000);
    tmp.file("b.dat", 2000);
    tmp.hard_link("b.dat", "b_link.dat");

    let node = walk_seq(&tmp);
    assert_eq!(node.file_count, 2, "two distinct inodes → file_count = 2");
}

/// Total size with hardlinks must equal the size of the distinct inodes, not
/// the sum of all directory entries.
#[test]
fn hardlinks_total_size_is_not_doubled() {
    let mut tmp = Disk::new();
    tmp.file("f.dat", 8192);
    tmp.hard_link("f.dat", "f2.dat");

    let mut apparent_opts = opts();
    apparent_opts.size_mode = SizeMode::Apparent;
    let node = walk(&tmp, &apparent_opts);

    // Apparent size must be 8 192 B (not 16 384 B).
    assert_eq!(
        node.total_size, 8192,
        "apparent total must not double-count hardlinked bytes"
    );
}

/// Symlinks are skipped by default; the linked file must not be counted.
#[test]
fn symlink_not_followed_by_default() {
    // Target lives in a separate dir so the walker cannot reach it directly.
    let mut tmp = Disk::new();
    tmp.file_at("/target/big.dat", 8192);
    tmp.symlink("/target/big.dat", "link");

    let node = walk_seq(&tmp);
    assert_eq!(node.file_count, 0, "symlink must not be counted without --follow-symlinks");
    assert_eq!(node.total_size, 0);
}

/// With `--follow-symlinks`, the symlink target must be counted exactly once.
#[test]
fn symlink_followed_when_flag_set() {
    let mut tmp = Disk::new();
    tmp.file_at("/target/target.dat", 4096);
    tmp.symlink("/target/target.dat", "link");

    let mut follow_opts = opts();
    follow_opts.follow_symlinks = true;
    let node = walk(&tmp, &follow_opts);

    assert_eq!(node.file_count, 1, "symlink target must be counted with --follow-symlinks");
}

/// A symlink that points back to an ancestor directory must not cause an
/// infinite loop — the walker must terminate and count each real file once.
#[test]
fn symlink_cycle_does_not_loop() {
    let mut tmp = Disk::new();
    tmp.dir("sub");
    tmp.file("sub/real.dat", 512);
    // Create a cycle: sub/cycle → tmp (ancestor)
    tmp.symlink("/scan", "sub/cycle");

    let mut follow_opts = opts();
    follow_opts.follow_symlinks = true;

    let node = walk(&tmp, &follow_opts);
    // The real file inode must be counted exactly once.
    assert_eq!(node.file_count, 1, "cycle: real file must appear exactly once");
}

/// A sparse file has an apparent (logical) size larger than its disk usage.
#[test]
fn sparse_file_apparent_exceeds_disk_usage() {
    let mut tmp = Disk::new();
    // A 4 MiB file of which only the last block is allocated.
    tmp.sparse_file("sparse.dat", 4 * 1024 * 1024, 8);

    let mut disk_opts = opts();
    disk_opts.size_mode = SizeMode::DiskUsage;
    let disk_node = walk(&tmp, &disk_opts);

    let mut apparent_opts = opts();
    apparent_opts.size_mode = SizeMode::Apparent;
    let apparent_node = walk(&tmp, &apparent_opts);

    assert_eq!(
        apparent_node.total_size,
        4 * 1024 * 1024,
        "apparent size must equal the logical file length"
    );
    assert!(
        disk_node.total_size < apparent_node.total_size,
        "disk usage ({}) must be less than apparent size ({}) for a sparse file",
        disk_node.total_size,
        apparent_node.total_size
    );
}

/// Only files matching the requested extension should be counted.
#[test]
fn extension_filter_includes_only_matching_files() {
    let mut tmp = Disk::new();
    tmp.file("a.mp4", 2048);
    tmp.file("b.mp4", 1024);
    tmp.file("c.txt", 512);

    let mut ext_opts = opts();
    ext_opts.filter_ext = Some("mp4".to_string());
    let node = walk(&tmp, &ext_opts);

    assert_eq!(node.file_count, 2, "only .mp4 files should be counted");
    // .txt must not appear in children.
    let has_txt = node.children.iter().any(|e| {
        matches!(e, EntryNode::File(f) if f.path.display().ends_with(".txt"))
    });
    assert!(!has_txt, ".txt must be excluded when filter_ext = \"mp4\"");
}

/// Extension matching is case-insensitive.
#[test]
fn extension_filter_is_case_insensitive() {
    let mut tmp = Disk::new();
    tmp.file("video.MP4", 1024);
    tmp.file("clip.mp4", 1024);
    tmp.file("doc.txt", 256);

    let mut ext_opts = opts();
    ext_opts.filter_ext = Some("mp4".to_string());
    let node = walk(&tmp, &ext_opts);

    assert_eq!(node.file_count, 2, ".MP4 and .mp4 both match case-insensitive filter");
}

/// `max_depth = 0` must not descend into any subdirectory.
#[test]
fn depth_limit_zero_excludes_all_children() {
    let mut tmp = Disk::new();
    tmp.dir("sub");
    tmp.file("sub/deep.dat", 1024);

    let mut depth_opts = opts();
    depth_opts.max_depth = Some(0);
    let node = walk(&tmp, &depth_opts);

    assert_eq!(node.total_size, 0, "depth 0 must not descend into subdirectories");
    assert_eq!(node.file_count, 0);
}

/// `max_depth = 1` counts files in direct subdirectories but not deeper.
#[test]
fn depth_limit_one_includes_first_level_only() {
    let mut tmp = Disk::new();
    tmp.dir("sub");
    tmp.file("sub/level1.dat", 512);
    tmp.dir("sub/sub2");
    tmp.file("sub/sub2/level2.dat", 1024);

    let mut depth_opts = opts();
    depth_opts.max_depth = Some(1);
    let node = walk(&tmp, &depth_opts);

    // Only level1.dat (512 B) must be counted; level2.dat must be excluded.
    assert_eq!(node.file_count, 1, "depth 1 must include only first-level files");
}

/// The parallel (rayon) walker must produce identical totals to the sequential
/// walker for the same fixture.
#[test]
fn accuracy_tests_parallel_walk_matches_sequential() {
    let tmp = build_mixed_tree();
    let o = opts();
    let seq = walk(&tmp, &o);
    let par = walk_parallel(&tmp, &o);

    assert_eq!(seq.total_size, par.total_size, "total_size: seq == par");
    assert_eq!(seq.file_count, par.file_count, "file_count: seq == par");
}

/// The getattrlist-based parallel walker must produce identical totals to the
/// sequential walker for the same fixture.
#[test]
fn getattrlist_walk_matches_sequential() {
    let tmp = build_mixed_tree();
    let o = opts();
    let seq = walk(&tmp, &o);
    let geo = walk_parallel_getattrlist(&tmp, &o);

    assert_eq!(seq.total_size, geo.total_size, "total_size: seq == getattrlist");
    assert_eq!(seq.file_count, geo.file_count, "file_count: seq == getattrlist");
}

/// All three walkers agree on total_size and file_count.
#[test]
fn all_walkers_agree() {
    let tmp = build_mixed_tree();
    let o = opts();
    let seq = walk(&tmp, &o);
    let par = walk_parallel(&tmp, &o);
    let geo = walk_parallel_getattrlist(&tmp, &o);

    assert_eq!(seq.total_size, par.total_size);
    assert_eq!(seq.total_size, geo.total_size);
    assert_eq!(seq.file_count, par.file_count);
    assert_eq!(seq.file_count, geo.file_count);
}

/// Parallel walkers produce the same file_count as sequential when hardlinks
/// are present.
#[test]
fn parallel_walkers_deduplicate_hardlinks() {
    let mut tmp = Disk::new();
    tmp.file("orig.dat", 4096);
    for i in 0..4 {
        tmp.hard_link("orig.dat", format!("link{}.dat", i).as_str());
    }

    let o = opts();
    let seq = walk(&tmp, &o);
    let par = walk_parallel(&tmp, &o);
    let geo = walk_parallel_getattrlist(&tmp, &o);

    assert_eq!(seq.file_count, 1, "sequential: one unique inode");
    assert_eq!(par.file_count, 1, "parallel: one unique inode");
    assert_eq!(geo.file_count, 1, "getattrlist: one unique inode");
}

/// When resource forks are included, the walker must add their bytes to the
/// reported size. Only `getattrlist` reports them.
#[test]
fn resource_fork_increases_reported_size() {
    let mut tmp = Disk::new();
    tmp.file("fork_test.dat", 1024);
    tmp.fork("fork_test.dat", 2048);

    let node_no_rsrc = walk_parallel_getattrlist(&tmp, &opts());

    let mut rsrc_opts = opts();
    rsrc_opts.include_rsrc = true;
    let node_with_rsrc = walk_parallel_getattrlist(&tmp, &rsrc_opts);

    assert!(
        node_with_rsrc.total_size > node_no_rsrc.total_size,
        "--include-rsrc must add resource fork bytes: {} <= {}",
        node_with_rsrc.total_size,
        node_no_rsrc.total_size
    );
    assert_eq!(node_with_rsrc.total_size, node_no_rsrc.total_size + 2048);
}

/// `flat_sorted_with` with a `min_size` filter must exclude entries below the
/// threshold.
#[test]
fn min_size_filter_excludes_small_entries() {
    let mut tmp = Disk::new();
    tmp.file("big.dat", 65536);
    tmp.file("small.dat", 512);

    let mut apparent_opts = opts();
    apparent_opts.size_mode = SizeMode::Apparent;
    let node = walk(&tmp, &apparent_opts);

    let threshold: u64 = 10 * 1024; // 10 KiB
    let entries = node.flat_sorted_with(SortOrder::Size, Some(threshold));

    for (_, size) in &entries {
        assert!(
            *size >= threshold,
            "entry with size {} must not appear below min_size {}",
            size,
            threshold
        );
    }
}

/// `flat_sorted_with` with `SortOrder::Size` must return entries largest-first.
#[test]
fn flat_sorted_with_respects_size_order() {
    let tmp = build_mixed_tree();
    let mut apparent_opts = opts();
    apparent_opts.size_mode = SizeMode::Apparent;
    let node = walk(&tmp, &apparent_opts);

    let entries = node.flat_sorted_with(SortOrder::Size, None);
    for window in entries.windows(2) {
        assert!(window[0].1 >= window[1].1, "entries must be sorted largest-first");
    }
}

/// `by_extension_sorted` groups files by extension correctly.
#[test]
fn by_extension_groups_correctly() {
    let mut tmp = Disk::new();
    tmp.file("a.mp4", 3000);
    tmp.file("b.mp4", 1000);
    tmp.file("c.txt", 500);

    let mut apparent_opts = opts();
    apparent_opts.size_mode = SizeMode::Apparent;
    let node = walk(&tmp, &apparent_opts);
    let rows = node.by_extension_sorted(SortOrder::Size);

    let mp4 = rows.iter().find(|(e, _, _)| e == "mp4").expect("mp4 row must exist");
    let txt = rows.iter().find(|(e, _, _)| e == "txt").expect("txt row must exist");

    assert_eq!(mp4.2, 2, "two .mp4 files");
    assert_eq!(txt.2, 1, "one .txt file");
    // mp4 total (4000 B) is larger → must rank first.
    assert_eq!(rows[0].0, "mp4", "mp4 must rank first with SortOrder::Size");
}

/// Files with no extension must appear under the empty-string key (displayed as
/// `(no ext)` in the formatter — not as `.`).
#[test]
fn by_extension_no_ext_key() {
    let mut tmp = Disk::new();
    tmp.file("Makefile", 256);
    tmp.file("README", 128);
    tmp.file("script.sh", 64);

    let mut apparent_opts = opts();
    apparent_opts.size_mode = SizeMode::Apparent;
    let node = walk(&tmp, &apparent_opts);
    let rows = node.by_extension_sorted(SortOrder::Name);

    let no_ext = rows.iter().find(|(e, _, _)| e.is_empty());
    assert!(no_ext.is_some(), "extension-less files must appear under empty-string key");
    assert_eq!(no_ext.unwrap().2, 2, "Makefile + README → count = 2");
}

/// JSON flat output must be syntactically valid JSON.
#[test]
fn json_flat_output_is_valid_json() {
    let tmp = build_mixed_tree();
    let node = walk_seq(&tmp);
    let json_str = output::json::render_json(&node, Some(20), SortOrder::Size, None);
    let parsed: Result<serde_json::Value, _> = serde_json::from_str(&json_str);
    assert!(parsed.is_ok(), "flat JSON must be valid: {:?}", parsed.err());
}

/// JSON flat output must contain the expected keys.
#[test]
fn json_flat_output_has_expected_keys() {
    let tmp = build_mixed_tree();
    let node = walk_seq(&tmp);
    let json_str = output::json::render_json(&node, Some(20), SortOrder::Size, None);
    let v: serde_json::Value = serde_json::from_str(&json_str).unwrap();
    let arr = v.as_array().expect("top-level must be a JSON array");
    assert!(!arr.is_empty(), "JSON array must not be empty");
    let item = &arr[0];
    assert!(item.get("path").is_some(),  "item must have 'path' key");
    assert!(item.get("bytes").is_some(), "item must have 'bytes' key");
    assert!(item.get("human").is_some(), "item must have 'human' key");
}

/// JSON by-ext output must be valid JSON with the expected keys.
#[test]
fn json_by_ext_output_is_valid_json() {
    let mut tmp = Disk::new();
    tmp.file("a.rs", 200);
    tmp.file("b.rs", 100);
    let node = walk_seq(&tmp);
    let json_str = output::json::render_json_by_ext(&node, SortOrder::Size);
    let v: serde_json::Value = serde_json::from_str(&json_str).expect("must be valid JSON");
    let arr = v.as_array().expect("must be array");
    assert!(!arr.is_empty());
    let item = &arr[0];
    assert!(item.get("extension").is_some(), "item must have 'extension' key");
    assert!(item.get("bytes").is_some(),     "item must have 'bytes' key");
    assert!(item.get("file_count").is_some(),"item must have 'file_count' key");
}

/// CSV flat output must have a header row and at least one data row.
#[test]
fn csv_flat_output_has_header_and_data() {
    let tmp = build_mixed_tree();
    let node = walk_seq(&tmp);
    let csv_str = output::csv::render_csv(&node, Some(20), SortOrder::Size, None);
    let mut lines = csv_str.lines();
    let header = lines.next().expect("CSV must have a header line");
    assert!(header.contains("path"),  "header must contain 'path'");
    assert!(header.contains("bytes"), "header must contain 'bytes'");
    assert!(lines.next().is_some(),   "CSV must have at least one data row");
}

/// CSV by-ext output must have the expected header columns.
#[test]
fn csv_by_ext_output_has_correct_header() {
    let mut tmp = Disk::new();
    tmp.file("a.rs", 100);
    let node = walk_seq(&tmp);
    let csv_str = output::csv::render_csv_by_ext(&node, SortOrder::Size);
    let header = csv_str.lines().next().expect("must have a header line");
    assert!(header.contains("extension"), "header must contain 'extension'");
    assert!(header.contains("bytes"),     "header must contain 'bytes'");
    assert!(header.contains("file_count"),"header must contain 'file_count'");
}

/// Tree output must be non-empty and contain the root path.
#[test]
fn tree_output_contains_root_path() {
    let tmp = build_mixed_tree();
    let node = walk_seq(&tmp);
    let tree_str = formatter::render_tree(&node, None, SortOrder::Size);
    assert!(!tree_str.is_empty(), "tree output must not be empty");
    assert!(
        tree_str.contains("/scan"),
        "tree output must include the root path"
    );
}

/// `render_tree` must not exceed `max_depth` levels.
#[test]
fn tree_output_respects_max_depth() {
    let mut tmp = Disk::new();
    tmp.dir("sub");
    tmp.dir("sub/sub2");
    tmp.file("sub/level1.dat", 512);
    tmp.file("sub/sub2/level2.dat", 256);

    let node = walk_seq(&tmp);
    // Render with depth = 1: sub/ is visible but sub/sub2/ and its contents
    // should not appear.
    let tree_str = formatter::render_tree(&node, Some(1), SortOrder::Size);
    assert!(
        !tree_str.contains("level2.dat"),
        "depth=1 tree must not render files at depth 2"
    );
}

/// Flat output entries must appear in descending size order.
#[test]
fn flat_output_is_size_descending() {
    let tmp = build_mixed_tree();
    let mut apparent_opts = opts();
    apparent_opts.size_mode = SizeMode::Apparent;
    let node = walk(&tmp, &apparent_opts);

    let entries = node.flat_sorted_with(SortOrder::Size, None);
    for window in entries.windows(2) {
        assert!(
            window[0].1 >= window[1].1,
            "flat entries must be ordered largest first: {} < {}",
            window[0].1,
            window[1].1
        );
    }
}

/// `render_by_extension` must not prefix extension-less files with a dot.
#[test]
fn by_extension_render_no_dot_prefix_for_no_ext() {
    let mut tmp = Disk::new();
    tmp.file("Makefile", 300);
    tmp.file("a.rs", 100);

    let mut apparent_opts = opts();
    apparent_opts.size_mode = SizeMode::Apparent;
    let node = walk(&tmp, &apparent_opts);
    let rendered = formatter::render_by_extension(&node, SortOrder::Size);

    // Extension-less display must use "(no ext)", not "."
    assert!(
        rendered.contains("(no ext)"),
        "extension-less files must display as '(no ext)'"
    );
    // Must NOT appear as a bare "." entry
    assert!(
        !rendered.lines().any(|l| l.trim_start().starts_with(". ")),
        "extension-less files must not be prefixed with a bare '.'"
    );
}

/// `filter_ext` + `max_depth` combined: only matching-extension files within
/// the depth limit must be counted.
#[test]
fn combo_type_filter_and_max_depth() {
    let mut tmp = Disk::new();
    // Depth 0 (root): root.rs → counted, root.txt → not counted (wrong ext).
    tmp.file("root.rs", 100);
    tmp.file("root.txt", 200);
    // Depth 1 (sub/): sub.rs → counted, sub.txt → not counted (wrong ext).
    tmp.dir("sub");
    tmp.file("sub/sub.rs", 300);
    tmp.file("sub/sub.txt", 400);
    // Depth 2 (sub/deep/): deep.rs → excluded by max_depth=1.
    tmp.dir("sub/deep");
    tmp.file("sub/deep/deep.rs", 500);

    let combo_opts = WalkOptions {
        size_mode: SizeMode::Apparent,
        filter_ext: Some("rs".to_string()),
        max_depth: Some(1),
        ..WalkOptions::default()
    };
    let node = walk(&tmp, &combo_opts);

    assert_eq!(
        node.file_count, 2,
        "only root.rs and sub/sub.rs must be counted; deep.rs is below max_depth, .txt files excluded"
    );
    assert_eq!(node.total_size, 400, "100 (root.rs) + 300 (sub.rs) = 400 B");
}

/// `follow_symlinks` + `max_depth` combined: a symlink to a directory at depth
/// 0 resolves like a real directory; depth counting still applies.
#[test]
fn combo_follow_symlinks_and_max_depth() {
    let mut tmp = Disk::new();
    tmp.dir_at("/target");
    tmp.file_at("/target/buried.dat", 1024);

    // Place a symlink to the target at the root of the scan (depth 0).
    tmp.symlink("/target", "link_dir");

    // With follow_symlinks=true and max_depth=1: the symlink resolves at depth
    // 0 and we descend into it (depth 1 from the walker's perspective when
    // entering link_dir).  buried.dat is at depth 1 → counted.
    let follow_opts = WalkOptions {
        size_mode: SizeMode::Apparent,
        follow_symlinks: true,
        max_depth: Some(1),
        ..WalkOptions::default()
    };
    let node = walk(&tmp, &follow_opts);

    assert_eq!(node.file_count, 1, "symlink target's file must be reachable via follow_symlinks");
    assert_eq!(node.total_size, 1024);
}

/// `apparent` size mode + `include_rsrc` flag for the getattrlist walker:
/// a plain file without a resource fork must report identical totals regardless
/// of `include_rsrc`, because rsrc_size is 0 for such files.
#[test]
fn combo_apparent_and_include_rsrc_plain_file() {
    let mut tmp = Disk::new();
    tmp.file("plain.bin", 512);

    let base_opts = WalkOptions {
        size_mode: SizeMode::Apparent,
        include_rsrc: false,
        ..WalkOptions::default()
    };
    let rsrc_opts = WalkOptions {
        size_mode: SizeMode::Apparent,
        include_rsrc: true,
        ..WalkOptions::default()
    };

    let base_node = walk_parallel_getattrlist(&tmp, &base_opts);
    let rsrc_node = walk_parallel_getattrlist(&tmp, &rsrc_opts);

    assert_eq!(
        base_node.total_size, rsrc_node.total_size,
        "a plain file with rsrc_size=0 must report the same total regardless of include_rsrc"
    );
    assert_eq!(base_node.file_count, rsrc_node.file_count);
}

/// `filter_ext` case-insensitivity with parallel walker: both walkers must
/// count the same files when an extension filter is applied.
#[test]
fn combo_case_insensitive_ext_all_walkers_agree() {
    let mut tmp = Disk::new();
    tmp.file("video.MP4", 4096);
    tmp.file("clip.mp4", 2048);
    tmp.file("doc.txt", 1024);

    let ext_opts = WalkOptions {
        size_mode: SizeMode::Apparent,
        filter_ext: Some("mp4".to_string()),
        ..WalkOptions::default()
    };

    let seq = walk(&tmp, &ext_opts);
    let par = walk_parallel(&tmp, &ext_opts);
    let geo = walk_parallel_getattrlist(&tmp, &ext_opts);

    assert_eq!(seq.file_count, 2, "sequential: both .mp4 and .MP4 must match");
    assert_eq!(par.file_count, 2, "parallel: both .mp4 and .MP4 must match");
    assert_eq!(geo.file_count, 2, "getattrlist: both .mp4 and .MP4 must match");
    assert_eq!(seq.total_size, par.total_size);
    assert_eq!(seq.total_size, geo.total_size);
}

/// `dirs_sorted_with` must return only subdirectories, never the scan root,
/// and never plain files.
#[test]
fn dirs_sorted_with_returns_only_subdirs() {
    let mut tmp = Disk::new();
    tmp.dir("subA");
    tmp.dir("subB");
    tmp.file("subA/file.bin", 1024);
    tmp.file("subB/file.bin", 2048);
    tmp.file("root_file.bin", 512);

    let opts = WalkOptions { size_mode: SizeMode::Apparent, ..WalkOptions::default() };
    let node = walk(&tmp, &opts);

    let dirs = node.dirs_sorted_with(SortOrder::Size, None);
    assert_eq!(dirs.len(), 2, "exactly 2 subdirectories, not root and not files");
    // Largest first: subB (2048), subA (1024)
    assert_eq!(dirs[0].1, 2048, "subB must be first (largest)");
    assert_eq!(dirs[1].1, 1024, "subA must be second");
    // Scan root must not appear
    assert!(
        !dirs.iter().any(|(p, _)| *p == PathBuf::from("/scan").as_path()),
        "scan root must not appear in dirs_sorted_with output"
    );
}

/// Nested directories: `dirs_sorted_with` must recurse and collect all levels.
#[test]
fn dirs_sorted_with_collects_nested_dirs_recursively() {
    let mut tmp = Disk::new();
    tmp.dir("outer");
    tmp.dir("outer/inner");
    tmp.file("outer/file.bin", 2048);
    tmp.file("outer/inner/file.bin", 1024);

    let opts = WalkOptions { size_mode: SizeMode::Apparent, ..WalkOptions::default() };
    let node = walk(&tmp, &opts);

    let dirs = node.dirs_sorted_with(SortOrder::Size, None);
    assert_eq!(dirs.len(), 2, "outer and inner must both be collected");
    assert_eq!(dirs[0].1, 3072, "outer's total (2048 + 1024) must be largest");
    assert_eq!(dirs[1].1, 1024, "inner must be second");
}

/// `dirs_sorted_with` with `min_size` only keeps directories above the threshold.
#[test]
fn dirs_sorted_with_min_size_filters_small_dirs() {
    let mut tmp = Disk::new();
    tmp.dir("big");
    tmp.dir("small");
    tmp.file("big/file.bin", 4096);
    tmp.file("small/file.bin", 100);

    let opts = WalkOptions { size_mode: SizeMode::Apparent, ..WalkOptions::default() };
    let node = walk(&tmp, &opts);
    let dirs = node.dirs_sorted_with(SortOrder::Size, Some(1000));

    assert_eq!(dirs.len(), 1, "only 'big' survives min_size=1000");
    assert_eq!(dirs[0].1, 4096);
}

/// A directory that contains only files (no subdirs) must give an empty result.
#[test]
fn dirs_sorted_with_no_subdirs_is_empty() {
    let mut tmp = Disk::new();
    tmp.file("file.txt", 11);

    let opts = WalkOptions { size_mode: SizeMode::Apparent, ..WalkOptions::default() };
    let node = walk(&tmp, &opts);

    assert!(
        node.dirs_sorted_with(SortOrder::Size, None).is_empty(),
        "no subdirectories must yield an empty dir list"
    );
}

/// An entirely empty directory must also give an empty result (no panic).
#[test]
fn dirs_sorted_with_empty_dir_does_not_crash() {
    let tmp = Disk::new();

    let opts = WalkOptions { size_mode: SizeMode::Apparent, ..WalkOptions::default() };
    let node = walk(&tmp, &opts);

    assert!(node.dirs_sorted_with(SortOrder::Size, None).is_empty());
}

/// `SortOrder::Name` must produce alphabetically sorted paths.
#[test]
fn dirs_sorted_with_name_order_is_alphabetical() {
    let mut tmp = Disk::new();
    for name in &["charlie", "alpha", "bravo"] {
        tmp.dir(name);
        tmp.file(format!("{}/f.bin", name).as_str(), 1);
    }

    let opts = WalkOptions { size_mode: SizeMode::Apparent, ..WalkOptions::default() };
    let node = walk(&tmp, &opts);
    let dirs = node.dirs_sorted_with(SortOrder::Name, None);

    let paths: Vec<String> = dirs.iter().map(|(p, _)| p.display().to_string()).collect();
    let mut sorted = paths.clone();
    sorted.sort();
    assert_eq!(paths, sorted, "dirs_sorted_with SortOrder::Name must be alphabetical");
}

/// `dirs_sorted_with` with `min_size=0` must behave identically to `None`.
#[test]
fn dirs_sorted_with_min_size_zero_passes_all() {
    let mut tmp = Disk::new();
    for name in &["a", "b"] {
        tmp.dir(name);
        tmp.file(format!("{}/f.bin", name).as_str(), 1);
    }

    let opts = WalkOptions { size_mode: SizeMode::Apparent, ..WalkOptions::default() };
    let node = walk(&tmp, &opts);

    assert_eq!(
        node.dirs_sorted_with(SortOrder::Size, Some(0)).len(),
        node.dirs_sorted_with(SortOrder::Size, None).len(),
        "min_size=0 must not filter anything"
    );
}

/// All three walkers must agree on `dirs_sorted_with` totals.
#[test]
fn dirs_sorted_with_all_walkers_agree() {
    let mut tmp = Disk::new();
    tmp.dir("sub");
    tmp.file("sub/file.bin", 8192);

    let opts = WalkOptions { size_mode: SizeMode::Apparent, ..WalkOptions::default() };
    let seq = walk(&tmp, &opts);
    let par = walk_parallel(&tmp, &opts);
    let geo = walk_parallel_getattrlist(&tmp, &opts);

    let seq_dirs = seq.dirs_sorted_with(SortOrder::Size, None);
    let par_dirs = par.dirs_sorted_with(SortOrder::Size, None);
    let geo_dirs = geo.dirs_sorted_with(SortOrder::Size, None);

    assert_eq!(seq_dirs.len(), par_dirs.len(), "seq and par must find the same number of dirs");
    assert_eq!(seq_dirs.len(), geo_dirs.len(), "seq and geo must find the same number of dirs");
    assert_eq!(seq_dirs[0].1, par_dirs[0].1, "seq and par total must agree");
    assert_eq!(seq_dirs[0].1, geo_dirs[0].1, "seq and geo total must agree");
}

#[test]
fn unreadable_directories_are_empty_and_the_walk_goes_on() {
    let mut tmp = Disk::new();
    tmp.dir("locked");
    tmp.file("locked/secret.txt", 100);
    tmp.file("open.txt", 7);
    tmp.unreadable.push("/scan/locked".to_string());
    let o = WalkOptions { size_mode: SizeMode::Apparent, ..WalkOptions::default() };
    for node in [walk(&tmp, &o), walk_parallel(&tmp, &o), walk_parallel_getattrlist(&tmp, &o)] {
        assert_eq!(node.total_size, 7);
        assert_eq!(node.file_count, 1);
        assert_eq!(node.dirs_sorted_with(SortOrder::Size, None).len(), 1);
    }
}

#[test]
fn pipes_are_passed_over_and_so_are_links_to_them() {
    let mut tmp = Disk::new();
    tmp.pipe("fifo");
    tmp.symlink("/scan/fifo", "to_fifo");
    tmp.symlink("/nowhere", "broken");
    tmp.file("real", 3);
    let o = WalkOptions {
        size_mode: SizeMode::Apparent,
        follow_symlinks: true,
        ..WalkOptions::default()
    };
    for node in [walk(&tmp, &o), walk_parallel(&tmp, &o), walk_parallel_getattrlist(&tmp, &o)] {
        assert_eq!((node.total_size, node.file_count), (3, 1));
    }
}

#[test]
fn followed_links_are_held_to_the_extension() {
    let mut tmp = Disk::new();
    tmp.file_at("/target/a.mp4", 10);
    tmp.file_at("/target/b.txt", 20);
    tmp.symlink("/target/a.mp4", "one.mp4");
    tmp.symlink("/target/b.txt", "two.txt");
    let o = WalkOptions {
        size_mode: SizeMode::Apparent,
        follow_symlinks: true,
        filter_ext: Some("mp4".to_string()),
        ..WalkOptions::default()
    };
    for node in [walk(&tmp, &o), walk_parallel(&tmp, &o), walk_parallel_getattrlist(&tmp, &o)] {
        assert_eq!((node.total_size, node.file_count), (10, 1));
    }
}

#[test]
fn forks_are_those_that_the_system_reports() {
    let mut tmp = Disk::new();
    tmp.file("plain", 10);
    tmp.fork("plain", 5);
    tmp.file_at("/target/x", 100);
    tmp.symlink("/target/x", "link");
    let o = WalkOptions {
        size_mode: SizeMode::Apparent,
        follow_symlinks: true,
        include_rsrc: true,
        ..WalkOptions::default()
    };
    assert_eq!(walk_parallel_getattrlist(&tmp, &o).total_size, 115);
    // Only getattrlist reports the fork.
    assert_eq!(walk(&tmp, &o).total_size, 110);
}

#[test]
fn followed_links_count_with_the_fork_of_their_target() {
    let mut tmp = Disk::new();
    tmp.file_at("/target/x", 1024);
    tmp.fork_at("/target/x", 2048);
    tmp.symlink("/target/x", "link");
    let with = WalkOptions {
        size_mode: SizeMode::Apparent,
        follow_symlinks: true,
        include_rsrc: true,
        ..WalkOptions::default()
    };
    let node = walk_parallel_getattrlist(&tmp, &with);
    assert_eq!((node.total_size, node.file_count), (3072, 1));
    let without = WalkOptions { include_rsrc: false, ..with };
    assert_eq!(walk_parallel_getattrlist(&tmp, &without).total_size, 1024);
}

#[test]
fn files_are_counted_in_the_order_of_the_listing() {
    let mut tmp = Disk::new();
    tmp.file("b", 1);
    tmp.dir("d");
    tmp.file("d/c", 2);
    tmp.file("a", 3);
    let (node, counted) = walk_noting(&tmp, &opts());
    assert_eq!(counted, vec!["/scan/b", "/scan/d/c", "/scan/a"]);
    assert_eq!(node.children.len(), 3);
    assert!(matches!(&node.children[1], EntryNode::Dir(d) if d.path.display() == "/scan/d"));
}

#[test]
fn scans_put_files_before_directories() {
    let mut tmp = Disk::new();
    tmp.dir("d");
    tmp.file("d/c", 2);
    tmp.file("a", 3);
    let node = walk_parallel(&tmp, &opts());
    assert!(matches!(&node.children[0], EntryNode::File(f) if f.path.display() == "/scan/a"));
    assert!(matches!(&node.children[1], EntryNode::Dir(d) if d.path.display() == "/scan/d"));
}

#[test]
fn walkers_agree_whatever_the_order() {
    let mut tmp = Disk::new();
    tmp.dir("x");
    tmp.dir("y");
    tmp.file("x/one", 1000);
    tmp.hard_link("x/one", "y/uno");
    tmp.hard_link("x/one", "zero");
    tmp.file("y/two", 200);
    tmp.symlink("/scan/y", "x/to_y");
    tmp.symlink("/scan", "y/up");
    let o = WalkOptions {
        size_mode: SizeMode::Apparent,
        follow_symlinks: true,
        ..WalkOptions::default()
    };
    for node in [walk(&tmp, &o), walk_parallel(&tmp, &o), walk_parallel_getattrlist(&tmp, &o)] {
        assert_eq!((node.total_size, node.file_count), (1200, 2));
    }
}

#[test]
fn hard_links_under_a_filter_count_by_the_name_that_is_wanted() {
    for (first, second) in [("a.txt", "b.mp4"), ("b.mp4", "a.txt")] {
        let mut tmp = Disk::new();
        tmp.file(first, 10);
        tmp.hard_link(first, second);
        tmp.hard_link(first, "c.mp4");
        let o = WalkOptions {
            size_mode: SizeMode::Apparent,
            filter_ext: Some("mp4".to_string()),
            ..WalkOptions::default()
        };
        let (node, counted) = walk_noting(&tmp, &o);
        assert_eq!((node.total_size, node.file_count), (10, 1));
        assert_eq!(counted, vec!["/scan/b.mp4"]);
        for node in [walk_parallel(&tmp, &o), walk_parallel_getattrlist(&tmp, &o)] {
            assert_eq!((node.total_size, node.file_count), (10, 1));
        }
    }
}

#[test]
fn links_with_another_extension_leave_their_target_to_be_counted() {
    let mut tmp = Disk::new();
    tmp.symlink("/scan/b.rs", "a.txt");
    tmp.file("b.rs", 10);
    let o = WalkOptions {
        size_mode: SizeMode::Apparent,
        follow_symlinks: true,
        filter_ext: Some("rs".to_string()),
        ..WalkOptions::default()
    };
    for node in [walk(&tmp, &o), walk_parallel(&tmp, &o), walk_parallel_getattrlist(&tmp, &o)] {
        assert_eq!((node.total_size, node.file_count), (10, 1));
    }
}

#[test]
fn links_to_one_directory_count_it_once_whichever_comes_first() {
    let mut tmp = Disk::new();
    tmp.dir_at("/ext");
    tmp.file_at("/ext/f.rs", 40);
    tmp.dir_at("/ext/deep");
    tmp.file_at("/ext/deep/g.rs", 2);
    tmp.file_at("/ext/deep/skip.txt", 100);
    tmp.dir("a");
    tmp.symlink("/ext", "a/one");
    tmp.dir("b");
    tmp.symlink("/ext/deep", "b/two");
    tmp.symlink("/ext", "three");
    let o = WalkOptions {
        size_mode: SizeMode::Apparent,
        follow_symlinks: true,
        filter_ext: Some("rs".to_string()),
        ..WalkOptions::default()
    };
    for node in [walk(&tmp, &o), walk_parallel(&tmp, &o), walk_parallel_getattrlist(&tmp, &o)] {
        assert_eq!((node.total_size, node.file_count), (42, 2));
    }
}

#[test]
fn followed_links_keep_the_depth_limit() {
    let mut tmp = Disk::new();
    tmp.dir("a");
    tmp.dir("a/b");
    tmp.symlink("/scan/a", "a/b/again");
    tmp.symlink("/scan", "a/top");
    tmp.file("a/b/f", 1);
    for limit in 0..6 {
        let o = WalkOptions {
            follow_symlinks: true,
            max_depth: Some(limit),
            ..WalkOptions::default()
        };
        for node in [walk(&tmp, &o), walk_parallel(&tmp, &o), walk_parallel_getattrlist(&tmp, &o)] {
            for (path, _) in node.dirs_sorted_with(SortOrder::Name, None) {
                assert!(path.display().matches('/').count() <= limit + 1);
            }
        }
    }
}

#[test]
fn links_chain_and_cycle_without_trapping_the_walk() {
    let mut tmp = Disk::new();
    tmp.dir("a");
    tmp.dir("a/b");
    tmp.file("a/b/f", 9);
    tmp.symlink("/scan/a", "a/b/back");
    tmp.symlink("/scan/a/b", "a/into");
    tmp.symlink("/scan", "a/b/top");
    let o = WalkOptions {
        size_mode: SizeMode::Apparent,
        follow_symlinks: true,
        ..WalkOptions::default()
    };
    for node in [walk(&tmp, &o), walk_parallel(&tmp, &o), walk_parallel_getattrlist(&tmp, &o)] {
        assert_eq!((node.total_size, node.file_count), (9, 1));
    }
}

#[test]
fn depth_limit_bounds_the_tree() {
    let mut tmp = Disk::new();
    tmp.dir("a");
    tmp.dir("a/b");
    tmp.dir("a/b/c");
    tmp.file("a/b/c/f", 1);
    for (limit, dirs) in [(0, 0), (1, 1), (2, 2), (3, 3), (4, 3)] {
        let o = WalkOptions { max_depth: Some(limit), ..WalkOptions::default() };
        assert_eq!(walk(&tmp, &o).dirs_sorted_with(SortOrder::Size, None).len(), dirs);
        assert_eq!(walk_parallel(&tmp, &o).dirs_sorted_with(SortOrder::Size, None).len(), dirs);
    }
}

#[test]
fn sizes_that_do_not_fit_are_reported() {
    let big = FileStat {
        apparent_size: u64::MAX,
        disk_usage: u64::MAX,
        rsrc_size: 0,
        inode: mac_file_analyzer::stat::InodeKey { dev: 1, ino: 1 },
        is_dir: false,
        is_symlink: false,
        is_regular: true,
        nlink: 1,
    };
    let mut other = big;
    other.inode.ino = 2;

    let names = vec![PathBuf::from("/scan/a"), PathBuf::from("/scan/b")];
    let walk = Walk::new(PathBuf::from("/scan"), opts()).answer_list(Some(names));
    let (walk, counted) = walk.answer_stat(Some(big));
    assert!(counted);
    let (walk, counted) = walk.answer_stat(Some(other));
    assert!(!counted);
    assert!(matches!(walk.asked(), Asked::Overflow));

    let mut seen = InodeSet::new();
    let mut scan = DirScan::new(PathBuf::from("/scan"), 0);
    assert_eq!(scan.take(PathBuf::from("/scan/a"), &big, &None, &opts(), &mut seen), Noted::Counted);
    assert_eq!(scan.take(PathBuf::from("/scan/b"), &other, &None, &opts(), &mut seen), Noted::Overflow);
    let mut below = DirNode::new(PathBuf::from("/scan/d"));
    below.add_file(PathBuf::from("/scan/d/x"), 1);
    assert!(scan.close(vec![below]).is_none());
}

#[test]
fn default_options() {
    let o = WalkOptions::default();
    assert_eq!(o.size_mode, SizeMode::DiskUsage);
    assert_eq!(o.max_depth, None);
    assert_eq!(o.filter_ext, None);
    assert!(!o.follow_symlinks && !o.include_rsrc && !o.quiet);
}
