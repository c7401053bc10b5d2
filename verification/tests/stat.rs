use mac_file_analyzer::stat::{
    stat_from_attrs, stat_from_raw, FileStat, InodeKey, InodeSet, RawStat, ASKED_COMMON,
    ASKED_FILE, ATTR_FILE_LINKCOUNT, ATTR_REPLY_LEN, NEEDED_COMMON, NEEDED_FILE, S_IFDIR,
    S_IFLNK, S_IFREG, VDIR, VLNK, VREG,
};

fn raw(mode: u32, size: i64, blocks: i64) -> RawStat {
    RawStat { st_dev: 16777220, st_ino: 42, st_mode: mode, st_nlink: 1, st_size: size, st_blocks: blocks }
}

fn lstat(st: RawStat) -> FileStat {
    stat_from_raw(&st)
}

/// A reply with the given attributes returned, and room for all that are asked for.
fn reply_with(common: u32, file: u32, kind: u32, nlink: u32, len: i64, alloc: i64, rsrc: i64) -> Vec<u8> {
    let mut b = Vec::new();
    b.extend_from_slice(&68u32.to_le_bytes());
    for attrs in [common, 0, 0, file, 0] {
        b.extend_from_slice(&attrs.to_le_bytes());
    }
    b.extend_from_slice(&16777220i32.to_le_bytes());
    b.extend_from_slice(&kind.to_le_bytes());
    b.extend_from_slice(&42u64.to_le_bytes());
    b.extend_from_slice(&nlink.to_le_bytes());
    b.extend_from_slice(&len.to_le_bytes());
    b.extend_from_slice(&alloc.to_le_bytes());
    b.extend_from_slice(&rsrc.to_le_bytes());
    b
}

fn reply(kind: u32, nlink: u32, len: i64, alloc: i64, rsrc: i64) -> Vec<u8> {
    reply_with(ASKED_COMMON, ASKED_FILE, kind, nlink, len, alloc, rsrc)
}

fn getattrlist_stat(b: Vec<u8>) -> FileStat {
    stat_from_attrs(0, &b).unwrap()
}

#[test]
fn regular_file_sizes() {
    let st = lstat(raw(S_IFREG | 0o644, 11, 8));
    assert_eq!(st.apparent_size, 11);
    assert!(st.disk_usage > 0);
    assert!(!st.is_dir);
    assert!(!st.is_symlink);
}

#[test]
fn directory_stat() {
    let st = lstat(raw(S_IFDIR | 0o755, 64, 0));
    assert!(st.is_dir);
    assert!(!st.is_symlink);
}

#[test]
fn symlink_is_not_followed_by_lstat() {
    let st = lstat(raw(S_IFLNK | 0o755, 24, 0));
    assert!(st.is_symlink);
    // Symlink apparent size = length of the target path string, not target content.
    assert_ne!(st.apparent_size, 12);
}

#[test]
fn hardlink_same_inode() {
    let mut record = raw(S_IFREG, 4, 8);
    record.st_nlink = 2;
    let st_orig = lstat(record);
    let st_hard = lstat(record);
    assert_eq!(st_orig.inode, st_hard.inode);
    assert_eq!(st_orig.nlink, 2);
    assert_eq!(st_hard.nlink, 2);
}

#[test]
fn regular_file_is_regular() {
    let st = lstat(raw(S_IFREG | 0o600, 8, 8));
    assert!(st.is_regular);
    assert!(!st.is_dir);
    assert!(!st.is_symlink);
}

#[test]
fn sparse_file_disk_vs_apparent() {
    let hole: u64 = 512 * 1024;
    let st = lstat(raw(S_IFREG, (hole + 1) as i64, 8));
    assert!(st.is_regular);
    // Apparent size is hole + 1 byte.
    assert_eq!(st.apparent_size, hole + 1);
    // disk_usage is st_blocks * 512, so always a multiple of 512.
    assert_eq!(st.disk_usage % 512, 0);
    assert!(st.disk_usage > 0);
}

#[test]
fn getattrlist_raw_layout_probe() {
    let raw = reply(VREG, 1, 1024, 4096, 0);
    assert_eq!(raw.len(), ATTR_REPLY_LEN);
    let gal = getattrlist_stat(raw);
    assert!(gal.is_regular, "obj_type should be VREG");
    assert_eq!(gal.nlink, 1, "newly created file should have nlink=1");
    assert_eq!(gal.apparent_size, 1024, "data_len should match write size");
    assert_eq!(gal.disk_usage, 4096);
    assert_eq!(gal.inode, InodeKey { dev: 16777220, ino: 42 });
}

#[test]
fn getattrlist_matches_lstat_for_regular_file() {
    let via_lstat = lstat(raw(S_IFREG, 1024, 8));
    let via_gal = getattrlist_stat(reply(VREG, 1, 1024, 4096, 0));

    assert_eq!(via_gal.apparent_size, via_lstat.apparent_size, "apparent_size mismatch");
    assert!(via_gal.disk_usage > 0, "disk_usage should be nonzero");
    assert!(via_gal.is_regular);
    assert!(!via_gal.is_dir);
    assert!(!via_gal.is_symlink);
    // Inode numbers must agree.
    assert_eq!(via_gal.inode.ino, via_lstat.inode.ino, "inode number mismatch");
    // nlink must agree.
    assert_eq!(via_gal.nlink, via_lstat.nlink, "nlink mismatch");
    // No resource fork on a plain file.
    assert_eq!(via_gal.rsrc_size, 0, "plain file should have no rsrc fork");
    assert_eq!(via_gal.inode, via_lstat.inode);
    assert_eq!(via_gal.disk_usage, via_lstat.disk_usage);
}

#[test]
fn getattrlist_detects_directory() {
    let st = getattrlist_stat(reply(VDIR, 2, 0, 0, 0));
    assert!(st.is_dir);
    assert!(!st.is_symlink);
    assert!(!st.is_regular);
}

#[test]
fn getattrlist_does_not_follow_symlink() {
    let st = getattrlist_stat(reply(VLNK, 1, 24, 0, 0));
    assert!(st.is_symlink, "should report symlink with FSOPT_NOFOLLOW");
}

#[test]
fn getattrlist_hardlink_same_inode() {
    let st_orig = getattrlist_stat(reply(VREG, 2, 7, 4096, 0));
    let st_hard = getattrlist_stat(reply(VREG, 2, 7, 4096, 0));
    assert_eq!(st_orig.inode.ino, st_hard.inode.ino, "inodes must match");
    assert_eq!(st_orig.nlink, 2);
    assert_eq!(st_hard.nlink, 2);
}

#[test]
fn raw_sizes_are_clamped() {
    let st = lstat(raw(S_IFREG, -5, 3));
    assert_eq!(st.apparent_size, 0);
    assert_eq!(st.disk_usage, 1536);
    // A negative block count has the bits of a huge one, and saturates.
    assert_eq!(lstat(raw(S_IFREG, 0, -1)).disk_usage, u64::MAX);
    assert_eq!(lstat(raw(S_IFREG, 0, i64::MAX)).disk_usage, u64::MAX);
    assert_eq!(lstat(raw(S_IFREG, 0, 1 << 54)).disk_usage, 1 << 63);
}

#[test]
fn raw_device_numbers_keep_their_bits() {
    let mut record = raw(S_IFREG, 0, 0);
    record.st_dev = -1;
    assert_eq!(lstat(record).inode.dev, u64::MAX);
    record.st_dev = i64::MIN;
    assert_eq!(lstat(record).inode.dev, 1 << 63);
    record.st_dev = 7;
    assert_eq!(lstat(record).inode.dev, 7);
}

#[test]
fn special_files_are_of_no_kind() {
    for mode in [0x1000u32, 0x2000, 0x6000, 0xc000] {
        let st = lstat(raw(mode | 0o666, 0, 0));
        assert!(!st.is_dir && !st.is_symlink && !st.is_regular);
    }
}

#[test]
fn failed_or_partial_replies_call_for_lstat() {
    assert!(stat_from_attrs(-1, &reply(VREG, 1, 1, 1, 0)).is_none());
    // Without the link count the fields behind it have moved.
    let partial = reply_with(ASKED_COMMON, NEEDED_FILE & !ATTR_FILE_LINKCOUNT, VREG, 1, 1, 1, 0);
    assert!(stat_from_attrs(0, &partial).is_none());
    let partial = reply_with(NEEDED_COMMON & !2, NEEDED_FILE, VREG, 1, 1, 1, 0);
    assert!(stat_from_attrs(0, &partial).is_none());
    // The resource fork may be missing.
    let no_fork = reply_with(NEEDED_COMMON, NEEDED_FILE, VREG, 1, 1, 1, 0);
    assert_eq!(stat_from_attrs(0, &no_fork).unwrap().rsrc_size, 0);
}

#[test]
fn attrs_with_negative_lengths_count_as_nothing() {
    let st = getattrlist_stat(reply(VREG, 1, -1, i64::MIN, -7));
    assert_eq!((st.apparent_size, st.disk_usage, st.rsrc_size), (0, 0, 0));
    let st = getattrlist_stat(reply(VREG, 1, i64::MAX, 1, 2));
    assert_eq!((st.apparent_size, st.disk_usage, st.rsrc_size), (i64::MAX as u64, 1, 2));
}

#[test]
fn attrs_widen_negative_devices() {
    let mut b = reply(VREG, 1, 1, 1, 0);
    b[24..28].copy_from_slice(&(-2i32).to_le_bytes());
    assert_eq!(getattrlist_stat(b).inode.dev, (-2i32) as u64);
}

#[test]
fn inode_set_takes_each_key_once() {
    let mut set = InodeSet::new();
    let a = InodeKey { dev: 1, ino: 2 };
    let b = InodeKey { dev: 2, ino: 1 };
    assert!(!set.contains(a));
    assert!(set.insert(a));
    assert!(!set.insert(a));
    assert!(set.contains(a));
    assert!(!set.contains(b));
    assert!(set.insert(b));
    assert!(set.insert(InodeKey { dev: u64::MAX, ino: u64::MAX }));
    assert!(!set.contains(InodeKey { dev: 0, ino: 0 }));
}
