//! What a walk does with each entry that it meets.
//!
//! - Symbolic links are passed over, or followed where that is asked for.
//! - A file with several hard links is counted once, under the first of its names
//!   that has the extension asked for.
//! - Devices, pipes and sockets are passed over.

use crate::aggregator::{Entry, SizeMode};
use crate::path::PathBuf;
use crate::stat::{FileStat, InodeKey, InodeSet};
use crate::{aggregator, path};
use vstd::prelude::*;

verus! {

/// Options that control a walk.
#[derive(Debug, Clone)]
pub struct WalkOptions {
    pub size_mode: SizeMode,
    /// How deep directories are entered; none for no limit.
    pub max_depth: Option<usize>,
    /// Whether symbolic links are followed.
    pub follow_symlinks: bool,
    /// The only extension to count, in lower case.
    pub filter_ext: Option<String>,
    /// Whether the resource fork belongs to a file's size.
    pub include_rsrc: bool,
    /// Whether warnings are left out.
    pub quiet: bool,
}

impl Default for WalkOptions {
    fn default() -> (r: WalkOptions)
        ensures
            r.size_mode == SizeMode::DiskUsage,
            r.max_depth is None,
            !r.follow_symlinks,
            r.filter_ext is None,
            !r.include_rsrc,
            !r.quiet,
    {
        WalkOptions {
            size_mode: SizeMode::DiskUsage,
            max_depth: None,
            follow_symlinks: false,
            filter_ext: None,
            include_rsrc: false,
            quiet: false,
        }
    }
}

/// The path has the extension that is asked for, in whatever case.
pub open spec fn wanted_ext(path: Seq<u8>, opts: WalkOptions) -> bool {
    match opts.filter_ext {
        None => true,
        Some(ext) => path::lower_extension(path) == Some(ext@),
    }
}

pub fn ext_matches(path: &PathBuf, opts: &WalkOptions) -> (r: bool)
    ensures
        r == wanted_ext(path@, *opts),
{
    match &opts.filter_ext {
        None => true,
        Some(ext) => match path.lower_extension() {
            Some(found) => found == *ext,
            None => false,
        },
    }
}

/// The size in the way that is asked for, without the resource fork.
pub open spec fn mode_size(st: FileStat, opts: WalkOptions) -> u64 {
    match opts.size_mode {
        SizeMode::DiskUsage => st.disk_usage,
        SizeMode::Apparent => st.apparent_size,
    }
}

/// The size that a regular file is counted with.
pub open spec fn counted_size(st: FileStat, opts: WalkOptions) -> u64 {
    if opts.include_rsrc {
        (mode_size(st, opts) + st.rsrc_size) as u64
    } else {
        mode_size(st, opts)
    }
}

/// Directories met in a directory at `depth` are entered.
pub open spec fn may_descend(opts: WalkOptions, depth: nat) -> bool {
    match opts.max_depth {
        None => true,
        Some(max) => depth < max,
    }
}

/// What becomes of an entry.
#[derive(Debug, Clone, Copy, PartialEq, Eq, Structural)]
pub enum Verdict {
    /// It is passed over.
    Skip,
    /// It is a directory to be entered.
    Descend,
    /// It is a file of this size, to be counted.
    Count(u64),
}

/// What becomes of an entry in a directory at `depth`, and the inodes that are
/// then noted: those of the files counted, and those of the directories that
/// symbolic links led to. `st` is what the system says of the entry itself, and
/// `target` what it says of the entry that a symbolic link leads to.
pub open spec fn judged(
    path: Seq<u8>,
    st: FileStat,
    target: Option<FileStat>,
    opts: WalkOptions,
    depth: nat,
    seen: Set<InodeKey>,
) -> (Verdict, Set<InodeKey>) {
    if st.is_symlink {
        match target {
            Some(end) if opts.follow_symlinks => if end.is_dir {
                (
                    if may_descend(opts, depth) && !seen.contains(end.inode) {
                        Verdict::Descend
                    } else {
                        Verdict::Skip
                    },
                    seen.insert(end.inode),
                )
            } else {
                judged_file(path, end, opts, seen)
            },
            _ => (Verdict::Skip, seen),
        }
    } else if st.is_dir {
        (
            if may_descend(opts, depth) {
                Verdict::Descend
            } else {
                Verdict::Skip
            },
            seen,
        )
    } else {
        judged_file(path, st, opts, seen)
    }
}

/// A regular file with the extension that is asked for is counted, unless it has
/// been counted under another name.
pub open spec fn judged_file(
    path: Seq<u8>,
    st: FileStat,
    opts: WalkOptions,
    seen: Set<InodeKey>,
) -> (Verdict, Set<InodeKey>) {
    if st.is_regular && wanted_ext(path, opts) && !seen.contains(st.inode) {
        (Verdict::Count(counted_size(st, opts)), seen.insert(st.inode))
    } else {
        (Verdict::Skip, seen)
    }
}

/// Whether what a symbolic link leads to has to be asked after.
pub fn needs_target(st: &FileStat, opts: &WalkOptions) -> (r: bool)
    ensures
        r == (st.is_symlink && opts.follow_symlinks),
{
    st.is_symlink && opts.follow_symlinks
}

fn within_depth(opts: &WalkOptions, depth: usize) -> (r: bool)
    ensures
        r == may_descend(*opts, depth as nat),
{
    match opts.max_depth {
        None => true,
        Some(max) => depth < max,
    }
}

fn size_to_count(st: &FileStat, opts: &WalkOptions) -> (r: u64)
    requires
        st.wf(),
    ensures
        r == counted_size(*st, *opts),
{
    let size = match opts.size_mode {
        SizeMode::DiskUsage => st.disk_usage,
        SizeMode::Apparent => st.apparent_size,
    };
    if opts.include_rsrc {
        size + st.rsrc_size
    } else {
        size
    }
}

fn judge_file(path: &PathBuf, st: &FileStat, opts: &WalkOptions, seen: &mut InodeSet) -> (r: Verdict)
    requires
        st.wf(),
    ensures
        (r, final(seen)@) == judged_file(path@, *st, *opts, old(seen)@),
{
    if !st.is_regular || !ext_matches(path, opts) {
        return Verdict::Skip;
    }
    if seen.insert(st.inode) {
        Verdict::Count(size_to_count(st, opts))
    } else {
        // It has been counted under another name.
        assert(seen@ =~= old(seen)@);
        Verdict::Skip
    }
}

/// Decides what becomes of an entry, and notes its inode where it is counted.
pub fn judge(
    path: &PathBuf,
    st: &FileStat,
    target: &Option<FileStat>,
    opts: &WalkOptions,
    depth: usize,
    seen: &mut InodeSet,
) -> (r: Verdict)
    requires
        st.wf(),
        target matches Some(end) ==> end.wf(),
    ensures
        (r, final(seen)@) == judged(path@, *st, *target, *opts, depth as nat, old(seen)@),
{
    if st.is_symlink {
        if !opts.follow_symlinks {
            return Verdict::Skip;
        }
        match target {
            None => Verdict::Skip,
            Some(end) => {
                if end.is_dir {
                    // A directory that has been noted may be the start of a cycle.
                    if seen.insert(end.inode) && within_depth(opts, depth) {
                        Verdict::Descend
                    } else {
                        Verdict::Skip
                    }
                } else {
                    judge_file(path, end, opts, seen)
                }
            },
        }
    } else if st.is_dir {
        if within_depth(opts, depth) {
            Verdict::Descend
        } else {
            Verdict::Skip
        }
    } else {
        judge_file(path, st, opts, seen)
    }
}

/// What an entry shows of itself to a walk.
pub struct Found {
    pub path: Seq<u8>,
    pub st: FileStat,
    pub target: Option<FileStat>,
    pub depth: nat,
}

/// What the entries, judged one after the other, are counted as; and the inodes
/// that have then been met.
pub open spec fn judged_all(found: Seq<Found>, opts: WalkOptions, seen: Set<InodeKey>) -> (
    Seq<Entry>,
    Set<InodeKey>,
)
    decreases found.len(),
{
    if found.len() == 0 {
        (seq![], seen)
    } else {
        let (before, met) = judged_all(found.drop_last(), opts, seen);
        let f = found.last();
        let (verdict, after) = judged(f.path, f.st, f.target, opts, f.depth, met);
        match verdict {
            Verdict::Count(size) => (before.push((f.path, size)), after),
            _ => (before, after),
        }
    }
}

/// The inode that an entry is counted under, and the size that it is counted
/// with, where it is the first to be counted there. An entry that is never
/// counted has none.
pub open spec fn claim(f: Found, opts: WalkOptions) -> Option<(InodeKey, u64)> {
    if f.st.is_symlink {
        match f.target {
            Some(end) if opts.follow_symlinks && !end.is_dir => file_claim(f.path, end, opts),
            _ => None,
        }
    } else if f.st.is_dir {
        None
    } else {
        file_claim(f.path, f.st, opts)
    }
}

pub open spec fn file_claim(path: Seq<u8>, st: FileStat, opts: WalkOptions) -> Option<
    (InodeKey, u64),
> {
    if st.is_regular && wanted_ext(path, opts) {
        Some((st.inode, counted_size(st, opts)))
    } else {
        None
    }
}

/// The directory that an entry leads to, where it is a symbolic link to be
/// followed.
pub open spec fn led_to(f: Found, opts: WalkOptions) -> Option<InodeKey> {
    match f.target {
        Some(end) if f.st.is_symlink && opts.follow_symlinks && end.is_dir => Some(end.inode),
        _ => None,
    }
}

/// An entry is judged by its claim and by where it leads, as far as counting goes.
proof fn lemma_judged_by_claim(f: Found, opts: WalkOptions, seen: Set<InodeKey>)
    ensures
        ({
            let (verdict, after) = judged(f.path, f.st, f.target, opts, f.depth, seen);
            match (claim(f, opts), led_to(f, opts)) {
                (Some((key, size)), None) => if seen.contains(key) {
                    verdict is Skip && after == seen
                } else {
                    verdict == Verdict::Count(size) && after == seen.insert(key)
                },
                (None, Some(key)) => verdict !is Count && after == seen.insert(key),
                (None, None) => verdict !is Count && after == seen,
                (Some(_), Some(_)) => false,
            }
        }),
{
}

/// The inodes that entries are counted under, in the order in which they are
/// counted.
pub open spec fn counted_keys(found: Seq<Found>, opts: WalkOptions, seen: Set<InodeKey>) -> Seq<
    InodeKey,
>
    decreases found.len(),
{
    if found.len() == 0 {
        seq![]
    } else {
        let before = counted_keys(found.drop_last(), opts, seen);
        let noted = judged_all(found.drop_last(), opts, seen).1;
        match claim(found.last(), opts) {
            Some((key, _)) if !noted.contains(key) => before.push(key),
            _ => before,
        }
    }
}

/// The entry is to be counted under `key`.
pub open spec fn claims(f: Found, opts: WalkOptions, key: InodeKey) -> bool {
    match claim(f, opts) {
        Some((k, _)) => k == key,
        None => false,
    }
}

/// Some entry is to be counted under `key`.
pub open spec fn claimed(found: Seq<Found>, opts: WalkOptions, key: InodeKey) -> bool {
    exists|i: int| 0 <= i < found.len() && #[trigger] claims(found[i], opts, key)
}

/// Some symbolic link leads to the directory `key`.
pub open spec fn led_into(found: Seq<Found>, opts: WalkOptions, key: InodeKey) -> bool {
    exists|i: int| 0 <= i < found.len() && #[trigger] led_to(found[i], opts) == Some(key)
}

/// No inode is both a file to be counted and a directory that a link leads to.
pub open spec fn of_one_kind(found: Seq<Found>, opts: WalkOptions) -> bool {
    forall|i: int, j: int, key: InodeKey|
        0 <= i < found.len() && 0 <= j < found.len() && #[trigger] claims(found[i], opts, key)
            ==> #[trigger] led_to(found[j], opts) != Some(key)
}

/// No inode is counted twice, nor one that was noted before: what is counted is
/// counted under different inodes, all of them new.
pub proof fn law_no_inode_is_counted_twice(
    found: Seq<Found>,
    opts: WalkOptions,
    seen: Set<InodeKey>,
)
    ensures
        counted_keys(found, opts, seen).no_duplicates(),
        counted_keys(found, opts, seen).len() == judged_all(found, opts, seen).0.len(),
        forall|i: int| 0 <= i < counted_keys(found, opts, seen).len() ==> {
            let key = #[trigger] counted_keys(found, opts, seen)[i];
            !seen.contains(key) && judged_all(found, opts, seen).1.contains(key)
        },
        seen.subset_of(judged_all(found, opts, seen).1),
    decreases found.len(),
{
    if found.len() > 0 {
        let before = found.drop_last();
        law_no_inode_is_counted_twice(before, opts, seen);
        lemma_judged_by_claim(found.last(), opts, judged_all(before, opts, seen).1);
    }
}

/// The inodes noted are those noted before, those of the files to be counted,
/// and those of the directories that links lead to.
pub proof fn law_every_inode_is_noted(found: Seq<Found>, opts: WalkOptions, seen: Set<InodeKey>)
    ensures
        forall|key: InodeKey| #[trigger]
            judged_all(found, opts, seen).1.contains(key) <==> seen.contains(key) || claimed(
                found,
                opts,
                key,
            ) || led_into(found, opts, key),
    decreases found.len(),
{
    let noted = judged_all(found, opts, seen).1;
    if found.len() > 0 {
        let before = found.drop_last();
        let last = found.len() - 1;
        let noted_before = judged_all(before, opts, seen).1;
        law_every_inode_is_noted(before, opts, seen);
        lemma_judged_by_claim(found.last(), opts, noted_before);
        assert forall|key: InodeKey| #[trigger] noted.contains(key) <==> seen.contains(key)
            || claimed(found, opts, key) || led_into(found, opts, key) by {
            lemma_claimed_or_last(found, opts, key);
            if led_into(before, opts, key) {
                let i = choose|i: int|
                    0 <= i < before.len() && #[trigger] led_to(before[i], opts) == Some(key);
                assert(led_to(found[i], opts) == Some(key));
            }
            if led_into(found, opts, key) {
                let i = choose|i: int|
                    0 <= i < found.len() && #[trigger] led_to(found[i], opts) == Some(key);
                if i < before.len() {
                    assert(led_to(before[i], opts) == Some(key));
                }
            }
            if led_to(found[last], opts) == Some(key) {
                assert(led_into(found, opts, key));
            }
        }
    }
}

proof fn lemma_claimed_or_last(found: Seq<Found>, opts: WalkOptions, key: InodeKey)
    requires
        found.len() > 0,
    ensures
        claimed(found, opts, key) <==> claimed(found.drop_last(), opts, key) || claims(
            found.last(),
            opts,
            key,
        ),
{
    let before = found.drop_last();
    if claimed(before, opts, key) {
        let i = choose|i: int| 0 <= i < before.len() && #[trigger] claims(before[i], opts, key);
        assert(claims(found[i], opts, key));
    }
    if claimed(found, opts, key) {
        let i = choose|i: int| 0 <= i < found.len() && #[trigger] claims(found[i], opts, key);
        if i < before.len() {
            assert(claims(before[i], opts, key));
        }
    }
    if claims(found.last(), opts, key) {
        assert(claims(found[found.len() - 1], opts, key));
    }
}

/// All entries that are to be counted under one inode agree on its size.
pub open spec fn agreed(
    found: Seq<Found>,
    opts: WalkOptions,
    sizes: spec_fn(InodeKey) -> u64,
) -> bool {
    forall|i: int|
        0 <= i < found.len() ==> ((#[trigger] claim(found[i], opts)) matches Some((key, size)) ==> size
            == sizes(key))
}

/// The sizes of all of `keys` together.
pub open spec fn sum_of(keys: Seq<InodeKey>, sizes: spec_fn(InodeKey) -> u64) -> nat
    decreases keys.len(),
{
    if keys.len() == 0 {
        0
    } else {
        sum_of(keys.drop_last(), sizes) + sizes(keys.last()) as nat
    }
}

/// Every inode that some entry is to be counted under is counted exactly once,
/// where it is new: whatever the filter, under whichever of its names it is met,
/// and through links or not.
pub proof fn law_every_new_inode_is_counted_once(
    found: Seq<Found>,
    opts: WalkOptions,
    seen: Set<InodeKey>,
)
    requires
        of_one_kind(found, opts),
    ensures
        counted_keys(found, opts, seen).no_duplicates(),
        counted_keys(found, opts, seen).len() == judged_all(found, opts, seen).0.len(),
        forall|key: InodeKey| #[trigger]
            counted_keys(found, opts, seen).contains(key) <==> !seen.contains(key) && claimed(
                found,
                opts,
                key,
            ),
    decreases found.len(),
{
    law_no_inode_is_counted_twice(found, opts, seen);
    let keys = counted_keys(found, opts, seen);
    if found.len() > 0 {
        let before = found.drop_last();
        let f = found.last();
        let last = found.len() - 1;
        let noted = judged_all(before, opts, seen).1;
        let old_keys = counted_keys(before, opts, seen);
        assert forall|i: int, j: int, key: InodeKey|
            0 <= i < before.len() && 0 <= j < before.len() && #[trigger] claims(
                before[i],
                opts,
                key,
            ) implies #[trigger] led_to(before[j], opts) != Some(key) by {
            assert(claims(found[i], opts, key));
            assert(led_to(found[j], opts) != Some(key));
        }
        law_every_new_inode_is_counted_once(before, opts, seen);
        law_every_inode_is_noted(before, opts, seen);
        assert forall|key: InodeKey| #[trigger] keys.contains(key) <==> !seen.contains(key)
            && claimed(found, opts, key) by {
            lemma_claimed_or_last(found, opts, key);
            if claims(f, opts, key) {
                assert(claims(found[last], opts, key));
                if led_into(before, opts, key) {
                    let j = choose|j: int|
                        0 <= j < before.len() && #[trigger] led_to(before[j], opts) == Some(key);
                    assert(led_to(found[j], opts) == Some(key));
                }
            }
            if keys.contains(key) {
                let i = choose|i: int| 0 <= i < keys.len() && keys[i] == key;
                if i < old_keys.len() {
                    assert(old_keys[i] == key);
                    assert(old_keys.contains(key));
                }
            }
            if old_keys.contains(key) {
                let i = choose|i: int| 0 <= i < old_keys.len() && old_keys[i] == key;
                assert(keys[i] == key);
            } else if !seen.contains(key) && claimed(found, opts, key) {
                assert(!noted.contains(key));
                assert(keys[keys.len() - 1] == key);
            }
        }
    } else {
        assert forall|key: InodeKey| #[trigger] keys.contains(key) <==> !seen.contains(key)
            && claimed(found, opts, key) by {}
    }
}

/// With links passed over, every regular file that has the extension asked for
/// under some name is counted exactly once.
pub proof fn law_wanted_files_are_counted_once(
    found: Seq<Found>,
    opts: WalkOptions,
    seen: Set<InodeKey>,
)
    requires
        !opts.follow_symlinks,
    ensures
        counted_keys(found, opts, seen).no_duplicates(),
        counted_keys(found, opts, seen).len() == judged_all(found, opts, seen).0.len(),
        forall|key: InodeKey| #[trigger]
            counted_keys(found, opts, seen).contains(key) <==> !seen.contains(key) && exists|i: int|
                0 <= i < found.len() && is_file_with(#[trigger] found[i].st, key) && wanted_ext(
                    found[i].path,
                    opts,
                ),
{
    law_every_new_inode_is_counted_once(found, opts, seen);
    let keys = counted_keys(found, opts, seen);
    assert forall|key: InodeKey| #[trigger] keys.contains(key) <==> !seen.contains(key) && exists|
        i: int,
    |
        0 <= i < found.len() && is_file_with(#[trigger] found[i].st, key) && wanted_ext(
            found[i].path,
            opts,
        ) by {
        if claimed(found, opts, key) {
            let i = choose|i: int| 0 <= i < found.len() && #[trigger] claims(found[i], opts, key);
            assert(is_file_with(found[i].st, key));
        }
        if exists|i: int|
            0 <= i < found.len() && is_file_with(#[trigger] found[i].st, key) && wanted_ext(
                found[i].path,
                opts,
            ) {
            let i = choose|i: int|
                0 <= i < found.len() && is_file_with(#[trigger] found[i].st, key) && wanted_ext(
                    found[i].path,
                    opts,
                );
            assert(claims(found[i], opts, key));
        }
    }
}

/// A regular file with this inode.
pub open spec fn is_file_with(st: FileStat, key: InodeKey) -> bool {
    st.is_regular && !st.is_dir && !st.is_symlink && st.inode == key
}

/// The bytes counted are the sizes of the inodes counted.
pub proof fn law_bytes_are_those_of_the_inodes(
    found: Seq<Found>,
    opts: WalkOptions,
    seen: Set<InodeKey>,
    sizes: spec_fn(InodeKey) -> u64,
)
    requires
        agreed(found, opts, sizes),
    ensures
        aggregator::total_bytes(judged_all(found, opts, seen).0) == sum_of(
            counted_keys(found, opts, seen),
            sizes,
        ),
    decreases found.len(),
{
    if found.len() > 0 {
        let before = found.drop_last();
        let f = found.last();
        let met = judged_all(before, opts, seen).1;
        assert forall|i: int| 0 <= i < before.len() implies ((#[trigger] claim(before[i], opts)) matches Some(
            (key, size),
        ) ==> size == sizes(key)) by {
            assert(claim(found[i], opts) == claim(before[i], opts));
        }
        law_bytes_are_those_of_the_inodes(before, opts, seen, sizes);
        lemma_judged_by_claim(f, opts, met);
        assert(claim(found[found.len() - 1], opts) == claim(f, opts));
        if let Some((key, _)) = claim(f, opts) {
            if !met.contains(key) {
                assert(judged_all(found, opts, seen).0.drop_last() =~= judged_all(
                    before,
                    opts,
                    seen,
                ).0);
                assert(counted_keys(found, opts, seen).drop_last() =~= counted_keys(
                    before,
                    opts,
                    seen,
                ));
            }
        }
    }
}

proof fn lemma_sum_of_removed(
    keys: Seq<InodeKey>,
    at: int,
    sizes: spec_fn(InodeKey) -> u64,
)
    requires
        0 <= at < keys.len(),
    ensures
        sum_of(keys, sizes) == sum_of(keys.remove(at), sizes) + sizes(keys[at]) as nat,
    decreases keys.len(),
{
    if at == keys.len() - 1 {
        assert(keys.remove(at) =~= keys.drop_last());
    } else {
        lemma_sum_of_removed(keys.drop_last(), at, sizes);
        assert(keys.remove(at).drop_last() =~= keys.drop_last().remove(at));
        assert(keys.remove(at).last() == keys.last());
    }
}

proof fn lemma_same_keys_same_sum(
    a: Seq<InodeKey>,
    b: Seq<InodeKey>,
    sizes: spec_fn(InodeKey) -> u64,
)
    requires
        a.no_duplicates(),
        b.no_duplicates(),
        forall|key: InodeKey| #[trigger] a.contains(key) <==> b.contains(key),
    ensures
        a.len() == b.len(),
        sum_of(a, sizes) == sum_of(b, sizes),
    decreases a.len(),
{
    if a.len() == 0 {
        if b.len() > 0 {
            assert(b.contains(b[0]));
            assert(a.contains(b[0]));
        }
    } else {
        let key = a.last();
        assert(a[a.len() - 1] == key);
        assert(a.contains(key));
        let at = choose|i: int| 0 <= i < b.len() && b[i] == key;
        let rest_a = a.drop_last();
        let rest_b = b.remove(at);
        assert forall|k: InodeKey| #[trigger] rest_a.contains(k) <==> rest_b.contains(k) by {
            if rest_a.contains(k) {
                let i = choose|i: int| 0 <= i < rest_a.len() && rest_a[i] == k;
                assert(a[i] == k);
                assert(a.contains(k));
                let j = choose|j: int| 0 <= j < b.len() && b[j] == k;
                assert(k != key);
                if j < at {
                    assert(rest_b[j] == k);
                } else {
                    assert(rest_b[j - 1] == k);
                }
            }
            if rest_b.contains(k) {
                let j = choose|j: int| 0 <= j < rest_b.len() && rest_b[j] == k;
                let from = if j < at {
                    j
                } else {
                    j + 1
                };
                assert(b[from] == k);
                assert(b.contains(k));
                assert(a.contains(k));
                let i = choose|i: int| 0 <= i < a.len() && a[i] == k;
                assert(k != key);
                assert(rest_a[i] == k);
            }
        }
        lemma_same_keys_same_sum(rest_a, rest_b, sizes);
        lemma_sum_of_removed(b, at, sizes);
    }
}

/// Symbolic links are passed over unless they are to be followed.
pub proof fn law_links_are_passed_over_by_default(
    path: Seq<u8>,
    st: FileStat,
    target: Option<FileStat>,
    opts: WalkOptions,
    depth: nat,
    seen: Set<InodeKey>,
)
    requires
        st.is_symlink,
        !opts.follow_symlinks,
    ensures
        judged(path, st, target, opts, depth, seen) == (Verdict::Skip, seen),
{
}

/// Devices, pipes and sockets are passed over, and so are links to them.
pub proof fn law_special_files_are_passed_over(
    path: Seq<u8>,
    st: FileStat,
    target: Option<FileStat>,
    opts: WalkOptions,
    depth: nat,
    seen: Set<InodeKey>,
)
    requires
        !st.is_dir && !st.is_regular,
        st.is_symlink ==> (target matches Some(end) ==> !end.is_dir && !end.is_regular),
    ensures
        judged(path, st, target, opts, depth, seen).0 is Skip,
{
}

/// Where resource forks belong to the size, a new file counts with its own size
/// and that of its fork, and so does one that a followed link leads to.
pub proof fn law_fork_adds_its_bytes(
    path: Seq<u8>,
    st: FileStat,
    target: Option<FileStat>,
    opts: WalkOptions,
    depth: nat,
    seen: Set<InodeKey>,
)
    requires
        wanted_ext(path, opts),
        opts.include_rsrc,
    ensures
        st.wf() && st.is_regular && !seen.contains(st.inode) ==> {
            judged(path, st, target, opts, depth, seen).0 matches Verdict::Count(size) && size
                == mode_size(st, opts) + st.rsrc_size
        },
        st.is_symlink && opts.follow_symlinks ==> (target matches Some(end) ==> {
            end.wf() && end.is_regular && !seen.contains(end.inode) ==> {
                judged(path, st, target, opts, depth, seen).0 matches Verdict::Count(size) && size
                    == mode_size(end, opts) + end.rsrc_size
            }
        }),
{
}

/// With a filter, only files that have the extension are counted.
pub proof fn law_only_wanted_files_are_counted(
    found: Seq<Found>,
    opts: WalkOptions,
    seen: Set<InodeKey>,
)
    ensures
        forall|i: int|
            0 <= i < judged_all(found, opts, seen).0.len() ==> wanted_ext(
                (#[trigger] judged_all(found, opts, seen).0[i]).0,
                opts,
            ),
    decreases found.len(),
{
    if found.len() > 0 {
        law_only_wanted_files_are_counted(found.drop_last(), opts, seen);
        let (before, met) = judged_all(found.drop_last(), opts, seen);
        let counted = judged_all(found, opts, seen).0;
        let f = found.last();
        lemma_judged_by_claim(f, opts, met);
        assert forall|i: int| 0 <= i < counted.len() implies wanted_ext(
            (#[trigger] counted[i]).0,
            opts,
        ) by {
            if i < before.len() {
                assert(counted[i] == before[i]);
            } else {
                assert(counted[i].0 == f.path);
            }
        }
    }
}

/// The order in which a walk meets its entries does not change what it counts:
/// where entries of the same inodes are to be counted, and all of them agree on
/// the size of an inode, the number of files and their bytes are the same.
pub proof fn law_order_of_entries_does_not_matter(
    a: Seq<Found>,
    b: Seq<Found>,
    opts: WalkOptions,
    seen: Set<InodeKey>,
    sizes: spec_fn(InodeKey) -> u64,
)
    requires
        of_one_kind(a, opts),
        of_one_kind(b, opts),
        agreed(a, opts, sizes),
        agreed(b, opts, sizes),
        forall|key: InodeKey| #[trigger] claimed(a, opts, key) <==> claimed(b, opts, key),
    ensures
        judged_all(a, opts, seen).0.len() == judged_all(b, opts, seen).0.len(),
        aggregator::total_bytes(judged_all(a, opts, seen).0) == aggregator::total_bytes(
            judged_all(b, opts, seen).0,
        ),
{
    law_bytes_are_those_of_the_inodes(a, opts, seen, sizes);
    law_bytes_are_those_of_the_inodes(b, opts, seen, sizes);
    law_every_new_inode_is_counted_once(a, opts, seen);
    law_every_new_inode_is_counted_once(b, opts, seen);
    let keys_a = counted_keys(a, opts, seen);
    let keys_b = counted_keys(b, opts, seen);
    assert forall|key: InodeKey| #[trigger] keys_a.contains(key) <==> keys_b.contains(key) by {
        assert(claimed(a, opts, key) <==> claimed(b, opts, key));
    }
    lemma_same_keys_same_sum(keys_a, keys_b, sizes);
}

/// A regular file that is new and has the extension asked for is counted with
/// the storage that it uses on disk, or with its logical size where that is asked
/// for, whichever of the two is larger; and with its resource fork where that is
/// asked for as well. The same holds of the file that a followed link leads to.
pub proof fn law_file_counts_with_the_size_asked_for(
    path: Seq<u8>,
    st: FileStat,
    target: Option<FileStat>,
    opts: WalkOptions,
    depth: nat,
    seen: Set<InodeKey>,
)
    requires
        opts.filter_ext matches Some(ext) ==> path::lower_extension(path) == Some(ext@),
    ensures
        ({
            let file = if st.is_symlink && opts.follow_symlinks {
                target
            } else {
                Some(st)
            };
            let f = file->0;
            file is Some && f.is_regular && !f.is_dir && !f.is_symlink && f.wf() && !seen.contains(
                f.inode,
            ) ==> {
                let verdict = judged(path, st, target, opts, depth, seen);
                &&& verdict.1 == seen.insert(f.inode)
                &&& opts.size_mode == SizeMode::DiskUsage && !opts.include_rsrc ==> verdict.0
                    == Verdict::Count(f.disk_usage)
                &&& opts.size_mode == SizeMode::Apparent && !opts.include_rsrc ==> verdict.0
                    == Verdict::Count(f.apparent_size)
                &&& opts.size_mode == SizeMode::DiskUsage && opts.include_rsrc ==> verdict.0
                    == Verdict::Count((f.disk_usage + f.rsrc_size) as u64)
                &&& opts.size_mode == SizeMode::Apparent && opts.include_rsrc ==> verdict.0
                    == Verdict::Count((f.apparent_size + f.rsrc_size) as u64)
            }
        }),
{
}

/// A directory is entered where it is less deep than the limit, or where there is
/// none; one that a followed link leads to only where no link has led to it before.
/// It is not counted itself.
pub proof fn law_directories_are_entered_down_to_the_limit(
    path: Seq<u8>,
    st: FileStat,
    target: Option<FileStat>,
    opts: WalkOptions,
    depth: nat,
    seen: Set<InodeKey>,
)
    ensures
        st.is_dir && !st.is_symlink ==> judged(path, st, target, opts, depth, seen) == (
            match opts.max_depth {
                Some(m) if depth >= m => Verdict::Skip,
                _ => Verdict::Descend,
            },
            seen,
        ),
        st.is_symlink && opts.follow_symlinks && target is Some && target->0.is_dir ==> {
            let end = target->0;
            let verdict = judged(path, st, target, opts, depth, seen);
            &&& verdict.1 == seen.insert(end.inode)
            &&& seen.contains(end.inode) ==> verdict.0 is Skip
            &&& !seen.contains(end.inode) ==> verdict.0 == match opts.max_depth {
                Some(m) if depth >= m => Verdict::Skip,
                _ => Verdict::Descend,
            }
        },
        judged(path, st, target, opts, depth, seen).0 is Descend ==> st.is_dir || st.is_symlink,
{
}

/// A file is passed over, and leaves no trace, where it has been counted, where it
/// does not have the extension asked for, and where it is no regular file; so is a
/// link that leads nowhere.
pub proof fn law_other_files_leave_no_trace(
    path: Seq<u8>,
    st: FileStat,
    target: Option<FileStat>,
    opts: WalkOptions,
    depth: nat,
    seen: Set<InodeKey>,
)
    requires
        !st.is_dir || st.is_symlink,
    ensures
        ({
            let file = if st.is_symlink && opts.follow_symlinks {
                target
            } else {
                Some(st)
            };
            ({
                ||| st.is_symlink && !opts.follow_symlinks
                ||| file is None
                ||| !file->0.is_dir && !file->0.is_regular
                ||| !file->0.is_dir && seen.contains(file->0.inode)
                ||| !file->0.is_dir && (opts.filter_ext matches Some(ext) && path::lower_extension(
                    path,
                ) != Some(ext@))
            }) ==> judged(path, st, target, opts, depth, seen) == (Verdict::Skip, seen)
        }),
{
}

} // verus!
