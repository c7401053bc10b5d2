//! One directory of a walk of many threads.
//!
//! A [`DirScan`] takes the entries of its directory one by one. Files are
//! counted at once; directories are put aside, to be scanned by whichever thread
//! is free. Once they all have been, the scan is closed over their trees.
//! What has been counted is noted in a set that all scans share.

use crate::aggregator::DirNode;
use crate::order::reversed;
use crate::path::PathBuf;
use crate::stat::{FileStat, InodeSet};
use crate::traversal::Tree;
use crate::walker::{judge, Verdict, WalkOptions};
use crate::{traversal, walker};
use vstd::prelude::*;

verus! {

/// The state of a scan.
pub struct ScanState {
    pub path: Seq<u8>,
    /// How many levels below the root the directory is.
    pub depth: nat,
    /// The files counted.
    pub done: Seq<Tree>,
    /// The directories put aside.
    pub subdirs: Seq<Seq<u8>>,
    /// The bytes of the files counted.
    pub total: nat,
    /// The number of the files counted.
    pub count: nat,
}

/// What a scan did with an entry.
#[derive(Debug, Clone, Copy, PartialEq, Eq, Structural)]
pub enum Noted {
    /// It was passed over or put aside.
    Passed,
    /// It was counted.
    Counted,
    /// Its size would not fit in 64 bits with those counted before.
    Overflow,
}

/// What a scan does with an entry, and its state then.
pub open spec fn noted(s: ScanState, path: Seq<u8>, verdict: Verdict) -> (Noted, ScanState) {
    match verdict {
        Verdict::Skip => (Noted::Passed, s),
        Verdict::Descend => (Noted::Passed, ScanState { subdirs: s.subdirs.push(path), ..s }),
        Verdict::Count(size) => if s.total + size > u64::MAX || s.count >= u64::MAX {
            (Noted::Overflow, s)
        } else {
            (
                Noted::Counted,
                ScanState {
                    done: s.done.push(Tree::File((path, size))),
                    total: s.total + size as nat,
                    count: s.count + 1,
                    ..s
                },
            )
        },
    }
}

/// The scan of one directory.
#[derive(Debug)]
pub struct DirScan {
    node: DirNode,
    depth: usize,
    subdirs: Vec<PathBuf>,
}

impl View for DirScan {
    type V = ScanState;

    closed spec fn view(&self) -> ScanState {
        ScanState {
            path: self.node.path@,
            depth: self.depth as nat,
            done: traversal::trees_of(self.node.children@),
            subdirs: traversal::path_views(self.subdirs@),
            total: self.node.total_size as nat,
            count: self.node.file_count as nat,
        }
    }
}

/// The bytes in all of `nodes`.
pub open spec fn sizes_of(nodes: Seq<DirNode>) -> nat
    decreases nodes.len(),
{
    if nodes.len() == 0 {
        0
    } else {
        sizes_of(nodes.drop_last()) + nodes.last().total_size as nat
    }
}

/// The number of files in all of `nodes`.
pub open spec fn counts_of(nodes: Seq<DirNode>) -> nat
    decreases nodes.len(),
{
    if nodes.len() == 0 {
        0
    } else {
        counts_of(nodes.drop_last()) + nodes.last().file_count as nat
    }
}

/// The trees of `nodes`.
pub open spec fn dirs_of(nodes: Seq<DirNode>) -> Seq<Tree> {
    nodes.map_values(|d: DirNode| Tree::Dir(d.path@, traversal::trees_of(d.children@)))
}

pub open spec fn nodes_rolled_up(nodes: Seq<DirNode>) -> bool {
    forall|i: int| 0 <= i < nodes.len() ==> (#[trigger] nodes[i]).rolled_up()
}

impl DirScan {
    /// The files counted so far are rolled up.
    pub closed spec fn wf(self) -> bool {
        self.node.rolled_up()
    }

    /// A scan of the directory `path`, `depth` levels below the root.
    pub fn new(path: PathBuf, depth: usize) -> (r: DirScan)
        ensures
            r.wf(),
            r@ == (ScanState {
                path: path@,
                depth: depth as nat,
                done: seq![],
                subdirs: seq![],
                total: 0,
                count: 0,
            }),
    {
        let r = DirScan { node: DirNode::new(path), depth, subdirs: Vec::new() };
        assert(r@.done =~= seq![]);
        assert(r@.subdirs =~= seq![]);
        r
    }

    /// The directories put aside.
    pub fn subdirs(&self) -> (r: &Vec<PathBuf>)
        ensures
            traversal::path_views(r@) == self@.subdirs,
    {
        &self.subdirs
    }

    /// Takes an entry of the directory: `st` is what the system says of it, and
    /// `target` what it says of the entry that a symbolic link leads to.
    pub fn take(
        &mut self,
        path: PathBuf,
        st: &FileStat,
        target: &Option<FileStat>,
        opts: &WalkOptions,
        seen: &mut InodeSet,
    ) -> (r: Noted)
        requires
            old(self).wf(),
            st.wf(),
            target matches Some(end) ==> end.wf(),
        ensures
            final(self).wf(),
            ({
                let (verdict, met) = walker::judged(
                    path@,
                    *st,
                    *target,
                    *opts,
                    old(self)@.depth,
                    old(seen)@,
                );
                &&& final(seen)@ == met
                &&& (r, final(self)@) == noted(old(self)@, path@, verdict)
            }),
    {
        match judge(&path, st, target, opts, self.depth, seen) {
            Verdict::Skip => Noted::Passed,
            Verdict::Descend => {
                let ghost before = self.subdirs@;
                let ghost p = path;
                self.subdirs.push(path);
                assert(traversal::path_views(self.subdirs@) =~= traversal::path_views(before).push(
                    p@,
                ));
                Noted::Passed
            },
            Verdict::Count(size) => {
                if self.node.total_size > u64::MAX - size || self.node.file_count == u64::MAX {
                    return Noted::Overflow;
                }
                let ghost before = self.node.children@;
                let ghost tree = Tree::File((path@, size));
                self.node.add_file(path, size);
                proof {
                    let children = self.node.children@;
                    assert(children.drop_last() =~= before);
                    assert(traversal::tree_at(children.last()) == tree);
                    assert(traversal::trees_of(children) =~= traversal::trees_of(before).push(tree));
                }
                Noted::Counted
            },
        }
    }

    /// Closes the scan over the trees of the directories put aside. Nothing
    /// where the totals would not fit in 64 bits.
    pub fn close(self, below: Vec<DirNode>) -> (r: Option<DirNode>)
        requires
            self.wf(),
        ensures
            r is Some <==> self@.total + sizes_of(below@) <= u64::MAX && self@.count + counts_of(
                below@,
            ) <= u64::MAX,
            r matches Some(node) ==> {
                &&& node.path@ == self@.path
                &&& traversal::trees_of(node.children@) == self@.done + dirs_of(below@)
                &&& node.total_size == self@.total + sizes_of(below@)
                &&& node.file_count == self@.count + counts_of(below@)
                &&& nodes_rolled_up(below@) ==> node.rolled_up()
            },
    {
        let mut node = self.node;
        let mut left = reversed(below);
        let ghost all = below@;
        let ghost mut k: int = 0;
        proof {
            assert(all.take(0) =~= seq![]);
            assert(self@.done + dirs_of(all.take(0)) =~= self@.done);
            assert(all.take(all.len() as int) =~= all);
        }
        while left.len() > 0
            invariant
                all == below@,
                0 <= k <= all.len(),
                left@.len() == all.len() - k,
                forall|i: int|
                    0 <= i < left@.len() ==> (#[trigger] left@[i]) == all[all.len() - 1 - i],
                node.path@ == self@.path,
                traversal::trees_of(node.children@) == self@.done + dirs_of(all.take(k)),
                node.total_size == self@.total + sizes_of(all.take(k)),
                node.file_count == self@.count + counts_of(all.take(k)),
                nodes_rolled_up(all) ==> node.rolled_up(),
            decreases left@.len(),
        {
            let child = left.pop().unwrap();
            let ghost c = child;
            assert(c == all[k]);
            proof {
                assert(all.take(k + 1).drop_last() =~= all.take(k));
                lemma_sums_grow(all, k + 1);
            }
            if node.total_size > u64::MAX - child.total_size || node.file_count > u64::MAX
                - child.file_count {
                return None;
            }
            let ghost before = node.children@;
            let ghost tree = Tree::Dir(child.path@, traversal::trees_of(child.children@));
            node.adopt(child);
            proof {
                let children = node.children@;
                assert(children.drop_last() =~= before);
                assert(traversal::tree_at(children.last()) == tree);
                assert(dirs_of(all.take(k + 1)) =~= dirs_of(all.take(k)).push(tree));
                assert(traversal::trees_of(children) =~= self@.done + dirs_of(all.take(k + 1)));
                k = k + 1;
            }
        }
        assert(all.take(k) =~= all);
        Some(node)
    }
}

proof fn lemma_sums_grow(nodes: Seq<DirNode>, n: int)
    requires
        0 <= n <= nodes.len(),
    ensures
        sizes_of(nodes.take(n)) <= sizes_of(nodes),
        counts_of(nodes.take(n)) <= counts_of(nodes),
    decreases nodes.len(),
{
    if n == nodes.len() {
        assert(nodes.take(n) =~= nodes);
    } else {
        lemma_sums_grow(nodes.drop_last(), n);
        assert(nodes.drop_last().take(n) =~= nodes.take(n));
    }
}

/// A scan adds a counted file, and its bytes, to what it has, puts a directory
/// aside without counting anything, and leaves everything as it was where an entry
/// is passed over, or where its bytes or the number of files would not fit in 64
/// bits.
pub proof fn law_scan_counts_what_it_takes(s: ScanState, path: Seq<u8>, size: u64)
    requires
        s.total <= u64::MAX,
        s.count <= u64::MAX,
    ensures
        noted(s, path, Verdict::Skip) == (Noted::Passed, s),
        ({
            let (what, next) = noted(s, path, Verdict::Descend);
            &&& what == Noted::Passed
            &&& next.subdirs.len() == s.subdirs.len() + 1
            &&& next.subdirs.drop_last() == s.subdirs
            &&& next.subdirs.last() == path
            &&& next.done == s.done && next.total == s.total && next.count == s.count
            &&& next.path == s.path && next.depth == s.depth
        }),
        ({
            let (what, next) = noted(s, path, Verdict::Count(size));
            &&& what == Noted::Overflow <==> s.total + size > u64::MAX || s.count + 1 > u64::MAX
            &&& what == Noted::Overflow ==> next == s
            &&& what != Noted::Overflow ==> {
                &&& what == Noted::Counted
                &&& next.total - s.total == size
                &&& next.count - s.count == 1
                &&& next.done.len() == s.done.len() + 1
                &&& next.done.drop_last() == s.done
                &&& next.done.last() == Tree::File((path, size))
                &&& next.subdirs == s.subdirs
                &&& next.path == s.path && next.depth == s.depth
            }
        }),
{
    assert(s.subdirs.push(path).drop_last() =~= s.subdirs);
    assert(s.done.push(Tree::File((path, size))).drop_last() =~= s.done);
}

/// A scan is closed with the sum of the bytes and of the file counts of the
/// directories put aside.
pub proof fn law_closed_scan_adds_up_its_directories(nodes: Seq<DirNode>)
    ensures
        sizes_of(nodes) == nodes.fold_left(0int, |sum: int, d: DirNode| sum + d.total_size),
        counts_of(nodes) == nodes.fold_left(0int, |sum: int, d: DirNode| sum + d.file_count),
    decreases nodes.len(),
{
    reveal_with_fuel(Seq::fold_left, 2);
    if nodes.len() > 0 {
        law_closed_scan_adds_up_its_directories(nodes.drop_last());
    }
}

} // verus!
