//! The result tree of a scan, and the listings drawn from it.

use crate::breakdown::{list_tallies, tally_files_by_extension};
use crate::order::{arrange, Ranked};
use crate::path::PathBuf;
use crate::{breakdown, order, path};
use vstd::prelude::*;

pub use crate::order::SortOrder;

verus! {

/// Whether a size is measured as logical bytes or as disk blocks.
#[derive(Debug, Clone, Copy, PartialEq, Eq, Structural)]
pub enum SizeMode {
    /// Storage used on disk (default).
    DiskUsage,
    /// Logical file size.
    Apparent,
}

/// A directory in the result tree.
#[derive(Debug)]
pub struct DirNode {
    pub path: PathBuf,
    pub children: Vec<EntryNode>,
    /// Total size of this directory and all its descendants.
    pub total_size: u64,
    /// Number of files counted in this directory and all its descendants.
    pub file_count: u64,
}

/// A file, or a directory below the one that holds it.
#[derive(Debug)]
pub enum EntryNode {
    File(FileEntry),
    Dir(Box<DirNode>),
}

#[derive(Debug)]
pub struct FileEntry {
    pub path: PathBuf,
    pub size: u64,
}

/// A path and a size, as listings hold them.
pub type Entry = (Seq<u8>, u64);

/// All files at or below `children`, in the order in which the tree holds them.
pub open spec fn files_below(children: Seq<EntryNode>) -> Seq<Entry>
    decreases children,
{
    if children.len() == 0 {
        seq![]
    } else {
        files_below(children.drop_last()) + files_at(children.last())
    }
}

/// The file itself, or all files below the directory.
pub open spec fn files_at(e: EntryNode) -> Seq<Entry>
    decreases e,
{
    match e {
        EntryNode::File(f) => seq![(f.path@, f.size)],
        EntryNode::Dir(d) => files_below(d.children@),
    }
}

/// All directories at or below `children` with their total sizes; a directory
/// comes before those below it.
pub open spec fn dirs_below(children: Seq<EntryNode>) -> Seq<Entry>
    decreases children,
{
    if children.len() == 0 {
        seq![]
    } else {
        dirs_below(children.drop_last()) + dirs_at(children.last())
    }
}

pub open spec fn dirs_at(e: EntryNode) -> Seq<Entry>
    decreases e,
{
    match e {
        EntryNode::File(_) => seq![],
        EntryNode::Dir(d) => seq![(d.path@, d.total_size)] + dirs_below(d.children@),
    }
}

/// The bytes in all of `files`.
pub open spec fn total_bytes(files: Seq<Entry>) -> nat
    decreases files.len(),
{
    if files.len() == 0 {
        0
    } else {
        total_bytes(files.drop_last()) + files.last().1 as nat
    }
}

/// A file with its size, or a directory with its total size.
pub open spec fn entry_of(e: EntryNode) -> Entry {
    match e {
        EntryNode::File(f) => (f.path@, f.size),
        EntryNode::Dir(d) => (d.path@, d.total_size),
    }
}

/// One for a file, or the file count of a directory.
pub open spec fn entry_count(e: EntryNode) -> nat {
    match e {
        EntryNode::File(_) => 1,
        EntryNode::Dir(d) => d.file_count as nat,
    }
}

pub open spec fn size_sum(children: Seq<EntryNode>) -> nat
    decreases children.len(),
{
    if children.len() == 0 {
        0
    } else {
        size_sum(children.drop_last()) + entry_of(children.last()).1 as nat
    }
}

pub open spec fn count_sum(children: Seq<EntryNode>) -> nat
    decreases children.len(),
{
    if children.len() == 0 {
        0
    } else {
        count_sum(children.drop_last()) + entry_count(children.last())
    }
}

/// Every directory among `children` and below them is rolled up.
pub open spec fn all_rolled_up(children: Seq<EntryNode>) -> bool
    decreases children,
{
    children.len() == 0 || (all_rolled_up(children.drop_last()) && entry_rolled_up(children.last()))
}

pub open spec fn entry_rolled_up(e: EntryNode) -> bool
    decreases e,
{
    match e {
        EntryNode::File(_) => true,
        EntryNode::Dir(d) => {
            &&& d.total_size == size_sum(d.children@)
            &&& d.file_count == count_sum(d.children@)
            &&& all_rolled_up(d.children@)
        },
    }
}

/// The order of a listing: by size the largest first, or by path.
pub open spec fn entry_le(sort: SortOrder) -> spec_fn(Entry, Entry) -> bool {
    |x: Entry, y: Entry|
        match sort {
            SortOrder::Size => x.1 >= y.1,
            SortOrder::Name => path::path_le(x.0, y.0),
        }
}

/// Whether an entry passes the optional lower limit on size.
pub open spec fn large_enough(min_size: Option<u64>) -> spec_fn(Entry) -> bool {
    |e: Entry|
        match min_size {
            Some(min) => e.1 >= min,
            None => true,
        }
}

/// The entries that are large enough, in listing order; entries that compare
/// equal keep the order that they have in `s`.
pub open spec fn listing(s: Seq<Entry>, sort: SortOrder, min_size: Option<u64>) -> Seq<Entry> {
    order::arranged(s.filter(large_enough(min_size)), entry_le(sort))
}

/// The listing that references into a tree stand for.
pub open spec fn listed(s: Seq<(&PathBuf, u64)>) -> Seq<Entry> {
    s.map_values(|e: (&PathBuf, u64)| (e.0@, e.1))
}

pub proof fn lemma_entry_le_is_total_preorder(sort: SortOrder)
    ensures
        order::total_preorder(entry_le(sort)),
{
    let le = entry_le(sort);
    path::lemma_path_le_is_total_preorder();
    let by_path = |a: Seq<u8>, b: Seq<u8>| path::path_le(a, b);
    assert forall|x: Entry, y: Entry| #[trigger] le(x, y) || le(y, x) by {
        assert(by_path(x.0, y.0) || by_path(y.0, x.0));
    }
    assert forall|x: Entry, y: Entry, z: Entry| #[trigger] le(x, y) && #[trigger] le(y, z) implies le(
        x,
        z,
    ) by {
        assert(by_path(x.0, y.0) && by_path(y.0, z.0) ==> by_path(x.0, z.0));
    }
}

impl<'a> Ranked for (&'a PathBuf, u64) {
    open spec fn ranking(sort: SortOrder) -> spec_fn(Self, Self) -> bool {
        |x: (&'a PathBuf, u64), y: (&'a PathBuf, u64)|
            entry_le(sort)((x.0@, x.1), (y.0@, y.1))
    }

    proof fn ranking_is_total_preorder(sort: SortOrder) {
        lemma_entry_le_is_total_preorder(sort);
        let le = entry_le(sort);
        let r = Self::ranking(sort);
        assert forall|x: Self, y: Self| #[trigger] r(x, y) || r(y, x) by {
            assert(le((x.0@, x.1), (y.0@, y.1)) || le((y.0@, y.1), (x.0@, x.1)));
        }
        assert forall|x: Self, y: Self, z: Self| #[trigger] r(x, y) && #[trigger] r(y, z) implies r(
            x,
            z,
        ) by {
            assert(le((x.0@, x.1), (y.0@, y.1)) && le((y.0@, y.1), (z.0@, z.1)));
        }
    }

    fn at_most(sort: SortOrder, x: &Self, y: &Self) -> (r: bool) {
        match sort {
            SortOrder::Size => x.1 >= y.1,
            SortOrder::Name => x.0.at_most(y.0),
        }
    }
}

/// Keeps the entries that are large enough and puts them in listing order.
fn list_entries<'a>(
    entries: &Vec<(&'a PathBuf, u64)>,
    sort: SortOrder,
    min_size: Option<u64>,
) -> (r: Vec<(&'a PathBuf, u64)>)
    ensures
        listed(r@) == listing(listed(entries@), sort, min_size),
{
    let mut kept: Vec<(&'a PathBuf, u64)> = Vec::new();
    let mut i: usize = 0;
    let ghost pred = large_enough(min_size);
    assert(listed(entries@.take(0)).filter(pred) =~= seq![]) by {
        reveal(Seq::filter);
    }
    while i < entries.len()
        invariant
            i <= entries.len(),
            pred == large_enough(min_size),
            listed(kept@) == listed(entries@.take(i as int)).filter(pred),
        decreases entries.len() - i,
    {
        let e = entries[i];
        let keep = match min_size {
            Some(min) => e.1 >= min,
            None => true,
        };
        proof {
            let before = listed(entries@.take(i as int));
            let after = listed(entries@.take(i + 1));
            assert(after.drop_last() =~= before);
            assert(after.last() == (e.0@, e.1));
            reveal(Seq::filter);
        }
        let ghost old_kept = kept@;
        if keep {
            kept.push(e);
            assert(listed(kept@) =~= listed(old_kept).push((e.0@, e.1)));
        }
        i = i + 1;
    }
    assert(entries@.take(i as int) =~= entries@);
    let r = arrange(&kept, sort);
    proof {
        let key = |e: (&'a PathBuf, u64)| (e.0@, e.1);
        order::lemma_arranged_map(kept@, key, <(&'a PathBuf, u64)>::ranking(sort), entry_le(sort));
        assert(kept@.map_values(key) =~= listed(kept@));
        assert(r@.map_values(key) =~= listed(r@));
    }
    r
}

impl DirNode {
    /// All files below this directory.
    pub open spec fn files(self) -> Seq<Entry> {
        files_below(self.children@)
    }

    /// All directories below this one, with their total sizes.
    pub open spec fn dirs(self) -> Seq<Entry> {
        dirs_below(self.children@)
    }

    /// The totals of this directory, and of every one below it, are the sums over
    /// the entries that it holds.
    pub open spec fn rolled_up(self) -> bool {
        &&& self.total_size == size_sum(self.children@)
        &&& self.file_count == count_sum(self.children@)
        &&& all_rolled_up(self.children@)
    }

    pub fn new(path: PathBuf) -> (r: DirNode)
        ensures
            r.path == path,
            r.children@ == Seq::<EntryNode>::empty(),
            r.total_size == 0,
            r.file_count == 0,
            r.rolled_up(),
            r.files() == Seq::<Entry>::empty(),
            r.dirs() == Seq::<Entry>::empty(),
    {
        DirNode { path, children: Vec::new(), total_size: 0, file_count: 0 }
    }

    /// Puts one more file into this directory.
    pub fn add_file(&mut self, path: PathBuf, size: u64)
        requires
            old(self).total_size + size <= u64::MAX,
            old(self).file_count < u64::MAX,
        ensures
            final(self).path == old(self).path,
            final(self).children@ == old(self).children@.push(
                EntryNode::File((FileEntry { path, size })),
            ),
            final(self).total_size == old(self).total_size + size,
            final(self).file_count == old(self).file_count + 1,
            final(self).files() == old(self).files().push((path@, size)),
            final(self).dirs() == old(self).dirs(),
            old(self).rolled_up() ==> final(self).rolled_up(),
    {
        self.total_size = self.total_size + size;
        self.file_count = self.file_count + 1;
        let entry = EntryNode::File(FileEntry { path, size });
        let ghost e = entry;
        self.children.push(entry);
        proof {
            assert(self.children@.drop_last() =~= old(self).children@);
            assert(self.children@.last() == e);
            assert(files_at(e) =~= seq![(path@, size)]);
            assert(self.files() =~= old(self).files().push((path@, size)));
            assert(dirs_at(e) =~= seq![]);
            assert(self.dirs() =~= old(self).dirs());
            assert(entry_rolled_up(e));
            assert(all_rolled_up(old(self).children@) ==> all_rolled_up(self.children@));
        }
    }

    /// Puts a scanned directory into this one.
    pub fn adopt(&mut self, child: DirNode)
        requires
            old(self).total_size + child.total_size <= u64::MAX,
            old(self).file_count + child.file_count <= u64::MAX,
        ensures
            final(self).path == old(self).path,
            final(self).children@ == old(self).children@.push(EntryNode::Dir(Box::new(child))),
            final(self).total_size == old(self).total_size + child.total_size,
            final(self).file_count == old(self).file_count + child.file_count,
            final(self).files() == old(self).files() + child.files(),
            final(self).dirs() == old(self).dirs().push((child.path@, child.total_size))
                + child.dirs(),
            old(self).rolled_up() && child.rolled_up() ==> final(self).rolled_up(),
    {
        self.total_size = self.total_size + child.total_size;
        self.file_count = self.file_count + child.file_count;
        let entry = EntryNode::Dir(Box::new(child));
        let ghost e = entry;
        self.children.push(entry);
        proof {
            assert(self.children@.drop_last() =~= old(self).children@);
            assert(self.children@.last() == e);
            assert(files_at(e) == child.files());
            assert(dirs_at(e) == seq![(child.path@, child.total_size)] + child.dirs());
            assert(self.dirs() =~= old(self).dirs().push((child.path@, child.total_size))
                + child.dirs());
            assert(child.rolled_up() ==> entry_rolled_up(e));
            assert(all_rolled_up(old(self).children@) && child.rolled_up() ==> all_rolled_up(
                self.children@,
            ));
        }
    }

    /// All files below this directory, the largest first.
    pub fn flat_sorted(&self) -> (r: Vec<(&PathBuf, u64)>)
        ensures
            listed(r@) == listing(self.files(), SortOrder::Size, None),
    {
        self.flat_sorted_with(SortOrder::Size, None)
    }

    /// All files below this directory that have at least the size `min_size`.
    pub fn flat_sorted_with(&self, sort: SortOrder, min_size: Option<u64>) -> (r: Vec<
        (&PathBuf, u64),
    >)
        ensures
            listed(r@) == listing(self.files(), sort, min_size),
    {
        let mut out: Vec<(&PathBuf, u64)> = Vec::new();
        self.collect_flat(&mut out);
        assert(listed(out@) =~= self.files());
        list_entries(&out, sort, min_size)
    }

    fn collect_flat<'a>(&'a self, out: &mut Vec<(&'a PathBuf, u64)>)
        ensures
            listed(final(out)@) == listed(old(out)@) + self.files(),
        decreases self,
    {
        let mut i: usize = 0;
        assert(listed(out@) =~= listed(old(out)@) + files_below(self.children@.take(0)));
        while i < self.children.len()
            invariant
                i <= self.children.len(),
                listed(out@) == listed(old(out)@) + files_below(self.children@.take(i as int)),
            decreases self.children.len() - i,
        {
            let ghost before = out@;
            match &self.children[i] {
                EntryNode::Dir(d) => {
                    d.collect_flat(out);
                },
                EntryNode::File(f) => {
                    out.push((f.path.as_path(), f.size));
                    assert(listed(out@) =~= listed(before).push((f.path@, f.size)));
                },
            }
            proof {
                let upto = self.children@.take(i + 1);
                assert(upto.drop_last() =~= self.children@.take(i as int));
                assert(listed(out@) =~= listed(before) + files_at(self.children@[i as int]));
                assert(listed(out@) =~= listed(old(out)@) + files_below(upto));
            }
            i = i + 1;
        }
        assert(self.children@.take(i as int) =~= self.children@);
    }

    /// All directories below this one whose total size is at least `min_size`.
    /// This directory itself is not listed.
    pub fn dirs_sorted_with(&self, sort: SortOrder, min_size: Option<u64>) -> (r: Vec<
        (&PathBuf, u64),
    >)
        ensures
            listed(r@) == listing(self.dirs(), sort, min_size),
    {
        let mut out: Vec<(&PathBuf, u64)> = Vec::new();
        self.collect_dirs(&mut out);
        assert(listed(out@) =~= self.dirs());
        list_entries(&out, sort, min_size)
    }

    /// Sizes and counts of the files below this directory, grouped by extension:
    /// rows of the extension, its total bytes and its number of files. Files
    /// without an extension come under the empty one.
    pub fn by_extension_sorted(&self, sort: SortOrder) -> (r: Vec<(String, u64, u64)>)
        requires
            breakdown::countable(self.files()),
        ensures
            breakdown::tallies(r@) == breakdown::breakdown_listing(self.files(), sort),
    {
        let mut out: Vec<(&PathBuf, u64)> = Vec::new();
        self.collect_flat(&mut out);
        assert(listed(out@) =~= self.files());
        let rows = tally_files_by_extension(&out);
        list_tallies(&rows, sort)
    }

    fn collect_dirs<'a>(&'a self, out: &mut Vec<(&'a PathBuf, u64)>)
        ensures
            listed(final(out)@) == listed(old(out)@) + self.dirs(),
        decreases self,
    {
        let mut i: usize = 0;
        assert(listed(out@) =~= listed(old(out)@) + dirs_below(self.children@.take(0)));
        while i < self.children.len()
            invariant
                i <= self.children.len(),
                listed(out@) == listed(old(out)@) + dirs_below(self.children@.take(i as int)),
            decreases self.children.len() - i,
        {
            let ghost before = out@;
            if let EntryNode::Dir(d) = &self.children[i] {
                out.push((d.path.as_path(), d.total_size));
                assert(listed(out@) =~= listed(before).push((d.path@, d.total_size)));
                d.collect_dirs(out);
            }
            proof {
                let upto = self.children@.take(i + 1);
                assert(upto.drop_last() =~= self.children@.take(i as int));
                assert(listed(out@) =~= listed(before) + dirs_at(self.children@[i as int]));
                assert(listed(out@) =~= listed(old(out)@) + dirs_below(upto));
            }
            i = i + 1;
        }
        assert(self.children@.take(i as int) =~= self.children@);
    }
}

/// A directory's total is the bytes of all files below it, and its count is
/// their number.
pub proof fn law_rolled_up_totals(d: DirNode)
    requires
        d.rolled_up(),
    ensures
        d.total_size == total_bytes(d.files()),
        d.file_count == d.files().len(),
{
    lemma_sums_below(d.children@);
}

/// All directories at or below `children`, each with the files below it, in the
/// order of `dirs_below`.
pub open spec fn contents_below(children: Seq<EntryNode>) -> Seq<(Seq<u8>, Seq<Entry>)>
    decreases children,
{
    if children.len() == 0 {
        seq![]
    } else {
        contents_below(children.drop_last()) + contents_at(children.last())
    }
}

pub open spec fn contents_at(e: EntryNode) -> Seq<(Seq<u8>, Seq<Entry>)>
    decreases e,
{
    match e {
        EntryNode::File(_) => seq![],
        EntryNode::Dir(d) => seq![(d.path@, files_below(d.children@))] + contents_below(
            d.children@,
        ),
    }
}

/// Every directory is listed with the bytes of all files below it.
pub proof fn law_directories_are_listed_with_their_files(d: DirNode)
    requires
        d.rolled_up(),
    ensures
        d.dirs() == contents_below(d.children@).map_values(
            |c: (Seq<u8>, Seq<Entry>)| (c.0, total_bytes(c.1) as u64),
        ),
        forall|i: int|
            0 <= i < d.dirs().len() ==> (#[trigger] d.dirs()[i]).1 == total_bytes(
                contents_below(d.children@)[i].1,
            ),
{
    lemma_dirs_below(d.children@);
    let f = |c: (Seq<u8>, Seq<Entry>)| (c.0, total_bytes(c.1) as u64);
    assert(d.dirs() =~= contents_below(d.children@).map_values(f));
}

/// Two parallel listings: directories with sizes, and with their files.
spec fn same_dirs(dirs: Seq<Entry>, contents: Seq<(Seq<u8>, Seq<Entry>)>) -> bool {
    &&& dirs.len() == contents.len()
    &&& forall|i: int|
        #![trigger dirs[i]]
        #![trigger contents[i]]
        0 <= i < dirs.len() ==> dirs[i].0 == contents[i].0 && dirs[i].1 == total_bytes(
            contents[i].1,
        )
}

proof fn lemma_dirs_below(children: Seq<EntryNode>)
    requires
        all_rolled_up(children),
    ensures
        same_dirs(dirs_below(children), contents_below(children)),
    decreases children,
{
    if children.len() > 0 {
        lemma_dirs_below(children.drop_last());
        lemma_dirs_at(children.last());
    }
}

proof fn lemma_dirs_at(e: EntryNode)
    requires
        entry_rolled_up(e),
    ensures
        same_dirs(dirs_at(e), contents_at(e)),
    decreases e,
{
    if let EntryNode::Dir(d) = e {
        lemma_dirs_below(d.children@);
        lemma_sums_below(d.children@);
    }
}

/// The totals of a rolled up directory keep every extension's totals in range.
pub proof fn law_rolled_up_is_countable(d: DirNode)
    requires
        d.rolled_up(),
    ensures
        breakdown::countable(d.files()),
{
    law_rolled_up_totals(d);
    breakdown::law_totals_in_range_are_countable(d.files());
}

proof fn lemma_sums_below(children: Seq<EntryNode>)
    requires
        all_rolled_up(children),
    ensures
        size_sum(children) == total_bytes(files_below(children)),
        count_sum(children) == files_below(children).len(),
    decreases children,
{
    if children.len() > 0 {
        lemma_sums_below(children.drop_last());
        lemma_sums_at(children.last());
        lemma_total_bytes_concat(files_below(children.drop_last()), files_at(children.last()));
    }
}

proof fn lemma_sums_at(e: EntryNode)
    requires
        entry_rolled_up(e),
    ensures
        entry_of(e).1 == total_bytes(files_at(e)),
        entry_count(e) == files_at(e).len(),
    decreases e,
{
    match e {
        EntryNode::File(f) => {
            assert(files_at(e).drop_last() =~= seq![]);
            assert(total_bytes(files_at(e).drop_last()) == 0);
        },
        EntryNode::Dir(d) => {
            lemma_sums_below(d.children@);
        },
    }
}

pub proof fn lemma_total_bytes_concat(a: Seq<Entry>, b: Seq<Entry>)
    ensures
        total_bytes(a + b) == total_bytes(a) + total_bytes(b),
    decreases b.len(),
{
    if b.len() == 0 {
        assert(a + b =~= a);
    } else {
        assert((a + b).drop_last() =~= a + b.drop_last());
        lemma_total_bytes_concat(a, b.drop_last());
    }
}

/// A listing holds exactly the entries that are large enough, each as often as
/// it was found, and they stand in the order asked for.
pub proof fn law_listing(s: Seq<Entry>, sort: SortOrder, min_size: Option<u64>)
    ensures
        listing(s, sort, min_size).to_multiset() == s.filter(large_enough(min_size)).to_multiset(),
        order::in_order(listing(s, sort, min_size), entry_le(sort)),
        forall|e: Entry| #[trigger]
            listing(s, sort, min_size).contains(e) <==> s.contains(e) && large_enough(min_size)(e),
{
    let kept = s.filter(large_enough(min_size));
    let r = listing(s, sort, min_size);
    lemma_entry_le_is_total_preorder(sort);
    order::law_arranged_keeps_elements(kept, entry_le(sort));
    order::law_arranged_is_in_order(kept, entry_le(sort));
    assert forall|e: Entry| #[trigger] r.contains(e) <==> s.contains(e) && large_enough(min_size)(e) by {
        broadcast use {
            vstd::seq_lib::group_to_multiset_ensures,
            vstd::seq_lib::group_filter_ensures,
        };

        assert(r.contains(e) <==> r.to_multiset().count(e) > 0);
        assert(kept.contains(e) <==> kept.to_multiset().count(e) > 0);
        if s.contains(e) && large_enough(min_size)(e) {
            s.lemma_filter_contains_rev(large_enough(min_size), e);
        }
        if kept.contains(e) {
            let i = choose|i: int| 0 <= i < kept.len() && kept[i] == e;
            s.lemma_filter_pred(large_enough(min_size), i);
            lemma_filtered_was_there(s, large_enough(min_size), i);
        }
    }
}

proof fn lemma_filtered_was_there(s: Seq<Entry>, pred: spec_fn(Entry) -> bool, i: int)
    requires
        0 <= i < s.filter(pred).len(),
    ensures
        s.contains(s.filter(pred)[i]),
    decreases s.len(),
{
    reveal(Seq::filter);
    if s.len() > 0 {
        let before = s.drop_last().filter(pred);
        if i < before.len() {
            lemma_filtered_was_there(s.drop_last(), pred, i);
            let k = choose|k: int| 0 <= k < s.len() - 1 && s.drop_last()[k] == before[i];
            assert(s[k] == before[i]);
        } else {
            assert(s[s.len() - 1] == s.filter(pred)[i]);
        }
    }
}

/// A lower limit of zero lists what no limit lists.
pub proof fn law_zero_limit_is_no_limit(s: Seq<Entry>, sort: SortOrder)
    ensures
        listing(s, sort, Some(0)) == listing(s, sort, None),
{
    assert(large_enough(Some(0)) =~= large_enough(None));
}

/// The bytes of files are the sum of their sizes, one after the other.
pub proof fn law_total_is_the_sum_of_the_sizes(files: Seq<Entry>)
    ensures
        total_bytes(files) == files.fold_left(0int, |sum: int, e: Entry| sum + e.1),
    decreases files.len(),
{
    let f = |sum: int, e: Entry| sum + e.1;
    reveal_with_fuel(Seq::fold_left, 2);
    if files.len() > 0 {
        law_total_is_the_sum_of_the_sizes(files.drop_last());
    }
}

/// A tree lists what is put into it, behind what it listed before: a file with its
/// size as a file, and a directory with its total as a directory, followed by what
/// is in it. An empty tree lists nothing.
pub proof fn law_tree_lists_what_is_put_in(
    children: Seq<EntryNode>,
    file: FileEntry,
    dir: DirNode,
)
    ensures
        files_below(seq![]) == Seq::<Entry>::empty(),
        dirs_below(seq![]) == Seq::<Entry>::empty(),
        files_below(children.push(EntryNode::File(file))) == files_below(children).push(
            (file.path@, file.size),
        ),
        dirs_below(children.push(EntryNode::File(file))) == dirs_below(children),
        files_below(children.push(EntryNode::Dir(Box::new(dir)))) == files_below(children)
            + files_below(dir.children@),
        dirs_below(children.push(EntryNode::Dir(Box::new(dir)))) == dirs_below(children).push(
            (dir.path@, dir.total_size),
        ) + dirs_below(dir.children@),
{
    let f = EntryNode::File(file);
    let d = EntryNode::Dir(Box::new(dir));
    assert(children.push(f).drop_last() =~= children);
    assert(children.push(d).drop_last() =~= children);
    assert(files_at(d) == files_below(dir.children@));
    assert(files_below(children) + files_at(f) =~= files_below(children).push(
        (file.path@, file.size),
    ));
    assert(dirs_below(children) + dirs_at(f) =~= dirs_below(children));
    assert(dirs_below(children) + dirs_at(d) =~= dirs_below(children).push(
        (dir.path@, dir.total_size),
    ) + dirs_below(dir.children@));
}

/// A rolled up directory, and every one in it, has the sizes and counts of the
/// entries that it holds: one file and its size for each file, and the totals of
/// each directory. Conversely such a directory is rolled up.
pub proof fn law_rolled_up_is_the_sum_of_the_entries(d: DirNode, file: FileEntry, child: DirNode)
    ensures
        d.children@.len() == 0 ==> (d.rolled_up() <==> d.total_size == 0 && d.file_count == 0),
        forall|e: DirNode|
            {
                &&& d.rolled_up()
                &&& #[trigger] e.children@ == d.children@.push(EntryNode::File(file))
            } ==> (e.rolled_up() <==> e.total_size == d.total_size + file.size && e.file_count
                == d.file_count + 1),
        forall|e: DirNode|
            {
                &&& d.rolled_up()
                &&& child.rolled_up()
                &&& #[trigger] e.children@ == d.children@.push(EntryNode::Dir(Box::new(child)))
            } ==> (e.rolled_up() <==> e.total_size == d.total_size + child.total_size
                && e.file_count == d.file_count + child.file_count),
{
    let f = EntryNode::File(file);
    let c = EntryNode::Dir(Box::new(child));
    assert(d.children@.push(f).drop_last() =~= d.children@);
    assert(d.children@.push(c).drop_last() =~= d.children@);
    assert(entry_rolled_up(f));
    assert(child.rolled_up() ==> entry_rolled_up(c));
    assert(d.rolled_up() ==> all_rolled_up(d.children@.push(f)));
    assert(d.rolled_up() && child.rolled_up() ==> all_rolled_up(d.children@.push(c)));
}

/// A listing holds exactly the entries that are not below the lower limit, each as
/// often as it was found; by size, none stands before a larger one, and by name,
/// none before one whose path comes first.
pub proof fn law_listing_is_filtered_and_in_order(
    s: Seq<Entry>,
    sort: SortOrder,
    min_size: Option<u64>,
)
    ensures
        ({
            let r = listing(s, sort, min_size);
            &&& forall|e: Entry| #[trigger]
                r.to_multiset().count(e) == if min_size is Some && e.1 < min_size->0 {
                    0
                } else {
                    s.to_multiset().count(e)
                }
            &&& forall|e: Entry| #[trigger]
                r.contains(e) <==> s.contains(e) && (min_size is None || e.1 >= min_size->0)
            &&& min_size is None ==> r.len() == s.len()
            &&& r.len() <= s.len()
            &&& sort == SortOrder::Size ==> forall|i: int, j: int|
                0 <= i <= j < r.len() ==> (#[trigger] r[i]).1 >= (#[trigger] r[j]).1
            &&& sort == SortOrder::Name ==> forall|i: int, j: int|
                0 <= i <= j < r.len() ==> path::path_le((#[trigger] r[i]).0, (#[trigger] r[j]).0)
        }),
{
    let kept = s.filter(large_enough(min_size));
    let r = listing(s, sort, min_size);
    let le = entry_le(sort);
    law_listing(s, sort, min_size);
    order::law_arranged_keeps_elements(kept, le);
    lemma_filter_counts(s, large_enough(min_size));
    assert forall|i: int, j: int| 0 <= i <= j < r.len() implies match sort {
        SortOrder::Size => (#[trigger] r[i]).1 >= (#[trigger] r[j]).1,
        SortOrder::Name => path::path_le(r[i].0, r[j].0),
    } by {
        assert(le(r[i], r[j]));
    }
    if min_size is None {
        lemma_filter_keeps_all(s, large_enough(min_size));
    }
}

proof fn lemma_filter_counts(s: Seq<Entry>, pred: spec_fn(Entry) -> bool)
    ensures
        forall|e: Entry| #[trigger]
            s.filter(pred).to_multiset().count(e) == if pred(e) {
                s.to_multiset().count(e)
            } else {
                0
            },
        s.filter(pred).len() <= s.len(),
    decreases s.len(),
{
    reveal(Seq::filter);
    broadcast use vstd::seq_lib::group_to_multiset_ensures;

    if s.len() > 0 {
        lemma_filter_counts(s.drop_last(), pred);
        assert(s =~= s.drop_last().push(s.last()));
        let before = s.drop_last().filter(pred);
        if pred(s.last()) {
            assert(s.filter(pred) =~= before.push(s.last()));
        } else {
            assert(s.filter(pred) =~= before);
        }
        assert forall|e: Entry| #[trigger] s.filter(pred).to_multiset().count(e) == if pred(e) {
            s.to_multiset().count(e)
        } else {
            0
        } by {
            assert(before.to_multiset().count(e) == if pred(e) {
                s.drop_last().to_multiset().count(e)
            } else {
                0
            });
        }
    } else {
        assert(s.filter(pred) =~= s);
        assert(s =~= Seq::<Entry>::empty());
    }
}

proof fn lemma_filter_keeps_all(s: Seq<Entry>, pred: spec_fn(Entry) -> bool)
    requires
        forall|e: Entry| #[trigger] pred(e),
    ensures
        s.filter(pred) == s,
    decreases s.len(),
{
    reveal(Seq::filter);
    if s.len() > 0 {
        lemma_filter_keeps_all(s.drop_last(), pred);
        assert(pred(s.last()));
        assert(s.filter(pred) =~= s);
    } else {
        assert(s.filter(pred) =~= s);
    }
}

} // verus!
