//! Sizes and file counts grouped by file extension.

use crate::aggregator::Entry;
use crate::order::{arrange, Ranked, SortOrder, Standing};
use crate::path::PathBuf;
use crate::text::compare_text;
use crate::{aggregator, order, path, text};
use vstd::prelude::*;

verus! {

/// An extension, the bytes in its files, and the number of its files.
pub type Tally = (Seq<char>, nat, nat);

/// The extension under which a file is counted: in lower case, and empty where
/// the path has none that is UTF-8.
pub open spec fn ext_label(path: Seq<u8>) -> Seq<char> {
    match path::lower_extension(path) {
        Some(ext) => ext,
        None => seq![],
    }
}

/// `table` with one more file of `size` bytes counted under `ext`.
pub open spec fn tallied(table: Seq<Tally>, ext: Seq<char>, size: nat) -> Seq<Tally>
    decreases table.len(),
{
    if table.len() == 0 || text::text_lt(ext, table[0].0) {
        seq![(ext, size, 1nat)] + table
    } else if ext == table[0].0 {
        seq![(ext, table[0].1 + size, table[0].2 + 1)] + table.drop_first()
    } else {
        seq![table[0]] + tallied(table.drop_first(), ext, size)
    }
}

/// The files counted by extension, the extensions in alphabetical order.
pub open spec fn breakdown(files: Seq<Entry>) -> Seq<Tally>
    decreases files.len(),
{
    if files.len() == 0 {
        seq![]
    } else {
        tallied(breakdown(files.drop_last()), ext_label(files.last().0), files.last().1 as nat)
    }
}

/// The bytes in the files that are counted under `ext`.
pub open spec fn ext_bytes(files: Seq<Entry>, ext: Seq<char>) -> nat
    decreases files.len(),
{
    if files.len() == 0 {
        0
    } else if ext_label(files.last().0) == ext {
        ext_bytes(files.drop_last(), ext) + files.last().1 as nat
    } else {
        ext_bytes(files.drop_last(), ext)
    }
}

/// The number of files that are counted under `ext`.
pub open spec fn ext_files(files: Seq<Entry>, ext: Seq<char>) -> nat
    decreases files.len(),
{
    if files.len() == 0 {
        0
    } else if ext_label(files.last().0) == ext {
        ext_files(files.drop_last(), ext) + 1
    } else {
        ext_files(files.drop_last(), ext)
    }
}

/// The totals of every extension fit in 64 bits.
pub open spec fn countable(files: Seq<Entry>) -> bool {
    forall|ext: Seq<char>| #[trigger]
        ext_bytes(files, ext) <= u64::MAX && ext_files(files, ext) <= u64::MAX
}

/// The order of a breakdown: by size the largest first, or by extension.
pub open spec fn tally_le(sort: SortOrder) -> spec_fn(Tally, Tally) -> bool {
    |x: Tally, y: Tally|
        match sort {
            SortOrder::Size => x.1 >= y.1,
            SortOrder::Name => !text::text_lt(y.0, x.0),
        }
}

/// The breakdown in listing order; extensions of equal size stand alphabetically.
pub open spec fn breakdown_listing(files: Seq<Entry>, sort: SortOrder) -> Seq<Tally> {
    order::arranged(breakdown(files), tally_le(sort))
}

/// The extensions stand in alphabetical order, each once.
pub open spec fn ascending(table: Seq<Tally>) -> bool {
    forall|i: int, j: int|
        #![trigger table[i], table[j]]
        0 <= i < j < table.len() ==> text::text_lt(table[i].0, table[j].0)
}

/// The tallies that rows stand for.
pub open spec fn tallies(rows: Seq<(String, u64, u64)>) -> Seq<Tally> {
    rows.map_values(|row: (String, u64, u64)| (row.0@, row.1 as nat, row.2 as nat))
}

proof fn lemma_text_order(a: Seq<char>, b: Seq<char>)
    ensures
        a == b || text::text_lt(a, b) || text::text_lt(b, a),
        text::text_lt(a, b) ==> a != b && !text::text_lt(b, a),
{
    text::lemma_char_lt_is_strict();
    order::lemma_lex_standing(a, b, text::char_lt());
}

proof fn lemma_text_chain(a: Seq<char>, b: Seq<char>, c: Seq<char>)
    requires
        text::text_lt(a, b),
        text::text_lt(b, c),
    ensures
        text::text_lt(a, c),
{
    text::lemma_char_lt_is_strict();
    order::lemma_lex_lt_is_strict(text::char_lt());
    let f = |x: Seq<char>, y: Seq<char>| order::lex_lt(x, y, text::char_lt());
    assert(f(a, b) && f(b, c));
    assert(f(a, c));
}

/// What counting one more file does to a table, where `at` is the number of
/// leading extensions before `ext`.
proof fn lemma_tallied_at(table: Seq<Tally>, ext: Seq<char>, size: nat, at: int)
    requires
        0 <= at <= table.len(),
        forall|i: int| 0 <= i < at ==> text::text_lt((#[trigger] table[i]).0, ext),
        at < table.len() ==> !text::text_lt(table[at].0, ext),
    ensures
        tallied(table, ext, size) == if at < table.len() && table[at].0 == ext {
            table.update(at, (ext, table[at].1 + size, table[at].2 + 1))
        } else {
            table.insert(at, (ext, size, 1nat))
        },
    decreases table.len(),
{
    if at == 0 {
        if table.len() > 0 {
            lemma_text_order(table[0].0, ext);
            assert(tallied(table, ext, size) =~= if table[0].0 == ext {
                table.update(0, (ext, table[0].1 + size, table[0].2 + 1))
            } else {
                table.insert(0, (ext, size, 1nat))
            });
        } else {
            assert(tallied(table, ext, size) =~= table.insert(0, (ext, size, 1nat)));
        }
    } else {
        let rest = table.drop_first();
        assert(text::text_lt(table[0].0, ext));
        lemma_text_order(table[0].0, ext);
        assert forall|i: int| 0 <= i < at - 1 implies text::text_lt((#[trigger] rest[i]).0, ext) by {
            assert(rest[i] == table[i + 1]);
        }
        lemma_tallied_at(rest, ext, size, at - 1);
        assert(tallied(table, ext, size) =~= if at < table.len() && table[at].0 == ext {
            table.update(at, (ext, table[at].1 + size, table[at].2 + 1))
        } else {
            table.insert(at, (ext, size, 1nat))
        });
    }
}

/// The number of leading extensions before `ext`.
spec fn place(table: Seq<Tally>, ext: Seq<char>) -> int
    decreases table.len(),
{
    if table.len() == 0 || !text::text_lt(table[0].0, ext) {
        0
    } else {
        1 + place(table.drop_first(), ext)
    }
}

proof fn lemma_place(table: Seq<Tally>, ext: Seq<char>)
    ensures
        0 <= place(table, ext) <= table.len(),
        forall|i: int| 0 <= i < place(table, ext) ==> text::text_lt((#[trigger] table[i]).0, ext),
        place(table, ext) < table.len() ==> !text::text_lt(table[place(table, ext)].0, ext),
    decreases table.len(),
{
    if table.len() > 0 && text::text_lt(table[0].0, ext) {
        let rest = table.drop_first();
        lemma_place(rest, ext);
        assert forall|i: int| 0 <= i < place(table, ext) implies text::text_lt(
            (#[trigger] table[i]).0,
            ext,
        ) by {
            if i > 0 {
                assert(table[i] == rest[i - 1]);
            }
        }
    }
}

/// A breakdown lists each extension once, in alphabetical order, with the
/// totals of its files, and lists it exactly where some file has it.
pub proof fn law_breakdown_counts_each_extension_once(files: Seq<Entry>)
    ensures
        ascending(breakdown(files)),
        forall|i: int| 0 <= i < breakdown(files).len() ==> {
            let row = #[trigger] breakdown(files)[i];
            &&& row.1 == ext_bytes(files, row.0)
            &&& row.2 == ext_files(files, row.0)
            &&& row.2 > 0
        },
        forall|ext: Seq<char>| #[trigger]
            ext_files(files, ext) > 0 ==> exists|i: int|
                0 <= i < breakdown(files).len() && (#[trigger] breakdown(files)[i]).0 == ext,
    decreases files.len(),
{
    let rows = breakdown(files);
    if files.len() > 0 {
        let before = files.drop_last();
        let table = breakdown(before);
        let ext = ext_label(files.last().0);
        let size = files.last().1 as nat;
        law_breakdown_counts_each_extension_once(before);
        let at = place(table, ext);
        lemma_place(table, ext);
        lemma_tallied_at(table, ext, size, at);
        let found = at < table.len() && table[at].0 == ext;
        assert forall|i: int| 0 <= i < table.len() && (#[trigger] table[i]).0 == ext implies found
            && i == at by {
            lemma_text_order(ext, ext);
            if i > at {
                assert(text::text_lt(table[at].0, table[i].0));
                lemma_text_order(table[at].0, ext);
            }
        }
        assert forall|i: int| at <= i < table.len() && !(found && i == at) implies text::text_lt(
            ext,
            (#[trigger] table[i]).0,
        ) by {
            lemma_text_order(table[at].0, ext);
            if i > at {
                assert(text::text_lt(table[at].0, table[i].0));
                if !found {
                    lemma_text_chain(ext, table[at].0, table[i].0);
                }
            }
        }
        assert forall|i: int, j: int|
            #![trigger rows[i], rows[j]]
            0 <= i < j < rows.len() implies text::text_lt(rows[i].0, rows[j].0) by {
            let from_i = if found || i < at {
                i
            } else {
                i - 1
            };
            let from_j = if found || j < at {
                j
            } else {
                j - 1
            };
            if i != at {
                assert(rows[i].0 == table[from_i].0);
            }
            if j != at {
                assert(rows[j].0 == table[from_j].0);
            }
            if i != at && j != at {
                assert(text::text_lt(table[from_i].0, table[from_j].0));
            } else if j == at {
                assert(text::text_lt(table[from_i].0, ext));
            } else {
                assert(text::text_lt(ext, table[from_j].0));
            }
        }
        if !found {
            assert(ext_files(before, ext) == 0) by {
                if ext_files(before, ext) > 0 {
                    let i = choose|i: int| 0 <= i < table.len() && (#[trigger] table[i]).0 == ext;
                    assert(found);
                }
            }
            lemma_no_files_no_bytes(before, ext);
        }
        assert forall|i: int| 0 <= i < rows.len() implies {
            let row = #[trigger] rows[i];
            &&& row.1 == ext_bytes(files, row.0)
            &&& row.2 == ext_files(files, row.0)
            &&& row.2 > 0
        } by {
            let from = if found || i < at {
                i
            } else {
                i - 1
            };
            if i != at {
                assert(rows[i] == table[from]);
                assert(table[from].0 != ext);
            } else if found {
                assert(rows[i] == (ext, table[at].1 + size, table[at].2 + 1));
            }
        }
        assert forall|e: Seq<char>| #[trigger] ext_files(files, e) > 0 implies exists|i: int|
            0 <= i < rows.len() && (#[trigger] rows[i]).0 == e by {
            if e == ext {
                assert(rows[at].0 == e);
            } else {
                assert(ext_files(before, e) > 0);
                let i = choose|i: int| 0 <= i < table.len() && (#[trigger] table[i]).0 == e;
                let to = if found || i < at {
                    i
                } else {
                    i + 1
                };
                assert(rows[to].0 == e);
            }
        }
    }
}

proof fn lemma_no_files_no_bytes(files: Seq<Entry>, ext: Seq<char>)
    requires
        ext_files(files, ext) == 0,
    ensures
        ext_bytes(files, ext) == 0,
    decreases files.len(),
{
    if files.len() > 0 {
        lemma_no_files_no_bytes(files.drop_last(), ext);
    }
}

/// Each file is counted under one extension only: the rows of a breakdown add
/// up to all files and all their bytes.
pub proof fn law_breakdown_adds_up(files: Seq<Entry>)
    ensures
        tally_bytes(breakdown(files)) == aggregator::total_bytes(files),
        tally_files(breakdown(files)) == files.len(),
    decreases files.len(),
{
    if files.len() > 0 {
        law_breakdown_adds_up(files.drop_last());
        lemma_tallied_adds(
            breakdown(files.drop_last()),
            ext_label(files.last().0),
            files.last().1 as nat,
        );
    }
}

/// The bytes of all rows together.
pub open spec fn tally_bytes(table: Seq<Tally>) -> nat
    decreases table.len(),
{
    if table.len() == 0 {
        0
    } else {
        table[0].1 + tally_bytes(table.drop_first())
    }
}

/// The files of all rows together.
pub open spec fn tally_files(table: Seq<Tally>) -> nat
    decreases table.len(),
{
    if table.len() == 0 {
        0
    } else {
        table[0].2 + tally_files(table.drop_first())
    }
}

proof fn lemma_tallied_adds(table: Seq<Tally>, ext: Seq<char>, size: nat)
    ensures
        tally_bytes(tallied(table, ext, size)) == tally_bytes(table) + size,
        tally_files(tallied(table, ext, size)) == tally_files(table) + 1,
    decreases table.len(),
{
    let r = tallied(table, ext, size);
    if table.len() == 0 || text::text_lt(ext, table[0].0) {
        assert(r.drop_first() =~= table);
    } else if ext == table[0].0 {
        assert(r.drop_first() =~= table.drop_first());
    } else {
        lemma_tallied_adds(table.drop_first(), ext, size);
        assert(r.drop_first() =~= tallied(table.drop_first(), ext, size));
    }
}

/// Where the bytes of all files fit in 64 bits, and their number does, so do the
/// totals of every extension.
pub proof fn law_totals_in_range_are_countable(files: Seq<Entry>)
    requires
        aggregator::total_bytes(files) <= u64::MAX,
        files.len() <= u64::MAX,
    ensures
        countable(files),
{
    assert forall|ext: Seq<char>| #[trigger]
        ext_bytes(files, ext) <= u64::MAX && ext_files(files, ext) <= u64::MAX by {
        lemma_ext_part(files, ext);
    }
}

proof fn lemma_ext_part(files: Seq<Entry>, ext: Seq<char>)
    ensures
        ext_bytes(files, ext) <= aggregator::total_bytes(files),
        ext_files(files, ext) <= files.len(),
    decreases files.len(),
{
    if files.len() > 0 {
        lemma_ext_part(files.drop_last(), ext);
    }
}

proof fn lemma_ext_grows(files: Seq<Entry>, n: int, ext: Seq<char>)
    requires
        0 <= n <= files.len(),
    ensures
        ext_bytes(files.take(n), ext) <= ext_bytes(files, ext),
        ext_files(files.take(n), ext) <= ext_files(files, ext),
    decreases files.len(),
{
    if n == files.len() {
        assert(files.take(n) =~= files);
    } else {
        lemma_ext_grows(files.drop_last(), n, ext);
        assert(files.drop_last().take(n) =~= files.take(n));
    }
}

/// Counts one more file of `size` bytes under `ext`.
fn tally_file(rows: &mut Vec<(String, u64, u64)>, ext: String, size: u64)
    requires
        ascending(tallies(old(rows)@)),
        forall|i: int|
            0 <= i < old(rows).len() && (#[trigger] old(rows)@[i]).0@ == ext@ ==> old(rows)@[i].1
                + size <= u64::MAX && old(rows)@[i].2 < u64::MAX,
    ensures
        tallies(final(rows)@) == tallied(tallies(old(rows)@), ext@, size as nat),
{
    let mut lo: usize = 0;
    let mut hi: usize = rows.len();
    let ghost table = tallies(rows@);
    while lo < hi
        invariant
            lo <= hi <= rows.len(),
            rows@ == old(rows)@,
            table == tallies(rows@),
            ascending(table),
            forall|i: int|
                0 <= i < rows.len() && (#[trigger] rows@[i]).0@ == ext@ ==> rows@[i].1 + size
                    <= u64::MAX && rows@[i].2 < u64::MAX,
            forall|i: int| 0 <= i < lo ==> text::text_lt((#[trigger] table[i]).0, ext@),
            forall|i: int| hi <= i < table.len() ==> text::text_lt(ext@, (#[trigger] table[i]).0),
        decreases hi - lo,
    {
        let mid: usize = lo + (hi - lo) / 2;
        let standing = compare_text(rows[mid].0.as_str(), ext.as_str());
        assert(table[mid as int].0 == rows@[mid as int].0@);
        match standing {
            Standing::Before => {
                assert forall|i: int| 0 <= i < mid + 1 implies text::text_lt(
                    (#[trigger] table[i]).0,
                    ext@,
                ) by {
                    if i < mid {
                        lemma_text_chain(table[i].0, table[mid as int].0, ext@);
                    }
                }
                lo = mid + 1;
            },
            Standing::Behind => {
                assert forall|i: int| mid <= i < table.len() implies text::text_lt(
                    ext@,
                    (#[trigger] table[i]).0,
                ) by {
                    if i > mid {
                        lemma_text_chain(ext@, table[mid as int].0, table[i].0);
                    }
                }
                hi = mid;
            },
            Standing::Same => {
                let bytes = rows[mid].1 + size;
                let count = rows[mid].2 + 1;
                proof {
                    lemma_text_order(ext@, ext@);
                    lemma_tallied_at(table, ext@, size as nat, mid as int);
                }
                rows.set(mid, (ext, bytes, count));
                assert(tallies(rows@) =~= tallied(table, ext@, size as nat));
                return;
            },
        }
    }
    proof {
        if lo < table.len() {
            lemma_text_order(ext@, table[lo as int].0);
        }
        lemma_tallied_at(table, ext@, size as nat, lo as int);
    }
    rows.insert(lo, (ext, size, 1));
    assert(tallies(rows@) =~= tallied(table, ext@, size as nat));
}

/// Counts `files` by extension.
pub fn tally_files_by_extension(files: &Vec<(&PathBuf, u64)>) -> (r: Vec<(String, u64, u64)>)
    requires
        countable(aggregator::listed(files@)),
    ensures
        tallies(r@) == breakdown(aggregator::listed(files@)),
{
    let mut rows: Vec<(String, u64, u64)> = Vec::new();
    let mut i: usize = 0;
    let ghost all = aggregator::listed(files@);
    assert(tallies(rows@) =~= breakdown(all.take(0)));
    while i < files.len()
        invariant
            i <= files.len(),
            all == aggregator::listed(files@),
            countable(all),
            tallies(rows@) == breakdown(all.take(i as int)),
        decreases files.len() - i,
    {
        let ext = match files[i].0.lower_extension() {
            Some(ext) => ext,
            None => String::new(),
        };
        let ghost table = tallies(rows@);
        proof {
            let done = all.take(i as int);
            let next = all.take(i + 1);
            assert(next.drop_last() =~= done);
            assert(next.last() == (files@[i as int].0@, files@[i as int].1));
            assert(ext@ =~= ext_label(next.last().0));
            law_breakdown_counts_each_extension_once(done);
            lemma_ext_grows(all, i + 1, ext@);
            assert forall|k: int| 0 <= k < rows.len() && (#[trigger] rows@[k]).0@ == ext@ implies rows@[k].1
                + files@[i as int].1 <= u64::MAX && rows@[k].2 < u64::MAX by {
                assert(table[k] == (rows@[k].0@, rows@[k].1 as nat, rows@[k].2 as nat));
                assert(ext_bytes(all, ext@) <= u64::MAX);
            }
        }
        tally_file(&mut rows, ext, files[i].1);
        i = i + 1;
    }
    assert(all.take(i as int) =~= all);
    rows
}

impl<'a> Ranked for &'a (String, u64, u64) {
    open spec fn ranking(sort: SortOrder) -> spec_fn(Self, Self) -> bool {
        |x: &'a (String, u64, u64), y: &'a (String, u64, u64)|
            tally_le(sort)((x.0@, x.1 as nat, x.2 as nat), (y.0@, y.1 as nat, y.2 as nat))
    }

    proof fn ranking_is_total_preorder(sort: SortOrder) {
        let r = Self::ranking(sort);
        assert forall|x: Self, y: Self| #[trigger] r(x, y) || r(y, x) by {
            lemma_text_order(x.0@, y.0@);
        }
        assert forall|x: Self, y: Self, z: Self| #[trigger] r(x, y) && #[trigger] r(y, z) implies r(
            x,
            z,
        ) by {
            lemma_text_order(x.0@, y.0@);
            lemma_text_order(y.0@, z.0@);
            if text::text_lt(z.0@, x.0@) {
                if text::text_lt(x.0@, y.0@) {
                    lemma_text_chain(z.0@, x.0@, y.0@);
                }
            }
        }
    }

    fn at_most(sort: SortOrder, x: &Self, y: &Self) -> (r: bool) {
        match sort {
            SortOrder::Size => x.1 >= y.1,
            SortOrder::Name => match compare_text(y.0.as_str(), x.0.as_str()) {
                Standing::Before => false,
                _ => true,
            },
        }
    }
}

/// The rows in listing order.
pub fn list_tallies(rows: &Vec<(String, u64, u64)>, sort: SortOrder) -> (r: Vec<(String, u64, u64)>)
    ensures
        tallies(r@) == order::arranged(tallies(rows@), tally_le(sort)),
{
    let mut refs: Vec<&(String, u64, u64)> = Vec::new();
    let ghost key = |row: &(String, u64, u64)| (row.0@, row.1 as nat, row.2 as nat);
    let mut i: usize = 0;
    while i < rows.len()
        invariant
            i <= rows.len(),
            key == (|row: &(String, u64, u64)| (row.0@, row.1 as nat, row.2 as nat)),
            refs@.map_values(key) =~= tallies(rows@).take(i as int),
        decreases rows.len() - i,
    {
        let ghost before = refs@;
        refs.push(&rows[i]);
        proof {
            let row = tallies(rows@)[i as int];
            assert(refs@.map_values(key) =~= before.map_values(key).push(row));
            assert(tallies(rows@).take(i + 1) =~= tallies(rows@).take(i as int).push(row));
        }
        i = i + 1;
    }
    let sorted = arrange(&refs, sort);
    proof {
        order::lemma_arranged_map(
            refs@,
            key,
            <&(String, u64, u64)>::ranking(sort),
            tally_le(sort),
        );
        assert(tallies(rows@).take(i as int) =~= tallies(rows@));
    }
    let mut r: Vec<(String, u64, u64)> = Vec::new();
    let mut k: usize = 0;
    while k < sorted.len()
        invariant
            k <= sorted.len(),
            key == (|row: &(String, u64, u64)| (row.0@, row.1 as nat, row.2 as nat)),
            tallies(r@) =~= sorted@.map_values(key).take(k as int),
        decreases sorted.len() - k,
    {
        let row = sorted[k];
        let ghost before = r@;
        r.push((row.0.clone(), row.1, row.2));
        proof {
            let all = sorted@.map_values(key);
            assert(tallies(r@) =~= tallies(before).push(all[k as int]));
            assert(all.take(k + 1) =~= all.take(k as int).push(all[k as int]));
        }
        k = k + 1;
    }
    assert(sorted@.map_values(key).take(k as int) =~= sorted@.map_values(key));
    r
}

/// One more file adds its size and one to the extension that it has in lower case,
/// or to the empty one where it has none, and nothing to any other.
pub proof fn law_file_counts_for_its_extension(files: Seq<Entry>, file: Entry, ext: Seq<char>)
    ensures
        ext_bytes(seq![], ext) == 0 && ext_files(seq![], ext) == 0,
        ({
            let own = path::lower_extension(file.0);
            let counts = own == Some(ext) || (own is None && ext.len() == 0);
            &&& ext_bytes(files.push(file), ext) == ext_bytes(files, ext) + if counts {
                file.1 as nat
            } else {
                0
            }
            &&& ext_files(files.push(file), ext) == ext_files(files, ext) + if counts {
                1nat
            } else {
                0
            }
        }),
{
    assert(files.push(file).drop_last() =~= files);
    if ext.len() == 0 {
        assert(ext =~= seq![]);
    }
}

proof fn lemma_tally_le_is_total_preorder(sort: SortOrder)
    ensures
        order::total_preorder(tally_le(sort)),
{
    let r = tally_le(sort);
    assert forall|x: Tally, y: Tally| #[trigger] r(x, y) || r(y, x) by {
        lemma_text_order(x.0, y.0);
    }
    assert forall|x: Tally, y: Tally, z: Tally| #[trigger] r(x, y) && #[trigger] r(y, z) implies r(
        x,
        z,
    ) by {
        lemma_text_order(x.0, y.0);
        lemma_text_order(y.0, z.0);
        if text::text_lt(z.0, x.0) {
            if text::text_lt(x.0, y.0) {
                lemma_text_chain(z.0, x.0, y.0);
            }
        }
    }
}

/// A breakdown in listing order has one row for each extension that some file has,
/// with the bytes and the number of its files. By size no row stands before one
/// with more bytes, and by name the extensions stand alphabetically.
pub proof fn law_breakdown_is_in_order(files: Seq<Entry>, sort: SortOrder)
    ensures
        ({
            let r = breakdown_listing(files, sort);
            &&& r.to_multiset() == breakdown(files).to_multiset()
            &&& r.len() == breakdown(files).len()
            &&& forall|i: int|
                0 <= i < r.len() ==> {
                    let row = #[trigger] r[i];
                    &&& row.1 == ext_bytes(files, row.0)
                    &&& row.2 == ext_files(files, row.0)
                    &&& row.2 > 0
                }
            &&& forall|i: int, j: int|
                0 <= i < j < r.len() ==> (#[trigger] r[i]).0 != (#[trigger] r[j]).0
            &&& forall|ext: Seq<char>| #[trigger]
                ext_files(files, ext) > 0 ==> exists|i: int|
                    0 <= i < r.len() && (#[trigger] r[i]).0 == ext
            &&& sort == SortOrder::Size ==> forall|i: int, j: int|
                0 <= i <= j < r.len() ==> (#[trigger] r[i]).1 >= (#[trigger] r[j]).1
            &&& sort == SortOrder::Name ==> forall|i: int, j: int|
                0 <= i < j < r.len() ==> text::text_lt((#[trigger] r[i]).0, (#[trigger] r[j]).0)
        }),
{
    let table = breakdown(files);
    let r = breakdown_listing(files, sort);
    let le = tally_le(sort);
    law_breakdown_counts_each_extension_once(files);
    lemma_tally_le_is_total_preorder(sort);
    order::law_arranged_keeps_elements(table, le);
    order::law_arranged_is_in_order(table, le);
    assert forall|i: int| 0 <= i < r.len() implies {
        let row = #[trigger] r[i];
        &&& row.1 == ext_bytes(files, row.0)
        &&& row.2 == ext_files(files, row.0)
        &&& row.2 > 0
    } by {
        let k = lemma_same_element(r, table, i);
        assert(table[k] == r[i]);
    }
    lemma_no_row_twice(table, r);
    assert forall|i: int, j: int| 0 <= i < j < r.len() implies (#[trigger] r[i]).0 != (
    #[trigger] r[j]).0 by {
        assert(r[i] != r[j]);
    }
    assert forall|ext: Seq<char>| #[trigger] ext_files(files, ext) > 0 implies exists|i: int|
        0 <= i < r.len() && (#[trigger] r[i]).0 == ext by {
        let k = choose|k: int| 0 <= k < table.len() && (#[trigger] table[k]).0 == ext;
        let i = lemma_same_element(table, r, k);
        assert(r[i].0 == ext);
    }
    assert forall|i: int, j: int| 0 <= i <= j < r.len() implies match sort {
        SortOrder::Size => (#[trigger] r[i]).1 >= (#[trigger] r[j]).1,
        SortOrder::Name => !text::text_lt(r[j].0, r[i].0),
    } by {
        assert(le(r[i], r[j]));
    }
    if sort == SortOrder::Name {
        assert forall|i: int, j: int| 0 <= i < j < r.len() implies text::text_lt(
            (#[trigger] r[i]).0,
            (#[trigger] r[j]).0,
        ) by {
            lemma_text_order(r[i].0, r[j].0);
            assert(r[i].0 != r[j].0);
        }
    }
}

proof fn lemma_same_element(a: Seq<Tally>, b: Seq<Tally>, i: int) -> (k: int)
    requires
        a.to_multiset() == b.to_multiset(),
        0 <= i < a.len(),
    ensures
        0 <= k < b.len(),
        b[k] == a[i],
{
    broadcast use vstd::seq_lib::group_to_multiset_ensures;

    assert(a.contains(a[i]));
    assert(a.to_multiset().count(a[i]) > 0);
    assert(b.contains(a[i]));
    choose|k: int| 0 <= k < b.len() && b[k] == a[i]
}

proof fn lemma_no_row_twice(table: Seq<Tally>, r: Seq<Tally>)
    requires
        ascending(table),
        r.to_multiset() == table.to_multiset(),
    ensures
        r.no_duplicates(),
{
    assert forall|i: int, j: int| 0 <= i < table.len() && 0 <= j < table.len() && i
        != j implies table[i] != table[j] by {
        if i < j {
            lemma_text_order(table[i].0, table[j].0);
            assert(text::text_lt(table[i].0, table[j].0));
        } else {
            lemma_text_order(table[j].0, table[i].0);
            assert(text::text_lt(table[j].0, table[i].0));
        }
    }
    table.lemma_multiset_has_no_duplicates();
    r.lemma_multiset_has_no_duplicates_conv();
}

proof fn lemma_tally_sums(table: Seq<Tally>)
    ensures
        table.fold_left(0int, |sum: int, t: Tally| sum + t.1) == tally_bytes(table),
        table.fold_left(0int, |sum: int, t: Tally| sum + t.2) == tally_files(table),
    decreases table.len(),
{
    reveal_with_fuel(Seq::fold_left, 2);
    if table.len() > 0 {
        lemma_tally_sums(table.drop_last());
        lemma_tally_sums_at_end(table);
    }
}

proof fn lemma_tally_sums_at_end(table: Seq<Tally>)
    requires
        table.len() > 0,
    ensures
        tally_bytes(table) == tally_bytes(table.drop_last()) + table.last().1,
        tally_files(table) == tally_files(table.drop_last()) + table.last().2,
    decreases table.len(),
{
    if table.len() == 1 {
        assert(table.drop_first() =~= table.drop_last());
    } else {
        lemma_tally_sums_at_end(table.drop_first());
        assert(table.drop_first().drop_last() =~= table.drop_last().drop_first());
    }
}

/// The rows of a breakdown, in either order, add up to the sizes of all files and
/// to their number.
pub proof fn law_listed_rows_add_up(files: Seq<Entry>, sort: SortOrder)
    ensures
        breakdown_listing(files, sort).fold_left(0int, |sum: int, t: Tally| sum + t.1)
            == files.fold_left(0int, |sum: int, e: Entry| sum + e.1),
        breakdown_listing(files, sort).fold_left(0int, |sum: int, t: Tally| sum + t.2)
            == files.len(),
{
    let table = breakdown(files);
    let r = breakdown_listing(files, sort);
    let by_bytes = |sum: int, t: Tally| sum + t.1;
    let by_files = |sum: int, t: Tally| sum + t.2;
    order::law_arranged_keeps_elements(table, tally_le(sort));
    vstd::seq_lib::lemma_fold_left_permutation(r, table, by_bytes, 0int);
    vstd::seq_lib::lemma_fold_left_permutation(r, table, by_files, 0int);
    lemma_tally_sums(table);
    law_breakdown_adds_up(files);
    aggregator::law_total_is_the_sum_of_the_sizes(files);
}

/// Listed by size, extensions with as many bytes stand alphabetically.
pub proof fn law_equal_rows_stand_alphabetically(files: Seq<Entry>)
    ensures
        forall|i: int, j: int|
            0 <= i < j < breakdown_listing(files, SortOrder::Size).len() && (
            #[trigger] breakdown_listing(files, SortOrder::Size)[i]).1 == (
            #[trigger] breakdown_listing(files, SortOrder::Size)[j]).1 ==> text::text_lt(
                breakdown_listing(files, SortOrder::Size)[i].0,
                breakdown_listing(files, SortOrder::Size)[j].0,
            ),
{
    let table = breakdown(files);
    let le = tally_le(SortOrder::Size);
    let r = breakdown_listing(files, SortOrder::Size);
    law_breakdown_counts_each_extension_once(files);
    lemma_tally_le_is_total_preorder(SortOrder::Size);
    let at = order::law_arrangement_is_stable(table, le);
    assert forall|i: int, j: int|
        0 <= i < j < r.len() && (#[trigger] r[i]).1 == (#[trigger] r[j]).1 implies text::text_lt(
        r[i].0,
        r[j].0,
    ) by {
        assert(r[i] == table[at[i]] && r[j] == table[at[j]]);
        assert(le(table[at[j]], table[at[i]]));
        assert(at[i] < at[j]);
    }
}

} // verus!
