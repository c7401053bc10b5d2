//! Human-readable sizes, and the flat, tree and by-extension views of a scan.

use crate::aggregator::{DirNode, Entry, EntryNode};
use crate::breakdown::Tally;
use crate::order::{arrange, Ranked, SortOrder};
use crate::path::PathBuf;
use crate::rounding::{divide_half_even, nearest_double_of};
use crate::text::{lossy, push_decimal, push_right_aligned};
use crate::{aggregator, breakdown, order, path, rounding, text};
use vstd::prelude::*;
use vstd::string::*;

verus! {

pub const KIB: u64 = 0x400;

pub const MIB: u64 = 0x10_0000;

pub const GIB: u64 = 0x4000_0000;

pub const TIB: u64 = 0x100_0000_0000;

/// How many tenths of `unit` a number of bytes is shown as: the bytes as a
/// double-precision number, over the unit, to the nearest tenth.
pub open spec fn shown_tenths(bytes: u64, unit: u64) -> nat {
    rounding::round_half_even(10 * rounding::nearest_double(bytes as nat, 1), unit as nat)
}

/// A number of bytes in `unit`, to one decimal place.
pub open spec fn scaled_text(bytes: u64, unit: u64, suffix: Seq<char>) -> Seq<char> {
    let tenths = shown_tenths(bytes, unit);
    text::decimal(tenths / 10) + "."@ + text::decimal(tenths % 10) + suffix
}

/// A number of bytes in the largest binary unit that it fills.
pub open spec fn human_text(bytes: u64) -> Seq<char> {
    if bytes >= TIB {
        scaled_text(bytes, TIB, " TiB"@)
    } else if bytes >= GIB {
        scaled_text(bytes, GIB, " GiB"@)
    } else if bytes >= MIB {
        scaled_text(bytes, MIB, " MiB"@)
    } else if bytes >= KIB {
        scaled_text(bytes, KIB, " KiB"@)
    } else {
        text::decimal(bytes as nat) + " B"@
    }
}

fn scaled_size(bytes: u64, unit: u64, suffix: &str) -> (r: String)
    requires
        unit >= KIB,
    ensures
        r@ == scaled_text(bytes, unit, suffix@),
{
    let whole = nearest_double_of(bytes);
    let tenths = divide_half_even(10 * whole, unit as u128);
    proof {
        assert(10 * whole / (unit as int) <= 10 * whole / 0x400) by (nonlinear_arith)
            requires
                unit >= 0x400,
                whole >= 0,
        ;
    }
    let tenths: u64 = tenths as u64;
    let mut out = String::new();
    push_decimal(&mut out, tenths / 10);
    out.append(".");
    push_decimal(&mut out, tenths % 10);
    out.append(suffix);
    assert(out@ =~= scaled_text(bytes, unit, suffix@));
    out
}

/// A byte count as compact text, with the prefixes KiB, MiB, GiB and TiB.
pub fn human_size(bytes: u64) -> (r: String)
    ensures
        r@ == human_text(bytes),
{
    if bytes >= TIB {
        scaled_size(bytes, TIB, " TiB")
    } else if bytes >= GIB {
        scaled_size(bytes, GIB, " GiB")
    } else if bytes >= MIB {
        scaled_size(bytes, MIB, " MiB")
    } else if bytes >= KIB {
        scaled_size(bytes, KIB, " KiB")
    } else {
        let mut out = String::new();
        push_decimal(&mut out, bytes);
        out.append(" B");
        assert(out@ =~= text::decimal(bytes as nat) + " B"@);
        out
    }
}

/// A size is shown to the nearest tenth of its unit: it is off by at most half a
/// tenth, as long as double precision holds the bytes exactly.
pub proof fn law_shown_size_is_nearest(bytes: u64, unit: u64)
    requires
        0 < unit,
        bytes < rounding::double_limit(),
    ensures
        2 * (shown_tenths(bytes, unit) * unit - 10 * bytes) <= unit,
        2 * (10 * bytes - shown_tenths(bytes, unit) * unit) <= unit,
{
    let n = bytes as nat;
    assert(n % 1 == 0 && n / 1 == n);
    assert(rounding::nearest_double(n, 1) == n);
    let p = 10 * n;
    let q = unit as nat;
    vstd::arithmetic::div_mod::lemma_fundamental_div_mod(p as int, q as int);
    vstd::arithmetic::div_mod::lemma_mod_bound(p as int, q as int);
    let whole = p / q;
    let rest = p % q;
    let t = shown_tenths(bytes, unit);
    assert(q * (whole + 1) == q * whole + q) by (nonlinear_arith);
    assert(t * unit == q * t) by (nonlinear_arith)
        requires
            q == unit,
    ;
}

/// The first `top_n` elements, or all where there are no more.
pub open spec fn top<T>(s: Seq<T>, top_n: Option<usize>) -> Seq<T> {
    match top_n {
        Some(n) => if n < s.len() {
            s.take(n as int)
        } else {
            s
        },
        None => s,
    }
}

/// Listed by size, what is cut off is no larger than what is shown.
pub proof fn law_top_shows_the_largest(
    s: Seq<Entry>,
    top_n: usize,
    min_size: Option<u64>,
    i: int,
    j: int,
)
    requires
        0 <= i < top(aggregator::listing(s, SortOrder::Size, min_size), Some(top_n)).len(),
        top_n <= j < aggregator::listing(s, SortOrder::Size, min_size).len(),
    ensures
        aggregator::listing(s, SortOrder::Size, min_size)[j].1 <= top(
            aggregator::listing(s, SortOrder::Size, min_size),
            Some(top_n),
        )[i].1,
{
    aggregator::law_listing(s, SortOrder::Size, min_size);
    let all = aggregator::listing(s, SortOrder::Size, min_size);
    assert(aggregator::entry_le(SortOrder::Size)(all[i], all[j]));
}

/// How many of `len` elements are shown.
pub fn top_len(len: usize, top_n: Option<usize>) -> (r: usize)
    ensures
        r == match top_n {
            Some(n) => if n < len {
                n
            } else {
                len
            },
            None => len,
        },
{
    match top_n {
        Some(n) => if n < len {
            n
        } else {
            len
        },
        None => len,
    }
}

/// The texts of all elements, one behind the other.
pub open spec fn joined<T>(s: Seq<T>, line: spec_fn(T) -> Seq<char>) -> Seq<char>
    decreases s.len(),
{
    if s.len() == 0 {
        seq![]
    } else {
        joined(s.drop_last(), line) + line(s.last())
    }
}

pub proof fn lemma_joined_front<T>(s: Seq<T>, line: spec_fn(T) -> Seq<char>)
    requires
        s.len() > 0,
    ensures
        joined(s, line) == line(s[0]) + joined(s.drop_first(), line),
    decreases s.len(),
{
    if s.len() == 1 {
        assert(s.drop_last() =~= s.drop_first());
        assert(joined(s.drop_first(), line) =~= seq![]);
        assert(joined(s, line) =~= line(s[0]) + joined(s.drop_first(), line));
    } else {
        lemma_joined_front(s.drop_last(), line);
        assert(s.drop_last().drop_first() =~= s.drop_first().drop_last());
        assert(joined(s, line) =~= line(s[0]) + joined(s.drop_first(), line));
    }
}

/// A size, a tab and a path.
pub open spec fn size_line() -> spec_fn(Entry) -> Seq<char> {
    |e: Entry|
        text::right_aligned(human_text(e.1), 10) + "\t"@ + text::display_text(e.0) + "\n"@
}

fn render_entries(entries: &Vec<(&PathBuf, u64)>, top_n: Option<usize>) -> (r: String)
    ensures
        r@ == joined(top(aggregator::listed(entries@), top_n), size_line()),
{
    let limit = top_len(entries.len(), top_n);
    let ghost all = aggregator::listed(entries@);
    let mut out = String::new();
    let mut i: usize = 0;
    assert(out@ =~= joined(all.take(0), size_line()));
    while i < limit
        invariant
            i <= limit <= entries.len(),
            all == aggregator::listed(entries@),
            out@ == joined(all.take(i as int), size_line()),
        decreases limit - i,
    {
        let (path, size) = entries[i];
        let ghost before = out@;
        push_right_aligned(&mut out, human_size(size).as_str(), 10);
        out.append("\t");
        out.append(path.display().as_str());
        out.append("\n");
        proof {
            let e = all[i as int];
            assert(e == (path@, size));
            assert(all.take(i + 1).drop_last() =~= all.take(i as int));
            assert(out@ =~= before + size_line()(e));
        }
        i = i + 1;
    }
    assert(all.take(limit as int) =~= top(all, top_n));
    out
}

/// The files below `node` as a list: a line with size and path for each.
pub fn render_flat(
    node: &DirNode,
    top_n: Option<usize>,
    sort: SortOrder,
    min_size: Option<u64>,
) -> (r: String)
    ensures
        r@ == joined(top(aggregator::listing(node.files(), sort, min_size), top_n), size_line()),
{
    let entries = node.flat_sorted_with(sort, min_size);
    render_entries(&entries, top_n)
}

/// The directories below `node` as a list: a line with total size and path for
/// each. Files are not listed, nor is `node` itself.
pub fn render_dirs_flat(
    node: &DirNode,
    top_n: Option<usize>,
    sort: SortOrder,
    min_size: Option<u64>,
) -> (r: String)
    ensures
        r@ == joined(top(aggregator::listing(node.dirs(), sort, min_size), top_n), size_line()),
{
    let entries = node.dirs_sorted_with(sort, min_size);
    render_entries(&entries, top_n)
}

/// What a breakdown calls an extension.
pub open spec fn ext_title(ext: Seq<char>) -> Seq<char> {
    if ext.len() == 0 {
        "(no ext)"@
    } else {
        "."@ + ext
    }
}

/// A size, a number of files and an extension.
pub open spec fn tally_line() -> spec_fn(Tally) -> Seq<char> {
    |t: Tally|
        text::right_aligned(human_text(t.1 as u64), 10) + "  "@ + text::right_aligned(
            text::decimal(t.2),
            8,
        ) + " files  "@ + ext_title(t.0) + "\n"@
}

/// Appends the line of one row.
fn push_tally(out: &mut String, ext: &str, bytes: u64, files: u64)
    ensures
        final(out)@ == old(out)@ + (text::right_aligned(human_text(bytes), 10) + "  "@
            + text::right_aligned(text::decimal(files as nat), 8) + " files  "@ + ext_title(ext@)
            + "\n"@),
{
    push_right_aligned(out, human_size(bytes).as_str(), 10);
    out.append("  ");
    push_right_aligned(out, text::decimal_text(files).as_str(), 8);
    out.append(" files  ");
    if ext.is_empty() {
        out.append("(no ext)");
    } else {
        out.append(".");
        out.append(ext);
    }
    out.append("\n");
    assert(out@ =~= old(out)@ + (text::right_aligned(human_text(bytes), 10) + "  "@
        + text::right_aligned(text::decimal(files as nat), 8) + " files  "@ + ext_title(ext@)
        + "\n"@));
}

/// The breakdown by extension: a line with size, file count and extension for each.
pub fn render_by_extension(node: &DirNode, sort: SortOrder) -> (r: String)
    requires
        breakdown::countable(node.files()),
    ensures
        r@ == joined(breakdown::breakdown_listing(node.files(), sort), tally_line()),
{
    let rows = node.by_extension_sorted(sort);
    let ghost all = breakdown::tallies(rows@);
    let mut out = String::new();
    let mut i: usize = 0;
    assert(out@ =~= joined(all.take(0), tally_line()));
    while i < rows.len()
        invariant
            i <= rows.len(),
            all == breakdown::tallies(rows@),
            out@ == joined(all.take(i as int), tally_line()),
        decreases rows.len() - i,
    {
        let row = &rows[i];
        let ghost before = out@;
        push_tally(&mut out, row.0.as_str(), row.1, row.2);
        proof {
            let t = all[i as int];
            assert(t == (row.0@, row.1 as nat, row.2 as nat));
            assert(all.take(i + 1).drop_last() =~= all.take(i as int));
            assert(out@ == before + tally_line()(t));
        }
        i = i + 1;
    }
    assert(all.take(i as int) =~= all);
    out
}

/// A tree of names and sizes, ready to be drawn.
pub enum Outline {
    File(Entry),
    Dir(Entry, Seq<Outline>),
}

/// The path and the size that an outline is ordered by.
pub open spec fn outline_entry(o: Outline) -> Entry {
    match o {
        Outline::File(e) => e,
        Outline::Dir(e, _) => e,
    }
}

pub open spec fn outline_le(sort: SortOrder) -> spec_fn(Outline, Outline) -> bool {
    |x: Outline, y: Outline| aggregator::entry_le(sort)(outline_entry(x), outline_entry(y))
}

/// The outlines of `children`, as the tree holds them.
pub open spec fn outlines(children: Seq<EntryNode>, sort: SortOrder) -> Seq<Outline>
    decreases children,
{
    if children.len() == 0 {
        seq![]
    } else {
        outlines(children.drop_last(), sort).push(outline_at(children.last(), sort))
    }
}

/// The outline of one entry; what is below a directory stands in listing order.
pub open spec fn outline_at(e: EntryNode, sort: SortOrder) -> Outline
    decreases e,
{
    match e {
        EntryNode::File(f) => Outline::File((f.path@, f.size)),
        EntryNode::Dir(d) => Outline::Dir(
            (d.path@, d.total_size),
            order::arranged(outlines(d.children@, sort), outline_le(sort)),
        ),
    }
}

/// The name by which the tree view shows a path.
pub open spec fn shown_name(p: Seq<u8>) -> Seq<char> {
    match path::file_name(p) {
        Some(name) => text::display_text(name),
        None => text::display_text(p),
    }
}

pub open spec fn connector(last: bool) -> Seq<char> {
    if last {
        "└── "@
    } else {
        "├── "@
    }
}

pub open spec fn indent(last: bool) -> Seq<char> {
    if last {
        "    "@
    } else {
        "│   "@
    }
}

/// The lines of `s`, one entry behind the other. Directories are opened up to
/// `levels` deep, or all the way down.
pub open spec fn drawn(s: Seq<Outline>, prefix: Seq<char>, levels: Option<nat>) -> Seq<char>
    decreases s,
{
    if s.len() == 0 {
        seq![]
    } else {
        drawn_entry(s[0], s.len() == 1, prefix, levels) + drawn(s.drop_first(), prefix, levels)
    }
}

/// The line of an entry and, for an open directory, the lines below it.
pub open spec fn drawn_entry(o: Outline, last: bool, prefix: Seq<char>, levels: Option<nat>) -> Seq<
    char,
>
    decreases o,
{
    match o {
        Outline::File(e) => prefix + connector(last) + text::right_aligned(human_text(e.1), 10)
            + "  "@ + shown_name(e.0) + "\n"@,
        Outline::Dir(e, below) => prefix + connector(last) + text::right_aligned(
            human_text(e.1),
            10,
        ) + "  "@ + shown_name(e.0) + "/\n"@ + (match levels {
            None => drawn(below, prefix + indent(last), None),
            Some(n) => if n > 0 {
                drawn(below, prefix + indent(last), Some((n - 1) as nat))
            } else {
                seq![]
            },
        }),
    }
}

/// How many levels of directories are opened below the first, where `max_depth`
/// levels are shown.
pub open spec fn open_levels(max_depth: Option<usize>) -> Option<nat> {
    match max_depth {
        Some(m) => Some(
            if m == 0 {
                0
            } else {
                (m - 1) as nat
            },
        ),
        None => None,
    }
}

/// The tree view of a directory: its own line, then the lines of its entries.
pub open spec fn tree_text(node: DirNode, max_depth: Option<usize>, sort: SortOrder) -> Seq<char> {
    text::right_aligned(human_text(node.total_size), 10) + "  "@ + text::display_text(node.path@)
        + "\n"@ + drawn(
        order::arranged(outlines(node.children@, sort), outline_le(sort)),
        seq![],
        open_levels(max_depth),
    )
}

impl<'a> Ranked for &'a EntryNode {
    open spec fn ranking(sort: SortOrder) -> spec_fn(Self, Self) -> bool {
        |x: &'a EntryNode, y: &'a EntryNode|
            aggregator::entry_le(sort)(aggregator::entry_of(*x), aggregator::entry_of(*y))
    }

    proof fn ranking_is_total_preorder(sort: SortOrder) {
        aggregator::lemma_entry_le_is_total_preorder(sort);
        let le = aggregator::entry_le(sort);
        let r = Self::ranking(sort);
        assert forall|x: Self, y: Self| #[trigger] r(x, y) || r(y, x) by {
            let a = aggregator::entry_of(*x);
            let b = aggregator::entry_of(*y);
            assert(le(a, b) || le(b, a));
        }
        assert forall|x: Self, y: Self, z: Self| #[trigger] r(x, y) && #[trigger] r(y, z) implies r(
            x,
            z,
        ) by {
            let a = aggregator::entry_of(*x);
            let b = aggregator::entry_of(*y);
            let c = aggregator::entry_of(*z);
            assert(le(a, b) && le(b, c));
        }
    }

    fn at_most(sort: SortOrder, x: &Self, y: &Self) -> (r: bool) {
        match sort {
            SortOrder::Size => entry_size(x) >= entry_size(y),
            SortOrder::Name => entry_name(x).at_most(entry_name(y)),
        }
    }
}

fn entry_size(e: &EntryNode) -> (r: u64)
    ensures
        r == aggregator::entry_of(*e).1,
{
    match e {
        EntryNode::File(f) => f.size,
        EntryNode::Dir(d) => d.total_size,
    }
}

fn entry_name(e: &EntryNode) -> (r: &PathBuf)
    ensures
        r@ == aggregator::entry_of(*e).0,
{
    match e {
        EntryNode::File(f) => f.path.as_path(),
        EntryNode::Dir(d) => d.path.as_path(),
    }
}

fn push_shown_name(out: &mut String, p: &PathBuf)
    ensures
        final(out)@ == old(out)@ + shown_name(p@),
{
    match p.file_name() {
        Some(name) => out.append(lossy(name).as_str()),
        None => out.append(p.display().as_str()),
    }
}

/// Appends the line that both kinds of entry have, up to the name.
fn push_entry_line(out: &mut String, prefix: &str, last: bool, size: u64, p: &PathBuf)
    ensures
        final(out)@ == old(out)@ + (prefix@ + connector(last) + text::right_aligned(
            human_text(size),
            10,
        ) + "  "@ + shown_name(p@)),
{
    out.append(prefix);
    if last {
        out.append("└── ");
    } else {
        out.append("├── ");
    }
    push_right_aligned(out, human_size(size).as_str(), 10);
    out.append("  ");
    push_shown_name(out, p);
    assert(out@ =~= old(out)@ + (prefix@ + connector(last) + text::right_aligned(
        human_text(size),
        10,
    ) + "  "@ + shown_name(p@)));
}

pub open spec fn as_nat(levels: Option<usize>) -> Option<nat> {
    match levels {
        Some(n) => Some(n as nat),
        None => None,
    }
}

proof fn lemma_outlines_map(children: Seq<EntryNode>, sort: SortOrder)
    ensures
        outlines(children, sort) == children.map_values(|e: EntryNode| outline_at(e, sort)),
    decreases children.len(),
{
    let key = |e: EntryNode| outline_at(e, sort);
    if children.len() > 0 {
        lemma_outlines_map(children.drop_last(), sort);
        assert(outlines(children, sort) =~= children.map_values(key));
    } else {
        assert(outlines(children, sort) =~= children.map_values(key));
    }
}

/// Appends the line of one entry and, for an open directory, the lines below it.
fn render_tree_entry(
    child: &EntryNode,
    last: bool,
    prefix: &str,
    levels: Option<usize>,
    sort: SortOrder,
    out: &mut String,
)
    ensures
        final(out)@ == old(out)@ + drawn_entry(
            outline_at(*child, sort),
            last,
            prefix@,
            as_nat(levels),
        ),
    decreases child,
{
    match child {
        EntryNode::File(f) => {
            push_entry_line(out, prefix, last, f.size, &f.path);
            out.append("\n");
            assert(out@ =~= old(out)@ + drawn_entry(
                outline_at(*child, sort),
                last,
                prefix@,
                as_nat(levels),
            ));
        },
        EntryNode::Dir(d) => {
            push_entry_line(out, prefix, last, d.total_size, &d.path);
            out.append("/\n");
            let open = match levels {
                None => true,
                Some(n) => n > 0,
            };
            if open {
                let mut deeper = String::new();
                deeper.append(prefix);
                if last {
                    deeper.append("    ");
                } else {
                    deeper.append("│   ");
                }
                assert(deeper@ =~= prefix@ + indent(last));
                let below = match levels {
                    None => None,
                    Some(n) => Some((n - 1) as usize),
                };
                render_tree_children(&d.children, deeper.as_str(), below, sort, out);
            }
            assert(out@ =~= old(out)@ + drawn_entry(
                outline_at(*child, sort),
                last,
                prefix@,
                as_nat(levels),
            ));
        },
    }
}

/// Appends the lines of all entries in `children`.
fn render_tree_children(
    children: &Vec<EntryNode>,
    prefix: &str,
    levels: Option<usize>,
    sort: SortOrder,
    out: &mut String,
)
    ensures
        final(out)@ == old(out)@ + drawn(
            order::arranged(outlines(children@, sort), outline_le(sort)),
            prefix@,
            as_nat(levels),
        ),
    decreases children,
{
    let mut refs: Vec<&EntryNode> = Vec::new();
    let mut k: usize = 0;
    while k < children.len()
        invariant
            k <= children.len(),
            refs.len() == k,
            forall|j: int| 0 <= j < k ==> *(#[trigger] refs@[j]) == children@[j],
        decreases children.len() - k,
    {
        refs.push(&children[k]);
        k = k + 1;
    }
    let sorted = arrange(&refs, sort);
    let ghost key = |e: &EntryNode| outline_at(*e, sort);
    let ghost whole = order::arranged(outlines(children@, sort), outline_le(sort));
    proof {
        lemma_outlines_map(children@, sort);
        assert(refs@.map_values(key) =~= outlines(children@, sort));
        order::lemma_arranged_map(refs@, key, <&EntryNode>::ranking(sort), outline_le(sort));
        assert(sorted@.map_values(key) == whole);
        order::law_arranged_keeps_elements(refs@, <&EntryNode>::ranking(sort));
    }
    let mut i: usize = 0;
    assert(whole.skip(0) =~= whole);
    let ghost goal = out@ + drawn(whole, prefix@, as_nat(levels));
    while i < sorted.len()
        invariant
            i <= sorted.len(),
            key == (|e: &EntryNode| outline_at(*e, sort)),
            sorted@.map_values(key) == whole,
            sorted@.to_multiset() == refs@.to_multiset(),
            refs.len() == children.len(),
            forall|j: int| 0 <= j < refs.len() ==> *(#[trigger] refs@[j]) == children@[j],
            goal == out@ + drawn(whole.skip(i as int), prefix@, as_nat(levels)),
        decreases sorted.len() - i,
    {
        let last = i + 1 == sorted.len();
        let child = sorted[i];
        let ghost rest = whole.skip(i as int);
        let ghost before = out@;
        proof {
            assert(rest[0] == outline_at(*child, sort));
            assert(rest.drop_first() =~= whole.skip(i + 1));
        }
        proof {
            broadcast use vstd::seq_lib::group_to_multiset_ensures;

            assert(sorted@.contains(child));
            assert(sorted@.to_multiset().count(child) > 0);
            assert(refs@.contains(child));
            let j = choose|j: int| 0 <= j < refs@.len() && refs@[j] == child;
            assert(children@[j] == *child);
            assert(decreases_to!(children => children@[j]));
        }
        render_tree_entry(child, last, prefix, levels, sort, out);
        proof {
            assert(out@ == before + drawn_entry(rest[0], last, prefix@, as_nat(levels)));
            assert(goal =~= out@ + drawn(whole.skip(i + 1), prefix@, as_nat(levels)));
        }
        i = i + 1;
    }
    assert(whole.skip(i as int) =~= seq![]);
    assert(goal =~= out@);
}

/// The tree view of `node`. Entries of each directory stand in the order `sort`;
/// with `max_depth`, that many levels are shown, and at least one.
pub fn render_tree(node: &DirNode, max_depth: Option<usize>, sort: SortOrder) -> (r: String)
    ensures
        r@ == tree_text(*node, max_depth, sort),
{
    let mut out = String::new();
    push_right_aligned(&mut out, human_size(node.total_size).as_str(), 10);
    out.append("  ");
    out.append(node.path.display().as_str());
    out.append("\n");
    let levels = match max_depth {
        Some(m) => Some(if m == 0 {
            0
        } else {
            m - 1
        }),
        None => None,
    };
    let prefix = String::new();
    render_tree_children(&node.children, prefix.as_str(), levels, sort, &mut out);
    assert(prefix@ =~= seq![]);
    assert(as_nat(levels) == open_levels(max_depth));
    assert(out@ =~= tree_text(*node, max_depth, sort));
    out
}

/// The line of one entry, without what is below it.
pub open spec fn entry_line(o: Outline, last: bool, prefix: Seq<char>) -> Seq<char> {
    match o {
        Outline::File(e) => prefix + connector(last) + text::right_aligned(human_text(e.1), 10)
            + "  "@ + shown_name(e.0) + "\n"@,
        Outline::Dir(e, _) => prefix + connector(last) + text::right_aligned(human_text(e.1), 10)
            + "  "@ + shown_name(e.0) + "/\n"@,
    }
}

/// The lines of `s`, one by one.
pub open spec fn lines_drawn(s: Seq<Outline>, prefix: Seq<char>, levels: Option<nat>) -> Seq<
    Seq<char>,
>
    decreases s,
{
    if s.len() == 0 {
        seq![]
    } else {
        lines_of_entry(s[0], s.len() == 1, prefix, levels) + lines_drawn(
            s.drop_first(),
            prefix,
            levels,
        )
    }
}

pub open spec fn lines_of_entry(
    o: Outline,
    last: bool,
    prefix: Seq<char>,
    levels: Option<nat>,
) -> Seq<Seq<char>>
    decreases o,
{
    seq![entry_line(o, last, prefix)] + match o {
        Outline::File(_) => seq![],
        Outline::Dir(_, below) => match levels {
            None => lines_drawn(below, prefix + indent(last), None),
            Some(n) => if n > 0 {
                lines_drawn(below, prefix + indent(last), Some((n - 1) as nat))
            } else {
                seq![]
            },
        },
    }
}

/// The lines of the tree view, one for each entry shown, the root first.
pub open spec fn tree_lines(node: DirNode, max_depth: Option<usize>, sort: SortOrder) -> Seq<
    Seq<char>,
> {
    seq![
        text::right_aligned(human_text(node.total_size), 10) + "  "@ + text::display_text(
            node.path@,
        ) + "\n"@,
    ] + lines_drawn(
        order::arranged(outlines(node.children@, sort), outline_le(sort)),
        seq![],
        open_levels(max_depth),
    )
}

/// The lines one behind the other.
pub open spec fn as_text(lines: Seq<Seq<char>>) -> Seq<char>
    decreases lines.len(),
{
    if lines.len() == 0 {
        seq![]
    } else {
        lines[0] + as_text(lines.drop_first())
    }
}

proof fn lemma_as_text_concat(a: Seq<Seq<char>>, b: Seq<Seq<char>>)
    ensures
        as_text(a + b) == as_text(a) + as_text(b),
    decreases a.len(),
{
    if a.len() == 0 {
        assert(a + b =~= b);
        assert(as_text(a) + as_text(b) =~= as_text(b));
    } else {
        assert((a + b).drop_first() =~= a.drop_first() + b);
        lemma_as_text_concat(a.drop_first(), b);
        assert(as_text(a + b) =~= as_text(a) + as_text(b));
    }
}

proof fn lemma_one_line(line: Seq<char>)
    ensures
        as_text(seq![line]) == line,
{
    assert(seq![line].drop_first() =~= seq![]);
    assert(as_text(seq![line].drop_first()) =~= seq![]);
    assert(as_text(seq![line]) =~= line);
}

proof fn lemma_drawn_is_its_lines(s: Seq<Outline>, prefix: Seq<char>, levels: Option<nat>)
    ensures
        as_text(lines_drawn(s, prefix, levels)) == drawn(s, prefix, levels),
    decreases s,
{
    if s.len() > 0 {
        let first = lines_of_entry(s[0], s.len() == 1, prefix, levels);
        let rest = lines_drawn(s.drop_first(), prefix, levels);
        lemma_entry_is_its_lines(s[0], s.len() == 1, prefix, levels);
        lemma_drawn_is_its_lines(s.drop_first(), prefix, levels);
        lemma_as_text_concat(first, rest);
    }
}

proof fn lemma_entry_is_its_lines(
    o: Outline,
    last: bool,
    prefix: Seq<char>,
    levels: Option<nat>,
)
    ensures
        as_text(lines_of_entry(o, last, prefix, levels)) == drawn_entry(o, last, prefix, levels),
    decreases o,
{
    let line = entry_line(o, last, prefix);
    let deeper = prefix + indent(last);
    let rest: Seq<Seq<char>> = match o {
        Outline::File(_) => seq![],
        Outline::Dir(_, below) => match levels {
            None => lines_drawn(below, deeper, None),
            Some(n) => if n > 0 {
                lines_drawn(below, deeper, Some((n - 1) as nat))
            } else {
                seq![]
            },
        },
    };
    if let Outline::Dir(_, below) = o {
        match levels {
            None => {
                lemma_drawn_is_its_lines(below, deeper, None);
            },
            Some(n) => {
                if n > 0 {
                    lemma_drawn_is_its_lines(below, deeper, Some((n - 1) as nat));
                }
            },
        }
    }
    lemma_one_line(line);
    lemma_as_text_concat(seq![line], rest);
    assert(lines_of_entry(o, last, prefix, levels) == seq![line] + rest);
    assert(as_text(seq![line] + rest) =~= drawn_entry(o, last, prefix, levels));
}

/// The tree view is made of its lines.
pub proof fn law_tree_is_its_lines(node: DirNode, max_depth: Option<usize>, sort: SortOrder)
    ensures
        tree_text(node, max_depth, sort) == as_text(tree_lines(node, max_depth, sort)),
{
    let all = order::arranged(outlines(node.children@, sort), outline_le(sort));
    let levels = open_levels(max_depth);
    let line = text::right_aligned(human_text(node.total_size), 10) + "  "@ + text::display_text(
        node.path@,
    ) + "\n"@;
    lemma_drawn_is_its_lines(all, seq![], levels);
    lemma_one_line(line);
    lemma_as_text_concat(seq![line], lines_drawn(all, seq![], levels));
}

/// `a` is what is left of `b` when some of its elements are struck out.
pub open spec fn picked_from<T>(a: Seq<T>, b: Seq<T>) -> bool
    decreases b.len(),
{
    if a.len() == 0 {
        true
    } else if b.len() == 0 {
        false
    } else {
        (a[0] == b[0] && picked_from(a.drop_first(), b.drop_first())) || picked_from(
            a,
            b.drop_first(),
        )
    }
}

proof fn lemma_picked_from_both<T>(a: Seq<T>, b: Seq<T>, c: Seq<T>, d: Seq<T>)
    requires
        picked_from(a, b),
        picked_from(c, d),
    ensures
        picked_from(a + c, b + d),
    decreases b.len(),
{
    if b.len() == 0 {
        assert(a + c =~= c);
        assert(b + d =~= d);
    } else {
        assert((b + d).drop_first() =~= b.drop_first() + d);
        if a.len() > 0 && a[0] == b[0] && picked_from(a.drop_first(), b.drop_first()) {
            assert((a + c).drop_first() =~= a.drop_first() + c);
            lemma_picked_from_both(a.drop_first(), b.drop_first(), c, d);
        } else {
            lemma_picked_from_both(a, b.drop_first(), c, d);
        }
    }
}

proof fn lemma_picked_from_itself<T>(a: Seq<T>)
    ensures
        picked_from(a, a),
    decreases a.len(),
{
    if a.len() > 0 {
        lemma_picked_from_itself(a.drop_first());
    }
}

/// At least as many levels are opened.
pub open spec fn no_fewer(more: Option<nat>, levels: Option<nat>) -> bool {
    match (more, levels) {
        (None, _) => true,
        (Some(k), Some(m)) => k >= m,
        (Some(_), None) => false,
    }
}

proof fn lemma_more_levels(
    s: Seq<Outline>,
    prefix: Seq<char>,
    levels: Option<nat>,
    more: Option<nat>,
)
    requires
        no_fewer(more, levels),
    ensures
        picked_from(lines_drawn(s, prefix, levels), lines_drawn(s, prefix, more)),
    decreases s,
{
    if s.len() > 0 {
        let last = s.len() == 1;
        lemma_more_levels_of_entry(s[0], last, prefix, levels, more);
        lemma_more_levels(s.drop_first(), prefix, levels, more);
        lemma_picked_from_both(
            lines_of_entry(s[0], last, prefix, levels),
            lines_of_entry(s[0], last, prefix, more),
            lines_drawn(s.drop_first(), prefix, levels),
            lines_drawn(s.drop_first(), prefix, more),
        );
    }
}

proof fn lemma_more_levels_of_entry(
    o: Outline,
    last: bool,
    prefix: Seq<char>,
    levels: Option<nat>,
    more: Option<nat>,
)
    requires
        no_fewer(more, levels),
    ensures
        picked_from(
            lines_of_entry(o, last, prefix, levels),
            lines_of_entry(o, last, prefix, more),
        ),
    decreases o,
{
    let line = seq![entry_line(o, last, prefix)];
    lemma_picked_from_itself(line);
    match o {
        Outline::File(_) => {
            lemma_picked_from_both(line, line, Seq::<Seq<char>>::empty(), seq![]);
        },
        Outline::Dir(_, below) => {
            let deeper = prefix + indent(last);
            let fewer_below: Seq<Seq<char>> = match levels {
                None => lines_drawn(below, deeper, None),
                Some(n) => if n > 0 {
                    lines_drawn(below, deeper, Some((n - 1) as nat))
                } else {
                    seq![]
                },
            };
            let more_below: Seq<Seq<char>> = match more {
                None => lines_drawn(below, deeper, None),
                Some(n) => if n > 0 {
                    lines_drawn(below, deeper, Some((n - 1) as nat))
                } else {
                    seq![]
                },
            };
            match (levels, more) {
                (None, _) => {
                    lemma_picked_from_itself(fewer_below);
                },
                (Some(m), None) => {
                    if m > 0 {
                        lemma_more_levels(below, deeper, Some((m - 1) as nat), None);
                    }
                },
                (Some(m), Some(k)) => {
                    if m > 0 {
                        lemma_more_levels(
                            below,
                            deeper,
                            Some((m - 1) as nat),
                            Some((k - 1) as nat),
                        );
                    }
                },
            }
            lemma_picked_from_both(line, line, fewer_below, more_below);
        },
    }
}

/// A tree view of fewer levels is one of more levels with lines left out: what
/// it shows, it shows in the same words and the same order.
pub proof fn law_fewer_levels_leave_lines_out(
    node: DirNode,
    max_depth: Option<usize>,
    more: Option<usize>,
    sort: SortOrder,
)
    requires
        match (max_depth, more) {
            (_, None) => true,
            (Some(m), Some(k)) => m <= k,
            (None, Some(_)) => false,
        },
    ensures
        picked_from(tree_lines(node, max_depth, sort), tree_lines(node, more, sort)),
{
    let all = order::arranged(outlines(node.children@, sort), outline_le(sort));
    let line = seq![
        text::right_aligned(human_text(node.total_size), 10) + "  "@ + text::display_text(
            node.path@,
        ) + "\n"@,
    ];
    lemma_more_levels(all, seq![], open_levels(max_depth), open_levels(more));
    lemma_picked_from_itself(line);
    lemma_picked_from_both(
        line,
        line,
        lines_drawn(all, seq![], open_levels(max_depth)),
        lines_drawn(all, seq![], open_levels(more)),
    );
}

/// The entries of the root are always shown: no levels are as good as one.
pub proof fn law_first_level_is_always_shown(node: DirNode, sort: SortOrder)
    ensures
        tree_text(node, Some(0), sort) == tree_text(node, Some(1), sort),
{
}

/// How many levels of entries there are in `children` and below.
pub open spec fn deepest(children: Seq<EntryNode>) -> nat
    decreases children,
{
    if children.len() == 0 {
        0
    } else {
        let before = deepest(children.drop_last());
        let last = deepest_at(children.last());
        if before >= last {
            before
        } else {
            last
        }
    }
}

pub open spec fn deepest_at(e: EntryNode) -> nat
    decreases e,
{
    match e {
        EntryNode::File(_) => 1,
        EntryNode::Dir(d) => 1 + deepest(d.children@),
    }
}

/// How many levels an outline has.
spec fn height(o: Outline) -> nat
    decreases o,
{
    match o {
        Outline::File(_) => 1,
        Outline::Dir(_, below) => 1 + heights(below),
    }
}

spec fn heights(s: Seq<Outline>) -> nat
    decreases s,
{
    if s.len() == 0 {
        0
    } else {
        let first = height(s[0]);
        let rest = heights(s.drop_first());
        if first >= rest {
            first
        } else {
            rest
        }
    }
}

proof fn lemma_heights_of_all(s: Seq<Outline>, most: nat)
    ensures
        heights(s) <= most <==> forall|i: int| 0 <= i < s.len() ==> height(#[trigger] s[i]) <= most,
    decreases s.len(),
{
    if s.len() > 0 {
        let rest = s.drop_first();
        lemma_heights_of_all(rest, most);
        if heights(s) <= most {
            assert forall|i: int| 0 <= i < s.len() implies height(#[trigger] s[i]) <= most by {
                if i > 0 {
                    assert(height(rest[i - 1]) <= most);
                }
            }
        }
        if forall|i: int| 0 <= i < s.len() ==> height(#[trigger] s[i]) <= most {
            assert(height(s[0]) <= most);
            assert forall|i: int| 0 <= i < rest.len() implies height(#[trigger] rest[i])
                <= most by {
                assert(height(s[i + 1]) <= most);
            }
        }
    }
}

proof fn lemma_heights_of_outlines(children: Seq<EntryNode>, sort: SortOrder, most: nat)
    requires
        deepest(children) <= most,
    ensures
        heights(outlines(children, sort)) <= most,
        heights(order::arranged(outlines(children, sort), outline_le(sort))) <= most,
    decreases children,
{
    let s = outlines(children, sort);
    if children.len() > 0 {
        let before = outlines(children.drop_last(), sort);
        lemma_heights_of_outlines(children.drop_last(), sort, most);
        lemma_height_of_outline(children.last(), sort, most);
        lemma_heights_of_all(before, most);
        assert forall|i: int| 0 <= i < s.len() implies height(#[trigger] s[i]) <= most by {
            if i < before.len() {
                assert(height(before[i]) <= most);
            }
        }
    }
    lemma_heights_of_all(s, most);
    let sorted = order::arranged(s, outline_le(sort));
    order::law_arranged_keeps_elements(s, outline_le(sort));
    assert forall|i: int| 0 <= i < sorted.len() implies height(#[trigger] sorted[i]) <= most by {
        broadcast use vstd::seq_lib::group_to_multiset_ensures;

        assert(sorted.contains(sorted[i]));
        assert(sorted.to_multiset().count(sorted[i]) > 0);
        assert(s.contains(sorted[i]));
        let j = choose|j: int| 0 <= j < s.len() && s[j] == sorted[i];
        assert(height(s[j]) <= most);
    }
    lemma_heights_of_all(sorted, most);
}

proof fn lemma_height_of_outline(e: EntryNode, sort: SortOrder, most: nat)
    requires
        deepest_at(e) <= most,
    ensures
        height(outline_at(e, sort)) <= most,
    decreases e,
{
    if let EntryNode::Dir(d) = e {
        lemma_heights_of_outlines(d.children@, sort, (most - 1) as nat);
    }
}

proof fn lemma_deep_enough(s: Seq<Outline>, prefix: Seq<char>, levels: nat)
    requires
        heights(s) <= levels + 1,
    ensures
        drawn(s, prefix, Some(levels)) == drawn(s, prefix, None),
    decreases s,
{
    if s.len() > 0 {
        lemma_entry_deep_enough(s[0], s.len() == 1, prefix, levels);
        lemma_deep_enough(s.drop_first(), prefix, levels);
    }
}

proof fn lemma_entry_deep_enough(o: Outline, last: bool, prefix: Seq<char>, levels: nat)
    requires
        height(o) <= levels + 1,
    ensures
        drawn_entry(o, last, prefix, Some(levels)) == drawn_entry(o, last, prefix, None),
    decreases o,
{
    if let Outline::Dir(_, below) = o {
        let deeper = prefix + indent(last);
        if levels > 0 {
            lemma_deep_enough(below, deeper, (levels - 1) as nat);
        } else {
            lemma_heights_of_all(below, 0);
            if below.len() > 0 {
                assert(height(below[0]) <= 0);
            }
        }
    }
}

/// A tree view of as many levels as there are is the whole tree.
pub proof fn law_deepest_level_is_the_whole_tree(node: DirNode, m: usize, sort: SortOrder)
    requires
        m >= deepest(node.children@),
    ensures
        tree_text(node, Some(m), sort) == tree_text(node, None, sort),
{
    let levels = open_levels(Some(m))->0;
    let all = order::arranged(outlines(node.children@, sort), outline_le(sort));
    lemma_heights_of_outlines(node.children@, sort, levels + 1);
    lemma_deep_enough(all, seq![], levels);
}

/// A size is shown as a whole number of bytes below a KiB, and otherwise in the
/// largest of KiB, MiB, GiB and TiB that it fills, with one digit behind the point:
/// the nearest number of tenths, and the even one of two. Only from two to the
/// 53rd power on is it off by a little more. These are the tenths.
pub proof fn law_size_is_shown_in_its_unit(bytes: u64) -> (tenths: nat)
    ensures
        bytes < 1024 ==> human_text(bytes) == text::decimal(bytes as nat) + " B"@,
        bytes >= 1024 ==> {
            let unit: nat = if bytes < 1024 * 1024 {
                1024
            } else if bytes < 1024 * 1024 * 1024 {
                1024 * 1024
            } else if bytes < 1024 * 1024 * 1024 * 1024 {
                1024 * 1024 * 1024
            } else {
                1024 * 1024 * 1024 * 1024
            };
            let off = tenths * unit - 10 * bytes;
            &&& human_text(bytes) == text::decimal(tenths / 10) + "."@ + text::decimal(tenths % 10)
                + if bytes < 1024 * 1024 {
                " KiB"@
            } else if bytes < 1024 * 1024 * 1024 {
                " MiB"@
            } else if bytes < 1024 * 1024 * 1024 * 1024 {
                " GiB"@
            } else {
                " TiB"@
            }
            &&& bytes < 0x20_0000_0000_0000 ==> -unit <= 2 * off <= unit
            &&& bytes < 0x20_0000_0000_0000 && (2 * off == unit || 2 * off == -unit) ==> tenths % 2
                == 0
            &&& -unit - 20480 <= 2 * off <= unit + 20480
        },
{
    let unit: u64 = if bytes < MIB {
        KIB
    } else if bytes < GIB {
        MIB
    } else if bytes < TIB {
        GIB
    } else {
        TIB
    };
    let tenths = shown_tenths(bytes, unit);
    rounding::law_double_is_near(bytes);
    rounding::law_rounding_is_nearest(
        10 * rounding::nearest_double(bytes as nat, 1),
        unit as nat,
    );
    assert(tenths * unit == unit * tenths) by (nonlinear_arith);
    tenths
}

/// Where a number of entries is asked for, that many are shown, from the front, or
/// all where there are no more; where none is asked for, all are shown.
pub proof fn law_top_is_the_front<T>(s: Seq<T>, top_n: Option<usize>)
    ensures
        top_n is None ==> top(s, top_n) == s,
        top_n is Some && s.len() <= top_n->0 ==> top(s, top_n) == s,
        top_n is Some && top_n->0 <= s.len() ==> top(s, top_n).len() == top_n->0,
        top(s, top_n).len() <= s.len(),
        forall|i: int| 0 <= i < top(s, top_n).len() ==> #[trigger] top(s, top_n)[i] == s[i],
{
    if top_n is Some && top_n->0 == s.len() {
        assert(s.take(top_n->0 as int) =~= s);
    }
}

pub proof fn lemma_joined_lines<T>(s: Seq<T>, line: spec_fn(T) -> Seq<char>)
    ensures
        joined(s, line) == as_text(s.map_values(line)),
    decreases s.len(),
{
    if s.len() == 0 {
        assert(s.map_values(line) =~= seq![]);
    } else {
        lemma_joined_front(s, line);
        lemma_joined_lines(s.drop_first(), line);
        assert(s.map_values(line).drop_first() =~= s.drop_first().map_values(line));
    }
}

/// A list has a line for each entry shown, in the same order: the size, right
/// aligned in ten columns, a tab, and the path. These are the lines.
pub proof fn law_list_has_a_line_for_each_entry(s: Seq<Entry>) -> (lines: Seq<Seq<char>>)
    ensures
        joined(s, size_line()) == as_text(lines),
        lines.len() == s.len(),
        forall|i: int|
            0 <= i < s.len() ==> #[trigger] lines[i] == text::right_aligned(human_text(s[i].1), 10)
                + "\t"@ + text::display_text(s[i].0) + "\n"@,
{
    lemma_joined_lines(s, size_line());
    s.map_values(size_line())
}

/// A breakdown has a line for each row, in the same order: the size, right aligned
/// in ten columns, the number of files, right aligned in eight, and the extension
/// behind a dot, or that there is none. These are the lines.
pub proof fn law_breakdown_has_a_line_for_each_row(s: Seq<Tally>) -> (lines: Seq<Seq<char>>)
    ensures
        joined(s, tally_line()) == as_text(lines),
        lines.len() == s.len(),
        forall|i: int|
            0 <= i < s.len() ==> #[trigger] lines[i] == text::right_aligned(
                human_text(s[i].1 as u64),
                10,
            ) + "  "@ + text::right_aligned(text::decimal(s[i].2), 8) + " files  "@ + (
            if s[i].0.len() == 0 {
                "(no ext)"@
            } else {
                "."@ + s[i].0
            }) + "\n"@,
{
    lemma_joined_lines(s, tally_line());
    s.map_values(tally_line())
}

/// The lines of the entries in `children` and below, behind `prefix`.
pub open spec fn branches(
    children: Seq<EntryNode>,
    prefix: Seq<char>,
    levels: Option<nat>,
    sort: SortOrder,
) -> Seq<char> {
    drawn(order::arranged(outlines(children, sort), outline_le(sort)), prefix, levels)
}

/// The path of a file or of a directory.
pub open spec fn path_of(e: EntryNode) -> Seq<u8> {
    match e {
        EntryNode::File(f) => f.path@,
        EntryNode::Dir(d) => d.path@,
    }
}

/// The size of a file, or the total size of a directory.
pub open spec fn bytes_of(e: EntryNode) -> u64 {
    match e {
        EntryNode::File(f) => f.size,
        EntryNode::Dir(d) => d.total_size,
    }
}

/// `block` is the line of `e`, behind `prefix`, and the lines below it: a branch
/// sign, the size, and the name; a directory with a slash behind its name, and
/// where there are levels left, its own entries, further in.
pub open spec fn is_branch(
    block: Seq<char>,
    e: EntryNode,
    last: bool,
    prefix: Seq<char>,
    levels: Option<nat>,
    sort: SortOrder,
) -> bool {
    let sign = if last {
        "└── "@
    } else {
        "├── "@
    };
    let name = match path::file_name(path_of(e)) {
        Some(name) => text::display_text(name),
        None => text::display_text(path_of(e)),
    };
    let deeper = prefix + if last {
        "    "@
    } else {
        "│   "@
    };
    let line = prefix + sign + text::right_aligned(human_text(bytes_of(e)), 10) + "  "@ + name;
    match e {
        EntryNode::File(_) => block == line + "\n"@,
        EntryNode::Dir(d) => match levels {
            None => block == line + "/\n"@ + branches(d.children@, deeper, None, sort),
            Some(n) => if n > 0 {
                block == line + "/\n"@ + branches(
                    d.children@,
                    deeper,
                    Some((n - 1) as nat),
                    sort,
                )
            } else {
                block == line + "/\n"@
            },
        },
    }
}

/// The entries stand in the order asked for at the places `at`: by name none
/// stands before one whose path is less, by size none before a larger one, and of
/// two that are alike the one that was first stays first.
pub open spec fn places_in_order(children: Seq<EntryNode>, at: Seq<int>, sort: SortOrder) -> bool {
    &&& at.len() == children.len()
    &&& forall|i: int| 0 <= i < at.len() ==> 0 <= #[trigger] at[i] < children.len()
    &&& forall|i: int, j: int| 0 <= i < j < at.len() ==> (#[trigger] at[i]) != (#[trigger] at[j])
    &&& sort == SortOrder::Name ==> forall|i: int, j: int|
        0 <= i < j < at.len() ==> path::path_le(
            path_of(children[#[trigger] at[i]]),
            path_of(children[#[trigger] at[j]]),
        )
    &&& sort == SortOrder::Size ==> forall|i: int, j: int|
        0 <= i < j < at.len() ==> bytes_of(children[#[trigger] at[i]]) > bytes_of(
            children[#[trigger] at[j]],
        ) || (bytes_of(children[at[i]]) == bytes_of(children[at[j]]) && at[i] < at[j])
}

proof fn lemma_drawn_in_blocks(s: Seq<Outline>, prefix: Seq<char>, levels: Option<nat>) -> (blocks:
    Seq<Seq<char>>)
    ensures
        drawn(s, prefix, levels) == as_text(blocks),
        blocks.len() == s.len(),
        forall|i: int|
            0 <= i < s.len() ==> #[trigger] blocks[i] == drawn_entry(
                s[i],
                i == s.len() - 1,
                prefix,
                levels,
            ),
    decreases s.len(),
{
    if s.len() == 0 {
        Seq::empty()
    } else {
        let t = s.drop_first();
        let rest = lemma_drawn_in_blocks(t, prefix, levels);
        let blocks = seq![drawn_entry(s[0], s.len() == 1, prefix, levels)] + rest;
        assert(blocks.drop_first() =~= rest);
        assert forall|i: int| 0 <= i < s.len() implies #[trigger] blocks[i] == drawn_entry(
            s[i],
            i == s.len() - 1,
            prefix,
            levels,
        ) by {
            if i > 0 {
                assert(blocks[i] == rest[i - 1]);
            }
        }
        blocks
    }
}

/// The lines of a directory's entries are made of a block for each entry, and the
/// blocks stand in the order asked for, in every directory that is drawn. These
/// are the places of the entries, and the blocks.
pub proof fn law_branches_stand_in_order(
    children: Seq<EntryNode>,
    prefix: Seq<char>,
    levels: Option<nat>,
    sort: SortOrder,
) -> (r: (Seq<int>, Seq<Seq<char>>))
    ensures
        branches(children, prefix, levels, sort) == as_text(r.1),
        places_in_order(children, r.0, sort),
        r.1.len() == children.len(),
        forall|i: int|
            0 <= i < children.len() ==> is_branch(
                #[trigger] r.1[i],
                children[r.0[i]],
                i == children.len() - 1,
                prefix,
                levels,
                sort,
            ),
{
    let s = outlines(children, sort);
    let le = outline_le(sort);
    let sorted = order::arranged(s, le);
    lemma_outlines_map(children, sort);
    aggregator::lemma_entry_le_is_total_preorder(sort);
    let entry_le = aggregator::entry_le(sort);
    assert(order::total_preorder(le)) by {
        assert forall|x: Outline, y: Outline| #[trigger] le(x, y) || le(y, x) by {
            assert(entry_le(outline_entry(x), outline_entry(y)) || entry_le(
                outline_entry(y),
                outline_entry(x),
            ));
        }
        assert forall|x: Outline, y: Outline, z: Outline| #[trigger]
            le(x, y) && #[trigger] le(y, z) implies le(x, z) by {
            assert(entry_le(outline_entry(x), outline_entry(y)) && entry_le(
                outline_entry(y),
                outline_entry(z),
            ));
        }
    }
    let at = order::law_arrangement_is_stable(s, le);
    let blocks = lemma_drawn_in_blocks(sorted, prefix, levels);
    assert forall|k: int| 0 <= k < children.len() implies outline_entry(#[trigger] s[k]) == (
        path_of(children[k]),
        bytes_of(children[k]),
    ) by {
        assert(s[k] == outline_at(children[k], sort));
    }
    assert forall|i: int, j: int| 0 <= i < j < at.len() implies match sort {
        SortOrder::Name => path::path_le(
            path_of(children[#[trigger] at[i]]),
            path_of(children[#[trigger] at[j]]),
        ),
        SortOrder::Size => bytes_of(children[at[i]]) > bytes_of(children[at[j]]) || (bytes_of(
            children[at[i]],
        ) == bytes_of(children[at[j]]) && at[i] < at[j]),
    } by {
        assert(le(s[at[i]], s[at[j]]));
        assert(outline_entry(s[at[i]]) == (path_of(children[at[i]]), bytes_of(children[at[i]])));
        assert(outline_entry(s[at[j]]) == (path_of(children[at[j]]), bytes_of(children[at[j]])));
    }
    assert forall|i: int| 0 <= i < children.len() implies is_branch(
        #[trigger] blocks[i],
        children[at[i]],
        i == children.len() - 1,
        prefix,
        levels,
        sort,
    ) by {
        let last = i == children.len() - 1;
        let e = children[at[i]];
        assert(sorted[i] == s[at[i]]);
        assert(sorted[i] == outline_at(e, sort));
        assert(blocks[i] == drawn_entry(outline_at(e, sort), last, prefix, levels));
        if let EntryNode::Dir(d) = e {
            if levels is Some && levels->0 == 0 {
                let line = prefix + connector(last) + text::right_aligned(
                    human_text(d.total_size),
                    10,
                ) + "  "@ + shown_name(d.path@) + "/\n"@;
                assert(line + seq![] =~= line);
            }
        }
    }
    (at, blocks)
}

} // verus!
