//! What the command line asks for: flags, progress messages and the choice of view.

use crate::aggregator::{DirNode, SizeMode};
use crate::formatter::{
    human_size, render_by_extension, render_dirs_flat, render_flat, render_tree,
};
use crate::order::SortOrder;
use crate::output::csv::{render_csv, render_csv_by_ext, render_csv_dirs};
use crate::output::json::{render_json, render_json_by_ext, render_json_dirs};
use crate::path::PathBuf;
use crate::text::{lossy, push_decimal, to_ascii_lower};
use crate::walker::WalkOptions;
use crate::{aggregator, breakdown, formatter, output, path, text};
use vstd::prelude::*;
use vstd::string::*;

verus! {

/// A name as text; nothing where there is none.
pub open spec fn name_text(name: Option<Seq<u8>>) -> Seq<char> {
    match name {
        Some(bytes) => text::display_text(bytes),
        None => seq![],
    }
}

/// A path whose text has at most `max` characters in full; of a longer one the
/// last two names behind an ellipsis.
pub open spec fn shortened(p: Seq<u8>, max: nat) -> Seq<char> {
    if text::display_text(p).len() <= max {
        text::display_text(p)
    } else {
        "…/"@ + name_text(path::parent_file_name(p)) + "/"@ + name_text(path::file_name(p))
    }
}

fn push_name(out: &mut String, name: Option<&[u8]>)
    ensures
        final(out)@ == old(out)@ + name_text(
            match name {
                Some(bytes) => Some(bytes@),
                None => None,
            },
        ),
{
    match name {
        Some(bytes) => out.append(lossy(bytes).as_str()),
        None => {
            assert(out@ =~= old(out)@ + seq![]);
        },
    }
}

/// A path shortened for display, where it has more than `max_chars` characters.
pub fn truncate_path(path: &PathBuf, max_chars: usize) -> (r: String)
    ensures
        r@ == shortened(path@, max_chars as nat),
{
    let full = path.display();
    if full.as_str().unicode_len() <= max_chars {
        return full;
    }
    let mut out = String::new();
    out.append("…/");
    push_name(&mut out, path.parent_file_name());
    out.append("/");
    push_name(&mut out, path.file_name());
    assert(out@ =~= shortened(path@, max_chars as nat));
    out
}

/// The options of a walk, from the flags. The extension is matched in lower case.
pub fn walk_options(
    apparent: bool,
    depth: Option<usize>,
    follow_symlinks: bool,
    file_type: Option<String>,
    include_rsrc: bool,
    quiet: bool,
) -> (r: WalkOptions)
    ensures
        r.size_mode == if apparent {
            SizeMode::Apparent
        } else {
            SizeMode::DiskUsage
        },
        r.max_depth == depth,
        r.follow_symlinks == follow_symlinks,
        match (file_type, r.filter_ext) {
            (Some(ext), Some(filter)) => filter@ == text::ascii_lower(ext@),
            (None, None) => true,
            _ => false,
        },
        r.include_rsrc == include_rsrc,
        r.quiet == quiet,
{
    WalkOptions {
        size_mode: if apparent {
            SizeMode::Apparent
        } else {
            SizeMode::DiskUsage
        },
        max_depth: depth,
        follow_symlinks,
        filter_ext: match file_type {
            Some(ext) => Some(to_ascii_lower(ext.as_str())),
            None => None,
        },
        include_rsrc,
        quiet,
    }
}

/// How a report is written.
#[derive(Debug, Clone, Copy, PartialEq, Eq, Structural)]
pub enum OutputFormat {
    Tree,
    Flat,
    Json,
    Csv,
}

/// What a report shows.
#[derive(Debug, Clone, Copy)]
pub struct ReportOptions {
    pub format: OutputFormat,
    /// The breakdown by extension in place of paths.
    pub by_ext: bool,
    /// Directories in place of files.
    pub dirs_only: bool,
    /// How many levels the tree view shows.
    pub depth: Option<usize>,
    /// How many entries the other views show.
    pub top: usize,
    pub sort: SortOrder,
    pub min_size: Option<u64>,
}

/// What is wrong with a choice of flags, if anything.
pub fn flag_conflict(by_ext: bool, dirs_only: bool) -> (r: Option<String>)
    ensures
        r is Some <==> by_ext && dirs_only,
        r matches Some(s) ==> s@ == "--by-ext and --dirs-only cannot be used together"@,
{
    if by_ext && dirs_only {
        let mut s = String::new();
        s.append("--by-ext and --dirs-only cannot be used together");
        assert(s@ =~= "--by-ext and --dirs-only cannot be used together"@);
        Some(s)
    } else {
        None
    }
}

/// The tree view shows directories in any case: a note where they are asked for.
pub fn tree_note(o: &ReportOptions) -> (r: Option<String>)
    ensures
        r is Some <==> o.dirs_only && !o.by_ext && o.format == OutputFormat::Tree,
        r matches Some(s) ==> s@
            == "note: --dirs-only has no effect with --format tree; use -f flat for a dirs-only listing"@,
{
    if o.dirs_only && !o.by_ext && o.format == OutputFormat::Tree {
        let mut s = String::new();
        s.append(
            "note: --dirs-only has no effect with --format tree; use -f flat for a dirs-only listing",
        );
        assert(s@
            =~= "note: --dirs-only has no effect with --format tree; use -f flat for a dirs-only listing"@);
        Some(s)
    } else {
        None
    }
}

/// The text of a report.
pub open spec fn report_text(node: DirNode, o: ReportOptions) -> Seq<char> {
    if o.by_ext {
        let rows = breakdown::breakdown_listing(node.files(), o.sort);
        match o.format {
            OutputFormat::Json => output::json::tallies_json(rows),
            OutputFormat::Csv => output::csv::tallies_csv(rows),
            _ => formatter::joined(rows, formatter::tally_line()),
        }
    } else {
        let found = if o.dirs_only {
            node.dirs()
        } else {
            node.files()
        };
        let shown = formatter::top(
            aggregator::listing(found, o.sort, o.min_size),
            Some(o.top),
        );
        match o.format {
            OutputFormat::Tree => formatter::tree_text(node, o.depth, o.sort),
            OutputFormat::Flat => formatter::joined(shown, formatter::size_line()),
            OutputFormat::Json => output::json::entries_json(shown),
            OutputFormat::Csv => output::csv::entries_csv(shown),
        }
    }
}

/// Writes the report that the options ask for.
pub fn render_report(node: &DirNode, o: &ReportOptions) -> (r: String)
    requires
        o.by_ext ==> breakdown::countable(node.files()),
    ensures
        r@ == report_text(*node, *o),
{
    if o.by_ext {
        match o.format {
            OutputFormat::Json => render_json_by_ext(node, o.sort),
            OutputFormat::Csv => render_csv_by_ext(node, o.sort),
            OutputFormat::Tree => render_by_extension(node, o.sort),
            OutputFormat::Flat => render_by_extension(node, o.sort),
        }
    } else if o.dirs_only {
        match o.format {
            OutputFormat::Tree => render_tree(node, o.depth, o.sort),
            OutputFormat::Flat => render_dirs_flat(node, Some(o.top), o.sort, o.min_size),
            OutputFormat::Json => render_json_dirs(node, Some(o.top), o.sort, o.min_size),
            OutputFormat::Csv => render_csv_dirs(node, Some(o.top), o.sort, o.min_size),
        }
    } else {
        match o.format {
            OutputFormat::Tree => render_tree(node, o.depth, o.sort),
            OutputFormat::Flat => render_flat(node, Some(o.top), o.sort, o.min_size),
            OutputFormat::Json => render_json(node, Some(o.top), o.sort, o.min_size),
            OutputFormat::Csv => render_csv(node, Some(o.top), o.sort, o.min_size),
        }
    }
}

/// Whether the spinner is redrawn for the file with this number: every 32nd.
pub fn progress_due(n: u64) -> (r: bool)
    ensures
        r == (n % 32 == 0),
{
    assert(n & 31 == n % 32) by (bit_vector);
    n & 31 == 0
}

/// How long a path may be in a progress message.
pub const PROGRESS_PATH_LEN: usize = 60;

/// What the spinner says once `n` files came before the one at `path`.
pub fn progress_message(n: u64, path: &PathBuf) -> (r: String)
    requires
        n < u64::MAX,
    ensures
        r@ == text::decimal((n + 1) as nat) + " files  "@ + shortened(
            path@,
            PROGRESS_PATH_LEN as nat,
        ),
{
    let mut out = String::new();
    push_decimal(&mut out, n + 1);
    out.append(" files  ");
    out.append(truncate_path(path, PROGRESS_PATH_LEN).as_str());
    assert(out@ =~= text::decimal((n + 1) as nat) + " files  "@ + shortened(
        path@,
        PROGRESS_PATH_LEN as nat,
    ));
    out
}

/// What the spinner says at the end.
pub fn done_message(node: &DirNode) -> (r: String)
    ensures
        r@ == text::decimal(node.file_count as nat) + " files  "@ + formatter::human_text(
            node.total_size,
        ) + "  done"@,
{
    let mut out = String::new();
    push_decimal(&mut out, node.file_count);
    out.append(" files  ");
    out.append(human_size(node.total_size).as_str());
    out.append("  done");
    assert(out@ =~= text::decimal(node.file_count as nat) + " files  "@ + formatter::human_text(
        node.total_size,
    ) + "  done"@);
    out
}

/// The summary of a scan that took the time `elapsed`.
pub fn stats_line(node: &DirNode, elapsed: &str) -> (r: String)
    ensures
        r@ == "\n"@ + text::decimal(node.file_count as nat) + " unique files  |  total "@
            + formatter::human_text(node.total_size) + "  |  "@ + elapsed@,
{
    let mut out = String::new();
    out.append("\n");
    push_decimal(&mut out, node.file_count);
    out.append(" unique files  |  total ");
    out.append(human_size(node.total_size).as_str());
    out.append("  |  ");
    out.append(elapsed);
    assert(out@ =~= "\n"@ + text::decimal(node.file_count as nat) + " unique files  |  total "@
        + formatter::human_text(node.total_size) + "  |  "@ + elapsed@);
    out
}

/// What went wrong with an entry that is passed over.
#[derive(Debug, Clone, Copy, PartialEq, Eq, Structural)]
pub enum Trouble {
    /// A directory cannot be read.
    ReadDir,
    /// An entry of a directory cannot be read.
    DirEntry,
    /// The system says nothing of an entry.
    Stat,
    /// A symbolic link leads nowhere.
    Follow,
}

pub open spec fn trouble_text(t: Trouble) -> Seq<char> {
    match t {
        Trouble::ReadDir => "warning: cannot read directory "@,
        Trouble::DirEntry => "warning: directory entry error in "@,
        Trouble::Stat => "warning: cannot stat "@,
        Trouble::Follow => "warning: cannot follow symlink "@,
    }
}

/// The warning about an entry, unless warnings are left out.
pub fn warning(t: Trouble, path: &PathBuf, cause: &str, opts: &WalkOptions) -> (r: Option<String>)
    ensures
        r is None <==> opts.quiet,
        r matches Some(s) ==> s@ == trouble_text(t) + text::display_text(path@) + ": "@ + cause@,
{
    if opts.quiet {
        return None;
    }
    let mut out = String::new();
    match t {
        Trouble::ReadDir => out.append("warning: cannot read directory "),
        Trouble::DirEntry => out.append("warning: directory entry error in "),
        Trouble::Stat => out.append("warning: cannot stat "),
        Trouble::Follow => out.append("warning: cannot follow symlink "),
    }
    out.append(path.display().as_str());
    out.append(": ");
    out.append(cause);
    assert(out@ =~= trouble_text(t) + text::display_text(path@) + ": "@ + cause@);
    Some(out)
}

/// The tree report draws the root, and then its entries in the order that the
/// options ask for, down to the depth that they ask for and at least one level.
/// These are the places of the root's entries, and their blocks of lines.
pub proof fn law_tree_report_stands_in_order(node: DirNode, o: ReportOptions) -> (r: (
    Seq<int>,
    Seq<Seq<char>>,
))
    requires
        !o.by_ext,
        o.format == OutputFormat::Tree,
    ensures
        report_text(node, o) == text::right_aligned(formatter::human_text(node.total_size), 10)
            + "  "@ + text::display_text(node.path@) + "\n"@ + formatter::as_text(r.1),
        formatter::places_in_order(node.children@, r.0, o.sort),
        r.1.len() == node.children@.len(),
        forall|i: int|
            0 <= i < r.1.len() ==> formatter::is_branch(
                #[trigger] r.1[i],
                node.children@[r.0[i]],
                i == r.1.len() - 1,
                seq![],
                match o.depth {
                    None => None,
                    Some(m) => Some(
                        if m > 0 {
                            (m - 1) as nat
                        } else {
                            0
                        },
                    ),
                },
                o.sort,
            ),
{
    let levels: Option<nat> = match o.depth {
        None => None,
        Some(m) => Some(
            if m > 0 {
                (m - 1) as nat
            } else {
                0
            },
        ),
    };
    assert(formatter::open_levels(o.depth) == levels);
    formatter::law_branches_stand_in_order(node.children@, seq![], levels, o.sort)
}

/// A report that lists entries takes the files, or the directories where they are
/// asked for, leaves out what is below the least size, puts the rest in the order
/// asked for, and shows as many as are asked for, from the front. This is all that
/// is large enough, in that order.
pub proof fn law_list_report_shows_the_first(node: DirNode, o: ReportOptions) -> (all: Seq<
    aggregator::Entry,
>)
    requires
        !o.by_ext,
        o.format != OutputFormat::Tree,
    ensures
        forall|e: aggregator::Entry| #[trigger]
            all.to_multiset().count(e) == if o.min_size is Some && e.1 < o.min_size->0 {
                0
            } else if o.dirs_only {
                node.dirs().to_multiset().count(e)
            } else {
                node.files().to_multiset().count(e)
            },
        o.sort == SortOrder::Size ==> forall|i: int, j: int|
            0 <= i <= j < all.len() ==> (#[trigger] all[i]).1 >= (#[trigger] all[j]).1,
        o.sort == SortOrder::Name ==> forall|i: int, j: int|
            0 <= i <= j < all.len() ==> path::path_le((#[trigger] all[i]).0, (#[trigger] all[j]).0),
        ({
            let shown = if o.top < all.len() {
                all.take(o.top as int)
            } else {
                all
            };
            &&& o.format == OutputFormat::Json ==> report_text(node, o)
                == output::json::entries_json(shown)
            &&& o.format == OutputFormat::Csv ==> report_text(node, o)
                == output::csv::entries_csv(shown)
            &&& o.format == OutputFormat::Flat ==> exists|lines: Seq<Seq<char>>| #[trigger]
                formatter::as_text(lines) == report_text(node, o) && lines.len() == shown.len()
                    && forall|i: int|
                    0 <= i < shown.len() ==> #[trigger] lines[i] == text::right_aligned(
                        formatter::human_text(shown[i].1),
                        10,
                    ) + "\t"@ + text::display_text(shown[i].0) + "\n"@
        }),
{
    let found = if o.dirs_only {
        node.dirs()
    } else {
        node.files()
    };
    let all = aggregator::listing(found, o.sort, o.min_size);
    let shown = if o.top < all.len() {
        all.take(o.top as int)
    } else {
        all
    };
    aggregator::law_listing_is_filtered_and_in_order(found, o.sort, o.min_size);
    formatter::law_top_is_the_front(all, Some(o.top));
    assert(formatter::top(all, Some(o.top)) =~= shown);
    let lines = formatter::law_list_has_a_line_for_each_entry(shown);
    if o.format == OutputFormat::Flat {
        assert(formatter::as_text(lines) == report_text(node, o));
    }
    all
}

/// A report by extension shows every extension that some file has, with the bytes
/// and the number of its files, in the order asked for. These are its rows.
pub proof fn law_extension_report_shows_all(node: DirNode, o: ReportOptions) -> (rows: Seq<
    breakdown::Tally,
>)
    requires
        o.by_ext,
    ensures
        forall|i: int|
            0 <= i < rows.len() ==> {
                let row = #[trigger] rows[i];
                &&& row.1 == breakdown::ext_bytes(node.files(), row.0)
                &&& row.2 == breakdown::ext_files(node.files(), row.0)
                &&& row.2 > 0
            },
        forall|ext: Seq<char>| #[trigger]
            breakdown::ext_files(node.files(), ext) > 0 ==> exists|i: int|
                0 <= i < rows.len() && (#[trigger] rows[i]).0 == ext,
        forall|i: int, j: int|
            0 <= i < j < rows.len() ==> (#[trigger] rows[i]).0 != (#[trigger] rows[j]).0,
        o.sort == SortOrder::Size ==> forall|i: int, j: int|
            0 <= i <= j < rows.len() ==> (#[trigger] rows[i]).1 >= (#[trigger] rows[j]).1,
        o.sort == SortOrder::Name ==> forall|i: int, j: int|
            0 <= i < j < rows.len() ==> text::text_lt(
                (#[trigger] rows[i]).0,
                (#[trigger] rows[j]).0,
            ),
        o.format == OutputFormat::Json ==> report_text(node, o) == output::json::tallies_json(rows),
        o.format == OutputFormat::Csv ==> report_text(node, o) == output::csv::tallies_csv(rows),
        o.format == OutputFormat::Flat || o.format == OutputFormat::Tree ==> report_text(node, o)
            == formatter::joined(rows, formatter::tally_line()),
{
    breakdown::law_breakdown_is_in_order(node.files(), o.sort);
    breakdown::breakdown_listing(node.files(), o.sort)
}

/// A path is shown in full where it is short enough, and otherwise as an ellipsis,
/// the name of the directory that it is in, and its own name.
pub proof fn law_long_path_is_shown_by_its_last_names(p: Seq<u8>, max: nat)
    ensures
        text::display_text(p).len() <= max ==> shortened(p, max) == text::display_text(p),
        text::display_text(p).len() > max ==> {
            let s = shortened(p, max);
            let own = path::file_name(p);
            let above = path::parent_file_name(p);
            &&& own is Some && above is Some ==> s == "…/"@ + text::display_text(above->0) + "/"@
                + text::display_text(own->0)
            &&& own is Some && above is None ==> s == "…//"@ + text::display_text(own->0)
            &&& own is None && above is Some ==> s == "…/"@ + text::display_text(above->0) + "/"@
            &&& own is None && above is None ==> s == "…//"@
        },
{
    reveal_strlit("…/");
    reveal_strlit("/");
    reveal_strlit("…//");
    let s = shortened(p, max);
    if text::display_text(p).len() > max {
        let own = path::file_name(p);
        let above = path::parent_file_name(p);
        if own is Some && above is None {
            assert(s =~= "…//"@ + text::display_text(own->0));
        } else if own is None && above is Some {
            assert(s =~= "…/"@ + text::display_text(above->0) + "/"@);
        } else if own is None && above is None {
            assert(s =~= "…//"@);
        }
    }
}

/// In a progress message a path of up to 60 characters is shown in full, and any
/// longer one is shortened.
pub proof fn law_progress_shows_sixty_characters(p: Seq<u8>)
    ensures
        shortened(p, PROGRESS_PATH_LEN as nat) == if text::display_text(p).len() <= 60 {
            text::display_text(p)
        } else {
            "…/"@ + name_text(path::parent_file_name(p)) + "/"@ + name_text(path::file_name(p))
        },
{
}

/// Every warning says that it is one, and different troubles are told apart.
pub proof fn law_warnings_tell_troubles_apart(t: Trouble, u: Trouble)
    ensures
        trouble_text(t).len() > 9,
        trouble_text(t).take(9) == "warning: "@,
        t != u ==> trouble_text(t) != trouble_text(u),
{
    reveal_strlit("warning: ");
    reveal_strlit("warning: cannot read directory ");
    reveal_strlit("warning: directory entry error in ");
    reveal_strlit("warning: cannot stat ");
    reveal_strlit("warning: cannot follow symlink ");
    assert(trouble_text(t).take(9) =~= "warning: "@);
    assert("warning: directory entry error in "@[9] == 'd');
    assert("warning: cannot read directory "@[9] == 'c');
    assert("warning: cannot read directory "@[16] == 'r');
    assert("warning: cannot stat "@[9] == 'c');
    assert("warning: cannot stat "@[16] == 's');
    assert("warning: cannot follow symlink "@[9] == 'c');
    assert("warning: cannot follow symlink "@[16] == 'f');
}

} // verus!
