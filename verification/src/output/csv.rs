//! CSV output: listed entries, or the breakdown by extension.

use crate::aggregator::{DirNode, Entry};
use crate::breakdown::Tally;
use crate::formatter::{human_size, top_len};
use crate::order::SortOrder;
use crate::path::PathBuf;
use crate::text::push_decimal;
use crate::{aggregator, breakdown, formatter, text};
use vstd::prelude::*;
use vstd::string::*;

verus! {

/// How a character is written inside a quoted field: a quote twice, and line
/// breaks as a backslash and a letter.
pub open spec fn csv_char() -> spec_fn(char) -> Seq<char> {
    |c: char|
        if c == '"' {
            seq!['"', '"']
        } else if c == '\n' {
            seq!['\\', 'n']
        } else if c == '\r' {
            seq!['\\', 'r']
        } else {
            seq![c]
        }
}

/// Spreadsheets take a field that begins like this for a formula.
pub open spec fn starts_formula(s: Seq<char>) -> bool {
    s.len() > 0 && (s[0] == '=' || s[0] == '+' || s[0] == '-' || s[0] == '@')
}

/// The text between the quotes of a field: `raw` with its characters written
/// out, behind a tab where it would be taken for a formula.
pub open spec fn csv_escaped(raw: Seq<char>) -> Seq<char> {
    let plain = formatter::joined(raw, csv_char());
    if starts_formula(plain) {
        seq!['\t'] + plain
    } else {
        plain
    }
}

/// Text for a quoted field.
pub fn csv_escape_path(raw: &str) -> (r: String)
    ensures
        r@ == csv_escaped(raw@),
{
    let mut plain = String::new();
    assert(plain@ =~= formatter::joined(raw@.take(0), csv_char()));
    for c in iter: raw.chars()
        invariant
            iter.seq() == raw@,
            plain@ == formatter::joined(raw@.take(iter.index()), csv_char()),
    {
        let ghost before = plain@;
        if c == '"' {
            plain.push('"');
            plain.push('"');
        } else if c == '\n' {
            plain.push('\\');
            plain.push('n');
        } else if c == '\r' {
            plain.push('\\');
            plain.push('r');
        } else {
            plain.push(c);
        }
        proof {
            assert(raw@.take(iter.index() + 1).drop_last() =~= raw@.take(iter.index()));
            assert(plain@ =~= before + csv_char()(c));
        }
    }
    assert(raw@.take(raw@.len() as int) =~= raw@);
    if plain.as_str().is_empty() {
        return plain;
    }
    let first = plain.as_str().get_char(0);
    if first == '=' || first == '+' || first == '-' || first == '@' {
        let mut guarded = String::new();
        guarded.push('\t');
        guarded.append(plain.as_str());
        assert(guarded@ =~= seq!['\t'] + plain@);
        guarded
    } else {
        plain
    }
}

/// A row: the quoted field, the bytes, and the bytes as readable text.
pub open spec fn csv_fields(field: Seq<char>, bytes: u64) -> Seq<char> {
    "\""@ + csv_escaped(field) + "\","@ + text::decimal(bytes as nat) + ","@ + formatter::human_text(
        bytes,
    )
}

fn push_fields(out: &mut String, field: &str, bytes: u64)
    ensures
        final(out)@ == old(out)@ + csv_fields(field@, bytes),
{
    out.append("\"");
    out.append(csv_escape_path(field).as_str());
    out.append("\",");
    push_decimal(out, bytes);
    out.append(",");
    out.append(human_size(bytes).as_str());
    assert(out@ =~= old(out)@ + csv_fields(field@, bytes));
}

pub open spec fn entry_row() -> spec_fn(Entry) -> Seq<char> {
    |e: Entry| csv_fields(text::display_text(e.0), e.1) + "\n"@
}

pub open spec fn tally_row() -> spec_fn(Tally) -> Seq<char> {
    |t: Tally| csv_fields(t.0, t.1 as u64) + ","@ + text::decimal(t.2) + "\n"@
}

/// The table of a listing.
pub open spec fn entries_csv(s: Seq<Entry>) -> Seq<char> {
    "path,bytes,human_size\n"@ + formatter::joined(s, entry_row())
}

/// The table of a breakdown.
pub open spec fn tallies_csv(s: Seq<Tally>) -> Seq<char> {
    "extension,bytes,human_size,file_count\n"@ + formatter::joined(s, tally_row())
}

fn render_entries(entries: &Vec<(&PathBuf, u64)>, top_n: Option<usize>) -> (r: String)
    ensures
        r@ == entries_csv(formatter::top(aggregator::listed(entries@), top_n)),
{
    let limit = top_len(entries.len(), top_n);
    let ghost all = aggregator::listed(entries@);
    let ghost header = "path,bytes,human_size\n"@;
    let mut out = String::new();
    out.append("path,bytes,human_size\n");
    let mut i: usize = 0;
    assert(out@ =~= header + formatter::joined(all.take(0), entry_row()));
    while i < limit
        invariant
            i <= limit <= entries.len(),
            all == aggregator::listed(entries@),
            out@ == header + formatter::joined(all.take(i as int), entry_row()),
        decreases limit - i,
    {
        let (path, size) = entries[i];
        let ghost before = out@;
        push_fields(&mut out, path.display().as_str(), size);
        out.append("\n");
        proof {
            let e = all[i as int];
            assert(e == (path@, size));
            assert(all.take(i + 1).drop_last() =~= all.take(i as int));
            assert(out@ =~= before + entry_row()(e));
            assert(out@ =~= header + formatter::joined(all.take(i + 1), entry_row()));
        }
        i = i + 1;
    }
    assert(all.take(limit as int) =~= formatter::top(all, top_n));
    out
}

/// The files below `node` as a table with the columns path, bytes and human_size.
pub fn render_csv(
    node: &DirNode,
    top_n: Option<usize>,
    sort: SortOrder,
    min_size: Option<u64>,
) -> (r: String)
    ensures
        r@ == entries_csv(
            formatter::top(aggregator::listing(node.files(), sort, min_size), top_n),
        ),
{
    let entries = node.flat_sorted_with(sort, min_size);
    render_entries(&entries, top_n)
}

/// The directories below `node` as a table with the columns path, bytes and
/// human_size. `node` itself is left out.
pub fn render_csv_dirs(
    node: &DirNode,
    top_n: Option<usize>,
    sort: SortOrder,
    min_size: Option<u64>,
) -> (r: String)
    ensures
        r@ == entries_csv(formatter::top(aggregator::listing(node.dirs(), sort, min_size), top_n)),
{
    let entries = node.dirs_sorted_with(sort, min_size);
    render_entries(&entries, top_n)
}

/// The breakdown by extension as a table with the columns extension, bytes,
/// human_size and file_count.
pub fn render_csv_by_ext(node: &DirNode, sort: SortOrder) -> (r: String)
    requires
        breakdown::countable(node.files()),
    ensures
        r@ == tallies_csv(breakdown::breakdown_listing(node.files(), sort)),
{
    let rows = node.by_extension_sorted(sort);
    let ghost all = breakdown::tallies(rows@);
    let ghost header = "extension,bytes,human_size,file_count\n"@;
    let mut out = String::new();
    out.append("extension,bytes,human_size,file_count\n");
    let mut i: usize = 0;
    assert(out@ =~= header + formatter::joined(all.take(0), tally_row()));
    while i < rows.len()
        invariant
            i <= rows.len(),
            all == breakdown::tallies(rows@),
            out@ == header + formatter::joined(all.take(i as int), tally_row()),
        decreases rows.len() - i,
    {
        let row = &rows[i];
        let ghost before = out@;
        push_fields(&mut out, row.0.as_str(), row.1);
        out.append(",");
        push_decimal(&mut out, row.2);
        out.append("\n");
        proof {
            let t = all[i as int];
            assert(t == (row.0@, row.1 as nat, row.2 as nat));
            assert(all.take(i + 1).drop_last() =~= all.take(i as int));
            assert(out@ =~= before + tally_row()(t));
            assert(out@ =~= header + formatter::joined(all.take(i + 1), tally_row()));
        }
        i = i + 1;
    }
    assert(all.take(i as int) =~= all);
    out
}

/// No line break is in `s`.
pub open spec fn on_one_line(s: Seq<char>) -> bool {
    forall|i: int| 0 <= i < s.len() ==> #[trigger] s[i] != '\n' && s[i] != '\r'
}

proof fn lemma_plain_field(raw: Seq<char>)
    ensures
        on_one_line(formatter::joined(raw, csv_char())),
    decreases raw.len(),
{
    if raw.len() > 0 {
        lemma_plain_field(raw.drop_last());
    }
}

/// A field never breaks its line, whatever the file is called.
pub proof fn law_field_stays_on_its_line(raw: Seq<char>)
    ensures
        on_one_line(csv_escaped(raw)),
{
    lemma_plain_field(raw);
}

/// A field is never taken for a formula.
pub proof fn law_field_is_no_formula(raw: Seq<char>)
    ensures
        !starts_formula(csv_escaped(raw)),
{
}

/// What is left of a name once its line breaks are written as a backslash and a
/// letter and a guard stands before what looks like a formula.
pub open spec fn flattened(raw: Seq<char>) -> Seq<char> {
    let plain = formatter::joined(raw, flat_char());
    if starts_formula(plain) {
        seq!['\t'] + plain
    } else {
        plain
    }
}

pub open spec fn flat_char() -> spec_fn(char) -> Seq<char> {
    |c: char|
        if c == '\n' {
            seq!['\\', 'n']
        } else if c == '\r' {
            seq!['\\', 'r']
        } else {
            seq![c]
        }
}

/// How a reader of quoted fields takes the text behind an opening quote: two
/// quotes stand for one, and a single one ends the field. The field, and what
/// is behind its closing quote.
pub open spec fn read_quoted(s: Seq<char>) -> Option<(Seq<char>, Seq<char>)>
    decreases s.len(),
{
    if s.len() == 0 {
        None
    } else if s[0] != '"' {
        match read_quoted(s.drop_first()) {
            Some((field, rest)) => Some((seq![s[0]] + field, rest)),
            None => None,
        }
    } else if s.len() > 1 && s[1] == '"' {
        match read_quoted(s.skip(2)) {
            Some((field, rest)) => Some((seq!['"'] + field, rest)),
            None => None,
        }
    } else {
        Some((seq![], s.drop_first()))
    }
}

/// A reader of quoted fields gets back the name that was written, with its line
/// breaks flattened, and finds the end of the field.
pub proof fn law_quoted_field_reads_back(raw: Seq<char>, rest: Seq<char>)
    requires
        rest.len() == 0 || rest[0] != '"',
    ensures
        read_quoted(csv_escaped(raw) + seq!['"'] + rest) == Some((flattened(raw), rest)),
{
    let plain = formatter::joined(raw, csv_char());
    let flat = formatter::joined(raw, flat_char());
    lemma_plain_reads_back(raw, rest);
    if raw.len() > 0 {
        formatter::lemma_joined_front(raw, csv_char());
        formatter::lemma_joined_front(raw, flat_char());
        assert(plain[0] == csv_char()(raw[0])[0]);
        assert(flat[0] == flat_char()(raw[0])[0]);
    }
    assert(starts_formula(plain) == starts_formula(flat));
    if starts_formula(plain) {
        let s = csv_escaped(raw) + seq!['"'] + rest;
        assert(s.drop_first() =~= plain + seq!['"'] + rest);
    }
}

proof fn lemma_plain_reads_back(raw: Seq<char>, rest: Seq<char>)
    requires
        rest.len() == 0 || rest[0] != '"',
    ensures
        read_quoted(formatter::joined(raw, csv_char()) + seq!['"'] + rest) == Some(
            (formatter::joined(raw, flat_char()), rest),
        ),
    decreases raw.len(),
{
    let s = formatter::joined(raw, csv_char()) + seq!['"'] + rest;
    if raw.len() == 0 {
        assert(s =~= seq!['"'] + rest);
        assert(s.drop_first() =~= rest);
    } else {
        let tail = raw.drop_first();
        let t = formatter::joined(tail, csv_char()) + seq!['"'] + rest;
        lemma_plain_reads_back(tail, rest);
        formatter::lemma_joined_front(raw, csv_char());
        formatter::lemma_joined_front(raw, flat_char());
        let c = raw[0];
        assert(s =~= csv_char()(c) + t);
        if c == '"' {
            assert(s.skip(2) =~= t);
        } else if c == '\n' || c == '\r' {
            assert(s.drop_first() =~= csv_char()(c).drop_first() + t);
            assert(s.drop_first().drop_first() =~= t);
            let (field, end) = (formatter::joined(tail, flat_char()), rest);
            let letter = csv_char()(c)[1];
            assert(read_quoted(s.drop_first()) == Some((seq![letter] + field, end)));
            assert(seq!['\\'] + (seq![letter] + field) =~= flat_char()(c) + field);
        } else {
            assert(s.drop_first() =~= t);
        }
    }
}

/// The number of line ends in `s`.
pub open spec fn line_ends(s: Seq<char>) -> nat
    decreases s.len(),
{
    if s.len() == 0 {
        0
    } else if s.last() == '\n' {
        line_ends(s.drop_last()) + 1
    } else {
        line_ends(s.drop_last())
    }
}

proof fn lemma_line_ends_concat(a: Seq<char>, b: Seq<char>)
    ensures
        line_ends(a + b) == line_ends(a) + line_ends(b),
    decreases b.len(),
{
    if b.len() == 0 {
        assert(a + b =~= a);
    } else {
        assert((a + b).drop_last() =~= a + b.drop_last());
        lemma_line_ends_concat(a, b.drop_last());
    }
}

proof fn lemma_no_line_ends(s: Seq<char>)
    requires
        on_one_line(s),
    ensures
        line_ends(s) == 0,
    decreases s.len(),
{
    if s.len() > 0 {
        lemma_no_line_ends(s.drop_last());
    }
}

proof fn lemma_decimal_on_one_line(n: nat)
    ensures
        on_one_line(text::decimal(n)),
    decreases n,
{
    if n >= 10 {
        lemma_decimal_on_one_line(n / 10);
    }
}

proof fn lemma_fields_on_one_line(field: Seq<char>, bytes: u64)
    ensures
        on_one_line(csv_fields(field, bytes)),
{
    law_field_stays_on_its_line(field);
    lemma_decimal_on_one_line(bytes as nat);
    reveal_strlit("\"");
    reveal_strlit("\",");
    reveal_strlit(",");
    reveal_strlit(".");
    reveal_strlit(" B");
    reveal_strlit(" KiB");
    reveal_strlit(" MiB");
    reveal_strlit(" GiB");
    reveal_strlit(" TiB");
    assert forall|unit: u64|
        on_one_line(text::decimal(#[trigger] formatter::shown_tenths(bytes, unit) / 10))
        && on_one_line(text::decimal(formatter::shown_tenths(bytes, unit) % 10)) by {
        lemma_decimal_on_one_line(formatter::shown_tenths(bytes, unit) / 10);
        lemma_decimal_on_one_line(formatter::shown_tenths(bytes, unit) % 10);
    }
    assert(on_one_line(formatter::human_text(bytes)));
}

/// A table of a listing has one line for the column names and one for each row.
pub proof fn law_one_line_per_entry(s: Seq<Entry>)
    ensures
        line_ends(entries_csv(s)) == s.len() + 1,
    decreases s.len(),
{
    let header = "path,bytes,human_size\n"@;
    let rows = formatter::joined(s, entry_row());
    if s.len() == 0 {
        reveal_strlit("path,bytes,human_size\n");
        let names = header.drop_last();
        assert(on_one_line(names));
        lemma_no_line_ends(names);
        assert(header.last() == '\n');
        assert(header + rows =~= header);
    } else {
        law_one_line_per_entry(s.drop_last());
        let e = s.last();
        let fields = csv_fields(text::display_text(e.0), e.1);
        lemma_fields_on_one_line(text::display_text(e.0), e.1);
        lemma_no_line_ends(fields);
        reveal_strlit("\n");
        let row = entry_row()(e);
        assert(row.drop_last() =~= fields);
        assert(row.last() == '\n');
        let before = entries_csv(s.drop_last());
        assert(entries_csv(s) =~= before + row);
        lemma_line_ends_concat(before, row);
    }
}

/// A table of a breakdown has one line for the column names and one for each row.
pub proof fn law_one_line_per_extension(s: Seq<Tally>)
    ensures
        line_ends(tallies_csv(s)) == s.len() + 1,
    decreases s.len(),
{
    let header = "extension,bytes,human_size,file_count\n"@;
    let rows = formatter::joined(s, tally_row());
    if s.len() == 0 {
        reveal_strlit("extension,bytes,human_size,file_count\n");
        let names = header.drop_last();
        assert(on_one_line(names));
        lemma_no_line_ends(names);
        assert(header.last() == '\n');
        assert(header + rows =~= header);
    } else {
        law_one_line_per_extension(s.drop_last());
        let t = s.last();
        let fields = csv_fields(t.0, t.1 as u64) + ","@ + text::decimal(t.2);
        lemma_fields_on_one_line(t.0, t.1 as u64);
        lemma_decimal_on_one_line(t.2);
        reveal_strlit(",");
        assert(on_one_line(fields));
        lemma_no_line_ends(fields);
        reveal_strlit("\n");
        let row = tally_row()(t);
        assert(row.drop_last() =~= fields);
        assert(row.last() == '\n');
        let before = tallies_csv(s.drop_last());
        assert(tallies_csv(s) =~= before + row);
        lemma_line_ends_concat(before, row);
    }
}

/// A field is written character by character: a quote twice, a line feed and a
/// carriage return as a backslash and a letter, and any other character as it is;
/// before what begins with one of four signs stands a tab. These are the characters
/// as written.
pub proof fn law_field_is_written_character_by_character(raw: Seq<char>) -> (written: Seq<
    Seq<char>,
>)
    ensures
        written.len() == raw.len(),
        forall|i: int|
            0 <= i < raw.len() ==> #[trigger] written[i] == match raw[i] {
                '"' => seq!['"', '"'],
                '\n' => seq!['\\', 'n'],
                '\r' => seq!['\\', 'r'],
                c => seq![c],
            },
        csv_escaped(raw) == if raw.len() > 0 && (raw[0] == '=' || raw[0] == '+' || raw[0] == '-'
            || raw[0] == '@') {
            seq!['\t'] + formatter::as_text(written)
        } else {
            formatter::as_text(written)
        },
{
    let written = raw.map_values(csv_char());
    formatter::lemma_joined_lines(raw, csv_char());
    if raw.len() > 0 {
        formatter::lemma_joined_front(raw, csv_char());
        assert(formatter::joined(raw, csv_char())[0] == csv_char()(raw[0])[0]);
    }
    written
}

/// A table of a listing has a line of column names and then a line for each entry,
/// in the same order: the quoted path, the bytes in digits, and the bytes as
/// readable text. These are the lines.
pub proof fn law_table_has_a_row_for_each_entry(s: Seq<Entry>) -> (rows: Seq<Seq<char>>)
    ensures
        entries_csv(s) == "path,bytes,human_size\n"@ + formatter::as_text(rows),
        rows.len() == s.len(),
        forall|i: int|
            0 <= i < s.len() ==> #[trigger] rows[i] == "\""@ + csv_escaped(
                text::display_text(s[i].0),
            ) + "\","@ + text::decimal(s[i].1 as nat) + ","@ + formatter::human_text(s[i].1)
                + "\n"@,
{
    formatter::lemma_joined_lines(s, entry_row());
    s.map_values(entry_row())
}

/// A table of a breakdown has a line of column names and then a line for each
/// extension, in the same order: the quoted extension, the bytes in digits, the
/// bytes as readable text, and the number of files. These are the lines.
pub proof fn law_table_has_a_row_for_each_extension(s: Seq<Tally>) -> (rows: Seq<Seq<char>>)
    ensures
        tallies_csv(s) == "extension,bytes,human_size,file_count\n"@ + formatter::as_text(rows),
        rows.len() == s.len(),
        forall|i: int|
            0 <= i < s.len() ==> #[trigger] rows[i] == "\""@ + csv_escaped(s[i].0) + "\","@
                + text::decimal(s[i].1 as u64 as nat) + ","@ + formatter::human_text(s[i].1 as u64)
                + ","@ + text::decimal(s[i].2) + "\n"@,
{
    formatter::lemma_joined_lines(s, tally_row());
    s.map_values(tally_row())
}

} // verus!
