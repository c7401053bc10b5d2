//! JSON output: listed entries, or the breakdown by extension.

use crate::aggregator::{DirNode, Entry};
use crate::breakdown::Tally;
use crate::formatter::{human_size, top_len};
use crate::order::SortOrder;
use crate::path::PathBuf;
use crate::{aggregator, breakdown, formatter, text};
use vstd::prelude::*;
use vstd::string::*;

verus! {

/// `serde_json::Map`, an object. What it holds is named by [`json_members`].
#[verifier::external_type_specification]
#[verifier::external_body]
#[verifier::reject_recursive_types(K)]
#[verifier::reject_recursive_types(V)]
pub struct ExMap<K, V>(serde_json::Map<K, V>);

/// `serde_json::Value`, the value of a member. Nothing is claimed of it.
#[verifier::external_type_specification]
#[verifier::external_body]
pub struct ExValue(serde_json::Value);

/// `serde_json::Error`. Nothing is claimed of it.
#[verifier::external_type_specification]
#[verifier::external_body]
pub struct ExError(serde_json::Error);

/// A value that a member of an object can have here.
pub enum Scalar {
    Text(Seq<char>),
    Number(nat),
}

/// The members of an object, by name.
pub type Members = Map<Seq<char>, Scalar>;

pub open spec fn no_members() -> Members {
    Map::empty()
}

/// A value to be put into an object.
pub enum Field {
    Text(String),
    Number(u64),
}

pub open spec fn scalar_of(field: Field) -> Scalar {
    match field {
        Field::Text(s) => Scalar::Text(s@),
        Field::Number(n) => Scalar::Number(n as nat),
    }
}

/// The members that an object holds.
pub uninterp spec fn json_members(m: serde_json::Map<String, serde_json::Value>) -> Map<
    Seq<char>,
    Scalar,
>;

/// `serde_json::Map::new`: an object without members.
#[verifier::external_body]
fn new_object() -> (r: serde_json::Map<String, serde_json::Value>)
    ensures
        json_members(r) == no_members(),
{
    serde_json::Map::new()
}

/// `serde_json::Map::insert`: the object has the member `key` with this value,
/// in place of what it had under that name; its other members stay.
#[verifier::external_body]
fn insert_member(
    object: &mut serde_json::Map<String, serde_json::Value>,
    key: &str,
    field: Field,
)
    ensures
        json_members(*final(object)) == json_members(*old(object)).insert(key@, scalar_of(field)),
{
    let value = match field {
        Field::Text(s) => serde_json::Value::from(s),
        Field::Number(n) => serde_json::Value::from(n),
    };
    object.insert(key.to_string(), value);
}

/// The text that `serde_json::to_string_pretty` writes for an array of objects
/// with these members.
pub uninterp spec fn pretty_json(rows: Seq<Map<Seq<char>, Scalar>>) -> Seq<char>;

/// What the rows hold.
pub open spec fn members_of(rows: Seq<serde_json::Map<String, serde_json::Value>>) -> Seq<Members> {
    rows.map_values(|m: serde_json::Map<String, serde_json::Value>| json_members(m))
}

/// `serde_json::to_string_pretty` on an array of objects. It succeeds, since
/// all keys are strings, and what it writes depends on the members alone.
/// Left unsaid is the text itself.
#[verifier::external_body]
fn to_string_pretty(rows: &Vec<serde_json::Map<String, serde_json::Value>>) -> (r: Result<
    String,
    serde_json::Error,
>)
    ensures
        r is Ok,
        r->Ok_0@ == pretty_json(members_of(rows@)),
{
    serde_json::to_string_pretty(rows)
}

/// The text that was written, or an empty array where writing failed.
pub fn text_or_empty_array(r: Result<String, serde_json::Error>) -> (s: String)
    ensures
        s@ == match r {
            Ok(written) => written@,
            Err(_) => "[]"@,
        },
{
    match r {
        Ok(written) => written,
        Err(_) => {
            let mut s = String::new();
            s.append("[]");
            assert(s@ =~= "[]"@);
            s
        },
    }
}

/// The object for a listed entry.
pub open spec fn entry_object() -> spec_fn(Entry) -> Members {
    |e: Entry|
        no_members().insert(
            "path"@,
            Scalar::Text(text::display_text(e.0)),
        ).insert("bytes"@, Scalar::Number(e.1 as nat)).insert(
            "human"@,
            Scalar::Text(formatter::human_text(e.1)),
        )
}

/// The object for a row of a breakdown.
pub open spec fn tally_object() -> spec_fn(Tally) -> Members {
    |t: Tally|
        no_members().insert("extension"@, Scalar::Text(t.0)).insert(
            "bytes"@,
            Scalar::Number(t.1),
        ).insert("human"@, Scalar::Text(formatter::human_text(t.1 as u64))).insert(
            "file_count"@,
            Scalar::Number(t.2),
        )
}

/// The array for a listing.
pub open spec fn entries_json(s: Seq<Entry>) -> Seq<char> {
    pretty_json(s.map_values(entry_object()))
}

/// The array for a breakdown.
pub open spec fn tallies_json(s: Seq<Tally>) -> Seq<char> {
    pretty_json(s.map_values(tally_object()))
}

fn render_entries(entries: &Vec<(&PathBuf, u64)>, top_n: Option<usize>) -> (r: String)
    ensures
        r@ == entries_json(formatter::top(aggregator::listed(entries@), top_n)),
{
    let limit = top_len(entries.len(), top_n);
    let ghost all = aggregator::listed(entries@);
    let mut rows: Vec<serde_json::Map<String, serde_json::Value>> = Vec::new();
    let mut i: usize = 0;
    while i < limit
        invariant
            i <= limit <= entries.len(),
            all == aggregator::listed(entries@),
            members_of(rows@) =~= all.take(i as int).map_values(entry_object()),
        decreases limit - i,
    {
        let (path, size) = entries[i];
        let mut row = new_object();
        insert_member(&mut row, "path", Field::Text(path.display()));
        insert_member(&mut row, "bytes", Field::Number(size));
        insert_member(&mut row, "human", Field::Text(human_size(size)));
        let ghost before = rows@;
        let ghost object = json_members(row);
        rows.push(row);
        proof {
            let e = all[i as int];
            assert(e == (path@, size));
            assert(object == entry_object()(e));
            assert(members_of(rows@) =~= members_of(before).push(object));
            assert(all.take(i + 1) =~= all.take(i as int).push(e));
            assert(all.take(i + 1).map_values(entry_object()) =~= all.take(i as int).map_values(
                entry_object(),
            ).push(object));
        }
        i = i + 1;
    }
    assert(all.take(limit as int) =~= formatter::top(all, top_n));
    text_or_empty_array(to_string_pretty(&rows))
}

/// The files below `node` as an array of objects with the members path, bytes
/// and human.
pub fn render_json(
    node: &DirNode,
    top_n: Option<usize>,
    sort: SortOrder,
    min_size: Option<u64>,
) -> (r: String)
    ensures
        r@ == entries_json(
            formatter::top(aggregator::listing(node.files(), sort, min_size), top_n),
        ),
{
    let entries = node.flat_sorted_with(sort, min_size);
    render_entries(&entries, top_n)
}

/// The directories below `node` as an array of objects with the members path,
/// bytes and human. `node` itself is left out.
pub fn render_json_dirs(
    node: &DirNode,
    top_n: Option<usize>,
    sort: SortOrder,
    min_size: Option<u64>,
) -> (r: String)
    ensures
        r@ == entries_json(formatter::top(aggregator::listing(node.dirs(), sort, min_size), top_n)),
{
    let entries = node.dirs_sorted_with(sort, min_size);
    render_entries(&entries, top_n)
}

/// The breakdown by extension as an array of objects with the members
/// extension, bytes, human and file_count.
pub fn render_json_by_ext(node: &DirNode, sort: SortOrder) -> (r: String)
    requires
        breakdown::countable(node.files()),
    ensures
        r@ == tallies_json(breakdown::breakdown_listing(node.files(), sort)),
{
    let table = node.by_extension_sorted(sort);
    let ghost all = breakdown::tallies(table@);
    let mut rows: Vec<serde_json::Map<String, serde_json::Value>> = Vec::new();
    let mut i: usize = 0;
    while i < table.len()
        invariant
            i <= table.len(),
            all == breakdown::tallies(table@),
            members_of(rows@) =~= all.take(i as int).map_values(tally_object()),
        decreases table.len() - i,
    {
        let tally = &table[i];
        let mut row = new_object();
        insert_member(&mut row, "extension", Field::Text(tally.0.clone()));
        insert_member(&mut row, "bytes", Field::Number(tally.1));
        insert_member(&mut row, "human", Field::Text(human_size(tally.1)));
        insert_member(&mut row, "file_count", Field::Number(tally.2));
        let ghost before = rows@;
        let ghost object = json_members(row);
        rows.push(row);
        proof {
            let t = all[i as int];
            assert(t == (tally.0@, tally.1 as nat, tally.2 as nat));
            assert(object == tally_object()(t));
            assert(members_of(rows@) =~= members_of(before).push(object));
            assert(all.take(i + 1) =~= all.take(i as int).push(t));
            assert(all.take(i + 1).map_values(tally_object()) =~= all.take(i as int).map_values(
                tally_object(),
            ).push(object));
        }
        i = i + 1;
    }
    assert(all.take(i as int) =~= all);
    text_or_empty_array(to_string_pretty(&rows))
}

proof fn lemma_member_names_differ()
    ensures
        "path"@ != "bytes"@,
        "path"@ != "human"@,
        "bytes"@ != "human"@,
        "extension"@ != "bytes"@,
        "extension"@ != "human"@,
        "extension"@ != "file_count"@,
        "bytes"@ != "file_count"@,
        "human"@ != "file_count"@,
{
    reveal_strlit("path");
    reveal_strlit("bytes");
    reveal_strlit("human");
    reveal_strlit("extension");
    reveal_strlit("file_count");
    assert("path"@.len() == 4 && "bytes"@.len() == 5 && "human"@.len() == 5);
    assert("extension"@.len() == 9 && "file_count"@.len() == 10);
    assert("bytes"@[0] == 'b' && "human"@[0] == 'h');
}

/// The array of a listing has an object for each entry, in the same order, with
/// these members and no others: the path as text, the size in bytes, and the size
/// as readable text. These are the objects.
pub proof fn law_json_has_an_object_for_each_entry(s: Seq<Entry>) -> (rows: Seq<Members>)
    ensures
        entries_json(s) == pretty_json(rows),
        rows.len() == s.len(),
        forall|i: int|
            0 <= i < s.len() ==> {
                let row = #[trigger] rows[i];
                &&& row.dom() == set!["path"@, "bytes"@, "human"@]
                &&& row["path"@] == Scalar::Text(text::display_text(s[i].0))
                &&& row["bytes"@] == Scalar::Number(s[i].1 as nat)
                &&& row["human"@] == Scalar::Text(formatter::human_text(s[i].1))
            },
{
    lemma_member_names_differ();
    let rows = s.map_values(entry_object());
    assert forall|i: int| 0 <= i < s.len() implies {
        let row = #[trigger] rows[i];
        &&& row.dom() == set!["path"@, "bytes"@, "human"@]
        &&& row["path"@] == Scalar::Text(text::display_text(s[i].0))
        &&& row["bytes"@] == Scalar::Number(s[i].1 as nat)
        &&& row["human"@] == Scalar::Text(formatter::human_text(s[i].1))
    } by {
        assert(rows[i].dom() =~= set!["path"@, "bytes"@, "human"@]);
    }
    rows
}

/// The number in a member of an object.
pub open spec fn number_in(row: Members, name: Seq<char>) -> nat {
    match row[name] {
        Scalar::Number(n) => n,
        Scalar::Text(_) => 0,
    }
}

/// The array of a breakdown has an object for each extension that some file has,
/// with these members and no others: the extension, the bytes of all its files, the
/// same as readable text, and the number of its files. By size none stands before
/// one with more bytes, by name they stand alphabetically, and together they add up
/// to all files. These are the objects.
pub proof fn law_json_has_an_object_for_each_extension(files: Seq<Entry>, sort: SortOrder) -> (rows:
    Seq<Members>)
    requires
        breakdown::countable(files),
    ensures
        tallies_json(breakdown::breakdown_listing(files, sort)) == pretty_json(rows),
        forall|i: int| 0 <= i < rows.len() ==> (#[trigger] rows[i])["extension"@] is Text,
        forall|i: int|
            0 <= i < rows.len() ==> {
                let row = #[trigger] rows[i];
                let ext = row["extension"@]->Text_0;
                &&& row.dom() == set!["extension"@, "bytes"@, "human"@, "file_count"@]
                &&& row["bytes"@] == Scalar::Number(breakdown::ext_bytes(files, ext))
                &&& row["human"@] == Scalar::Text(
                    formatter::human_text(breakdown::ext_bytes(files, ext) as u64),
                )
                &&& row["file_count"@] == Scalar::Number(breakdown::ext_files(files, ext))
                &&& breakdown::ext_files(files, ext) > 0
            },
        forall|i: int, j: int|
            0 <= i < j < rows.len() ==> (#[trigger] rows[i])["extension"@] != (
            #[trigger] rows[j])["extension"@],
        forall|ext: Seq<char>| #[trigger]
            breakdown::ext_files(files, ext) > 0 ==> exists|i: int|
                0 <= i < rows.len() && (#[trigger] rows[i])["extension"@] == Scalar::Text(ext),
        sort == SortOrder::Size ==> forall|i: int, j: int|
            0 <= i <= j < rows.len() ==> number_in(#[trigger] rows[i], "bytes"@) >= number_in(
                #[trigger] rows[j],
                "bytes"@,
            ),
        sort == SortOrder::Name ==> forall|i: int, j: int|
            0 <= i < j < rows.len() ==> text::text_lt(
                (#[trigger] rows[i])["extension"@]->Text_0,
                (#[trigger] rows[j])["extension"@]->Text_0,
            ),
        rows.fold_left(0int, |sum: int, row: Members| sum + number_in(row, "bytes"@))
            == files.fold_left(0int, |sum: int, e: Entry| sum + e.1),
        rows.fold_left(0int, |sum: int, row: Members| sum + number_in(row, "file_count"@))
            == files.len(),
{
    lemma_member_names_differ();
    let table = breakdown::breakdown_listing(files, sort);
    let rows = table.map_values(tally_object());
    breakdown::law_breakdown_is_in_order(files, sort);
    breakdown::law_listed_rows_add_up(files, sort);
    assert forall|i: int| 0 <= i < rows.len() implies {
        let row = #[trigger] rows[i];
        &&& row["extension"@] == Scalar::Text(table[i].0)
        &&& row.dom() == set!["extension"@, "bytes"@, "human"@, "file_count"@]
        &&& row["bytes"@] == Scalar::Number(table[i].1)
        &&& row["human"@] == Scalar::Text(formatter::human_text(table[i].1 as u64))
        &&& row["file_count"@] == Scalar::Number(table[i].2)
    } by {
        assert(rows[i].dom() =~= set!["extension"@, "bytes"@, "human"@, "file_count"@]);
        let t = table[i];
        assert(rows[i] == tally_object()(t));
    }
    assert forall|ext: Seq<char>| #[trigger] breakdown::ext_files(files, ext) > 0 implies exists|
        i: int,
    |
        0 <= i < rows.len() && (#[trigger] rows[i])["extension"@] == Scalar::Text(ext) by {
        let i = choose|i: int| 0 <= i < table.len() && (#[trigger] table[i]).0 == ext;
        assert(rows[i]["extension"@] == Scalar::Text(ext));
    }
    lemma_object_sums(table);
    rows
}

proof fn lemma_object_sums(table: Seq<Tally>)
    ensures
        table.map_values(tally_object()).fold_left(
            0int,
            |sum: int, row: Members| sum + number_in(row, "bytes"@),
        ) == table.fold_left(0int, |sum: int, t: Tally| sum + t.1),
        table.map_values(tally_object()).fold_left(
            0int,
            |sum: int, row: Members| sum + number_in(row, "file_count"@),
        ) == table.fold_left(0int, |sum: int, t: Tally| sum + t.2),
    decreases table.len(),
{
    lemma_member_names_differ();
    let rows = table.map_values(tally_object());
    reveal_with_fuel(Seq::fold_left, 2);
    if table.len() > 0 {
        lemma_object_sums(table.drop_last());
        assert(rows.drop_last() =~= table.drop_last().map_values(tally_object()));
        let t = table.last();
        assert(rows.last() == tally_object()(t));
        assert(number_in(rows.last(), "bytes"@) == t.1);
        assert(number_in(rows.last(), "file_count"@) == t.2);
    }
}

} // verus!
