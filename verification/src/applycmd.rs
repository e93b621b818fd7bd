//! Applying a table of changes: CSV with a file, a field and a value on each line.

use little_exif::metadata::Metadata;
use vstd::prelude::*;
use vstd::string::*;
use crate::exif;
use crate::exif::Position;
use crate::gpx;
use crate::iptc;
use crate::iptc::IptcEdit;
use crate::showcmd;
use crate::stamp;
use crate::tags;
use crate::tags::Tag;
use crate::text;
use crate::timeop;
use crate::xml;
use crate::xmp;
use crate::xmp::{XmpEdit, XmpValue};

verus! {

// ---- lines of CSV -----------------------------------------------------------------------

/// The fields from `i` on, when `cur` has been read of the first of them. Inside quotes a comma
/// is no separator and two quotes are one.
pub open spec fn csv_from(s: Seq<char>, i: int, quoted: bool, cur: Seq<char>) -> Seq<Seq<char>>
    decreases s.len() - i,
{
    if i < 0 || i >= s.len() {
        seq![cur]
    } else if quoted {
        if s[i] == '"' {
            if i + 1 < s.len() && s[i + 1] == '"' {
                csv_from(s, i + 2, true, cur.push('"'))
            } else {
                csv_from(s, i + 1, false, cur)
            }
        } else {
            csv_from(s, i + 1, true, cur.push(s[i]))
        }
    } else if s[i] == '"' {
        csv_from(s, i + 1, true, cur)
    } else if s[i] == ',' {
        seq![cur] + csv_from(s, i + 1, false, Seq::empty())
    } else {
        csv_from(s, i + 1, false, cur.push(s[i]))
    }
}

/// The fields of a line of CSV.
pub open spec fn csv_fields(line: Seq<char>) -> Seq<Seq<char>> {
    csv_from(line, 0, false, Seq::empty())
}

/// Reads a line of CSV, with quotes around fields and doubled quotes inside them.
pub fn parse_csv_line(line: &str) -> (out: Vec<String>)
    ensures
        text::views(out@) == csv_fields(line@),
        out@.len() > 0,
{
    let cs: Vec<char> = text::chars_of(line);
    let ghost all = csv_fields(line@);
    let mut out: Vec<String> = Vec::new();
    let mut cur: String = String::new();
    let mut quoted: bool = false;
    let mut i: usize = 0;
    assert(cur@ =~= Seq::empty());
    assert(text::views(out@) + csv_from(cs@, 0, false, cur@) =~= all);
    while i < cs.len()
        invariant
            i <= cs.len(),
            text::views(out@) + csv_from(cs@, i as int, quoted, cur@) == all,
        decreases cs.len() - i,
    {
        let c: char = cs[i];
        if quoted {
            if c == '"' {
                if i + 1 < cs.len() && cs[i + 1] == '"' {
                    cur.push('"');
                    i += 1;
                } else {
                    quoted = false;
                }
            } else {
                cur.push(c);
            }
        } else if c == '"' {
            quoted = true;
        } else if c == ',' {
            let ghost before = text::views(out@);
            let ghost one = cur@;
            out.push(cur);
            cur = String::new();
            assert(text::views(out@) =~= before.push(one));
            assert(cur@ =~= Seq::empty());
            assert(before.push(one) + csv_from(cs@, i + 1, false, cur@) =~= before + (seq![one] + csv_from(
                cs@,
                i + 1,
                false,
                cur@,
            )));
        } else {
            cur.push(c);
        }
        i += 1;
    }
    let ghost before = text::views(out@);
    let ghost one = cur@;
    out.push(cur);
    assert(text::views(out@) =~= before + seq![one]);
    out
}

proof fn lemma_bare_field(s: Seq<char>, i: int, f: Seq<char>, n: int)
    requires
        0 <= i,
        i + f.len() <= s.len(),
        forall|k: int| 0 <= k < f.len() ==> s[i + k] == #[trigger] f[k],
        !f.contains(',') && !f.contains('"'),
        0 <= n <= f.len(),
    ensures
        csv_from(s, i + n, false, f.take(n)) == csv_from(s, i + f.len(), false, f),
    decreases f.len() - n,
{
    if n < f.len() {
        lemma_bare_field(s, i, f, n + 1);
        assert(f.contains(f[n]));
        assert(s[i + n] == f[n]);
        assert(f.take(n).push(f[n]) =~= f.take(n + 1));
    } else {
        assert(f.take(n) =~= f);
    }
}

/// Where the doubled form of the first `n` characters ends.
spec fn doubled_len(f: Seq<char>, n: int) -> int {
    showcmd::doubled_quotes(f.take(n)).len() as int
}

proof fn lemma_doubled_step(f: Seq<char>, n: int)
    requires
        0 <= n < f.len(),
    ensures
        doubled_len(f, n + 1) == doubled_len(f, n) + if f[n] == '"' {
            2int
        } else {
            1
        },
        doubled_len(f, n + 1) <= showcmd::doubled_quotes(f).len(),
        showcmd::doubled_quotes(f)[doubled_len(f, n)] == f[n],
        f[n] == '"' ==> showcmd::doubled_quotes(f)[doubled_len(f, n) + 1] == '"',
    decreases f.len(),
{
    assert(f.take(n + 1).drop_last() =~= f.take(n));
    if n == f.len() - 1 {
        assert(f.take(n + 1) =~= f);
        assert(f.drop_last() =~= f.take(n));
    } else {
        lemma_doubled_step(f.drop_last(), n);
        assert(f.drop_last().take(n) =~= f.take(n));
        assert(f.drop_last().take(n + 1) =~= f.take(n + 1));
    }
}

proof fn lemma_quoted_field(s: Seq<char>, i: int, f: Seq<char>, n: int)
    requires
        0 <= i,
        i + showcmd::doubled_quotes(f).len() < s.len(),
        forall|k: int|
            0 <= k < showcmd::doubled_quotes(f).len() ==> s[i + k] == #[trigger] showcmd::doubled_quotes(f)[k],
        0 <= n <= f.len(),
    ensures
        csv_from(s, i + doubled_len(f, n), true, f.take(n)) == csv_from(
            s,
            i + showcmd::doubled_quotes(f).len(),
            true,
            f,
        ),
    decreases f.len() - n,
{
    if n < f.len() {
        lemma_doubled_step(f, n);
        lemma_quoted_field(s, i, f, n + 1);
        let at = doubled_len(f, n);
        assert(s[i + at] == f[n]);
        if f[n] == '"' {
            assert(s[i + (at + 1)] == '"');
        }
        assert(f.take(n).push(f[n]) =~= f.take(n + 1));
    } else {
        assert(f.take(n) =~= f);
    }
}

/// A field that was written is read, and the reader stands behind it.
proof fn lemma_field(s: Seq<char>, i: int, f: Seq<char>)
    requires
        0 <= i,
        i + showcmd::csv_text(f).len() <= s.len(),
        forall|k: int| 0 <= k < showcmd::csv_text(f).len() ==> s[i + k] == #[trigger] showcmd::csv_text(f)[k],
        i + showcmd::csv_text(f).len() < s.len() ==> s[i + showcmd::csv_text(f).len()] == ',',
    ensures
        csv_from(s, i, false, Seq::empty()) == csv_from(s, i + showcmd::csv_text(f).len(), false, f),
{
    let t = showcmd::csv_text(f);
    let empty = Seq::<char>::empty();
    assert(f.take(0) =~= empty);
    if showcmd::needs_quotes(f) {
        let d = showcmd::doubled_quotes(f);
        assert(t[0] == '"');
        assert(s[i + 0] == t[0]);
        assert forall|k: int| 0 <= k < d.len() implies s[(i + 1) + k] == #[trigger] d[k] by {
            assert(t[k + 1] == d[k]);
            assert(s[i + (k + 1)] == t[k + 1]);
        }
        lemma_quoted_field(s, i + 1, f, 0);
        assert(showcmd::doubled_quotes(empty) =~= empty);
        assert(csv_from(s, i + 1, true, empty) == csv_from(s, i + 1 + d.len(), true, f));
        assert(t[d.len() as int + 1] == '"');
        assert(s[i + (d.len() + 1)] == '"');
        assert(csv_from(s, i + 1 + d.len(), true, f) == csv_from(s, i + t.len(), false, f));
    } else {
        lemma_bare_field(s, i, f, 0);
    }
}

/// A line of CSV.
pub open spec fn csv_line(fields: Seq<Seq<char>>) -> Seq<char>
    decreases fields.len(),
{
    if fields.len() == 0 {
        Seq::empty()
    } else if fields.len() == 1 {
        showcmd::csv_text(fields[0])
    } else {
        showcmd::csv_text(fields[0]) + seq![','] + csv_line(fields.drop_first())
    }
}

proof fn lemma_line(s: Seq<char>, i: int, fields: Seq<Seq<char>>)
    requires
        fields.len() > 0,
        0 <= i,
        s.len() == i + csv_line(fields).len(),
        forall|k: int| 0 <= k < csv_line(fields).len() ==> s[i + k] == #[trigger] csv_line(fields)[k],
    ensures
        csv_from(s, i, false, Seq::empty()) == fields,
    decreases fields.len(),
{
    let line = csv_line(fields);
    let t = showcmd::csv_text(fields[0]);
    assert forall|k: int| 0 <= k < t.len() implies s[i + k] == #[trigger] t[k] by {
        assert(line[k] == t[k]);
    }
    if fields.len() == 1 {
        lemma_field(s, i, fields[0]);
        assert(csv_from(s, i + t.len(), false, fields[0]) == seq![fields[0]]);
        assert(fields =~= seq![fields[0]]);
    } else {
        let rest = csv_line(fields.drop_first());
        assert(line[t.len() as int] == ',');
        assert(s[i + t.len()] == ',');
        lemma_field(s, i, fields[0]);
        assert forall|k: int| 0 <= k < rest.len() implies s[(i + t.len() + 1) + k] == #[trigger] rest[k] by {
            assert(line[t.len() + 1 + k] == rest[k]);
            assert(s[i + (t.len() + 1 + k)] == line[t.len() + 1 + k]);
        }
        lemma_line(s, i + t.len() + 1, fields.drop_first());
        assert(fields =~= seq![fields[0]] + fields.drop_first());
    }
}

/// A line of CSV reads back as the fields that it was made of.
pub proof fn csv_reads_back(fields: Seq<Seq<char>>)
    requires
        fields.len() > 0,
    ensures
        csv_fields(csv_line(fields)) == fields,
{
    lemma_line(csv_line(fields), 0, fields);
}

// ---- the table --------------------------------------------------------------------------

/// A change: a field of a file and its value.
#[derive(Debug)]
pub struct Row {
    pub file: String,
    pub field: String,
    pub value: String,
}

/// What a row says.
pub struct RowView {
    pub file: Seq<char>,
    pub field: Seq<char>,
    pub value: Seq<char>,
}

impl View for Row {
    type V = RowView;

    open spec fn view(&self) -> RowView {
        RowView { file: self.file@, field: self.field@, value: self.value@ }
    }
}

/// The views of rows.
pub open spec fn rows_view(v: Seq<Row>) -> Seq<RowView> {
    v.map_values(|r: Row| r@)
}

/// The message for a line with too few columns.
pub open spec fn columns_message(number: nat, line: Seq<char>) -> Seq<char> {
    "CSV 第 "@ + text::dec(number) + " 行需要 file,field,value 三列："@ + line
}

/// The rows that the lines from `i` on add to those before, or the message for the user. Empty
/// lines, a heading, and rows without a file or a field are passed over.
pub open spec fn rows_from(lines: Seq<Seq<char>>, i: int, rows: Seq<RowView>) -> Result<Seq<RowView>, Seq<char>>
    decreases lines.len() - i,
{
    if i < 0 || i >= lines.len() {
        Ok(rows)
    } else {
        let line = text::trimmed(lines[i]);
        let cols = csv_fields(line);
        if line.len() == 0 {
            rows_from(lines, i + 1, rows)
        } else if cols.len() < 3 {
            Err(columns_message((i + 1) as nat, line))
        } else {
            let row = RowView {
                file: text::trimmed(cols[0]),
                field: text::trimmed(cols[1]),
                value: text::trimmed(cols[2]),
            };
            if (i == 0 && text::lowered(row.file) == "file"@ && text::lowered(row.field) == "field"@)
                || row.file.len() == 0 || row.field.len() == 0 {
                rows_from(lines, i + 1, rows)
            } else {
                rows_from(lines, i + 1, rows.push(row))
            }
        }
    }
}

/// The rows of a table, or the message for the user.
pub open spec fn table_of(table: Seq<char>) -> Result<Seq<RowView>, Seq<char>> {
    rows_from(text::split_any(xml::without_mark(table), seq!['\n']), 0, Seq::empty())
}

fn is_word(s: &str, word: &str) -> (r: bool)
    ensures
        r == (text::lowered(s@) == word@),
{
    let cs: Vec<char> = text::chars_of(s);
    let low: Vec<char> = text::lower_chars(cs.as_slice());
    text::is_text(low.as_slice(), word)
}

/// Reads a table of changes. The error is the message for the user.
pub fn read_table(table: &str) -> (r: Result<Vec<Row>, String>)
    ensures
        match r {
            Ok(rows) => table_of(table@) == Ok::<Seq<RowView>, Seq<char>>(rows_view(rows@)),
            Err(e) => table_of(table@) == Err::<Seq<RowView>, Seq<char>>(e@),
        },
{
    let body: String = xmp::strip_mark(table);
    let cs: Vec<char> = text::chars_of(body.as_str());
    let newline: [char; 1] = ['\n'];
    assert(newline@ =~= seq!['\n']);
    let lines: Vec<Vec<char>> = text::split_chars(cs.as_slice(), &newline);
    let ghost all = text::split_any(xml::without_mark(table@), seq!['\n']);
    let mut rows: Vec<Row> = Vec::new();
    let mut i: usize = 0;
    assert(rows_view(rows@) =~= Seq::empty());
    while i < lines.len()
        invariant
            i <= lines.len(),
            all == text::split_any(xml::without_mark(table@), seq!['\n']),
            lines@.map_values(|p: Vec<char>| p@) == all,
            rows_from(all, 0, Seq::empty()) == rows_from(all, i as int, rows_view(rows@)),
        decreases lines.len() - i,
    {
        assert(all[i as int] == lines@.map_values(|p: Vec<char>| p@)[i as int]);
        let line: String = text::text_of(text::trim_chars(lines[i].as_slice()));
        if !text::is_blank(line.as_str()) {
            let cols: Vec<String> = parse_csv_line(line.as_str());
            assert(cols@.len() == csv_fields(line@).len());
            if cols.len() < 3 {
                let mut e: String = text::copy_text("CSV 第 ");
                text::push_dec(&mut e, i as u64 + 1);
                e.append(" 行需要 file,field,value 三列：");
                e.append(line.as_str());
                return Err(e);
            }
            assert(csv_fields(line@)[0] == cols@[0]@ && csv_fields(line@)[1] == cols@[1]@ && csv_fields(
                line@,
            )[2] == cols@[2]@);
            let file: String = text::trim_text(cols[0].as_str());
            let field: String = text::trim_text(cols[1].as_str());
            let value: String = text::trim_text(cols[2].as_str());
            let heading: bool = i == 0 && is_word(file.as_str(), "file") && is_word(field.as_str(), "field");
            if !heading && !text::is_blank(file.as_str()) && !text::is_blank(field.as_str()) {
                let ghost before = rows_view(rows@);
                let row: Row = Row { file, field, value };
                let ghost one = row@;
                rows.push(row);
                assert(rows_view(rows@) =~= before.push(one));
            }
        }
        i += 1;
    }
    Ok(rows)
}

/// The rows of one file, by their numbers.
#[derive(Debug)]
pub struct Group {
    /// What tells this file from others.
    pub id: usize,
    pub rows: Vec<usize>,
}

/// What a group says.
pub struct GroupView {
    pub id: usize,
    pub rows: Seq<int>,
}

impl View for Group {
    type V = GroupView;

    open spec fn view(&self) -> GroupView {
        GroupView { id: self.id, rows: self.rows@.map_values(|n: usize| n as int) }
    }
}

/// The views of groups.
pub open spec fn groups_view(v: Seq<Group>) -> Seq<GroupView> {
    v.map_values(|g: Group| g@)
}

/// The group with this id at or after `i`.
pub open spec fn group_from(v: Seq<GroupView>, i: int, id: usize) -> Option<int>
    decreases v.len() - i,
{
    if i < 0 || i >= v.len() {
        None
    } else if v[i].id == id {
        Some(i)
    } else {
        group_from(v, i + 1, id)
    }
}

/// The first `n` rows by files: groups in the order of their first rows, rows in their order.
pub open spec fn grouped(ids: Seq<usize>, n: int) -> Seq<GroupView>
    decreases n,
{
    if n <= 0 {
        Seq::empty()
    } else {
        let before = grouped(ids, n - 1);
        match group_from(before, 0, ids[n - 1]) {
            Some(i) => before.update(i, GroupView { rows: before[i].rows.push(n - 1), ..before[i] }),
            None => before.push(GroupView { id: ids[n - 1], rows: seq![n - 1] }),
        }
    }
}

fn find_group(v: &Vec<Group>, id: usize) -> (r: Option<usize>)
    ensures
        match r {
            Some(i) => i < v@.len() && group_from(groups_view(v@), 0, id) == Some(i as int),
            None => group_from(groups_view(v@), 0, id) is None,
        },
{
    let mut i: usize = 0;
    while i < v.len()
        invariant
            i <= v.len(),
            group_from(groups_view(v@), 0, id) == group_from(groups_view(v@), i as int, id),
        decreases v.len() - i,
    {
        assert(groups_view(v@)[i as int] == v@[i as int]@);
        if v[i].id == id {
            return Some(i);
        }
        i += 1;
    }
    None
}

fn add_row(g: &Group, row: usize) -> (r: Group)
    ensures
        r@ == (GroupView { rows: g@.rows.push(row as int), ..g@ }),
{
    let mut rows: Vec<usize> = Vec::new();
    let mut i: usize = 0;
    while i < g.rows.len()
        invariant
            i <= g.rows.len(),
            rows@ == g.rows@.take(i as int),
        decreases g.rows.len() - i,
    {
        rows.push(g.rows[i]);
        assert(rows@ =~= g.rows@.take(i + 1));
        i += 1;
    }
    assert(rows@ =~= g.rows@);
    rows.push(row);
    let r: Group = Group { id: g.id, rows };
    assert(r@.rows =~= g@.rows.push(row as int));
    r
}

/// Puts rows together by files. `ids` tells the files apart: rows of the same file have the same
/// number.
pub fn group_rows(ids: &Vec<usize>) -> (v: Vec<Group>)
    ensures
        groups_view(v@) == grouped(ids@, ids@.len() as int),
{
    let mut v: Vec<Group> = Vec::new();
    let mut i: usize = 0;
    assert(groups_view(v@) =~= Seq::empty());
    while i < ids.len()
        invariant
            i <= ids.len(),
            groups_view(v@) == grouped(ids@, i as int),
        decreases ids.len() - i,
    {
        let ghost before = groups_view(v@);
        match find_group(&v, ids[i]) {
            Some(k) => {
                let g: Group = add_row(&v[k], i);
                assert(before[k as int] == v@[k as int]@);
                let ghost one = g@;
                v.set(k, g);
                assert(groups_view(v@) =~= before.update(k as int, one));
            },
            None => {
                let mut rows: Vec<usize> = Vec::new();
                rows.push(i);
                let g: Group = Group { id: ids[i], rows };
                let ghost one = g@;
                assert(one.rows =~= seq![i as int]);
                v.push(g);
                assert(groups_view(v@) =~= before.push(one));
            },
        }
        i += 1;
    }
    v
}

/// Whether a row is in the group of its file.
pub open spec fn is_grouped(v: Seq<GroupView>, id: usize, row: int) -> bool {
    exists|g: int| 0 <= g < v.len() && (#[trigger] v[g]).id == id && v[g].rows.contains(row)
}

/// Every row is in the group of its file, and each group holds rows of its file only.
pub proof fn rows_are_grouped(ids: Seq<usize>, n: int)
    requires
        0 <= n <= ids.len(),
    ensures
        forall|g: int, k: int|
            0 <= g < grouped(ids, n).len() && 0 <= k < grouped(ids, n)[g].rows.len() ==> 0 <= (
            #[trigger] grouped(ids, n)[g].rows[k]) < n && ids[grouped(ids, n)[g].rows[k]] == grouped(ids, n)[g].id,
        forall|i: int| 0 <= i < n ==> is_grouped(grouped(ids, n), #[trigger] ids[i], i),
    decreases n,
{
    if n > 0 {
        rows_are_grouped(ids, n - 1);
        let before = grouped(ids, n - 1);
        let after = grouped(ids, n);
        let id = ids[n - 1];
        lemma_group_from(before, 0, id);
        assert forall|g: int, k: int|
            0 <= g < after.len() && 0 <= k < after[g].rows.len() implies 0 <= (#[trigger] after[g].rows[k]) < n
            && ids[after[g].rows[k]] == after[g].id by {
            if g < before.len() && k < before[g].rows.len() {
                assert(after[g].rows[k] == before[g].rows[k]);
            }
        }
        assert forall|i: int| 0 <= i < n implies is_grouped(after, #[trigger] ids[i], i) by {
            if i < n - 1 {
                assert(is_grouped(before, ids[i], i));
                let g = choose|g: int|
                    0 <= g < before.len() && (#[trigger] before[g]).id == ids[i] && before[g].rows.contains(i);
                let k = choose|k: int| 0 <= k < before[g].rows.len() && before[g].rows[k] == i;
                assert(after[g].rows[k] == i);
                assert(after[g].id == ids[i]);
            } else {
                let g = match group_from(before, 0, id) {
                    Some(g) => g,
                    None => before.len() as int,
                };
                assert(after[g].rows[after[g].rows.len() - 1] == i);
                assert(after[g].id == ids[i]);
            }
        }
    }
}

proof fn lemma_group_from(v: Seq<GroupView>, i: int, id: usize)
    requires
        0 <= i,
    ensures
        match group_from(v, i, id) {
            Some(k) => i <= k < v.len() && v[k].id == id,
            None => true,
        },
    decreases v.len() - i,
{
    if i < v.len() {
        lemma_group_from(v, i + 1, id);
    }
}

// ---- where a field goes -----------------------------------------------------------------

/// The parts of a value with several parts, separated by `;` or `|`.
pub open spec fn several(s: Seq<char>) -> Seq<Seq<char>> {
    text::filled(text::split_any(s, seq![';', '|']))
}

/// The parts of a value with several parts.
pub fn split_multi(s: &str) -> (v: Vec<String>)
    ensures
        text::views(v@) == several(s@),
{
    let seps: [char; 2] = [';', '|'];
    assert(seps@ =~= seq![';', '|']);
    text::split_filled(s, &seps)
}

/// The property that a name means, and the form of its value. A name with a colon is a property;
/// others are short for one.
pub open spec fn xmp_field(name: Seq<char>, value: Seq<char>) -> (Seq<char>, xmp::ValueView) {
    let low = text::lowered(name);
    if name.contains(':') {
        (
            name,
            if low == "dc:title"@ || low == "dc:description"@ || low == "dc:rights"@ {
                xmp::ValueView::LangAlt(value)
            } else if low == "dc:creator"@ {
                xmp::ValueView::Ordered(several(value))
            } else if low == "dc:subject"@ {
                xmp::ValueView::Bag(several(value))
            } else {
                xmp::ValueView::Simple(value)
            },
        )
    } else if low == "title"@ {
        ("dc:title"@, xmp::ValueView::LangAlt(value))
    } else if low == "description"@ || low == "caption"@ {
        ("dc:description"@, xmp::ValueView::LangAlt(value))
    } else if low == "creator"@ || low == "author"@ {
        ("dc:creator"@, xmp::ValueView::Ordered(several(value)))
    } else if low == "rights"@ || low == "copyright"@ {
        ("dc:rights"@, xmp::ValueView::LangAlt(value))
    } else if low == "rating"@ {
        ("xmp:Rating"@, xmp::ValueView::Simple(value))
    } else if low == "label"@ {
        ("xmp:Label"@, xmp::ValueView::Simple(value))
    } else if low == "keywords"@ || low == "subject"@ {
        ("dc:subject"@, xmp::ValueView::Bag(several(value)))
    } else if low == "city"@ {
        ("photoshop:City"@, xmp::ValueView::Simple(value))
    } else if low == "country"@ {
        ("photoshop:Country"@, xmp::ValueView::Simple(value))
    } else {
        ("dc:"@ + low, xmp::ValueView::Simple(value))
    }
}

/// Finds the property that a name means, and gives its value the form it has there.
pub fn resolve_xmp_field(name: &str, value: &str) -> (r: (String, XmpValue))
    ensures
        (r.0@, r.1@) == xmp_field(name@, value@),
{
    let cs: Vec<char> = text::chars_of(name);
    let low: Vec<char> = text::lower_chars(cs.as_slice());
    let l: &[char] = low.as_slice();
    if text::has_char(cs.as_slice(), ':') {
        let v: XmpValue = if text::is_text(l, "dc:title") || text::is_text(l, "dc:description") || text::is_text(
            l,
            "dc:rights",
        ) {
            XmpValue::LangAlt(text::copy_text(value))
        } else if text::is_text(l, "dc:creator") {
            XmpValue::Ordered(split_multi(value))
        } else if text::is_text(l, "dc:subject") {
            XmpValue::Bag(split_multi(value))
        } else {
            XmpValue::Simple(text::copy_text(value))
        };
        return (text::copy_text(name), v);
    }
    if text::is_text(l, "title") {
        (text::copy_text("dc:title"), XmpValue::LangAlt(text::copy_text(value)))
    } else if text::is_text(l, "description") || text::is_text(l, "caption") {
        (text::copy_text("dc:description"), XmpValue::LangAlt(text::copy_text(value)))
    } else if text::is_text(l, "creator") || text::is_text(l, "author") {
        (text::copy_text("dc:creator"), XmpValue::Ordered(split_multi(value)))
    } else if text::is_text(l, "rights") || text::is_text(l, "copyright") {
        (text::copy_text("dc:rights"), XmpValue::LangAlt(text::copy_text(value)))
    } else if text::is_text(l, "rating") {
        (text::copy_text("xmp:Rating"), XmpValue::Simple(text::copy_text(value)))
    } else if text::is_text(l, "label") {
        (text::copy_text("xmp:Label"), XmpValue::Simple(text::copy_text(value)))
    } else if text::is_text(l, "keywords") || text::is_text(l, "subject") {
        (text::copy_text("dc:subject"), XmpValue::Bag(split_multi(value)))
    } else if text::is_text(l, "city") {
        (text::copy_text("photoshop:City"), XmpValue::Simple(text::copy_text(value)))
    } else if text::is_text(l, "country") {
        (text::copy_text("photoshop:Country"), XmpValue::Simple(text::copy_text(value)))
    } else {
        let shown: String = text::text_of(l);
        (text::copy_text("dc:").concat(shown.as_str()), XmpValue::Simple(text::copy_text(value)))
    }
}

/// Fields and values by where they go.
#[derive(Debug)]
pub struct Routed {
    pub exif: Vec<(String, String)>,
    pub xmp: XmpEdit,
    pub iptc: IptcEdit,
}

/// What is set, and where. What is removed is no part of it: fields only set.
pub struct RoutedView {
    pub exif: iptc::Properties,
    pub xmp: crate::editcmd::Sets,
    pub iptc: crate::editcmd::Fields,
}

/// What is set, and where.
pub open spec fn routed_view(r: Routed) -> RoutedView {
    RoutedView {
        exif: iptc::properties_view(r.exif@),
        xmp: crate::editcmd::sets_view(r.xmp.sets@),
        iptc: crate::editcmd::fields_view(r.iptc.sets@),
    }
}

/// The fields from `i` on by where they go, together with those before, or the message for the
/// user: `xmp:` and `iptc:` in front of a name say where; without them it goes to EXIF.
pub open spec fn routed_from(fields: iptc::Properties, i: int, r: RoutedView) -> Result<RoutedView, Seq<char>>
    decreases fields.len() - i,
{
    if i < 0 || i >= fields.len() {
        Ok(r)
    } else {
        let (field, value) = fields[i];
        let low = text::lowered(field);
        if text::has_prefix(low, "xmp:"@) {
            routed_from(
                fields,
                i + 1,
                RoutedView { xmp: r.xmp.push(xmp_field(field.subrange(4, field.len() as int), value)), ..r },
            )
        } else if text::has_prefix(low, "iptc:"@) {
            match iptc::field_of(low.subrange(5, low.len() as int)) {
                Some((record, number)) => routed_from(
                    fields,
                    i + 1,
                    RoutedView { iptc: r.iptc.push((record, number, seq![value])), ..r },
                ),
                None => Err("未知 IPTC 字段 `"@ + field + "`"@),
            }
        } else {
            routed_from(fields, i + 1, RoutedView { exif: r.exif.push((field, value)), ..r })
        }
    }
}

/// Nothing routed yet.
pub open spec fn nothing_routed() -> RoutedView {
    RoutedView { exif: Seq::empty(), xmp: Seq::empty(), iptc: Seq::empty() }
}

proof fn lemma_same_length(s: Seq<char>, prefix: Seq<char>)
    requires
        text::has_prefix(text::lowered(s), prefix),
    ensures
        prefix.len() <= s.len(),
{
}

/// Parts fields by where they go. The error is the message for the user.
pub fn route_fields(fields: &Vec<(String, String)>) -> (r: Result<Routed, String>)
    ensures
        match r {
            Ok(v) => routed_from(iptc::properties_view(fields@), 0, nothing_routed()) == Ok::<
                RoutedView,
                Seq<char>,
            >(routed_view(v)) && v.xmp.removes@.len() == 0 && v.iptc.removes@.len() == 0,
            Err(e) => routed_from(iptc::properties_view(fields@), 0, nothing_routed()) == Err::<
                RoutedView,
                Seq<char>,
            >(e@),
        },
{
    let ghost all = iptc::properties_view(fields@);
    let mut exif: Vec<(String, String)> = Vec::new();
    let mut sets: Vec<(String, XmpValue)> = Vec::new();
    let mut data: Vec<(u8, u8, Vec<String>)> = Vec::new();
    let xmp_mark: Vec<char> = text::chars_of("xmp:");
    let iptc_mark: Vec<char> = text::chars_of("iptc:");
    let mut i: usize = 0;
    proof {
        assert(iptc::properties_view(exif@) =~= Seq::empty());
        assert(crate::editcmd::sets_view(sets@) =~= Seq::empty());
        assert(crate::editcmd::fields_view(data@) =~= Seq::empty());
        reveal_strlit("xmp:");
        reveal_strlit("iptc:");
    }
    while i < fields.len()
        invariant
            i <= fields.len(),
            all == iptc::properties_view(fields@),
            xmp_mark@ == "xmp:"@,
            iptc_mark@ == "iptc:"@,
            "xmp:"@.len() == 4,
            "iptc:"@.len() == 5,
            routed_from(all, 0, nothing_routed()) == routed_from(
                all,
                i as int,
                RoutedView {
                    exif: iptc::properties_view(exif@),
                    xmp: crate::editcmd::sets_view(sets@),
                    iptc: crate::editcmd::fields_view(data@),
                },
            ),
        decreases fields.len() - i,
    {
        assert(all[i as int] == (fields@[i as int].0@, fields@[i as int].1@));
        let field: &str = fields[i].0.as_str();
        let value: &str = fields[i].1.as_str();
        let cs: Vec<char> = text::chars_of(field);
        let low: Vec<char> = text::lower_chars(cs.as_slice());
        if text::stands_at(low.as_slice(), 0, xmp_mark.as_slice()) {
            proof {
                lemma_same_length(field@, "xmp:"@);
            }
            let name: String = text::text_of(&cs.as_slice()[4..cs.len()]);
            let ghost before = crate::editcmd::sets_view(sets@);
            let pair: (String, XmpValue) = resolve_xmp_field(name.as_str(), value);
            let ghost one = (pair.0@, pair.1@);
            sets.push(pair);
            assert(crate::editcmd::sets_view(sets@) =~= before.push(one));
        } else if text::stands_at(low.as_slice(), 0, iptc_mark.as_slice()) {
            let name: String = text::text_of(&low.as_slice()[5..low.len()]);
            match iptc::resolve_field(name.as_str()) {
                Some((record, number)) => {
                    let ghost before = crate::editcmd::fields_view(data@);
                    let mut values: Vec<String> = Vec::new();
                    values.push(text::copy_text(value));
                    assert(text::views(values@) =~= seq![value@]);
                    data.push((record, number, values));
                    assert(crate::editcmd::fields_view(data@) =~= before.push(
                        (record, number, seq![value@]),
                    ));
                },
                None => {
                    return Err(text::copy_text("未知 IPTC 字段 `").concat(field).concat("`"));
                },
            }
        } else {
            let ghost before = iptc::properties_view(exif@);
            exif.push((text::copy_text(field), text::copy_text(value)));
            assert(iptc::properties_view(exif@) =~= before.push((field@, value@)));
        }
        i += 1;
    }
    Ok(
        Routed {
            exif,
            xmp: XmpEdit { sets, removes: Vec::new() },
            iptc: IptcEdit { sets: data, removes: Vec::new() },
        },
    )
}

// ---- EXIF fields ------------------------------------------------------------------------

/// A position as the numerals that were given.
#[derive(Debug)]
pub struct GpsText {
    pub lat: String,
    pub lon: String,
    pub alt: Option<String>,
}

/// The numerals of a position: latitude, longitude, height.
pub open spec fn gps_view(g: GpsText) -> (Seq<char>, Seq<char>, Option<Seq<char>>) {
    (g.lat@, g.lon@, text::opt(g.alt))
}

/// The numerals of a position in a value, or the message for the user. What is no number in
/// place of the height is passed over.
pub open spec fn gps_of(value: Seq<char>) -> Result<(Seq<char>, Seq<char>, Option<Seq<char>>), Seq<char>> {
    let parts = text::filled(text::split_any(value, seq![',', ';', ' ']));
    if parts.len() < 2 {
        Err("GPS 值需为 `纬度,经度[,海拔]`："@ + value)
    } else if !gpx::is_number(parts[0]) {
        Err("纬度无效："@ + parts[0])
    } else if !gpx::is_number(parts[1]) {
        Err("经度无效："@ + parts[1])
    } else {
        Ok(
            (
                parts[0],
                parts[1],
                if parts.len() > 2 && gpx::is_number(parts[2]) {
                    Some(parts[2])
                } else {
                    None
                },
            ),
        )
    }
}

/// Reads a position: latitude, longitude, and a height that may be left out. The error is the
/// message for the user.
pub fn parse_gps(value: &str) -> (r: Result<GpsText, String>)
    ensures
        match r {
            Ok(g) => gps_of(value@) == Ok::<(Seq<char>, Seq<char>, Option<Seq<char>>), Seq<char>>(gps_view(g)),
            Err(e) => gps_of(value@) == Err::<(Seq<char>, Seq<char>, Option<Seq<char>>), Seq<char>>(e@),
        },
{
    let seps: [char; 3] = [',', ';', ' '];
    assert(seps@ =~= seq![',', ';', ' ']);
    let parts: Vec<String> = text::split_filled(value, &seps);
    let ghost all = text::filled(text::split_any(value@, seq![',', ';', ' ']));
    assert(all.len() == parts@.len());
    if parts.len() < 2 {
        return Err(text::copy_text("GPS 值需为 `纬度,经度[,海拔]`：").concat(value));
    }
    assert(all[0] == parts@[0]@ && all[1] == parts@[1]@);
    if !gpx::is_numeral(parts[0].as_str()) {
        return Err(text::copy_text("纬度无效：").concat(parts[0].as_str()));
    }
    if !gpx::is_numeral(parts[1].as_str()) {
        return Err(text::copy_text("经度无效：").concat(parts[1].as_str()));
    }
    let alt: Option<String> = if parts.len() > 2 {
        assert(all[2] == parts@[2]@);
        if gpx::is_numeral(parts[2].as_str()) {
            Some(text::copy_text(parts[2].as_str()))
        } else {
            None
        }
    } else {
        None
    };
    Ok(GpsText { lat: text::copy_text(parts[0].as_str()), lon: text::copy_text(parts[1].as_str()), alt })
}

/// Whether a field is the position.
pub open spec fn names_position(field: Seq<char>) -> bool {
    iptc::canonical(field) == "gps"@
}

/// Whether a field is the position.
pub fn is_gps_field(field: &str) -> (r: bool)
    ensures
        r == names_position(field@),
{
    let f: Vec<char> = exif::canonical(field);
    text::is_text(f.as_slice(), "gps")
}

/// A time as EXIF writes it, or the message for the user.
pub open spec fn exif_time(value: Seq<char>) -> Result<Seq<char>, Seq<char>> {
    match timeop::time_in(value) {
        Some(t) => Ok(stamp::formatted(t, timeop::EXIF_FMT@)->0),
        None => Err(timeop::time_message(value)),
    }
}

/// A time as EXIF writes it. The error is the message for the user.
pub fn datetime_value(value: &str) -> (r: Result<String, String>)
    ensures
        match r {
            Ok(s) => exif_time(value@) == Ok::<Seq<char>, Seq<char>>(s@),
            Err(e) => exif_time(value@) == Err::<Seq<char>, Seq<char>>(e@),
        },
{
    match timeop::parse_datetime(value) {
        Ok(t) => Ok(timeop::format_exif(&t)),
        Err(e) => Err(e),
    }
}

/// The time fields that a field means.
pub open spec fn time_fields(f: Seq<char>) -> Option<exif::TagSelection> {
    if f == "datetimeoriginal"@ || f == "date"@ || f == "original"@ {
        Some(exif::TagSelection { original: true, digitized: false, modify: false })
    } else if f == "createdate"@ || f == "digitized"@ || f == "datetimedigitized"@ {
        Some(exif::TagSelection { original: false, digitized: true, modify: false })
    } else if f == "modifydate"@ || f == "modify"@ || f == "datetime"@ {
        Some(exif::TagSelection { original: false, digitized: false, modify: true })
    } else if f == "alldates"@ || f == "all"@ {
        Some(exif::TagSelection { original: true, digitized: true, modify: true })
    } else {
        None
    }
}

fn find_time_fields(f: &[char]) -> (r: Option<exif::TagSelection>)
    ensures
        r == time_fields(f@),
{
    if text::is_text(f, "datetimeoriginal") || text::is_text(f, "date") || text::is_text(f, "original") {
        Some(exif::TagSelection { original: true, digitized: false, modify: false })
    } else if text::is_text(f, "createdate") || text::is_text(f, "digitized") || text::is_text(
        f,
        "datetimedigitized",
    ) {
        Some(exif::TagSelection { original: false, digitized: true, modify: false })
    } else if text::is_text(f, "modifydate") || text::is_text(f, "modify") || text::is_text(f, "datetime") {
        Some(exif::TagSelection { original: false, digitized: false, modify: true })
    } else if text::is_text(f, "alldates") || text::is_text(f, "all") {
        Some(exif::TagSelection { original: true, digitized: true, modify: true })
    } else {
        None
    }
}

/// The directories after a field was set, or the message for the user. `at` is the position that
/// the value says, where the field is one.
pub open spec fn with_field(
    s: Seq<tags::IfdInfo>,
    field: Seq<char>,
    value: Seq<char>,
    at: Option<Position>,
) -> Result<Seq<tags::IfdInfo>, Seq<char>> {
    let f = iptc::canonical(field);
    let w = text::lowered(text::trimmed(value));
    if time_fields(f) is Some {
        match exif_time(value) {
            Ok(t) => Ok(exif::with_times(s, t, time_fields(f)->0)),
            Err(e) => Err(e),
        }
    } else if f == "gps"@ {
        match gps_of(value) {
            Ok(_) => Ok(exif::with_tags(s, exif::position_tags(at->0))),
            Err(e) => Err(e),
        }
    } else if f == "gpsclear"@ || f == "cleargps"@ {
        Ok(exif::without_gps(s))
    } else if f == "orientation"@ {
        match exif::orientation_code(w) {
            Some(code) => Ok(tags::with_tag(s, exif::orientation_info(code))),
            None => Err(exif::orientation_message(w)),
        }
    } else if f == "usercomment"@ {
        Ok(tags::with_tag(s, exif::comment_info(value)))
    } else {
        match exif::text_place(f) {
            Some((group, hex)) => Ok(tags::with_tag(s, exif::text_info(group, hex, value))),
            None => Err("未知或暂不支持的字段 `"@ + field + "`（apply 目前支持 EXIF 字段）"@),
        }
    }
}

fn set_times(metadata: &mut Metadata, value: &str, sel: exif::TagSelection)
    requires
        tags::sound(*old(metadata)),
    ensures
        tags::sound(*final(metadata)),
        tags::ifds_of(*final(metadata)) == exif::with_times(tags::ifds_of(*old(metadata)), value@, sel),
        tags::carried(*final(metadata)) == tags::carried(*old(metadata)),
{
    if sel.original {
        tags::put_tag(metadata, &exif::text_tag(1, 0x9003, value));
    }
    if sel.digitized {
        tags::put_tag(metadata, &exif::text_tag(1, 0x9004, value));
    }
    if sel.modify {
        tags::put_tag(metadata, &exif::text_tag(0, 0x0132, value));
    }
}

/// Sets a field. `at` is the position that the value says, where the field is one. The error is
/// the message for the user; the metadata then stays as it is.
pub fn apply_field(metadata: &mut Metadata, field: &str, value: &str, at: Option<Position>) -> (r: Result<
    (),
    String,
>)
    requires
        tags::sound(*old(metadata)),
        names_position(field@) && gps_of(value@) is Ok ==> at is Some,
    ensures
        tags::sound(*final(metadata)),
        match (r, with_field(tags::ifds_of(*old(metadata)), field@, value@, at)) {
            (Ok(()), Ok(c)) => tags::ifds_of(*final(metadata)) == c,
            (Err(e), Err(why)) => e@ == why && *final(metadata) == *old(metadata),
            _ => false,
        },
        tags::carried(*final(metadata)) == tags::carried(*old(metadata)),
{
    let f: Vec<char> = exif::canonical(field);
    let w: &[char] = f.as_slice();
    if let Some(sel) = find_time_fields(w) {
        return match datetime_value(value) {
            Ok(t) => {
                set_times(metadata, t.as_str(), sel);
                Ok(())
            },
            Err(e) => Err(e),
        };
    }
    if text::is_text(w, "gps") {
        return match parse_gps(value) {
            Ok(_) => {
                if let Some(p) = at {
                    let v: Vec<Tag> = exif::gps_tags(p);
                    exif::set_tags(metadata, &v);
                }
                Ok(())
            },
            Err(e) => Err(e),
        };
    }
    if text::is_text(w, "gpsclear") || text::is_text(w, "cleargps") {
        let _: usize = exif::remove_gps(metadata);
        return Ok(());
    }
    if text::is_text(w, "orientation") {
        return match exif::orientation_tag(value) {
            Ok(t) => {
                tags::put_tag(metadata, &t);
                Ok(())
            },
            Err(e) => Err(e),
        };
    }
    if text::is_text(w, "usercomment") {
        tags::put_tag(metadata, &exif::user_comment_tag(value));
        return Ok(());
    }
    let name: String = text::text_of(w);
    match exif::string_tag(name.as_str(), value) {
        Some(t) => {
            tags::put_tag(metadata, &t);
            Ok(())
        },
        None => Err(
            text::copy_text("未知或暂不支持的字段 `").concat(field).concat(
                "`（apply 目前支持 EXIF 字段）",
            ),
        ),
    }
}

/// The directories after the fields from `i` on were set, or the message for the user.
pub open spec fn with_fields(
    s: Seq<tags::IfdInfo>,
    fields: iptc::Properties,
    places: Seq<Option<Position>>,
    i: int,
) -> Result<Seq<tags::IfdInfo>, Seq<char>>
    decreases fields.len() - i,
{
    if i < 0 || i >= fields.len() {
        Ok(s)
    } else {
        match with_field(s, fields[i].0, fields[i].1, places[i]) {
            Ok(c) => with_fields(c, fields, places, i + 1),
            Err(e) => Err(e),
        }
    }
}

/// Whether every position among the fields is given.
pub open spec fn places_given(fields: iptc::Properties, places: Seq<Option<Position>>) -> bool {
    &&& fields.len() == places.len()
    &&& forall|i: int|
        0 <= i < fields.len() && names_position((#[trigger] fields[i]).0) && gps_of(fields[i].1) is Ok
            ==> places[i] is Some
}

/// Sets fields, one after the other. `places` are the positions that the values say, where the
/// fields are positions. The error is the message for the user; the metadata is then not to be
/// written.
pub fn apply_fields(
    metadata: &mut Metadata,
    fields: &Vec<(String, String)>,
    places: &Vec<Option<Position>>,
) -> (r: Result<(), String>)
    requires
        tags::sound(*old(metadata)),
        places_given(iptc::properties_view(fields@), places@),
    ensures
        tags::sound(*final(metadata)),
        match (r, with_fields(tags::ifds_of(*old(metadata)), iptc::properties_view(fields@), places@, 0)) {
            (Ok(()), Ok(c)) => tags::ifds_of(*final(metadata)) == c,
            (Err(e), Err(why)) => e@ == why,
            _ => false,
        },
        tags::carried(*final(metadata)) == tags::carried(*old(metadata)),
{
    let ghost s = tags::ifds_of(*metadata);
    let ghost all = iptc::properties_view(fields@);
    let mut i: usize = 0;
    while i < fields.len()
        invariant
            i <= fields.len(),
            tags::sound(*metadata),
            s == tags::ifds_of(*old(metadata)),
            tags::carried(*metadata) == tags::carried(*old(metadata)),
            all == iptc::properties_view(fields@),
            places_given(all, places@),
            with_fields(s, all, places@, 0) == with_fields(tags::ifds_of(*metadata), all, places@, i as int),
        decreases fields.len() - i,
    {
        assert(all[i as int] == (fields@[i as int].0@, fields@[i as int].1@));
        if let Err(e) = apply_field(metadata, fields[i].0.as_str(), fields[i].1.as_str(), places[i]) {
            return Err(e);
        }
        i += 1;
    }
    Ok(())
}

/// What there is to tell about a file that a table changed.
pub fn applied_text(fields: usize) -> (s: String)
    ensures
        s@ == "应用了 "@ + text::dec(fields as nat) + " 个字段"@,
{
    let mut s: String = text::copy_text("应用了 ");
    text::push_dec(&mut s, fields as u64);
    s.append(" 个字段");
    s
}

/// What is announced before a table is applied.
pub fn apply_header(source: &str, files: usize, fields: usize, dry_run: bool) -> (s: String)
    ensures
        s@ == "PIC-Killer · 从 CSV 导入元数据\n  来源："@ + source@ + "\n  文件："@ + text::dec(files as nat)
            + " 个，共 "@ + text::dec(fields as nat) + " 条字段\n"@ + text::when(
            dry_run,
            "  模式：预览（不写入）\n"@,
        ),
{
    let mut s: String = text::copy_text("PIC-Killer · 从 CSV 导入元数据\n  来源：").concat(source).concat(
        "\n  文件：",
    );
    text::push_dec(&mut s, files as u64);
    s.append(" 个，共 ");
    text::push_dec(&mut s, fields as u64);
    s.append(" 条字段\n");
    text::push_when(&mut s, dry_run, "  模式：预览（不写入）\n");
    s
}

} // verus!
