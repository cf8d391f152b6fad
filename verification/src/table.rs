//! Tables of comma-separated values, as the query engine hands them over.
use crate::text::{
    before_trailing, chomped, ended_lines_are_read_back, is_space, joined,
    joined_texts_are_taken_apart, lines, lines_in, parts, same, split, trim_end, views,
};
use vstd::prelude::*;

verus! {

/// A table: the names of its columns, and its rows.
#[derive(Debug)]
pub struct Table {
    pub columns: Vec<String>,
    pub rows: Vec<Vec<String>>,
}

/// [`Table`], as mathematics.
pub ghost struct TableView {
    pub columns: Seq<Seq<char>>,
    pub rows: Seq<Seq<Seq<char>>>,
}

/// Rows, as mathematics.
pub open spec fn row_views(rows: Seq<Vec<String>>) -> Seq<Seq<Seq<char>>> {
    rows.map_values(|r: Vec<String>| views(r@))
}

impl View for Table {
    type V = TableView;

    open spec fn view(&self) -> TableView {
        TableView { columns: views(self.columns@), rows: row_views(self.rows@) }
    }
}

/// The names that a header line gives the columns.
pub open spec fn columns_of(header: Seq<char>) -> Seq<Seq<char>> {
    parts(before_trailing(header, |c: char| is_space(c)), ',')
}

/// The rows of some lines: the values between the commas of each line that is not empty.
pub open spec fn rows_of(lines: Seq<Seq<char>>) -> Seq<Seq<Seq<char>>> {
    lines.filter(|l: Seq<char>| l.len() > 0).map_values(|l: Seq<char>| parts(l, ','))
}

/// The table of a text: a header line, then a row on each line that is not empty.
pub open spec fn table_of(text: Seq<char>) -> TableView {
    let all = lines_in(text);
    if all.len() == 0 {
        TableView { columns: columns_of(Seq::empty()), rows: Seq::empty() }
    } else {
        TableView { columns: columns_of(all[0]), rows: rows_of(all.drop_first()) }
    }
}

/// The last place of a name among the columns.
pub open spec fn column(columns: Seq<Seq<char>>, name: Seq<char>) -> Option<int>
    decreases columns.len(),
{
    if columns.len() == 0 {
        None
    } else if columns.last() == name {
        Some(columns.len() - 1)
    } else {
        column(columns.drop_last(), name)
    }
}

impl TableView {
    /// The value of a row under the name of a column; empty where the table has no such column or
    /// the row ends before it.
    pub open spec fn cell(self, row: int, name: Seq<char>) -> Seq<char> {
        match column(self.columns, name) {
            Some(i) => if i < self.rows[row].len() {
                self.rows[row][i]
            } else {
                Seq::empty()
            },
            None => Seq::empty(),
        }
    }
}

/// The names that a header line gives the columns. A row is addressed by name, so a column that
/// moves loses nothing and one that is renamed loses one value, instead of shifting all that
/// follow.
pub fn columns(header: &str) -> (r: Vec<String>)
    ensures
        views(r@) == columns_of(header@),
{
    split(trim_end(header).as_str(), ',')
}

fn column_place(columns: &Vec<String>, name: &str) -> (r: Option<usize>)
    ensures
        match r {
            Some(i) => column(views(columns@), name@) == Some(i as int) && i < columns@.len(),
            None => column(views(columns@), name@) is None,
        },
{
    let ghost all = views(columns@);
    let mut i: usize = columns.len();
    proof {
        assert(all.take(i as int) =~= all);
    }
    while i > 0
        invariant
            i <= columns@.len(),
            all == views(columns@),
            column(all, name@) == column(all.take(i as int), name@),
        decreases i,
    {
        i -= 1;
        proof {
            assert(all.take(i + 1).last() == columns@[i as int]@);
            assert(all.take(i + 1).drop_last() =~= all.take(i as int));
        }
        if same(columns[i].as_str(), name) {
            return Some(i);
        }
    }
    None
}

impl Table {
    /// The table of a text.
    pub fn read(text: &str) -> (r: Table)
        ensures
            r@ == table_of(text@),
    {
        let all = lines(text);
        let ghost seen = lines_in(text@);
        let mut rows: Vec<Vec<String>> = Vec::new();
        proof {
            assert(row_views(rows@) =~= Seq::empty());
        }
        if all.len() == 0 {
            proof {
                reveal_strlit("");
                assert(""@ =~= Seq::empty());
            }
            return Table { columns: columns(""), rows };
        }
        let ghost rest = seen.drop_first();
        let ghost p = |l: Seq<char>| l.len() > 0;
        let ghost f = |l: Seq<char>| parts(l, ',');
        proof {
            reveal(Seq::filter);
            assert(rest.take(0).filter(p).map_values(f) =~= Seq::empty());
        }
        for i in 1..all.len()
            invariant
                seen == views(all@),
                rest == seen.drop_first(),
                1 <= i <= all@.len(),
                p == (|l: Seq<char>| l.len() > 0),
                f == (|l: Seq<char>| parts(l, ',')),
                row_views(rows@) == rest.take(i - 1).filter(p).map_values(f),
        {
            let ghost before = row_views(rows@);
            proof {
                reveal(Seq::filter);
                assert(rest.take(i as int).drop_last() =~= rest.take(i - 1));
                assert(rest.take(i as int).last() == all@[i as int]@);
            }
            if !all[i].as_str().is_empty() {
                let row = split(all[i].as_str(), ',');
                rows.push(row);
                proof {
                    assert(row_views(rows@) =~= before.push(f(all@[i as int]@)));
                    assert(row_views(rows@) =~= rest.take(i as int).filter(p).map_values(f));
                }
            }
        }
        proof {
            assert(rest.take(all@.len() - 1) =~= rest);
        }
        Table { columns: columns(all[0].as_str()), rows }
    }

    /// The value of a row under the name of a column.
    pub fn cell(&self, row: usize, name: &str) -> (r: String)
        requires
            row < self.rows@.len(),
        ensures
            r@ == self@.cell(row as int, name@),
    {
        match column_place(&self.columns, name) {
            Some(i) => {
                proof {
                    assert(self@.rows[row as int] == views(self.rows@[row as int]@));
                }
                if i < self.rows[row].len() {
                    self.rows[row][i].clone()
                } else {
                    String::new()
                }
            },
            None => String::new(),
        }
    }
}

proof fn lemma_column(columns: Seq<Seq<char>>, i: int)
    requires
        columns.no_duplicates(),
        0 <= i < columns.len(),
    ensures
        column(columns, columns[i]) == Some(i),
    decreases columns.len(),
{
    if i < columns.len() - 1 {
        assert(columns[i] != columns[columns.len() - 1]);
        assert(columns.drop_last()[i] == columns[i]);
        lemma_column(columns.drop_last(), i);
    }
}

/// A value is found wherever its column stands: under the name of a column that no other column
/// shares, a row holds what stands at that column's place.
pub proof fn a_value_is_found_by_its_column(t: TableView, row: int, i: int)
    requires
        t.columns.no_duplicates(),
        0 <= i < t.columns.len(),
        i < t.rows[row].len(),
    ensures
        t.cell(row, t.columns[i]) == t.rows[row][i],
{
    lemma_column(t.columns, i);
}

/// A table in writing: the names of its columns, then each row, with commas between the values and
/// a line feed behind each line.
pub open spec fn table_written(columns: Seq<Seq<char>>, rows: Seq<Seq<Seq<char>>>) -> Seq<char> {
    joined(
        seq![joined(columns, seq![','])] + rows.map_values(
            |r: Seq<Seq<char>>| joined(r, seq![',']),
        ),
        seq!['\n'],
    ) + seq!['\n']
}

/// Whether a text can stand in a table as it is.
pub open spec fn is_cell(s: Seq<char>) -> bool {
    !s.contains(',') && !s.contains('\n') && !s.contains('\r')
}

/// Whether every value of a list can stand in a table, and there are two of them at least.
pub open spec fn are_cells(v: Seq<Seq<char>>) -> bool {
    v.len() >= 2 && forall|i: int| 0 <= i < v.len() ==> is_cell(#[trigger] v[i])
}

proof fn lemma_joined_chars(v: Seq<Seq<char>>, c: char)
    requires
        c != ',',
        forall|i: int| 0 <= i < v.len() ==> !(#[trigger] v[i]).contains(c),
    ensures
        !joined(v, seq![',']).contains(c),
        v.len() >= 2 ==> joined(v, seq![',']).len() > 0,
    decreases v.len(),
{
    if v.len() > 0 {
        let front = v.drop_last();
        assert forall|i: int| 0 <= i < front.len() implies !(#[trigger] front[i]).contains(c) by {
            assert(front[i] == v[i]);
        }
        lemma_joined_chars(front, c);
        assert(!v[v.len() - 1].contains(c));
        if joined(v, seq![',']).contains(c) {
            let s = joined(v, seq![',']);
            let k = choose|k: int| 0 <= k < s.len() && s[k] == c;
            if v.len() == 1 {
                assert(v[0].contains(s[k]));
            } else {
                let f = joined(front, seq![',']);
                if k < f.len() {
                    assert(f.contains(f[k]));
                } else if k > f.len() {
                    assert(v.last()[k - f.len() - 1] == c);
                    assert(v.last().contains(c));
                }
            }
        }
    }
}

proof fn lemma_line_of_cells(v: Seq<Seq<char>>)
    requires
        are_cells(v),
    ensures
        parts(joined(v, seq![',']), ',') == v,
        !joined(v, seq![',']).contains('\n'),
        chomped(joined(v, seq![','])) == joined(v, seq![',']),
        joined(v, seq![',']).len() > 0,
{
    joined_texts_are_taken_apart(v, ',');
    lemma_joined_chars(v, '\n');
    lemma_joined_chars(v, '\r');
    let s = joined(v, seq![',']);
    assert(s.contains(s[s.len() - 1]));
}

/// A table is read back as it was written, where its values can stand in one and the last of its
/// columns has a name that does not end in a space.
pub proof fn a_table_is_read_back(columns: Seq<Seq<char>>, rows: Seq<Seq<Seq<char>>>)
    requires
        are_cells(columns),
        columns.last().len() > 0,
        !is_space(columns.last().last()),
        forall|k: int| 0 <= k < rows.len() ==> are_cells(#[trigger] rows[k]),
    ensures
        table_of(table_written(columns, rows)).columns == columns,
        table_of(table_written(columns, rows)).rows == rows,
{
    let line = |r: Seq<Seq<char>>| joined(r, seq![',']);
    let header = joined(columns, seq![',']);
    let body = rows.map_values(line);
    let all = seq![header] + body;
    lemma_line_of_cells(columns);
    assert forall|i: int| 0 <= i < all.len() implies !(#[trigger] all[i]).contains('\n') && chomped(
        all[i],
    ) == all[i] && all[i].len() > 0 by {
        if i > 0 {
            assert(all[i] == line(rows[i - 1]));
            lemma_line_of_cells(rows[i - 1]);
        }
    }
    ended_lines_are_read_back(all);
    assert(all.drop_first() =~= body);
    assert(header.last() == columns.last().last());
    assert(before_trailing(header, |c: char| is_space(c)) == header);
    let p = |l: Seq<char>| l.len() > 0;
    assert forall|i: int| 0 <= i < body.len() implies #[trigger] p(body[i]) by {
        assert(all[i + 1] == body[i]);
    }
    lemma_all_kept(body, p);
    assert(body.map_values(|l: Seq<char>| parts(l, ',')) =~= rows) by {
        assert forall|k: int| 0 <= k < rows.len() implies parts(body[k], ',') == rows[k] by {
            lemma_line_of_cells(rows[k]);
        }
    }
}

proof fn lemma_all_kept(s: Seq<Seq<char>>, p: spec_fn(Seq<char>) -> bool)
    requires
        forall|i: int| 0 <= i < s.len() ==> p(#[trigger] s[i]),
    ensures
        s.filter(p) == s,
    decreases s.len(),
{
    reveal(Seq::filter);
    if s.len() > 0 {
        let front = s.drop_last();
        assert forall|i: int| 0 <= i < front.len() implies p(#[trigger] front[i]) by {
            assert(front[i] == s[i]);
        }
        lemma_all_kept(front, p);
        assert(p(s[s.len() - 1]));
        assert(s =~= front.push(s.last()));
    } else {
        assert(s.filter(p) =~= s);
    }
}

/// A number that tells the names of columns apart: from their length, their last character and
/// their ninth.
pub open spec fn mark(s: Seq<char>) -> int {
    if s.len() == 0 {
        0
    } else {
        s.len() * 0x10000 + (s.last() as u32) * 0x100 + if s.len() > 8 {
            s[8] as u32
        } else {
            0
        }
    }
}

/// Whether names are told apart by their marks.
pub open spec fn are_marked(names: Seq<Seq<char>>) -> bool {
    forall|i: int, j: int|
        0 <= i < j < names.len() ==> mark(#[trigger] names[i]) != mark(#[trigger] names[j])
}

/// A written table is addressed by the names of its columns: under each name a row holds what was
/// written at its place.
pub proof fn a_written_value_is_found_by_its_column(
    columns: Seq<Seq<char>>,
    rows: Seq<Seq<Seq<char>>>,
    row: int,
)
    requires
        are_marked(columns),
        are_cells(columns),
        columns.last().len() > 0,
        !is_space(columns.last().last()),
        forall|k: int|
            0 <= k < rows.len() ==> are_cells(#[trigger] rows[k]) && rows[k].len() == columns.len(),
        0 <= row < rows.len(),
    ensures
        forall|i: int|
            0 <= i < columns.len() ==> table_of(table_written(columns, rows)).cell(
                row,
                #[trigger] columns[i],
            ) == rows[row][i],
{
    a_table_is_read_back(columns, rows);
    let t = table_of(table_written(columns, rows));
    assert(columns.no_duplicates()) by {
        assert forall|i: int, j: int|
            0 <= i < columns.len() && 0 <= j < columns.len() && i != j implies columns[i]
            != columns[j] by {
            if i < j {
                assert(mark(columns[i]) != mark(columns[j]));
            } else {
                assert(mark(columns[j]) != mark(columns[i]));
            }
        }
    }
    assert(are_cells(rows[row]) && rows[row].len() == columns.len());
    assert forall|i: int| 0 <= i < columns.len() implies t.cell(row, #[trigger] columns[i])
        == rows[row][i] by {
        a_value_is_found_by_its_column(t, row, i);
    }
}

/// A line that is not empty is a row of the values between its commas, and an empty one is none.
pub proof fn a_line_is_a_row(lines: Seq<Seq<char>>, values: Seq<Seq<char>>)
    requires
        values.len() > 0,
        forall|i: int| 0 <= i < values.len() ==> !(#[trigger] values[i]).contains(','),
        joined(values, seq![',']).len() > 0,
    ensures
        rows_of(Seq::empty()) == Seq::<Seq<Seq<char>>>::empty(),
        rows_of(lines.push(Seq::empty())) == rows_of(lines),
        rows_of(lines.push(joined(values, seq![',']))) == rows_of(lines).push(values),
{
    reveal(Seq::filter);
    let line = joined(values, seq![',']);
    joined_texts_are_taken_apart(values, ',');
    assert(lines.push(Seq::empty()).drop_last() =~= lines);
    assert(lines.push(line).drop_last() =~= lines);
    assert(rows_of(Seq::empty()) =~= Seq::<Seq<Seq<char>>>::empty());
    assert(rows_of(lines.push(Seq::empty())) =~= rows_of(lines));
    assert(rows_of(lines.push(line)) =~= rows_of(lines).push(values));
}

} // verus!
