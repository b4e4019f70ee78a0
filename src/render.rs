use vstd::prelude::*;
use crate::column::{key_of, Column};
use crate::record::{cell, cell_text, cell_view, Cell, Record};
use crate::title::{push_char, title_of, to_title};

verus! {

/// The header of a column: its key in title case.
pub open spec fn header_of(c: Column) -> Seq<char> {
    title_of(key_of(c))
}

/// Width of a column: the longest of its header and of the records' values
/// in it.
pub open spec fn col_width(recs: Seq<Record>, c: Column) -> nat
    decreases recs.len(),
{
    if recs.len() == 0 {
        header_of(c).len()
    } else {
        let a = col_width(recs.drop_last(), c);
        let b = cell_text(recs.last(), c).len();
        if b > a {
            b
        } else {
            a
        }
    }
}

/// `t` padded on the right with spaces to `w` characters.
pub open spec fn padded(t: Seq<char>, w: nat) -> Seq<char> {
    t + Seq::new((w - t.len()) as nat, |_i: int| ' ')
}

/// Emphasis of a record's value in a column.
pub open spec fn cell_emph(r: Record, c: Column) -> bool {
    match cell(r, c) {
        Some(v) => v.1,
        None => false,
    }
}

/// The header cells of a table: each column's title padded to its width.
pub open spec fn header_cells(recs: Seq<Record>, cols: Seq<Column>) -> Seq<(Seq<char>, bool)> {
    Seq::new(cols.len(), |k: int| (padded(header_of(cols[k]), col_width(recs, cols[k])), false))
}

/// The cells of a record's row: each value padded to its column's width.
pub open spec fn row_cells(recs: Seq<Record>, cols: Seq<Column>, r: Record) -> Seq<(Seq<char>, bool)> {
    Seq::new(
        cols.len(),
        |k: int| (padded(cell_text(r, cols[k]), col_width(recs, cols[k])), cell_emph(r, cols[k])),
    )
}

/// Width of a full line: each column with its three border characters,
/// and the closing border.
pub open spec fn total_width(recs: Seq<Record>, cols: Seq<Column>) -> nat
    decreases cols.len(),
{
    if cols.len() == 0 {
        1
    } else {
        total_width(recs, cols.drop_last()) + col_width(recs, cols.last()) + 3
    }
}

/// The separator line under the header.
pub open spec fn rule_of(recs: Seq<Record>, cols: Seq<Column>) -> Seq<char> {
    Seq::new(total_width(recs, cols), |_i: int| '=')
}

pub open spec fn cells_view(v: Seq<Cell>) -> Seq<(Seq<char>, bool)> {
    v.map_values(|c: Cell| cell_view(c))
}

/// A laid-out table: the header cells, the separator line, and one line of
/// cells per record, every cell padded to its column's width.
#[derive(Debug)]
pub struct Table {
    pub header: Vec<Cell>,
    pub rule: String,
    pub rows: Vec<Vec<Cell>>,
}

/// The table that the records and columns lay out to.
pub open spec fn is_layout(t: Table, recs: Seq<Record>, cols: Seq<Column>) -> bool {
    &&& cells_view(t.header@) == header_cells(recs, cols)
    &&& t.rule@ == rule_of(recs, cols)
    &&& t.rows@.len() == recs.len()
    &&& forall|i: int|
        0 <= i < recs.len() ==> cells_view(#[trigger] t.rows@[i]@) == row_cells(recs, cols, recs[i])
}

/// Every record has a value in every column.
pub open spec fn complete(recs: Seq<Record>, cols: Seq<Column>) -> bool {
    forall|i: int, k: int|
        0 <= i < recs.len() && 0 <= k < cols.len() ==> (#[trigger] cell(recs[i], cols[k])).is_some()
}

/// The pieces of a line before its closing border: for each cell, an
/// opening border, the cell, and a space.
pub open spec fn line_body(cells: Seq<(Seq<char>, bool)>) -> Seq<(Seq<char>, bool)>
    decreases cells.len(),
{
    if cells.len() == 0 {
        seq![]
    } else {
        line_body(cells.drop_last()) + seq![("| "@, false), cells.last(), (" "@, false)]
    }
}

/// The pieces of a line: its cells framed by borders.
pub open spec fn framed(cells: Seq<(Seq<char>, bool)>) -> Seq<(Seq<char>, bool)> {
    line_body(cells).push(("|"@, false))
}

/// The text of a sequence of pieces.
pub open spec fn flat(pieces: Seq<(Seq<char>, bool)>) -> Seq<char>
    decreases pieces.len(),
{
    if pieces.len() == 0 {
        seq![]
    } else {
        flat(pieces.drop_last()) + pieces.last().0
    }
}

/// The text of a line of cells, with its line break.
pub open spec fn line_text(cells: Seq<(Seq<char>, bool)>) -> Seq<char> {
    flat(framed(cells)) + "\n"@
}

/// The text of the rows of a table.
pub open spec fn rows_text(rows: Seq<Seq<(Seq<char>, bool)>>) -> Seq<char>
    decreases rows.len(),
{
    if rows.len() == 0 {
        seq![]
    } else {
        rows_text(rows.drop_last()) + line_text(rows.last())
    }
}

/// The lines of a table: header, separator, and one line per row.
pub open spec fn table_lines(
    header: Seq<(Seq<char>, bool)>,
    rule: Seq<char>,
    rows: Seq<Seq<(Seq<char>, bool)>>,
) -> Seq<Seq<char>> {
    seq![line_text(header), rule + "\n"@] + rows.map_values(|r: Seq<(Seq<char>, bool)>| line_text(r))
}

pub open spec fn rows_view(rows: Seq<Vec<Cell>>) -> Seq<Seq<(Seq<char>, bool)>> {
    rows.map_values(|r: Vec<Cell>| cells_view(r@))
}

/// The rows of the table that records lay out to.
pub open spec fn listing_rows(recs: Seq<Record>, cols: Seq<Column>) -> Seq<Seq<(Seq<char>, bool)>> {
    Seq::new(recs.len(), |i: int| row_cells(recs, cols, recs[i]))
}

/// The text that records render to in the given columns.
pub open spec fn listing_text(recs: Seq<Record>, cols: Seq<Column>) -> Seq<char> {
    line_text(header_cells(recs, cols)) + rule_of(recs, cols) + "\n"@ + rows_text(listing_rows(recs, cols))
}

/// The lines that records render to: header, separator, and one per record.
pub open spec fn listing_lines(recs: Seq<Record>, cols: Seq<Column>) -> Seq<Seq<char>> {
    table_lines(header_cells(recs, cols), rule_of(recs, cols), listing_rows(recs, cols))
}

/// Lines put one after the other.
pub open spec fn concat_lines(ls: Seq<Seq<char>>) -> Seq<char>
    decreases ls.len(),
{
    if ls.len() == 0 {
        seq![]
    } else {
        concat_lines(ls.drop_last()) + ls.last()
    }
}

/// The text of a table: header line, separator line, then the rows.
pub open spec fn table_text(t: Table) -> Seq<char> {
    line_text(cells_view(t.header@)) + t.rule@ + "\n"@ + rows_text(rows_view(t.rows@))
}

/// The value of a record in a column.
fn cell_of(r: &Record, c: Column) -> (x: Option<&Cell>)
    ensures
        match x {
            Some(y) => cell(*r, c) == Some(cell_view(*y)),
            None => cell(*r, c).is_none(),
        },
{
    match c {
        Column::Name => Some(&r.name),
        Column::Size => match &r.size {
            Some(y) => Some(y),
            None => None,
        },
        Column::Type => match &r.file_type {
            Some(y) => Some(y),
            None => None,
        },
    }
}

/// The width of a column: the longest of its title and its values.
pub fn column_width(records: &Vec<Record>, c: Column) -> (w: usize)
    ensures
        w == col_width(records@, c),
{
    let title = to_title(c.key());
    let mut w = title.as_str().unicode_len();
    let mut i: usize = 0;
    assert(records@.take(0).len() == 0);
    while i < records.len()
        invariant
            0 <= i <= records@.len(),
            w == col_width(records@.take(i as int), c),
        decreases records@.len() - i,
    {
        let len = match cell_of(&records[i], c) {
            Some(x) => x.text.as_str().unicode_len(),
            None => 0,
        };
        assert(records@.take(i + 1).drop_last() =~= records@.take(i as int));
        if len > w {
            w = len;
        }
        i = i + 1;
    }
    assert(records@.take(records@.len() as int) =~= records@);
    w
}

/// No value and no header is wider than its column.
pub proof fn lemma_width_bound(recs: Seq<Record>, c: Column)
    ensures
        header_of(c).len() <= col_width(recs, c),
        forall|i: int| 0 <= i < recs.len() ==> (#[trigger] cell_text(recs[i], c)).len() <= col_width(recs, c),
    decreases recs.len(),
{
    if recs.len() > 0 {
        let p = recs.drop_last();
        lemma_width_bound(p, c);
        assert forall|i: int| 0 <= i < recs.len() implies (#[trigger] cell_text(recs[i], c)).len() <= col_width(recs, c) by {
            if i < recs.len() - 1 {
                assert(recs[i] == p[i]);
            }
        }
    }
}

/// A text padded with spaces to a width at least its length.
pub fn pad(text: &str, w: usize) -> (r: String)
    requires
        text@.len() <= w,
    ensures
        r@ == padded(text@, w as nat),
{
    let len = text.unicode_len();
    let mut out = String::from_str(text);
    let mut j: usize = len;
    while j < w
        invariant
            len == text@.len(),
            len <= j <= w,
            out@ == text@ + Seq::new((j - len) as nat, |_i: int| ' '),
        decreases w - j,
    {
        push_char(&mut out, ' ');
        assert(out@ =~= text@ + Seq::new((j + 1 - len) as nat, |_i: int| ' '));
        j = j + 1;
    }
    out
}

/// The widths of the given columns.
pub fn column_widths(records: &Vec<Record>, cols: &Vec<Column>) -> (ws: Vec<usize>)
    ensures
        ws@.len() == cols@.len(),
        forall|k: int| 0 <= k < cols@.len() ==> ws@[k] == col_width(records@, #[trigger] cols@[k]),
{
    let mut ws: Vec<usize> = Vec::new();
    let mut k: usize = 0;
    while k < cols.len()
        invariant
            0 <= k <= cols@.len(),
            ws@.len() == k,
            forall|m: int| 0 <= m < k ==> ws@[m] == col_width(records@, #[trigger] cols@[m]),
        decreases cols@.len() - k,
    {
        ws.push(column_width(records, cols[k]));
        k = k + 1;
    }
    ws
}

/// Appends `n` copies of a character.
fn push_repeat(s: &mut String, c: char, n: usize)
    ensures
        final(s)@ == old(s)@ + Seq::new(n as nat, |_i: int| c),
{
    let ghost start = s@;
    let mut j: usize = 0;
    while j < n
        invariant
            0 <= j <= n,
            s@ == start + Seq::new(j as nat, |_i: int| c),
        decreases n - j,
    {
        push_char(s, c);
        assert(s@ =~= start + Seq::new((j + 1) as nat, |_i: int| c));
        j = j + 1;
    }
    assert(s@ =~= start + Seq::new(n as nat, |_i: int| c));
}

/// The cells of one record's row, each value padded to its width.
fn row_of(r: &Record, cols: &Vec<Column>, ws: &Vec<usize>) -> (out: Vec<Cell>)
    requires
        ws@.len() == cols@.len(),
        forall|k: int| 0 <= k < cols@.len() ==> (#[trigger] cell(*r, cols@[k])).is_some(),
        forall|k: int| 0 <= k < cols@.len() ==> (#[trigger] cell_text(*r, cols@[k])).len() <= ws@[k],
    ensures
        cells_view(out@) == Seq::new(
            cols@.len(),
            |k: int| (padded(cell_text(*r, cols@[k]), ws@[k] as nat), cell_emph(*r, cols@[k])),
        ),
{
    let mut out: Vec<Cell> = Vec::new();
    let mut k: usize = 0;
    while k < cols.len()
        invariant
            ws@.len() == cols@.len(),
            forall|m: int| 0 <= m < cols@.len() ==> (#[trigger] cell(*r, cols@[m])).is_some(),
            forall|m: int| 0 <= m < cols@.len() ==> (#[trigger] cell_text(*r, cols@[m])).len() <= ws@[m],
            0 <= k <= cols@.len(),
            out@.len() == k,
            forall|m: int|
                0 <= m < k ==> cell_view(#[trigger] out@[m]) == (
                padded(cell_text(*r, cols@[m]), ws@[m] as nat),
                cell_emph(*r, cols@[m]),
                ),
        decreases cols@.len() - k,
    {
        let c = cols[k];
        assert(cell(*r, cols@[k as int]).is_some());
        assert(cell_text(*r, cols@[k as int]).len() <= ws@[k as int]);
        match cell_of(r, c) {
            Some(x) => {
                let text = pad(x.text.as_str(), ws[k]);
                out.push(Cell { text, emphasize: x.emphasize });
            },
            None => {},
        }
        k = k + 1;
    }
    assert(cells_view(out@) =~= Seq::new(
        cols@.len(),
        |k: int| (padded(cell_text(*r, cols@[k]), ws@[k] as nat), cell_emph(*r, cols@[k])),
    ));
    out
}

/// Lays the records out in the given columns: the titled header, the
/// separator line of `=` as wide as a full line, and one row per record,
/// every cell padded to the width of its column.
pub fn layout(records: &Vec<Record>, cols: &Vec<Column>) -> (t: Table)
    requires
        complete(records@, cols@),
    ensures
        is_layout(t, records@, cols@),
{
    let ghost recs = records@;
    let ws = column_widths(records, cols);
    let mut header: Vec<Cell> = Vec::new();
    let mut rule = String::new();
    push_char(&mut rule, '=');
    assert(rule@ =~= Seq::new(total_width(recs, cols@.take(0)), |_i: int| '='));
    let mut k: usize = 0;
    while k < cols.len()
        invariant
            ws@.len() == cols@.len(),
            forall|m: int| 0 <= m < cols@.len() ==> ws@[m] == col_width(recs, #[trigger] cols@[m]),
            0 <= k <= cols@.len(),
            header@.len() == k,
            forall|m: int|
                0 <= m < k ==> cell_view(#[trigger] header@[m]) == header_cells(recs, cols@)[m],
            rule@ == Seq::new(total_width(recs, cols@.take(k as int)), |_i: int| '='),
        decreases cols@.len() - k,
    {
        let c = cols[k];
        let title = to_title(c.key());
        proof {
            lemma_width_bound(recs, c);
        }
        let text = pad(title.as_str(), ws[k]);
        header.push(Cell { text, emphasize: false });
        push_repeat(&mut rule, '=', ws[k]);
        push_repeat(&mut rule, '=', 3);
        assert(cols@.take(k + 1).drop_last() =~= cols@.take(k as int));
        assert(rule@ =~= Seq::new(total_width(recs, cols@.take(k + 1)), |_i: int| '='));
        k = k + 1;
    }
    assert(cols@.take(cols@.len() as int) =~= cols@);
    assert(cells_view(header@) =~= header_cells(recs, cols@));
    let mut rows: Vec<Vec<Cell>> = Vec::new();
    let mut i: usize = 0;
    while i < records.len()
        invariant
            recs == records@,
            complete(recs, cols@),
            ws@.len() == cols@.len(),
            forall|m: int| 0 <= m < cols@.len() ==> ws@[m] == col_width(recs, #[trigger] cols@[m]),
            0 <= i <= recs.len(),
            rows@.len() == i,
            forall|j: int|
                0 <= j < i ==> cells_view(#[trigger] rows@[j]@) == row_cells(recs, cols@, recs[j]),
        decreases recs.len() - i,
    {
        proof {
            assert forall|m: int| 0 <= m < cols@.len() implies (#[trigger] cell_text(
                recs[i as int],
                cols@[m],
            )).len() <= ws@[m] by {
                lemma_width_bound(recs, cols@[m]);
            }
            assert forall|m: int| 0 <= m < cols@.len() implies (#[trigger] cell(
                recs[i as int],
                cols@[m],
            )).is_some() by {}
        }
        let row = row_of(&records[i], cols, &ws);
        assert(cells_view(row@) =~= row_cells(recs, cols@, recs[i as int]));
        rows.push(row);
        i = i + 1;
    }
    Table { header, rule, rows }
}

proof fn lemma_flat_push(x: Seq<(Seq<char>, bool)>, p: (Seq<char>, bool))
    ensures
        flat(x.push(p)) == flat(x) + p.0,
{
    assert(x.push(p).drop_last() =~= x);
}

/// The pieces of a line of cells: for each cell an opening border `| `, the
/// cell and a space, then the closing border `|`. Borders are not emphasized.
pub fn frame(cells: &Vec<Cell>) -> (r: Vec<Cell>)
    ensures
        cells_view(r@) == framed(cells_view(cells@)),
{
    let mut out: Vec<Cell> = Vec::new();
    let mut k: usize = 0;
    while k < cells.len()
        invariant
            0 <= k <= cells@.len(),
            cells_view(out@) == line_body(cells_view(cells@.take(k as int))),
        decreases cells@.len() - k,
    {
        let ghost before = cells_view(out@);
        out.push(Cell { text: String::from_str("| "), emphasize: false });
        out.push(Cell { text: cells[k].text.clone(), emphasize: cells[k].emphasize });
        out.push(Cell { text: String::from_str(" "), emphasize: false });
        proof {
            let v = cells_view(cells@.take(k + 1));
            assert(v.drop_last() =~= cells_view(cells@.take(k as int)));
            assert(v.last() == cell_view(cells@[k as int]));
            assert(cells_view(out@) =~= before + seq![("| "@, false), v.last(), (" "@, false)]);
        }
        k = k + 1;
    }
    out.push(Cell { text: String::from_str("|"), emphasize: false });
    assert(cells@.take(cells@.len() as int) =~= cells@);
    assert(cells_view(out@) =~= framed(cells_view(cells@)));
    out
}

/// The text of a line of cells, framed by borders and ending in a line break.
pub fn line_string(cells: &Vec<Cell>) -> (r: String)
    ensures
        r@ == line_text(cells_view(cells@)),
{
    let pieces = frame(cells);
    let mut out = String::new();
    let mut k: usize = 0;
    while k < pieces.len()
        invariant
            0 <= k <= pieces@.len(),
            out@ == flat(cells_view(pieces@.take(k as int))),
        decreases pieces@.len() - k,
    {
        out.append(pieces[k].text.as_str());
        proof {
            let v = cells_view(pieces@.take(k + 1));
            assert(v =~= cells_view(pieces@.take(k as int)).push(cell_view(pieces@[k as int])));
            lemma_flat_push(cells_view(pieces@.take(k as int)), cell_view(pieces@[k as int]));
        }
        k = k + 1;
    }
    assert(pieces@.take(pieces@.len() as int) =~= pieces@);
    out.append("\n");
    out
}

impl Table {
    /// The whole table as one block of text: the header line, the separator
    /// line, then one line per row, each ending in a line break.
    pub fn to_text(&self) -> (r: String)
        ensures
            r@ == table_text(*self),
    {
        let mut out = line_string(&self.header);
        out.append(self.rule.as_str());
        out.append("\n");
        let ghost head = out@;
        let mut i: usize = 0;
        while i < self.rows.len()
            invariant
                0 <= i <= self.rows@.len(),
                out@ == head + rows_text(rows_view(self.rows@.take(i as int))),
            decreases self.rows@.len() - i,
        {
            let line = line_string(&self.rows[i]);
            out.append(line.as_str());
            proof {
                let v = rows_view(self.rows@.take(i + 1));
                assert(v.drop_last() =~= rows_view(self.rows@.take(i as int)));
                assert(v.last() == cells_view(self.rows@[i as int]@));
                assert(out@ =~= head + rows_text(v));
            }
            i = i + 1;
        }
        assert(self.rows@.take(self.rows@.len() as int) =~= self.rows@);
        out
    }
}

/// Renders records in the given columns as one block of text.
pub fn render(records: &Vec<Record>, cols: &Vec<Column>) -> (r: String)
    requires
        complete(records@, cols@),
    ensures
        r@ == listing_text(records@, cols@),
{
    let t = layout(records, cols);
    assert(rows_view(t.rows@) =~= listing_rows(records@, cols@));
    t.to_text()
}

/// Each value of a column is as long as the column's width, or its header
/// is.
proof fn lemma_width_attained(recs: Seq<Record>, c: Column)
    ensures
        col_width(recs, c) == header_of(c).len() || exists|i: int|
            0 <= i < recs.len() && (#[trigger] cell_text(recs[i], c)).len() == col_width(recs, c),
    decreases recs.len(),
{
    if recs.len() > 0 {
        let p = recs.drop_last();
        lemma_width_attained(p, c);
        if cell_text(recs.last(), c).len() > col_width(p, c) {
            assert(cell_text(recs[recs.len() - 1], c).len() == col_width(recs, c));
        } else if col_width(p, c) != header_of(c).len() {
            let i = choose|i: int| 0 <= i < p.len() && (#[trigger] cell_text(p[i], c)).len() == col_width(p, c);
            assert(p[i] == recs[i]);
        }
    }
}

/// Where every record of `r1` is also one of `r2`, no column of `r1` is
/// wider.
proof fn lemma_width_within(r1: Seq<Record>, r2: Seq<Record>, c: Column)
    requires
        forall|i: int| 0 <= i < r1.len() ==> r2.contains(#[trigger] r1[i]),
    ensures
        col_width(r1, c) <= col_width(r2, c),
{
    lemma_width_attained(r1, c);
    lemma_width_bound(r2, c);
    if col_width(r1, c) != header_of(c).len() {
        let i = choose|i: int| 0 <= i < r1.len() && (#[trigger] cell_text(r1[i], c)).len() == col_width(r1, c);
        assert(r2.contains(r1[i]));
        let j = choose|j: int| 0 <= j < r2.len() && r2[j] == r1[i];
        assert(cell_text(r2[j], c).len() <= col_width(r2, c));
    }
}

/// The widths, the header and the separator do not depend on the order in
/// which the records come: the same records in any order give the same
/// columns in the same order with the same header line.
pub proof fn lemma_header_order_free(r1: Seq<Record>, r2: Seq<Record>, cols: Seq<Column>)
    requires
        r1.to_multiset() == r2.to_multiset(),
    ensures
        forall|k: int| 0 <= k < cols.len() ==> col_width(r1, #[trigger] cols[k]) == col_width(r2, cols[k]),
        header_cells(r1, cols) == header_cells(r2, cols),
        total_width(r1, cols) == total_width(r2, cols),
        rule_of(r1, cols) == rule_of(r2, cols),
    decreases cols.len(),
{
    assert forall|i: int| 0 <= i < r1.len() implies r2.contains(#[trigger] r1[i]) by {
        vstd::seq_lib::to_multiset_contains(r1, r1[i]);
        vstd::seq_lib::to_multiset_contains(r2, r1[i]);
        assert(r1.contains(r1[i]));
    }
    assert forall|i: int| 0 <= i < r2.len() implies r1.contains(#[trigger] r2[i]) by {
        vstd::seq_lib::to_multiset_contains(r1, r2[i]);
        vstd::seq_lib::to_multiset_contains(r2, r2[i]);
        assert(r2.contains(r2[i]));
    }
    assert forall|k: int| 0 <= k < cols.len() implies col_width(r1, #[trigger] cols[k]) == col_width(r2, cols[k]) by {
        lemma_width_within(r1, r2, cols[k]);
        lemma_width_within(r2, r1, cols[k]);
    }
    assert(header_cells(r1, cols) =~= header_cells(r2, cols));
    if cols.len() > 0 {
        lemma_header_order_free(r1, r2, cols.drop_last());
        assert(cols.last() == cols[cols.len() - 1]);
        assert(col_width(r1, cols[cols.len() - 1]) == col_width(r2, cols[cols.len() - 1]));
    }
    assert(total_width(r1, cols) == total_width(r2, cols));
    assert(rule_of(r1, cols) =~= rule_of(r2, cols));
}

/// A line of `n` cells has `3 * n + 1` pieces: a border before each cell
/// and one closing the line.
pub proof fn lemma_framed_len(cells: Seq<(Seq<char>, bool)>)
    ensures
        framed(cells).len() == 3 * cells.len() + 1,
    decreases cells.len(),
{
    if cells.len() > 0 {
        lemma_framed_len(cells.drop_last());
    }
}

proof fn lemma_concat_append(a: Seq<Seq<char>>, b: Seq<Seq<char>>)
    ensures
        concat_lines(a + b) == concat_lines(a) + concat_lines(b),
    decreases b.len(),
{
    if b.len() == 0 {
        assert(a + b =~= a);
        assert(concat_lines(a) + concat_lines(b) =~= concat_lines(a));
    } else {
        lemma_concat_append(a, b.drop_last());
        assert((a + b).drop_last() =~= a + b.drop_last());
        assert((a + b).last() == b.last());
        assert(concat_lines(a + b) =~= concat_lines(a) + concat_lines(b));
    }
}

proof fn lemma_rows_text(rows: Seq<Seq<(Seq<char>, bool)>>)
    ensures
        rows_text(rows) == concat_lines(rows.map_values(|r: Seq<(Seq<char>, bool)>| line_text(r))),
    decreases rows.len(),
{
    if rows.len() > 0 {
        lemma_rows_text(rows.drop_last());
        assert(rows.map_values(|r: Seq<(Seq<char>, bool)>| line_text(r)).drop_last() =~= rows.drop_last().map_values(
            |r: Seq<(Seq<char>, bool)>| line_text(r),
        ));
    }
}

/// The rendered text is a header line, a separator line and one line per
/// record, and every line of cells has as many cells, and so as many
/// borders, as the header.
pub proof fn lemma_listing_shape(recs: Seq<Record>, cols: Seq<Column>)
    ensures
        listing_lines(recs, cols).len() == recs.len() + 2,
        concat_lines(listing_lines(recs, cols)) == listing_text(recs, cols),
        header_cells(recs, cols).len() == cols.len(),
        framed(header_cells(recs, cols)).len() == 3 * cols.len() + 1,
        forall|i: int|
            0 <= i < recs.len() ==> (#[trigger] listing_rows(recs, cols)[i]).len() == cols.len()
                && framed(listing_rows(recs, cols)[i]).len() == 3 * cols.len() + 1,
{
    let rows = listing_rows(recs, cols);
    let h = seq![line_text(header_cells(recs, cols)), rule_of(recs, cols) + "\n"@];
    let m = rows.map_values(|r: Seq<(Seq<char>, bool)>| line_text(r));
    lemma_concat_append(h, m);
    lemma_rows_text(rows);
    assert(h.drop_last() =~= seq![line_text(header_cells(recs, cols))]);
    assert(h.drop_last().drop_last() =~= Seq::<Seq<char>>::empty());
    assert(concat_lines(h.drop_last().drop_last()) == Seq::<char>::empty());
    assert(concat_lines(h.drop_last()) =~= line_text(header_cells(recs, cols)));
    assert(h.last() == rule_of(recs, cols) + "\n"@);
    assert(concat_lines(h) =~= line_text(header_cells(recs, cols)) + rule_of(recs, cols) + "\n"@);
    lemma_framed_len(header_cells(recs, cols));
    assert forall|i: int| 0 <= i < recs.len() implies (#[trigger] listing_rows(recs, cols)[i]).len() == cols.len()
        && framed(listing_rows(recs, cols)[i]).len() == 3 * cols.len() + 1 by {
        lemma_framed_len(rows[i]);
    }
}

/// No records render to the header line and the separator line alone, and
/// rendering them asks nothing of the records.
pub proof fn lemma_empty_listing(cols: Seq<Column>)
    ensures
        complete(Seq::empty(), cols),
        listing_lines(Seq::empty(), cols).len() == 2,
        listing_text(Seq::empty(), cols) == line_text(header_cells(Seq::empty(), cols)) + rule_of(
            Seq::empty(),
            cols,
        ) + "\n"@,
{
    lemma_listing_shape(Seq::empty(), cols);
    let rows = listing_rows(Seq::empty(), cols);
    assert(rows.len() == 0);
    assert(rows_text(rows) == Seq::<char>::empty());
    assert(listing_text(Seq::empty(), cols) =~= line_text(header_cells(Seq::empty(), cols)) + rule_of(
        Seq::empty(),
        cols,
    ) + "\n"@);
}

/// The columns kept on a terminal `term` characters wide (all of them where
/// the width is unknown): while a full line is wider than the terminal, the
/// last column, the one of lowest priority, is dropped; the first column is
/// always kept.
pub open spec fn fitted(recs: Seq<Record>, cols: Seq<Column>, term: Option<usize>) -> Seq<Column>
    decreases cols.len(),
{
    match term {
        None => cols,
        Some(w) => if cols.len() <= 1 || total_width(recs, cols) <= w {
            cols
        } else {
            fitted(recs, cols.drop_last(), term)
        },
    }
}

/// Width of a full line over the first `n` columns, if it fits in a `usize`.
fn prefix_width(ws: &Vec<usize>, n: usize, Ghost(recs): Ghost<Seq<Record>>, Ghost(cols): Ghost<Seq<Column>>) -> (r: Option<usize>)
    requires
        ws@.len() == cols.len(),
        n <= cols.len(),
        forall|k: int| 0 <= k < cols.len() ==> ws@[k] == col_width(recs, #[trigger] cols[k]),
    ensures
        match r {
            Some(x) => x == total_width(recs, cols.take(n as int)),
            None => total_width(recs, cols.take(n as int)) > usize::MAX,
        },
{
    let mut acc: usize = 1;
    let mut k: usize = 0;
    assert(cols.take(0).len() == 0);
    while k < n
        invariant
            ws@.len() == cols.len(),
            n <= cols.len(),
            forall|m: int| 0 <= m < cols.len() ==> ws@[m] == col_width(recs, #[trigger] cols[m]),
            0 <= k <= n,
            acc == total_width(recs, cols.take(k as int)),
        decreases n - k,
    {
        assert(cols.take(k + 1).drop_last() =~= cols.take(k as int));
        assert(cols.take(k + 1).last() == cols[k as int]);
        match acc.checked_add(ws[k]) {
            None => {
                proof { lemma_width_grows(recs, cols, k + 1, n as int); }
                return None;
            },
            Some(a) => match a.checked_add(3) {
                None => {
                    proof { lemma_width_grows(recs, cols, k + 1, n as int); }
                    return None;
                },
                Some(b) => {
                    acc = b;
                },
            },
        }
        k = k + 1;
    }
    Some(acc)
}

/// A line over more columns is at least as wide.
proof fn lemma_width_grows(recs: Seq<Record>, cols: Seq<Column>, a: int, b: int)
    requires
        0 <= a <= b <= cols.len(),
    ensures
        total_width(recs, cols.take(a)) <= total_width(recs, cols.take(b)),
    decreases b - a,
{
    if a < b {
        lemma_width_grows(recs, cols, a, b - 1);
        assert(cols.take(b).drop_last() =~= cols.take(b - 1));
    }
}

/// The columns that fit on a terminal `term` characters wide: the full set
/// where the width is unknown or the full line fits; otherwise columns are
/// dropped from the end, lowest priority first, until a line fits or only
/// the first is left. Cell text is never cut.
pub fn fit_columns(records: &Vec<Record>, cols: &Vec<Column>, term: Option<usize>) -> (r: Vec<Column>)
    ensures
        r@ == fitted(records@, cols@, term),
        r@.len() <= cols@.len(),
        r@ == cols@.take(r@.len() as int),
        cols@.len() > 0 ==> r@.len() > 0,
{
    let ws = column_widths(records, cols);
    let ghost recs = records@;
    let mut n: usize = cols.len();
    assert(cols@.take(n as int) =~= cols@);
    match term {
        None => {},
        Some(w) => {
            let mut stop = false;
            while n > 1 && !stop
                invariant
                    term == Some(w),
                    ws@.len() == cols@.len(),
                    forall|k: int| 0 <= k < cols@.len() ==> ws@[k] == col_width(recs, #[trigger] cols@[k]),
                    cols@.len() > 0 ==> n >= 1,
                    n <= cols@.len(),
                    fitted(recs, cols@, term) == fitted(recs, cols@.take(n as int), term),
                    stop ==> total_width(recs, cols@.take(n as int)) <= w,
                decreases n, if stop { 0int } else { 1int },
            {
                let fits = match prefix_width(&ws, n, Ghost(recs), Ghost(cols@)) {
                    Some(x) => x <= w,
                    None => false,
                };
                if fits {
                    stop = true;
                } else {
                    assert(cols@.take(n as int).drop_last() =~= cols@.take(n - 1));
                    assert(fitted(recs, cols@.take(n as int), term) == fitted(recs, cols@.take(n as int).drop_last(), term));
                    n = n - 1;
                }
            }
            assert(fitted(recs, cols@.take(n as int), term) == cols@.take(n as int));
        },
    }
    let mut out: Vec<Column> = Vec::new();
    let mut k: usize = 0;
    while k < n
        invariant
            n <= cols@.len(),
            0 <= k <= n,
            out@ == cols@.take(k as int),
        decreases n - k,
    {
        out.push(cols[k]);
        assert(out@ =~= cols@.take(k + 1));
        k = k + 1;
    }
    out
}

} // verus!
