use vstd::prelude::*;
use crate::column::{active_columns, columns_of, Column, Config};
use crate::record::{cell, cell_view, collect_records, entry_cell, mime_of, size_text, Cell, Entry, Record};
use crate::render::{
    cells_view, complete, fit_columns, fitted, frame, framed, header_cells, layout, listing_rows,
    listing_text, render, rule_of,
};

verus! {

/// The records of the entries, as `collect_records` builds them.
pub open spec fn records_of(recs: Seq<Record>, entries: Seq<Entry>, cfg: Config) -> bool {
    &&& recs.len() == entries.len()
    &&& forall|i: int, c|
        0 <= i < recs.len() ==> #[trigger] cell(recs[i], c) == entry_cell(
            entries[i],
            cfg,
            size_text(entries[i].size),
            mime_of(entries[i].path@),
            c,
        )
}

/// The listing of a directory's entries as text: the columns that the
/// configuration asks for, narrowed to a terminal `term` characters wide
/// where its width is known, laid out as a table with one row per entry in
/// the order given.
pub fn render_listing(entries: &Vec<Entry>, cfg: &Config, term: Option<usize>) -> (r: String)
    ensures
        exists|recs: Seq<Record>|
            records_of(recs, entries@, *cfg) && r@ == listing_text(
                recs,
                fitted(recs, columns_of(*cfg), term),
            ),
{
    let records = collect_records(entries, cfg);
    let all = active_columns(cfg);
    let cols = fit_columns(&records, &all, term);
    assert forall|i: int, k: int|
        0 <= i < records@.len() && 0 <= k < cols@.len() implies (#[trigger] cell(records@[i], cols@[k])).is_some() by {
        assert(cols@[k] == all@[k]);
        assert(all@.contains(all@[k]));
        assert(cell(records@[i], cols@[k]).is_some() == columns_of(*cfg).contains(cols@[k]));
    }
    assert(complete(records@, cols@));
    let r = render(&records, &cols);
    assert(records_of(records@, entries@, *cfg));
    r
}

/// The lines of the table that records render to, each as its pieces:
/// the framed header, the separator as a single piece, then each framed row.
pub open spec fn listing_pieces(recs: Seq<Record>, cols: Seq<Column>) -> Seq<Seq<(Seq<char>, bool)>> {
    seq![framed(header_cells(recs, cols)), seq![(rule_of(recs, cols), false)]] + listing_rows(
        recs,
        cols,
    ).map_values(|r: Seq<(Seq<char>, bool)>| framed(r))
}

/// The listing as lines of pieces, for output that styles emphasized
/// pieces: the same table as `render_listing`, with borders and padding as
/// pieces of their own that are never emphasized.
pub fn listing_lines(entries: &Vec<Entry>, cfg: &Config, term: Option<usize>) -> (r: Vec<Vec<Cell>>)
    ensures
        exists|recs: Seq<Record>|
            records_of(recs, entries@, *cfg) && r@.map_values(|l: Vec<Cell>| cells_view(l@))
                == listing_pieces(recs, fitted(recs, columns_of(*cfg), term)),
{
    let records = collect_records(entries, cfg);
    let all = active_columns(cfg);
    let cols = fit_columns(&records, &all, term);
    assert forall|i: int, k: int|
        0 <= i < records@.len() && 0 <= k < cols@.len() implies (#[trigger] cell(records@[i], cols@[k])).is_some() by {
        assert(cols@[k] == all@[k]);
        assert(all@.contains(all@[k]));
    }
    let t = layout(&records, &cols);
    let ghost want = listing_pieces(records@, cols@);
    let mut out: Vec<Vec<Cell>> = Vec::new();
    out.push(frame(&t.header));
    let mut rule_line: Vec<Cell> = Vec::new();
    rule_line.push(Cell { text: t.rule.clone(), emphasize: false });
    assert(cells_view(rule_line@) =~= seq![(rule_of(records@, cols@), false)]);
    out.push(rule_line);
    let mut i: usize = 0;
    while i < t.rows.len()
        invariant
            t.rows@.len() == records@.len(),
            forall|j: int|
                0 <= j < records@.len() ==> cells_view(#[trigger] t.rows@[j]@) == listing_rows(records@, cols@)[j],
            want == listing_pieces(records@, cols@),
            want.len() == records@.len() + 2,
            0 <= i <= t.rows@.len(),
            out@.len() == i + 2,
            forall|j: int| 0 <= j < i + 2 ==> cells_view(#[trigger] out@[j]@) == want[j],
        decreases t.rows@.len() - i,
    {
        let line = frame(&t.rows[i]);
        out.push(line);
        i = i + 1;
    }
    assert(out@.map_values(|l: Vec<Cell>| cells_view(l@)) =~= want);
    assert(records_of(records@, entries@, *cfg));
    out
}
} // verus!
