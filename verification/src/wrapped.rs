//! Recovery of column headers that wrap onto several lines above a table.

use crate::body;
use crate::body::Extent;
use crate::lines;
use crate::lines::LineModel;
use crate::order;
use crate::single;
use crate::single::Single;
use crate::text;
use crate::types;
use crate::types::{Table, TableModel, TextItem};
use std::collections::HashSet;
use vstd::prelude::*;
use vstd::string::*;

verus! {

/// What is found above a table: the position and cells of its header row, the
/// section rows from the table upwards, and the items of both.
pub struct HeaderModel {
    pub y: Single,
    pub cells: Seq<Seq<char>>,
    pub sections: Seq<(Single, Seq<char>)>,
    pub members: Seq<usize>,
}

/// Whether all items of a line are over the first column.
pub open spec fn label_only(line: LineModel) -> bool {
    forall|k: int| 0 <= k < line.1.len() ==> (#[trigger] line.1[k]).1 == 0
}

/// How many lines, the first `k` taken for granted, have labels only before the
/// first one that has not.
pub open spec fn label_run(lines: Seq<LineModel>, k: nat) -> nat
    decreases lines.len() - k,
{
    if k < lines.len() && label_only(lines[k as int]) {
        label_run(lines, k + 1)
    } else {
        k
    }
}

/// Lines without those at the end that have labels only, the first `sections`
/// lines kept.
pub open spec fn without_top_labels(lines: Seq<LineModel>, sections: nat) -> Seq<LineModel>
    decreases lines.len(),
{
    if lines.len() > sections && label_only(lines.last()) {
        without_top_labels(lines.drop_last(), sections)
    } else {
        lines
    }
}

/// The items of lines with their columns, line by line.
pub open spec fn entries(lines: Seq<LineModel>) -> Seq<(usize, usize)>
    decreases lines.len(),
{
    if lines.len() == 0 {
        Seq::empty()
    } else {
        entries(lines.drop_last()) + lines.last().1
    }
}

/// The items of entries, without their columns.
pub open spec fn entry_items(entries: Seq<(usize, usize)>) -> Seq<usize> {
    entries.map_values(|e: (usize, usize)| e.0)
}

/// Whether an entry is over a column.
pub open spec fn over_column(column: usize) -> spec_fn((usize, usize)) -> bool {
    |e: (usize, usize)| e.1 == column
}

/// The items over a column.
pub open spec fn column_parts(entries: Seq<(usize, usize)>, column: usize) -> Seq<usize> {
    entry_items(entries.filter(over_column(column)))
}

/// The keys that sort items by lines from the top down, and within a line from
/// left to right.
pub open spec fn reading_keys(items: Seq<TextItem>, which: Seq<usize>) -> Seq<(i64, i64)> {
    which.map_values(
        |i: usize|
            (
                (-items[i as int].line_y.total_place()) as i64,
                items[i as int].x.total_place() as i64,
            ),
    )
}

/// The keys that sort items from left to right.
pub open spec fn rightward_keys(items: Seq<TextItem>, which: Seq<usize>) -> Seq<(i64, i64)> {
    which.map_values(|i: usize| (items[i as int].x.total_place() as i64, 0i64))
}

/// The trimmed texts of items.
pub open spec fn item_texts(items: Seq<TextItem>, which: Seq<usize>) -> Seq<Seq<char>> {
    which.map_values(|i: usize| text::trimmed(items[i as int].text@))
}

/// Texts joined by spaces, but without one after a hyphen.
pub open spec fn hyphen_joined(parts: Seq<Seq<char>>) -> Seq<char>
    decreases parts.len(),
{
    if parts.len() == 0 {
        Seq::empty()
    } else {
        let before = hyphen_joined(parts.drop_last());
        if before.len() > 0 && before.last() != '-' {
            before + seq![' '] + parts.last()
        } else {
            before + parts.last()
        }
    }
}

/// The text of a header cell: the items over its column in reading order.
pub open spec fn header_text(
    items: Seq<TextItem>,
    entries: Seq<(usize, usize)>,
    column: usize,
) -> Seq<char> {
    let parts = column_parts(entries, column);
    hyphen_joined(item_texts(items, order::arranged(parts, reading_keys(items, parts))))
}

/// The text of a section row: the items of its line from left to right.
pub open spec fn section_text(items: Seq<TextItem>, line: LineModel) -> Seq<char> {
    let parts = entry_items(line.1);
    text::spaced(item_texts(items, order::arranged(parts, rightward_keys(items, parts))))
}

/// How many of `count` columns, the first one aside, have header items.
pub open spec fn headed_columns(entries: Seq<(usize, usize)>, count: nat) -> nat {
    order::index_range(count).drop_first().filter(
        |c: usize| column_parts(entries, c).len() > 0,
    ).len()
}

/// Whether a table may have a wrapped header: it has three columns and two rows
/// or more, text in the first column and in two others, values that are mostly
/// figures, and a font size above zero.
pub open spec fn eligible(table: TableModel, items: Seq<TextItem>) -> bool {
    let extents = body::extents(table.columns, table.item_indices, items);
    &&& table.columns.len() >= 3
    &&& table.rows.len() >= 2
    &&& extents[0] is Some
    &&& body::data_columns(extents) >= 2
    &&& body::mostly_figures(table.cells)
    &&& !body::body_font(table.item_indices, items).at_most(single::signed(false, 0))
}

/// The lines directly above a table.
pub open spec fn table_lines(
    table: TableModel,
    items: Seq<TextItem>,
    claimed: Set<usize>,
) -> Seq<LineModel> {
    let font = body::body_font(table.item_indices, items);
    let first_row_y = table.rows.first();
    let which = lines::line_candidates(
        items,
        table.item_indices.to_set(),
        claimed,
        first_row_y,
        font,
    );
    lines::lines_above(
        items,
        body::extents(table.columns, table.item_indices, items),
        order::arranged(which, lines::upward_keys(items, which)),
        first_row_y,
        font,
        lines::line_gap(table.rows, font),
        lines::MAX_HEADER_LINES as nat,
    )
}

/// The wrapped header above a table, if it reaches at least two data columns
/// and half of them. The lines with labels only next to the table are section
/// rows; those at the top are left out.
pub open spec fn wrapped_header(
    table: TableModel,
    items: Seq<TextItem>,
    claimed: Set<usize>,
) -> Option<HeaderModel> {
    let found = table_lines(table, items, claimed);
    let sections = label_run(found, 0);
    let kept = without_top_labels(found, sections);
    let header = kept.skip(sections as int);
    let headed = headed_columns(entries(header), table.columns.len());
    let data_columns = body::data_columns(
        body::extents(table.columns, table.item_indices, items),
    );
    if !eligible(table, items) || headed < 2 || 2 * headed < data_columns {
        None
    } else {
        Some(
            HeaderModel {
                y: header.last().0,
                cells: Seq::new(
                    table.columns.len(),
                    |c: int| header_text(items, entries(header), c as usize),
                ),
                sections: kept.take(sections as int).map_values(
                    |line: LineModel| (line.0, section_text(items, line)),
                ),
                members: entry_items(entries(kept)),
            },
        )
    }
}

/// A row with text in its first cell only.
pub open spec fn label_row(label: Seq<char>, count: nat) -> Seq<Seq<char>> {
    Seq::new(
        count,
        |c: int|
            if c == 0 {
                label
            } else {
                Seq::empty()
            },
    )
}

/// A table with a header row and section rows put before its first row.
pub open spec fn with_header(table: TableModel, header: HeaderModel) -> TableModel {
    let down = header.sections.reverse();
    TableModel {
        columns: table.columns,
        rows: seq![header.y] + down.map_values(|s: (Single, Seq<char>)| s.0) + table.rows,
        cells: seq![header.cells] + down.map_values(
            |s: (Single, Seq<char>)| label_row(s.1, table.columns.len()),
        ) + table.cells,
        item_indices: table.item_indices + header.members,
    }
}

/// Whether a row has text in a column.
pub open spec fn filled(row: Seq<Seq<char>>, column: int) -> bool {
    column < row.len() && text::trimmed(row[column]).len() > 0
}

/// Whether some row has text in a column.
pub open spec fn column_filled(cells: Seq<Seq<Seq<char>>>, column: int) -> bool {
    exists|r: int| 0 <= r < cells.len() && filled(#[trigger] cells[r], column)
}

/// The elements of a sequence at the places that `keep` names.
pub open spec fn retained<T>(xs: Seq<T>, keep: spec_fn(int) -> bool) -> Seq<T>
    decreases xs.len(),
{
    if xs.len() == 0 {
        xs
    } else if keep(xs.len() - 1) {
        retained(xs.drop_last(), keep).push(xs.last())
    } else {
        retained(xs.drop_last(), keep)
    }
}

/// The places of the columns with text.
pub open spec fn filled_columns(cells: Seq<Seq<Seq<char>>>) -> spec_fn(int) -> bool {
    |c: int| column_filled(cells, c)
}

/// A table without the columns that have no text in any row.
pub open spec fn without_empty_columns(table: TableModel) -> TableModel {
    if forall|c: int| 0 <= c < table.columns.len() ==> #[trigger] column_filled(table.cells, c) {
        table
    } else {
        let keep = filled_columns(table.cells);
        TableModel {
            columns: retained(table.columns, keep),
            rows: table.rows,
            cells: table.cells.map_values(|row: Seq<Seq<char>>| retained(row, keep)),
            item_indices: table.item_indices,
        }
    }
}

/// A table with its wrapped header recovered, if there is one.
pub open spec fn wrapped_recovered(
    table: TableModel,
    items: Seq<TextItem>,
    claimed: Set<usize>,
) -> TableModel {
    match wrapped_header(table, items, claimed) {
        None => table,
        Some(header) => without_empty_columns(with_header(table, header)),
    }
}

/// Whether a row before the `r`th has text in a column.
pub open spec fn filled_before(cells: Seq<Seq<Seq<char>>>, r: int, column: int) -> bool {
    exists|q: int| 0 <= q < r && filled(#[trigger] cells[q], column)
}

/// Whether the columns of rows of cells can be told filled or empty from the
/// first row down: a row only lacks a cell in a column that an earlier row has
/// text in, and no row has extra cells where a column is empty.
pub open spec fn scannable(cells: Seq<Seq<Seq<char>>>, count: nat) -> bool {
    &&& forall|r: int, c: int|
        0 <= r < cells.len() && cells[r].len() <= c < count ==> #[trigger] filled_before(
            cells,
            r,
            c,
        )
    &&& (forall|c: int| 0 <= c < count ==> #[trigger] column_filled(cells, c)) || (forall|r: int|
        0 <= r < cells.len() ==> (#[trigger] cells[r]).len() <= count)
}

/// Whether the items of a table exist, where they are looked at.
pub open spec fn has_items(table: TableModel, item_count: nat) -> bool {
    table.columns.len() >= 3 && table.rows.len() >= 2 ==> forall|k: int|
        0 <= k < table.item_indices.len() ==> #[trigger] table.item_indices[k] < item_count
}

/// A table with its wrapped header in place, if there is one.
pub open spec fn with_wrapped_header(
    table: TableModel,
    items: Seq<TextItem>,
    claimed: Set<usize>,
) -> TableModel {
    match wrapped_header(table, items, claimed) {
        None => table,
        Some(header) => with_header(table, header),
    }
}

/// Whether a table fits its items: where its items are looked at, they exist,
/// and where a header is recovered, the rows have cells for the columns.
pub open spec fn fits(table: TableModel, items: Seq<TextItem>, claimed: Set<usize>) -> bool {
    &&& has_items(table, items.len())
    &&& wrapped_header(table, items, claimed) matches Some(header) ==> scannable(
        with_header(table, header).cells,
        table.columns.len(),
    )
}

/// Removes the columns of a table that have no text in any row, if they can be
/// told.
fn drop_empty_columns(table: &mut Table) -> (told: bool)
    ensures
        told == scannable(old(table)@.cells, old(table)@.columns.len()),
        final(table)@ == if told {
            without_empty_columns(old(table)@)
        } else {
            old(table)@
        },
{
    let ghost before = table@;
    let ghost cells = before.cells;
    let count: usize = table.columns.len();
    let mut keep: Vec<bool> = Vec::new();
    let mut all: bool = true;
    while keep.len() < count
        invariant
            table@ == before,
            cells == before.cells,
            count == before.columns.len(),
            keep@.len() <= count,
            forall|r: int, c: int|
                0 <= r < cells.len() && cells[r].len() <= c < keep@.len()
                    ==> #[trigger] filled_before(cells, r, c),
            forall|c: int| 0 <= c < keep@.len() ==> #[trigger] keep@[c] == column_filled(cells, c),
            all == forall|c: int| 0 <= c < keep@.len() ==> #[trigger] column_filled(cells, c),
        decreases count - keep@.len(),
    {
        let c: usize = keep.len();
        let ghost earlier = keep@;
        let mut r: usize = 0;
        let mut found: bool = false;
        while !found && r < table.cells.len()
            invariant
                table@ == before,
                cells == before.cells,
                count == before.columns.len(),
                c < count,
                r <= cells.len(),
                found ==> r < cells.len() && filled(cells[r as int], c as int),
                forall|q: int| 0 <= q < r ==> !filled(#[trigger] cells[q], c as int),
                forall|q: int| 0 <= q < r ==> c < (#[trigger] cells[q]).len(),
            decreases
                    cells.len() - r,
                    if found {
                        0int
                    } else {
                        1int
                    },
        {
            assert(cells[r as int] == types::row_texts(table.cells@[r as int]@));
            if table.cells[r].len() <= c {
                assert(!filled_before(cells, r as int, c as int));
                return false;
            }
            if text::trim(table.cells[r][c].as_str()).unicode_len() != 0 {
                found = true;
            } else {
                r += 1;
            }
        }
        keep.push(found);
        assert(found == column_filled(cells, c as int));
        all = all && found;
        proof {
            assert forall|d: int| 0 <= d < keep@.len() implies #[trigger] keep@[d]
                == column_filled(cells, d) by {
                if d < c {
                    assert(earlier[d] == column_filled(cells, d));
                }
            }
            assert forall|q: int, d: int|
                0 <= q < cells.len() && cells[q].len() <= d
                    < keep@.len() implies #[trigger] filled_before(cells, q, d) by {
                if d == c {
                    assert(r < q);
                    assert(filled(cells[r as int], c as int));
                }
            }
        }
    }
    if all {
        return true;
    }
    let ghost kept = filled_columns(cells);
    let mut columns: Vec<Single> = Vec::new();
    let mut c: usize = 0;
    while c < count
        invariant
            table@ == before,
            count == before.columns.len() == keep@.len(),
            c <= count,
            kept == filled_columns(cells),
            forall|c: int| 0 <= c < keep@.len() ==> #[trigger] keep@[c] == column_filled(cells, c),
            columns@ == retained(before.columns.take(c as int), kept),
        decreases count - c,
    {
        assert(before.columns.take(c + 1).drop_last() == before.columns.take(c as int));
        if keep[c] {
            columns.push(table.columns[c]);
        }
        c += 1;
    }
    assert(before.columns.take(c as int) == before.columns);
    let mut rows: Vec<Vec<String>> = Vec::new();
    while rows.len() < table.cells.len()
        invariant
            table@ == before,
            count == before.columns.len() == keep@.len(),
            cells == before.cells,
            exists|c: int| 0 <= c < count && !(#[trigger] column_filled(cells, c)),
            kept == filled_columns(cells),
            forall|c: int| 0 <= c < keep@.len() ==> #[trigger] keep@[c] == column_filled(cells, c),
            rows@.len() <= cells.len(),
            forall|r: int| 0 <= r < rows@.len() ==> (#[trigger] cells[r]).len() <= count,
            forall|r: int|
                0 <= r < rows@.len() ==> types::row_texts((#[trigger] rows@[r])@) == retained(
                    cells[r],
                    kept,
                ),
        decreases cells.len() - rows@.len(),
    {
        let r: usize = rows.len();
        assert(cells[r as int] == types::row_texts(table.cells@[r as int]@));
        if table.cells[r].len() > count {
            assert(!scannable(cells, count as nat));
            return false;
        }
        rows.push(retain_cells(&table.cells[r], &keep, Ghost(kept)));
    }
    assert(types::grid_texts(rows@) == cells.map_values(
        |row: Seq<Seq<char>>| retained(row, kept),
    ));
    table.columns = columns;
    table.cells = rows;
    true
}

/// Keeps the cells of a row at the places marked.
fn retain_cells(row: &Vec<String>, keep: &Vec<bool>, Ghost(kept): Ghost<spec_fn(int) -> bool>) -> (r:
    Vec<String>)
    requires
        row@.len() <= keep@.len(),
        forall|c: int| 0 <= c < keep@.len() ==> #[trigger] keep@[c] == kept(c),
    ensures
        types::row_texts(r@) == retained(types::row_texts(row@), kept),
{
    let ghost texts = types::row_texts(row@);
    let mut r: Vec<String> = Vec::new();
    let mut c: usize = 0;
    while c < row.len()
        invariant
            c <= row@.len() <= keep@.len(),
            texts == types::row_texts(row@),
            forall|c: int| 0 <= c < keep@.len() ==> #[trigger] keep@[c] == kept(c),
            types::row_texts(r@) == retained(texts.take(c as int), kept),
        decreases row@.len() - c,
    {
        assert(texts.take(c + 1).drop_last() == texts.take(c as int));
        let ghost before = r@;
        if keep[c] {
            r.push(row[c].clone());
            assert(types::row_texts(r@) == types::row_texts(before).push(texts[c as int]));
        }
        c += 1;
    }
    assert(texts.take(c as int) == texts);
    r
}

/// Whether all items of a line are over the first column.
fn is_label_only(line: &Vec<(usize, usize)>, Ghost(model): Ghost<LineModel>) -> (b: bool)
    requires
        model.1 == line@,
    ensures
        b == label_only(model),
{
    let mut k: usize = 0;
    while k < line.len()
        invariant
            k <= line@.len(),
            model.1 == line@,
            forall|j: int| 0 <= j < k ==> (#[trigger] line@[j]).1 == 0,
        decreases line@.len() - k,
    {
        if line[k].1 != 0 {
            assert(model.1[k as int].1 != 0);
            return false;
        }
        k += 1;
    }
    true
}

/// The items of some lines with their columns.
fn gather_entries(
    lines: &Vec<(Single, Vec<(usize, usize)>)>,
    from: usize,
    to: usize,
    Ghost(bound): Ghost<nat>,
) -> (r: Vec<(usize, usize)>)
    requires
        from <= to <= lines@.len(),
        forall|l: int, k: int|
            0 <= l < lines@.len() && 0 <= k < lines@[l].1@.len() ==> (#[trigger] lines@[l].1@[k]).0
                < bound,
    ensures
        r@ == entries(lines::line_models(lines@).subrange(from as int, to as int)),
        forall|k: int| 0 <= k < r@.len() ==> (#[trigger] r@[k]).0 < bound,
{
    let ghost models = lines::line_models(lines@);
    let mut r: Vec<(usize, usize)> = Vec::new();
    let mut l: usize = from;
    assert(models.subrange(from as int, from as int) == Seq::<LineModel>::empty());
    while l < to
        invariant
            from <= l <= to <= lines@.len(),
            models == lines::line_models(lines@),
            forall|l: int, k: int|
                0 <= l < lines@.len() && 0 <= k < lines@[l].1@.len() ==> (
                #[trigger] lines@[l].1@[k]).0 < bound,
            r@ == entries(models.subrange(from as int, l as int)),
            forall|k: int| 0 <= k < r@.len() ==> (#[trigger] r@[k]).0 < bound,
        decreases to - l,
    {
        let line: &Vec<(usize, usize)> = &lines[l].1;
        let ghost before = r@;
        let mut k: usize = 0;
        proof {
            assert(before + line@.take(0) == before);
            assert(line@ == lines@[l as int].1@);
            assert forall|k: int| 0 <= k < line@.len() implies (#[trigger] line@[k]).0 < bound by {
                assert(lines@[l as int].1@[k].0 < bound);
            }
        }
        while k < line.len()
            invariant
                k <= line@.len(),
                forall|k: int| 0 <= k < line@.len() ==> (#[trigger] line@[k]).0 < bound,
                r@ == before + line@.take(k as int),
                forall|k: int| 0 <= k < r@.len() ==> (#[trigger] r@[k]).0 < bound,
            decreases line@.len() - k,
        {
            r.push(line[k]);
            assert(line@.take(k + 1) == line@.take(k as int).push(line@[k as int]));
            assert(r@ == before + line@.take(k + 1));
            k += 1;
        }
        proof {
            assert(line@.take(k as int) == line@);
            let longer = models.subrange(from as int, l + 1);
            assert(longer.drop_last() == models.subrange(from as int, l as int));
            assert(longer.last().1 == line@);
        }
        l += 1;
    }
    r
}

proof fn lemma_column_parts_push(all: Seq<(usize, usize)>, e: (usize, usize), column: usize)
    ensures
        column_parts(all.push(e), column) == if e.1 == column {
            column_parts(all, column).push(e.0)
        } else {
            column_parts(all, column)
        },
{
    let here = over_column(column);
    all.lemma_filter_push(e, here);
    if e.1 == column {
        assert(here(e));
        assert(entry_items(all.filter(here).push(e)) == entry_items(all.filter(here)).push(e.0));
    } else {
        assert(!here(e));
    }
}

/// The items over a column.
fn parts_over(all: &Vec<(usize, usize)>, column: usize) -> (r: Vec<usize>)
    ensures
        r@ == column_parts(all@, column),
        forall|k: int|
            0 <= k < r@.len() ==> exists|j: int|
                0 <= j < all@.len() && (#[trigger] all@[j]).0 == #[trigger] r@[k],
{
    let mut r: Vec<usize> = Vec::new();
    let mut k: usize = 0;
    proof {
        reveal(Seq::filter);
        assert(all@.take(0) == Seq::<(usize, usize)>::empty());
        assert(r@ == column_parts(all@.take(0), column));
    }
    while k < all.len()
        invariant
            k <= all@.len(),
            r@ == column_parts(all@.take(k as int), column),
            forall|k: int|
                0 <= k < r@.len() ==> exists|j: int|
                    0 <= j < all@.len() && (#[trigger] all@[j]).0 == #[trigger] r@[k],
        decreases all@.len() - k,
    {
        let ghost before = r@;
        let ghost e = all@[k as int];
        proof {
            lemma_column_parts_push(all@.take(k as int), e, column);
            assert(all@.take(k + 1) == all@.take(k as int).push(e));
        }
        if all[k].1 == column {
            r.push(all[k].0);
        }
        k += 1;
    }
    assert(all@.take(k as int) == all@);
    r
}

/// Counts the columns after the first one that have header items.
fn count_headed(all: &Vec<(usize, usize)>, count: usize) -> (n: usize)
    requires
        count > 0,
    ensures
        n == headed_columns(all@, count as nat),
        n < count,
        n > 0 ==> all@.len() > 0,
{
    let ghost headed = |c: usize| column_parts(all@, c).len() > 0;
    let ghost rest = order::index_range(count as nat).drop_first();
    let mut n: usize = 0;
    let mut c: usize = 1;
    proof {
        reveal(Seq::filter);
        assert(rest.take(0) == Seq::<usize>::empty());
    }
    while c < count
        invariant
            1 <= c <= count,
            rest == order::index_range(count as nat).drop_first(),
            headed == |c: usize| column_parts(all@, c).len() > 0,
            n == rest.take(c - 1).filter(headed).len(),
            n < c,
            n > 0 ==> all@.len() > 0,
        decreases count - c,
    {
        proof {
            assert(rest[c - 1] == c);
            rest.take(c - 1).lemma_filter_push(c, headed);
            assert(rest.take(c as int) == rest.take(c - 1).push(c));
        }
        let parts: Vec<usize> = parts_over(all, c);
        if parts.len() > 0 {
            let ghost first = parts@[0];
            assert(exists|j: int| 0 <= j < all@.len() && (#[trigger] all@[j]).0 == first);
            n += 1;
        }
        c += 1;
    }
    assert(rest.take(c - 1) == rest);
    n
}

/// The text of a header cell from the items over its column.
fn join_header(items: &[TextItem], parts: &Vec<usize>) -> (r: String)
    requires
        forall|k: int| 0 <= k < parts@.len() ==> #[trigger] parts@[k] < items@.len(),
    ensures
        r@ == hyphen_joined(
            item_texts(items@, order::arranged(parts@, reading_keys(items@, parts@))),
        ),
{
    let mut keys: Vec<(i64, i64)> = Vec::new();
    while keys.len() < parts.len()
        invariant
            keys@.len() <= parts@.len(),
            keys@ == reading_keys(items@, parts@).take(keys@.len() as int),
            forall|k: int| 0 <= k < parts@.len() ==> #[trigger] parts@[k] < items@.len(),
        decreases parts@.len() - keys@.len(),
    {
        let item: &TextItem = &items[parts[keys.len()]];
        keys.push((-item.line_y.total_key(), item.x.total_key()));
    }
    assert(keys@ == reading_keys(items@, parts@));
    let sorted: Vec<usize> = order::arrange(parts, &keys);
    let ghost texts = item_texts(items@, sorted@);
    let mut r: String = String::new();
    let mut k: usize = 0;
    assert(texts.take(0) == Seq::<Seq<char>>::empty());
    while k < sorted.len()
        invariant
            k <= sorted@.len(),
            texts == item_texts(items@, sorted@),
            forall|k: int| 0 <= k < parts@.len() ==> #[trigger] parts@[k] < items@.len(),
            forall|k: int| 0 <= k < sorted@.len() ==> parts@.contains(#[trigger] sorted@[k]),
            r@ == hyphen_joined(texts.take(k as int)),
        decreases sorted@.len() - k,
    {
        assert(parts@.contains(sorted@[k as int]));
        let part: &str = text::trim(items[sorted[k]].text.as_str());
        let len: usize = r.as_str().unicode_len();
        proof {
            assert(texts.take(k + 1).drop_last() == texts.take(k as int));
            reveal_strlit(" ");
            assert(" "@ == seq![' ']);
        }
        if len > 0 && r.as_str().get_char(len - 1) != '-' {
            r.append(" ");
        }
        r.append(part);
        k += 1;
    }
    assert(texts.take(k as int) == texts);
    r
}

/// The text of a section row from the items of its line.
fn join_section(items: &[TextItem], line: &Vec<(usize, usize)>, Ghost(model): Ghost<LineModel>) -> (r:
    String)
    requires
        model.1 == line@,
        forall|k: int| 0 <= k < line@.len() ==> (#[trigger] line@[k]).0 < items@.len(),
    ensures
        r@ == section_text(items@, model),
{
    let mut parts: Vec<usize> = Vec::new();
    let mut keys: Vec<(i64, i64)> = Vec::new();
    while parts.len() < line.len()
        invariant
            parts@.len() == keys@.len() <= line@.len(),
            forall|k: int| 0 <= k < line@.len() ==> (#[trigger] line@[k]).0 < items@.len(),
            forall|k: int| 0 <= k < parts@.len() ==> #[trigger] parts@[k] == line@[k].0,
            forall|k: int|
                0 <= k < keys@.len() ==> #[trigger] keys@[k] == (
                    items@[line@[k].0 as int].x.total_place() as i64,
                    0i64,
                ),
        decreases line@.len() - parts@.len(),
    {
        let i: usize = line[parts.len()].0;
        parts.push(i);
        keys.push((items[i].x.total_key(), 0));
    }
    proof {
        assert(parts@ == entry_items(model.1));
        assert(keys@ == rightward_keys(items@, parts@));
    }
    let sorted: Vec<usize> = order::arrange(&parts, &keys);
    let ghost texts = item_texts(items@, sorted@);
    let mut r: String = String::new();
    let mut k: usize = 0;
    assert(texts.take(0) == Seq::<Seq<char>>::empty());
    while k < sorted.len()
        invariant
            k <= sorted@.len(),
            texts == item_texts(items@, sorted@),
            forall|k: int| 0 <= k < line@.len() ==> (#[trigger] line@[k]).0 < items@.len(),
            parts@.len() == line@.len(),
            forall|k: int| 0 <= k < parts@.len() ==> #[trigger] parts@[k] == line@[k].0,
            forall|k: int| 0 <= k < sorted@.len() ==> parts@.contains(#[trigger] sorted@[k]),
            r@ == text::spaced(texts.take(k as int)),
        decreases sorted@.len() - k,
    {
        assert(parts@.contains(sorted@[k as int]));
        let part: &str = text::trim(items[sorted[k]].text.as_str());
        proof {
            let earlier = texts.take(k as int);
            assert(texts.take(k + 1) == earlier.push(texts[k as int]));
            text::lemma_spaced_push(earlier, texts[k as int]);
            reveal_strlit(" ");
            assert(" "@ == seq![' ']);
        }
        if k > 0 {
            r.append(" ");
        }
        r.append(part);
        k += 1;
    }
    assert(texts.take(k as int) == texts);
    r
}

/// Puts a row before the first one.
fn put_row(table: &mut Table, y: Single, row: Vec<String>)
    ensures
        final(table)@ == (TableModel {
            columns: old(table)@.columns,
            rows: seq![y] + old(table)@.rows,
            cells: seq![types::row_texts(row@)] + old(table)@.cells,
            item_indices: old(table)@.item_indices,
        }),
{
    let ghost before = table@;
    table.rows.insert(0, y);
    table.cells.insert(0, row);
    proof {
        assert(table@.rows == seq![y] + before.rows);
        assert(table@.cells == seq![types::row_texts(row@)] + before.cells);
    }
}

/// A row with text in its first cell only.
fn make_label_row(label: String, count: usize) -> (row: Vec<String>)
    requires
        count > 0,
    ensures
        types::row_texts(row@) == label_row(label@, count as nat),
{
    let mut row: Vec<String> = Vec::new();
    row.push(label);
    while row.len() < count
        invariant
            1 <= row@.len() <= count,
            row@[0]@ == label@,
            forall|c: int| 1 <= c < row@.len() ==> (#[trigger] row@[c])@ == Seq::<char>::empty(),
        decreases count - row@.len(),
    {
        row.push(String::new());
    }
    assert(types::row_texts(row@) == label_row(label@, count as nat));
    row
}

/// Puts the header row and the section rows above a table in place.
fn put_header(
    table: &mut Table,
    items: &[TextItem],
    found: &Vec<(Single, Vec<(usize, usize)>)>,
    sections: usize,
    end: usize,
    header: &Vec<(usize, usize)>,
)
    requires
        sections < end <= found@.len(),
        old(table)@.columns.len() > 0,
        forall|l: int, k: int|
            0 <= l < found@.len() && 0 <= k < found@[l].1@.len() ==> (#[trigger] found@[l].1@[k]).0
                < items@.len(),
        forall|k: int| 0 <= k < header@.len() ==> (#[trigger] header@[k]).0 < items@.len(),
    ensures
        ({
            let kept = lines::line_models(found@).take(end as int);
            final(table)@ == with_header(
                old(table)@,
                HeaderModel {
                    y: kept.last().0,
                    cells: Seq::new(
                        old(table)@.columns.len(),
                        |c: int| header_text(items@, header@, c as usize),
                    ),
                    sections: kept.take(sections as int).map_values(
                        |line: LineModel| (line.0, section_text(items@, line)),
                    ),
                    members: entry_items(entries(kept)),
                },
            )
        }),
{
    let ghost before = table@;
    let ghost models = lines::line_models(found@);
    let ghost kept = models.take(end as int);
    let ghost describe = |line: LineModel| (line.0, section_text(items@, line));
    let ghost all = kept.take(sections as int).map_values(describe);
    let ghost position = |s: (Single, Seq<char>)| s.0;
    let ghost to_row = |s: (Single, Seq<char>)| label_row(s.1, before.columns.len());
    let count: usize = table.columns.len();
    let mut l: usize = 0;
    assert(all.take(0).reverse().map_values(position) + before.rows == before.rows);
    assert(all.take(0).reverse().map_values(to_row) + before.cells == before.cells);
    while l < sections
        invariant
            l <= sections < end <= found@.len(),
            count == before.columns.len(),
            count > 0,
            models == lines::line_models(found@),
            kept == models.take(end as int),
            describe == |line: LineModel| (line.0, section_text(items@, line)),
            all == kept.take(sections as int).map_values(describe),
            position == |s: (Single, Seq<char>)| s.0,
            to_row == |s: (Single, Seq<char>)| label_row(s.1, before.columns.len()),
            forall|l: int, k: int|
                0 <= l < found@.len() && 0 <= k < found@[l].1@.len() ==> (
                #[trigger] found@[l].1@[k]).0 < items@.len(),
            table@.columns == before.columns,
            table@.item_indices == before.item_indices,
            table@.rows == all.take(l as int).reverse().map_values(position) + before.rows,
            table@.cells == all.take(l as int).reverse().map_values(to_row) + before.cells,
        decreases sections - l,
    {
        let ghost model = models[l as int];
        let line: &Vec<(usize, usize)> = &found[l].1;
        proof {
            assert forall|k: int| 0 <= k < line@.len() implies (#[trigger] line@[k]).0
                < items@.len() by {
                assert(found@[l as int].1@[k].0 < items@.len());
            }
        }
        let label: String = join_section(items, line, Ghost(model));
        put_row(table, found[l].0, make_label_row(label, count));
        proof {
            let one = all[l as int];
            assert(one == describe(model));
            assert(all.take(l + 1).reverse() == seq![one] + all.take(l as int).reverse());
            assert(all.take(l + 1).reverse().map_values(position) == seq![one.0] + all.take(
                l as int,
            ).reverse().map_values(position));
            assert(all.take(l + 1).reverse().map_values(to_row) == seq![to_row(one)] + all.take(
                l as int,
            ).reverse().map_values(to_row));
            assert(table@.rows == all.take(l + 1).reverse().map_values(position) + before.rows);
            assert(table@.cells == all.take(l + 1).reverse().map_values(to_row) + before.cells);
        }
        l += 1;
    }
    let mut cells: Vec<String> = Vec::new();
    while cells.len() < count
        invariant
            cells@.len() <= count,
            forall|k: int| 0 <= k < header@.len() ==> (#[trigger] header@[k]).0 < items@.len(),
            forall|c: int|
                0 <= c < cells@.len() ==> (#[trigger] cells@[c])@ == header_text(
                    items@,
                    header@,
                    c as usize,
                ),
        decreases count - cells@.len(),
    {
        let parts: Vec<usize> = parts_over(header, cells.len());
        proof {
            assert forall|k: int| 0 <= k < parts@.len() implies #[trigger] parts@[k]
                < items@.len() by {
                let j = choose|j: int|
                    0 <= j < header@.len() && (#[trigger] header@[j]).0 == parts@[k];
                assert(header@[j].0 < items@.len());
            }
        }
        cells.push(join_header(items, &parts));
    }
    let ghost header_cells = Seq::new(
        before.columns.len(),
        |c: int| header_text(items@, header@, c as usize),
    );
    assert(types::row_texts(cells@) == header_cells);
    put_row(table, found[end - 1].0, cells);
    let members: Vec<(usize, usize)> = gather_entries(found, 0, end, Ghost(items@.len()));
    let mut k: usize = 0;
    let ghost indices = table.item_indices@;
    assert(indices + entry_items(members@.take(0)) == indices);
    let ghost middle = table@;
    while k < members.len()
        invariant
            k <= members@.len(),
            table@.columns == middle.columns,
            table@.rows == middle.rows,
            table@.cells == middle.cells,
            table@.item_indices == indices + entry_items(members@.take(k as int)),
        decreases members@.len() - k,
    {
        table.item_indices.push(members[k].0);
        proof {
            let e = members@[k as int];
            assert(members@.take(k + 1) == members@.take(k as int).push(e));
            assert(entry_items(members@.take(k as int).push(e)) == entry_items(
                members@.take(k as int),
            ).push(e.0));
            assert(table@.item_indices == indices + entry_items(members@.take(k + 1)));
        }
        k += 1;
    }
    proof {
        assert(members@.take(k as int) == members@);
        assert(models.subrange(0, end as int) == kept);
        assert(all.take(sections as int) == all);
        assert(kept.last() == models[end - 1]);
        let model = HeaderModel {
            y: kept.last().0,
            cells: header_cells,
            sections: all,
            members: entry_items(entries(kept)),
        };
        let goal = with_header(before, model);
        assert(table@.rows == goal.rows);
        assert(table@.cells == goal.cells);
        assert(table@ == goal);
    }
}

/// Puts the wrapped header above a table in place, if there is one.
fn add_wrapped_header(table: &mut Table, items: &[TextItem], claimed: &HashSet<usize>) -> (added:
    bool)
    requires
        has_items(old(table)@, items@.len()),
    ensures
        added == wrapped_header(old(table)@, items@, claimed@) is Some,
        final(table)@ == with_wrapped_header(old(table)@, items@, claimed@),
{
    let ghost before = table@;
    let count: usize = table.columns.len();
    if count < 3 || table.rows.len() < 2 {
        return false;
    }
    let extents: Vec<Extent> = body::find_extents(&table.columns, &table.item_indices, items);
    let data_columns: usize = body::count_data_columns(&extents);
    if extents[0].is_none() || data_columns < 2 || !body::is_mostly_figures(&table.cells) {
        return false;
    }
    proof {
        lemma_extent_has_items(before.columns, before.item_indices, items@, 0);
    }
    let font: Single = body::find_body_font(&table.item_indices, items);
    if font.le(Single::from_bits(0)) {
        return false;
    }
    assert(eligible(before, items@));
    let first_row_y: Single = table.rows[0];
    let max_gap: Single = lines::find_line_gap(&table.rows, font);
    let which: Vec<usize> = lines::find_line_candidates(
        items,
        &table.item_indices,
        claimed,
        first_row_y,
        font,
    );
    let sorted: Vec<usize> = lines::sort_upward(items, &which);
    let found: Vec<(Single, Vec<(usize, usize)>)> = lines::find_lines(
        items,
        &extents,
        &sorted,
        first_row_y,
        font,
        max_gap,
    );
    let ghost models = lines::line_models(found@);
    assert(models == table_lines(before, items@, claimed@));
    let mut sections: usize = 0;
    while sections < found.len() && is_label_only(
        &found[sections].1,
        Ghost(models[sections as int]),
    )
        invariant
            sections <= found@.len(),
            models == lines::line_models(found@),
            label_run(models, 0) == label_run(models, sections as nat),
        decreases found@.len() - sections,
    {
        sections += 1;
    }
    assert(label_run(models, 0) == sections);
    let mut end: usize = found.len();
    assert(models.take(end as int) == models);
    while end > sections && is_label_only(&found[end - 1].1, Ghost(models[end - 1]))
        invariant
            sections <= end <= found@.len(),
            models == lines::line_models(found@),
            without_top_labels(models, sections as nat) == without_top_labels(
                models.take(end as int),
                sections as nat,
            ),
        decreases end,
    {
        assert(models.take(end as int).drop_last() == models.take(end - 1));
        end -= 1;
    }
    let ghost kept = models.take(end as int);
    assert(without_top_labels(models, sections as nat) == kept);
    let header: Vec<(usize, usize)> = gather_entries(&found, sections, end, Ghost(items@.len()));
    assert(kept.skip(sections as int) == models.subrange(sections as int, end as int));
    let headed: usize = count_headed(&header, count);
    if headed < 2 || (headed < data_columns && headed < data_columns - headed) {
        assert(wrapped_header(before, items@, claimed@) is None);
        return false;
    }
    assert(sections < end) by {
        if sections == end {
            assert(models.subrange(sections as int, end as int) == Seq::<LineModel>::empty());
        }
    }
    assert(kept.skip(sections as int).last() == kept.last());
    put_header(table, items, &found, sections, end, &header);
    proof {
        let model = wrapped_header(before, items@, claimed@);
        assert(model is Some);
        assert(table@ == with_header(before, model->0));
    }
    true
}

/// Recovers column headers that wrap onto several lines above a table's first
/// row and were left out of it.
///
/// The lines directly above the first row, no further apart than its rows, are
/// read as long as each of their items is over exactly one column. The lines
/// with labels only next to the table become section rows. The other lines are
/// joined from the top down within their columns into one header row, provided
/// that the table's values are figures and that the header reaches at least two
/// data columns and half of them. Columns left with no text in any row are
/// dropped.
pub fn recover_wrapped_column_headers(
    table: &mut Table,
    items: &[TextItem],
    claimed: &HashSet<usize>,
)
    requires
        fits(old(table)@, items@, claimed@),
    ensures
        final(table)@ == wrapped_recovered(old(table)@, items@, claimed@),
{
    if add_wrapped_header(table, items, claimed) {
        drop_empty_columns(table);
    }
}

/// Recovers wrapped column headers as `recover_wrapped_column_headers` does,
/// for any table. Where the table does not fit its items, nothing changes if
/// the items do not exist; if a row lacks a cell or has extra ones, the header
/// is put in place and no columns are dropped.
pub fn try_recover_wrapped_column_headers(
    table: &mut Table,
    items: &[TextItem],
    claimed: &HashSet<usize>,
) -> (fitted: bool)
    ensures
        fitted == fits(old(table)@, items@, claimed@),
        final(table)@ == if fitted {
            wrapped_recovered(old(table)@, items@, claimed@)
        } else if has_items(old(table)@, items@.len()) {
            with_wrapped_header(old(table)@, items@, claimed@)
        } else {
            old(table)@
        },
{
    if table.columns.len() >= 3 && table.rows.len() >= 2 {
        let mut k: usize = 0;
        while k < table.item_indices.len()
            invariant
                table@ == old(table)@,
                k <= table@.item_indices.len(),
                table@.columns.len() >= 3,
                table@.rows.len() >= 2,
                forall|j: int| 0 <= j < k ==> #[trigger] table@.item_indices[j] < items@.len(),
            decreases table@.item_indices.len() - k,
        {
            if table.item_indices[k] >= items.len() {
                assert(table@.item_indices[k as int] >= items@.len());
                return false;
            }
            k += 1;
        }
    }
    if add_wrapped_header(table, items, claimed) {
        drop_empty_columns(table)
    } else {
        true
    }
}

/// A column with an extent has items.
proof fn lemma_extent_has_items(
    columns: Seq<Single>,
    which: Seq<usize>,
    items: Seq<TextItem>,
    column: int,
)
    requires
        0 <= column < columns.len(),
        body::extents(columns, which, items)[column] is Some,
    ensures
        which.len() > 0,
{
    if which.len() == 0 {
        reveal(Seq::filter);
        assert(body::column_items(columns, which, items, column as usize).len() == 0);
    }
}

} // verus!
