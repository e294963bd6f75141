//! What the lines above a table give to its wrapped header, and when there is
//! one.

use crate::body;
use crate::guarantees;
use crate::lines::LineModel;
use crate::order;
use crate::single;
use crate::single::Single;
use crate::text;
use crate::types::{TableModel, TextItem};
use crate::wrapped;
use vstd::prelude::*;

verus! {

/// Whether a line has an item over a data column.
pub open spec fn over_data(line: LineModel) -> bool {
    exists|k: int| 0 <= k < line.1.len() && (#[trigger] line.1[k]).1 > 0
}

/// Whether some of the entries are over a column.
pub open spec fn headed(all: Seq<(usize, usize)>, column: usize) -> bool {
    exists|k: int| 0 <= k < all.len() && (#[trigger] all[k]).1 == column
}

/// The columns that have header items are those with an entry over them, the
/// first column aside.
pub proof fn lemma_headed_columns(all: Seq<(usize, usize)>, count: nat)
    requires
        0 < count <= usize::MAX,
    ensures
        wrapped::headed_columns(all, count) == order::index_range(count).filter(
            |c: usize| c > 0 && headed(all, c),
        ).len(),
{
    let rest = order::index_range(count).drop_first();
    let parts = |c: usize| wrapped::column_parts(all, c).len() > 0;
    let keep = |c: usize| c > 0 && headed(all, c);
    assert forall|k: int| 0 <= k < rest.len() implies parts(#[trigger] rest[k]) == keep(
        rest[k],
    ) by {
        let c = rest[k];
        assert(c == k + 1);
        let here = wrapped::over_column(c);
        if parts(c) {
            let j = order::lemma_filter_source(all, here, 0);
            assert(all[j].1 == c);
        }
        if headed(all, c) {
            let j = choose|j: int| 0 <= j < all.len() && (#[trigger] all[j]).1 == c;
            all.lemma_filter_contains(here, j);
            assert(all.filter(here).len() > 0);
        }
    }
    order::lemma_filters_agree(rest, rest, parts, keep);
    assert(order::index_range(count) == seq![0usize] + rest);
    Seq::filter_distributes_over_add(seq![0usize], rest, keep);
    assert(seq![0usize].filter(keep).len() == 0) by {
        reveal(Seq::filter);
        let none = Seq::<usize>::empty();
        none.lemma_filter_push(0, keep);
        assert(none.push(0usize) == seq![0usize]);
    }
}

/// Where the lines above a table split: before the first one with an item over a
/// data column, and after the last one.
pub open spec fn split_lines(found: Seq<LineModel>, s: int, e: int) -> bool {
    &&& 0 <= s <= e <= found.len()
    &&& forall|g: int| 0 <= g < s || e <= g < found.len() ==> !over_data(#[trigger] found[g])
    &&& s < e ==> over_data(found[s]) && over_data(found[e - 1])
    &&& s == e ==> e == found.len()
}

proof fn lemma_split(found: Seq<LineModel>, s: int, e: int)
    requires
        split_lines(found, s, e),
    ensures
        wrapped::label_run(found, 0) == s,
        wrapped::without_top_labels(found, s as nat) == found.take(e),
{
    guarantees::lemma_label_run(found, 0);
    assert forall|g: int| 0 <= g < found.len() implies over_data(found[g]) == !(
    #[trigger] wrapped::label_only(found[g])) by {
        if !wrapped::label_only(found[g]) {
            let k = choose|k: int|
                0 <= k < found[g].1.len() && (#[trigger] found[g].1[k]).1 != 0;
            assert(over_data(found[g]));
        }
    }
    let run = wrapped::label_run(found, 0) as int;
    if run < s {
        assert(!over_data(found[run]));
        assert(wrapped::label_only(found[run]));
    }
    if s < run {
        assert(wrapped::label_only(found[s]));
    }
    guarantees::lemma_without_top_labels(found, s as nat);
    let n = wrapped::without_top_labels(found, s as nat).len() as int;
    if n < e {
        assert(wrapped::label_only(found[e - 1]));
    }
    if e < n {
        assert(!over_data(found[n - 1]));
        assert(wrapped::label_only(found[n - 1]));
    }
}

proof fn lemma_header_of_split(
    table: TableModel,
    items: Seq<TextItem>,
    claimed: Set<usize>,
    s: int,
    e: int,
)
    requires
        split_lines(wrapped::table_lines(table, items, claimed), s, e),
    ensures
        ({
            let found = wrapped::table_lines(table, items, claimed);
            let extents = body::extents(table.columns, table.item_indices, items);
            let over = wrapped::headed_columns(
                wrapped::entries(found.subrange(s, e)),
                table.columns.len(),
            );
            let header = wrapped::wrapped_header(table, items, claimed);
            &&& header is Some <==> {
                &&& wrapped::eligible(table, items)
                &&& over >= 2
                &&& 2 * over >= body::data_columns(extents)
            }
            &&& header is Some ==> {
                &&& header->0.y == found.subrange(s, e).last().0
                &&& header->0.sections.len() == s
                &&& forall|g: int|
                    0 <= g < s ==> (#[trigger] header->0.sections[g]).0 == found[g].0
                &&& header->0.members == wrapped::entry_items(wrapped::entries(found.take(e)))
            }
        }),
{
    let found = wrapped::table_lines(table, items, claimed);
    lemma_split(found, s, e);
    assert(found.take(e).skip(s) == found.subrange(s, e));
    assert(found.take(e).take(s) == found.take(s));
}

proof fn lemma_above_zero(font: Single)
    ensures
        !font.at_most(single::signed(false, 0)) <==> font.nan() || font.place() > 0,
{
}

/// A table may have a wrapped header where it has three columns and two rows or
/// more, text in the first column and in two others, values that are mostly
/// figures, and a font size that is not zero or less.
#[verifier::spinoff_prover]
pub proof fn lemma_eligible(table: TableModel, items: Seq<TextItem>)
    requires
        table.columns.len() <= usize::MAX,
    ensures
        ({
            let extents = body::extents(table.columns, table.item_indices, items);
            let font = body::body_font(table.item_indices, items);
            wrapped::eligible(table, items) <==> {
                &&& table.columns.len() >= 3
                &&& table.rows.len() >= 2
                &&& extents[0] is Some
                &&& order::index_range(extents.len()).filter(
                    |c: usize| c > 0 && extents[c as int] is Some,
                ).len() >= 2
                &&& body::mostly_figures(table.cells)
                &&& font.nan() || font.place() > 0
            }
        }),
{
    let extents = body::extents(table.columns, table.item_indices, items);
    let font = body::body_font(table.item_indices, items);
    assert(extents.len() == table.columns.len());
    lemma_above_zero(font);
    if table.columns.len() >= 3 {
        body::lemma_data_columns(extents);
    }
}

/// An eligible table gets a wrapped header exactly where the lines above it have
/// items over two data columns or more, and over at least half of the data
/// columns with text. The lines before the first one with an item over a data
/// column are its sections; those after the last one are left out.
pub proof fn lemma_when_header_is_wrapped(
    table: TableModel,
    items: Seq<TextItem>,
    claimed: Set<usize>,
    s: int,
    e: int,
)
    requires
        table.columns.len() <= usize::MAX,
        split_lines(wrapped::table_lines(table, items, claimed), s, e),
    ensures
        ({
            let found = wrapped::table_lines(table, items, claimed);
            let extents = body::extents(table.columns, table.item_indices, items);
            let with_text = order::index_range(extents.len()).filter(
                |c: usize| c > 0 && extents[c as int] is Some,
            ).len();
            let all = wrapped::entries(found.subrange(s, e));
            let over = order::index_range(table.columns.len()).filter(
                |c: usize| c > 0 && headed(all, c),
            ).len();
            wrapped::wrapped_header(table, items, claimed) is Some <==> {
                &&& wrapped::eligible(table, items)
                &&& over >= 2
                &&& 2 * over >= with_text
            }
        }),
{
    let found = wrapped::table_lines(table, items, claimed);
    let extents = body::extents(table.columns, table.item_indices, items);
    let all = wrapped::entries(found.subrange(s, e));
    lemma_header_of_split(table, items, claimed, s, e);
    if table.columns.len() >= 3 {
        body::lemma_data_columns(extents);
        lemma_headed_columns(all, table.columns.len());
    }
}

/// What a wrapped header holds: its row is at the position of the last line with
/// an item over a data column, its section rows are the lines before the first
/// such line, and its members are the items of all of these lines.
pub proof fn lemma_wrapped_header_parts(
    table: TableModel,
    items: Seq<TextItem>,
    claimed: Set<usize>,
    s: int,
    e: int,
)
    requires
        table.columns.len() <= usize::MAX,
        split_lines(wrapped::table_lines(table, items, claimed), s, e),
        wrapped::wrapped_header(table, items, claimed) is Some,
    ensures
        ({
            let found = wrapped::table_lines(table, items, claimed);
            let header = wrapped::wrapped_header(table, items, claimed)->0;
            &&& s < e
            &&& header.y == found[e - 1].0
            &&& header.sections.len() == s
            &&& forall|g: int| 0 <= g < s ==> (#[trigger] header.sections[g]).0 == found[g].0
            &&& header.members == wrapped::entry_items(wrapped::entries(found.take(e)))
        }),
{
    let found = wrapped::table_lines(table, items, claimed);
    let all = wrapped::entries(found.subrange(s, e));
    let count = table.columns.len();
    lemma_header_of_split(table, items, claimed, s, e);
    assert(s < e) by {
        if s == e {
            lemma_headed_columns(all, count);
            assert(found.subrange(s, e) == Seq::<LineModel>::empty());
            let j = order::lemma_filter_source(
                order::index_range(count),
                |c: usize| c > 0 && headed(all, c),
                0,
            );
            assert(!headed(all, order::index_range(count)[j]));
        }
    }
    assert(found.subrange(s, e).last() == found[e - 1]);
}

proof fn lemma_joined_end(parts: Seq<Seq<char>>)
    requires
        parts.len() > 0,
        parts.last().len() > 0,
    ensures
        wrapped::hyphen_joined(parts).len() > 0,
        wrapped::hyphen_joined(parts).last() == parts.last().last(),
{
}

/// One text alone stays as it is.
pub proof fn lemma_one_joined(part: Seq<char>)
    ensures
        wrapped::hyphen_joined(Seq::empty()) == Seq::<char>::empty(),
        wrapped::hyphen_joined(seq![part]) == part,
{
    let none = Seq::<Seq<char>>::empty();
    assert(seq![part].drop_last() == none);
    assert(seq![part].last() == part);
    assert(wrapped::hyphen_joined(none).len() == 0);
    assert(wrapped::hyphen_joined(seq![part]) == wrapped::hyphen_joined(none) + part);
    assert(wrapped::hyphen_joined(none) + part == part);
}

/// Texts that wrap are joined by a space, but directly where a text ends in a
/// hyphen, which stays.
pub proof fn lemma_hyphen_joined(parts: Seq<Seq<char>>, part: Seq<char>)
    requires
        parts.len() > 0,
        parts.last().len() > 0,
    ensures
        parts.last().last() == '-' ==> wrapped::hyphen_joined(parts.push(part))
            == wrapped::hyphen_joined(parts) + part,
        parts.last().last() != '-' ==> wrapped::hyphen_joined(parts.push(part))
            == wrapped::hyphen_joined(parts) + seq![' '] + part,
{
    let more = parts.push(part);
    lemma_joined_end(parts);
    assert(more.drop_last() == parts);
    assert(more.last() == part);
}

/// A header cell joins the trimmed texts of the items over its column, each once,
/// by their lines from the top down and within a line from left to right. The
/// result is the items in that order.
pub proof fn lemma_header_cell_text(
    items: Seq<TextItem>,
    all: Seq<(usize, usize)>,
    column: usize,
) -> (which: Seq<usize>)
    ensures
        which.len() == all.filter(|e: (usize, usize)| e.1 == column).len(),
        forall|i: usize| #[trigger] which.contains(i) <==> all.contains((i, column)),
        forall|j: int, k: int|
            0 <= j < k < which.len() ==> {
                let a = items[#[trigger] which[j] as int];
                let b = items[#[trigger] which[k] as int];
                ||| b.line_y.total_place() < a.line_y.total_place()
                ||| b.line_y == a.line_y && a.x.total_place() <= b.x.total_place()
            },
        wrapped::header_text(items, all, column) == wrapped::hyphen_joined(
            Seq::new(which.len(), |k: int| text::trimmed(items[which[k] as int].text@)),
        ),
{
    let here = wrapped::over_column(column);
    let parts = wrapped::column_parts(all, column);
    let keys = wrapped::reading_keys(items, parts);
    let which = order::arranged(parts, keys);
    order::lemma_arranged(parts, keys);
    order::lemma_filters_agree(all, all, here, |e: (usize, usize)| e.1 == column);
    assert forall|i: usize| #[trigger] which.contains(i) implies all.contains((i, column)) by {
        let k = choose|k: int| 0 <= k < which.len() && which[k] == i;
        assert(parts.contains(which[k]));
        let p = choose|p: int| 0 <= p < parts.len() && parts[p] == i;
        let j = order::lemma_filter_source(all, here, p);
        assert(all[j] == (i, column));
    }
    assert forall|i: usize| all.contains((i, column)) implies #[trigger] which.contains(i) by {
        let j = choose|j: int| 0 <= j < all.len() && all[j] == (i, column);
        all.lemma_filter_contains(here, j);
        let kept = all.filter(here);
        let p = choose|p: int| 0 <= p < kept.len() && kept[p] == (i, column);
        assert(parts[p] == i);
        assert(parts.contains(i));
    }
    assert forall|j: int, k: int| 0 <= j < k < which.len() implies {
        let a = items[#[trigger] which[j] as int];
        let b = items[#[trigger] which[k] as int];
        ||| b.line_y.total_place() < a.line_y.total_place()
        ||| b.line_y == a.line_y && a.x.total_place() <= b.x.total_place()
    } by {
        guarantees::lemma_reading_order(items, parts, j, k);
    }
    assert(wrapped::item_texts(items, which) == Seq::new(
        which.len(),
        |k: int| text::trimmed(items[which[k] as int].text@),
    ));
    which
}

/// A section row joins the trimmed texts of the items of its line, each once, by
/// spaces from left to right. The result is the items in that order.
pub proof fn lemma_section_row_text(items: Seq<TextItem>, line: LineModel) -> (which: Seq<usize>)
    ensures
        which.len() == line.1.len(),
        forall|k: int| 0 <= k < line.1.len() ==> which.contains((#[trigger] line.1[k]).0),
        forall|j: int, k: int|
            0 <= j < k < which.len() ==> items[#[trigger] which[j] as int].x.total_place()
                <= items[#[trigger] which[k] as int].x.total_place(),
        wrapped::section_text(items, line) == text::spaced(
            Seq::new(which.len(), |k: int| text::trimmed(items[which[k] as int].text@)),
        ),
{
    let parts = wrapped::entry_items(line.1);
    let keys = wrapped::rightward_keys(items, parts);
    let which = order::arranged(parts, keys);
    order::lemma_arranged(parts, keys);
    assert forall|k: int| 0 <= k < line.1.len() implies which.contains(
        (#[trigger] line.1[k]).0,
    ) by {
        assert(parts[k] == line.1[k].0);
        assert(parts.contains(parts[k]));
    }
    assert forall|j: int, k: int| 0 <= j < k < which.len() implies items[
    #[trigger] which[j] as int].x.total_place() <= items[
    #[trigger] which[k] as int].x.total_place() by {
        guarantees::lemma_section_order(items, parts, j, k);
    }
    assert(wrapped::item_texts(items, which) == Seq::new(
        which.len(),
        |k: int| text::trimmed(items[which[k] as int].text@),
    ));
    which
}

/// The places kept are all that are to be kept, from left to right.
proof fn lemma_places(n: nat, keep: spec_fn(int) -> bool)
    ensures
        ({
            let places = wrapped::retained(order::indexes(n), keep);
            &&& forall|k: int|
                0 <= k < places.len() ==> 0 <= #[trigger] places[k] < n && keep(places[k])
            &&& forall|j: int, k: int|
                0 <= j < k < places.len() ==> #[trigger] places[j] < #[trigger] places[k]
            &&& forall|c: int| 0 <= c < n && keep(c) ==> #[trigger] places.contains(c)
        }),
    decreases n,
{
    if n > 0 {
        let all = order::indexes(n);
        let places = wrapped::retained(all, keep);
        let before = wrapped::retained(order::indexes((n - 1) as nat), keep);
        lemma_places((n - 1) as nat, keep);
        assert(all.drop_last() == order::indexes((n - 1) as nat));
        assert forall|c: int| 0 <= c < n && keep(c) implies #[trigger] places.contains(c) by {
            if c < n - 1 {
                assert(before.contains(c));
                let k = choose|k: int| 0 <= k < before.len() && before[k] == c;
                assert(places[k] == c);
            } else {
                assert(places[places.len() - 1] == c);
            }
        }
    }
}

/// The columns that a table keeps are all those with text in some row, from left
/// to right; each keeps its position and its cells. The result is their places.
pub proof fn lemma_columns_kept(table: TableModel) -> (places: Seq<int>)
    requires
        forall|r: int|
            0 <= r < table.cells.len() ==> (#[trigger] table.cells[r]).len()
                == table.columns.len(),
    ensures
        ({
            let after = wrapped::without_empty_columns(table);
            &&& after.rows == table.rows
            &&& after.item_indices == table.item_indices
            &&& after.columns.len() == places.len()
            &&& after.cells.len() == table.cells.len()
            &&& forall|j: int, k: int|
                0 <= j < k < places.len() ==> #[trigger] places[j] < #[trigger] places[k]
            &&& forall|c: int| #[trigger]
                places.contains(c) <==> 0 <= c < table.columns.len() && exists|r: int|
                    0 <= r < table.cells.len() && text::trimmed(
                        (#[trigger] table.cells[r])[c],
                    ).len() > 0
            &&& forall|k: int|
                0 <= k < places.len() ==> after.columns[k] == table.columns[#[trigger] places[k]]
            &&& forall|r: int, k: int|
                0 <= r < table.cells.len() && 0 <= k < places.len() ==> (
                #[trigger] after.cells[r])[k] == table.cells[r][#[trigger] places[k]]
            &&& forall|r: int|
                0 <= r < table.cells.len() ==> (#[trigger] after.cells[r]).len() == places.len()
        }),
{
    let after = wrapped::without_empty_columns(table);
    let keep = wrapped::filled_columns(table.cells);
    let n = table.columns.len();
    let places = wrapped::retained(order::indexes(n), keep);
    lemma_places(n, keep);
    guarantees::lemma_retained_places(table.columns, keep);
    assert forall|c: int| 0 <= c < n implies #[trigger] keep(c) == exists|r: int|
        0 <= r < table.cells.len() && text::trimmed((#[trigger] table.cells[r])[c]).len() > 0 by {
        if keep(c) {
            let r = choose|r: int|
                0 <= r < table.cells.len() && wrapped::filled(#[trigger] table.cells[r], c);
            assert(text::trimmed(table.cells[r][c]).len() > 0);
        }
        if exists|r: int|
            0 <= r < table.cells.len() && text::trimmed((#[trigger] table.cells[r])[c]).len() > 0 {
            let r = choose|r: int|
                0 <= r < table.cells.len() && text::trimmed(
                    (#[trigger] table.cells[r])[c],
                ).len() > 0;
            assert(wrapped::filled(table.cells[r], c));
        }
    }
    if forall|c: int| 0 <= c < n ==> #[trigger] wrapped::column_filled(table.cells, c) {
        lemma_all_kept(n, keep);
    } else {
        assert forall|r: int| 0 <= r < table.cells.len() implies #[trigger] after.cells[r]
            == wrapped::retained(table.cells[r], keep) && after.cells[r].len() == places.len()
            && forall|k: int|
            0 <= k < places.len() ==> after.cells[r][k] == table.cells[r][#[trigger] places[k]] by {
            guarantees::lemma_retained_places(table.cells[r], keep);
        }
    }
    places
}

proof fn lemma_all_kept(n: nat, keep: spec_fn(int) -> bool)
    requires
        forall|c: int| 0 <= c < n ==> #[trigger] keep(c),
    ensures
        wrapped::retained(order::indexes(n), keep) == order::indexes(n),
    decreases n,
{
    if n > 0 {
        lemma_all_kept((n - 1) as nat, keep);
        assert(keep(n - 1));
        assert(order::indexes(n).drop_last() == order::indexes((n - 1) as nat));
    }
}

/// Where the texts of a table with its wrapped header are: the header cells in
/// the first row over their columns, the section texts in the first column of
/// the rows after it from the top down, and the cells of the table's own rows
/// after them, in the columns that are kept. The result is the places of these.
pub proof fn lemma_wrapped_cells(
    table: TableModel,
    items: Seq<TextItem>,
    claimed: Set<usize>,
) -> (places: Seq<int>)
    requires
        wrapped::wrapped_header(table, items, claimed) is Some,
        forall|r: int|
            0 <= r < table.cells.len() ==> (#[trigger] table.cells[r]).len()
                == table.columns.len(),
    ensures
        ({
            let after = wrapped::wrapped_recovered(table, items, claimed);
            let header = wrapped::wrapped_header(table, items, claimed)->0;
            let s = header.sections.len() as int;
            &&& after.columns.len() == places.len()
            &&& after.cells.len() == 1 + s + table.cells.len()
            &&& forall|j: int, k: int|
                0 <= j < k < places.len() ==> #[trigger] places[j] < #[trigger] places[k]
            &&& forall|k: int|
                0 <= k < places.len() ==> 0 <= #[trigger] places[k] < table.columns.len()
                    && after.columns[k] == table.columns[places[k]] && after.cells[0][k]
                    == header.cells[places[k]]
            &&& forall|g: int, k: int|
                0 <= g < s && 0 <= k < places.len() ==> after.cells[s - g][k] == if
                    #[trigger] places[k] == 0 {
                    (#[trigger] header.sections[g]).1
                } else {
                    Seq::empty()
                }
            &&& forall|r: int, k: int|
                0 <= r < table.cells.len() && 0 <= k < places.len() ==> after.cells[1 + s + r][k]
                    == (#[trigger] table.cells[r])[#[trigger] places[k]]
        }),
{
    let header = wrapped::wrapped_header(table, items, claimed)->0;
    let s = header.sections.len() as int;
    let full = wrapped::with_header(table, header);
    let after = wrapped::without_empty_columns(full);
    guarantees::lemma_with_header_rows(table, header);
    assert forall|r: int| 0 <= r < full.cells.len() implies (#[trigger] full.cells[r]).len()
        == full.columns.len() by {
        if 0 < r <= s {
            let g = s - r;
            assert(full.cells[s - g] == wrapped::label_row(
                header.sections[g].1,
                table.columns.len(),
            ));
        } else if r > s {
            assert(full.cells[1 + s + (r - 1 - s)] == table.cells[r - 1 - s]);
        }
    }
    let places = lemma_columns_kept(full);
    assert forall|k: int| 0 <= k < places.len() implies 0 <= #[trigger] places[k]
        < table.columns.len() by {
        assert(places.contains(places[k]));
    }
    assert forall|k: int| 0 <= k < places.len() implies after.cells[0][k]
        == header.cells[#[trigger] places[k]] by {
        assert(after.cells[0][k] == full.cells[0][places[k]]);
    }
    assert forall|g: int, k: int| 0 <= g < s && 0 <= k < places.len() implies after.cells[s - g][k]
        == if #[trigger] places[k] == 0 {
        (#[trigger] header.sections[g]).1
    } else {
        Seq::empty()
    } by {
        assert(after.cells[s - g][k] == full.cells[s - g][places[k]]);
    }
    assert forall|r: int, k: int|
        0 <= r < table.cells.len() && 0 <= k < places.len() implies after.cells[1 + s + r][k] == (
    #[trigger] table.cells[r])[#[trigger] places[k]] by {
        assert(after.cells[1 + s + r][k] == full.cells[1 + s + r][places[k]]);
    }
    places
}

} // verus!
