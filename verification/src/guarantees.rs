//! What the lines above a table and the tables with recovered headers are like.

use crate::body;
use crate::body::Extent;
use crate::header;
use crate::lines;
use crate::lines::LineModel;
use crate::order;
use crate::rows;
use crate::single;
use crate::single::Single;
use crate::text;
use crate::types;
use crate::types::{TableModel, TextItem};
use crate::wrapped;
use crate::wrapped::HeaderModel;
use vstd::prelude::*;

verus! {

/// The items of some lines with one line before them.
pub proof fn lemma_entries_first(line: LineModel, rest: Seq<LineModel>)
    ensures
        wrapped::entries(seq![line] + rest) == line.1 + wrapped::entries(rest),
    decreases rest.len(),
{
    let all = seq![line] + rest;
    if rest.len() == 0 {
        assert(all.drop_last() == rest);
        assert(wrapped::entries(rest) == Seq::<(usize, usize)>::empty());
        assert(all.last() == line);
        assert(line.1 + wrapped::entries(rest) == line.1);
        assert(wrapped::entries(rest) + line.1 == line.1);
    } else {
        lemma_entries_first(line, rest.drop_last());
        assert(all.drop_last() == seq![line] + rest.drop_last());
        assert(all.last() == rest.last());
        assert((line.1 + wrapped::entries(rest.drop_last())) + rest.last().1 == line.1 + (
        wrapped::entries(rest.drop_last()) + rest.last().1));
    }
}

/// The first line above a table and the lines after it.
pub proof fn lemma_first_line(
    items: Seq<TextItem>,
    extents: Seq<Extent>,
    which: Seq<usize>,
    previous_y: Single,
    font: Single,
    max_gap: Single,
    limit: nat,
) -> (r: (LineModel, int))
    requires
        lines::lines_above(items, extents, which, previous_y, font, max_gap, limit).len() > 0,
    ensures
        limit > 0,
        which.len() > 0,
        r.0.0 == items[which[0] as int].line_y,
        0 <= r.1 <= which.len(),
        r.1 == lines::line_end(items, which, r.0.0, font.times(single::fraction(3, 10)), 0),
        wrapped::entry_items(r.0.1) == which.take(r.1),
        !max_gap.below(r.0.0.minus(previous_y)),
        lines::lines_above(items, extents, which, previous_y, font, max_gap, limit) == seq![r.0]
            + lines::lines_above(
            items,
            extents,
            which.skip(r.1),
            r.0.0,
            font,
            max_gap,
            (limit - 1) as nat,
        ),
{
    let y = items[which[0] as int].line_y;
    let margin = font.times(single::fraction(3, 10));
    let end = lines::line_end(items, which, y, margin, 0) as int;
    lemma_line_end(items, which, y, margin, 0);
    let line = lines::assigned(items, extents, which.take(end))->Some_0;
    assert(wrapped::entry_items(line) == which.take(end));
    ((y, line), end)
}

/// The lines above a table take up the sorted items from the first one on
/// without leaving any out.
pub proof fn lemma_lines_take_up_items(
    items: Seq<TextItem>,
    extents: Seq<Extent>,
    which: Seq<usize>,
    previous_y: Single,
    font: Single,
    max_gap: Single,
    limit: nat,
)
    ensures
        ({
            let taken = wrapped::entry_items(
                wrapped::entries(
                    lines::lines_above(items, extents, which, previous_y, font, max_gap, limit),
                ),
            );
            taken.len() <= which.len() && taken == which.take(taken.len() as int)
        }),
    decreases limit,
{
    let found = lines::lines_above(items, extents, which, previous_y, font, max_gap, limit);
    let taken = wrapped::entry_items(wrapped::entries(found));
    if found.len() == 0 {
        assert(taken == which.take(0));
    } else {
        let (line, end) = lemma_first_line(
            items,
            extents,
            which,
            previous_y,
            font,
            max_gap,
            limit,
        );
        let later = which.skip(end);
        let less = (limit - 1) as nat;
        let rest = lines::lines_above(items, extents, later, line.0, font, max_gap, less);
        let after = wrapped::entry_items(wrapped::entries(rest));
        lemma_lines_take_up_items(items, extents, later, line.0, font, max_gap, less);
        lemma_entries_first(line, rest);
        assert(taken == which.take(end) + after);
        assert(which.take(end) + later.take(after.len() as int) == which.take(
            end + after.len(),
        ));
    }
}

/// The lines above a table are at most `limit`, and each is no further than
/// `max_gap` above the one before it, the first one above `previous_y`.
pub proof fn lemma_lines_are_close(
    items: Seq<TextItem>,
    extents: Seq<Extent>,
    which: Seq<usize>,
    previous_y: Single,
    font: Single,
    max_gap: Single,
    limit: nat,
)
    ensures
        ({
            let found = lines::lines_above(
                items,
                extents,
                which,
                previous_y,
                font,
                max_gap,
                limit,
            );
            let ys = seq![previous_y] + found.map_values(|line: LineModel| line.0);
            &&& found.len() <= limit
            &&& forall|g: int|
                0 < g < ys.len() ==> !max_gap.below((#[trigger] ys[g]).minus(ys[g - 1]))
        }),
    decreases limit,
{
    let position = |line: LineModel| line.0;
    let found = lines::lines_above(items, extents, which, previous_y, font, max_gap, limit);
    let ys = seq![previous_y] + found.map_values(position);
    if found.len() > 0 {
        let (line, end) = lemma_first_line(
            items,
            extents,
            which,
            previous_y,
            font,
            max_gap,
            limit,
        );
        let later = which.skip(end);
        let less = (limit - 1) as nat;
        let rest = lines::lines_above(items, extents, later, line.0, font, max_gap, less);
        let after = seq![line.0] + rest.map_values(position);
        lemma_lines_are_close(items, extents, later, line.0, font, max_gap, less);
        assert(ys == seq![previous_y] + after);
        assert forall|g: int| 0 < g < ys.len() implies !max_gap.below(
            (#[trigger] ys[g]).minus(ys[g - 1]),
        ) by {
            assert(ys[g] == after[g - 1]);
            if g > 1 {
                assert(ys[g - 1] == after[g - 2]);
            }
        }
    }
}

/// A line ends behind its start, and its items are within the margin.
pub proof fn lemma_line_end(
    items: Seq<TextItem>,
    which: Seq<usize>,
    y: Single,
    margin: Single,
    k: nat,
)
    requires
        k <= which.len(),
    ensures
        k <= lines::line_end(items, which, y, margin, k) <= which.len(),
        forall|j: int|
            k <= j < lines::line_end(items, which, y, margin, k) ==> !margin.below(
                items[#[trigger] which[j] as int].line_y.minus(y),
            ),
    decreases which.len() - k,
{
    if k < which.len() && !margin.below(items[which[k as int] as int].line_y.minus(y)) {
        lemma_line_end(items, which, y, margin, k + 1);
    }
}

/// Each item of a line is over exactly one column, and on the line: no more
/// than 0.3 times the font size above its position.
pub proof fn lemma_line_items(
    items: Seq<TextItem>,
    extents: Seq<Extent>,
    which: Seq<usize>,
    previous_y: Single,
    font: Single,
    max_gap: Single,
    limit: nat,
    g: int,
    k: int,
)
    requires
        ({
            let found = lines::lines_above(
                items,
                extents,
                which,
                previous_y,
                font,
                max_gap,
                limit,
            );
            0 <= g < found.len() && 0 <= k < found[g].1.len()
        }),
    ensures
        ({
            let found = lines::lines_above(
                items,
                extents,
                which,
                previous_y,
                font,
                max_gap,
                limit,
            );
            let (i, column) = found[g].1[k];
            &&& lines::column_over(extents, items[i as int]) == Some(column)
            &&& column == lines::column_below(extents, items[i as int])
            &&& forall|c: int|
                0 <= c < extents.len() && c != column ==> !lines::reaches(
                    items[i as int],
                    #[trigger] extents[c],
                )
            &&& !font.times(single::fraction(3, 10)).below(
                items[i as int].line_y.minus(found[g].0),
            )
        }),
    decreases limit,
{
    let found = lines::lines_above(items, extents, which, previous_y, font, max_gap, limit);
    let y = items[which[0] as int].line_y;
    let margin = font.times(single::fraction(3, 10));
    let end = lines::line_end(items, which, y, margin, 0) as int;
    lemma_line_end(items, which, y, margin, 0);
    let line = lines::assigned(items, extents, which.take(end))->Some_0;
    let later = which.skip(end);
    if g == 0 {
        assert(found[0] == (y, line));
        assert(which.take(end)[k] == which[k]);
    } else {
        let rest = lines::lines_above(
            items,
            extents,
            later,
            y,
            font,
            max_gap,
            (limit - 1) as nat,
        );
        assert(found == seq![(y, line)] + rest);
        assert(found[g] == rest[g - 1]);
        lemma_line_items(
            items,
            extents,
            later,
            y,
            font,
            max_gap,
            (limit - 1) as nat,
            g - 1,
            k,
        );
    }
}

/// The items of the first lines are the first items of the lines.
proof fn lemma_entries_prefix(all: Seq<LineModel>, n: int)
    requires
        0 <= n <= all.len(),
    ensures
        ({
            let part = wrapped::entries(all.take(n));
            &&& part.len() <= wrapped::entries(all).len()
            &&& part == wrapped::entries(all).take(part.len() as int)
        }),
    decreases all.len(),
{
    let part = wrapped::entries(all.take(n));
    if n == all.len() {
        assert(all.take(n) == all);
        assert(part == part.take(part.len() as int));
    } else {
        let rest = all.drop_last();
        lemma_entries_prefix(rest, n);
        assert(rest.take(n) == all.take(n));
        assert(wrapped::entries(all).take(part.len() as int) == wrapped::entries(rest).take(
            part.len() as int,
        ));
    }
}

/// The run of label lines at the start of some lines.
pub proof fn lemma_label_run(all: Seq<LineModel>, k: nat)
    requires
        k <= all.len(),
    ensures
        k <= wrapped::label_run(all, k) <= all.len(),
        forall|g: int|
            k <= g < wrapped::label_run(all, k) ==> wrapped::label_only(#[trigger] all[g]),
        wrapped::label_run(all, k) < all.len() ==> !wrapped::label_only(
            all[wrapped::label_run(all, k) as int],
        ),
    decreases all.len() - k,
{
    if k < all.len() && wrapped::label_only(all[k as int]) {
        lemma_label_run(all, k + 1);
    }
}

/// Lines without the label lines at their end.
pub proof fn lemma_without_top_labels(all: Seq<LineModel>, sections: nat)
    requires
        sections <= all.len(),
    ensures
        ({
            let kept = wrapped::without_top_labels(all, sections);
            let n = kept.len() as int;
            &&& sections <= n <= all.len()
            &&& kept == all.take(n)
            &&& n > sections ==> !wrapped::label_only(all[n - 1])
            &&& forall|g: int| n <= g < all.len() ==> wrapped::label_only(#[trigger] all[g])
        }),
    decreases all.len(),
{
    if all.len() > sections && wrapped::label_only(all.last()) {
        let rest = all.drop_last();
        lemma_without_top_labels(rest, sections);
        let n = wrapped::without_top_labels(all, sections).len() as int;
        assert(rest.take(n) == all.take(n));
        assert forall|g: int| n <= g < all.len() implies wrapped::label_only(
            #[trigger] all[g],
        ) by {
            if g < rest.len() {
                assert(all[g] == rest[g]);
            }
        }
        if n > sections {
            assert(rest[n - 1] == all[n - 1]);
        }
    } else {
        assert(all.take(all.len() as int) == all);
    }
}

/// Where there are no header items, no column is headed.
proof fn lemma_headed_has_entries(all: Seq<(usize, usize)>, count: nat)
    requires
        wrapped::headed_columns(all, count) > 0,
    ensures
        all.len() > 0,
{
    let rest = order::index_range(count).drop_first();
    let headed = |c: usize| wrapped::column_parts(all, c).len() > 0;
    let j = order::lemma_filter_source(rest, headed, 0);
    let k = order::lemma_filter_source(all, wrapped::over_column(rest[j]), 0);
}

/// How the lines above a table make its header: the lines with labels only next
/// to the table are the section rows; the lines after them are the header, up
/// to the last one that has more than labels. The result is the number of lines
/// used.
pub proof fn lemma_wrapped_header_lines(
    table: TableModel,
    items: Seq<TextItem>,
    claimed: Set<usize>,
) -> (n: int)
    requires
        wrapped::wrapped_header(table, items, claimed) is Some,
    ensures
        ({
            let found = wrapped::table_lines(table, items, claimed);
            let header = wrapped::wrapped_header(table, items, claimed)->Some_0;
            let s = header.sections.len() as int;
            &&& s < n <= found.len()
            &&& !wrapped::label_only(found[s])
            &&& !wrapped::label_only(found[n - 1])
            &&& forall|g: int|
                0 <= g < s ==> wrapped::label_only(#[trigger] found[g]) && header.sections[g] == (
                    found[g].0,
                    wrapped::section_text(items, found[g]),
                )
            &&& forall|g: int| n <= g < found.len() ==> wrapped::label_only(#[trigger] found[g])
            &&& header.y == found[n - 1].0
            &&& header.members == wrapped::entry_items(wrapped::entries(found.take(n)))
            &&& header.cells.len() == table.columns.len()
            &&& forall|c: int|
                0 <= c < table.columns.len() ==> #[trigger] header.cells[c]
                    == wrapped::header_text(
                    items,
                    wrapped::entries(found.subrange(s, n)),
                    c as usize,
                )
        }),
{
    let found = wrapped::table_lines(table, items, claimed);
    let header = wrapped::wrapped_header(table, items, claimed)->Some_0;
    let sections = wrapped::label_run(found, 0);
    let kept = wrapped::without_top_labels(found, sections);
    let n = kept.len() as int;
    lemma_label_run(found, 0);
    lemma_without_top_labels(found, sections);
    assert(header.sections.len() == sections);
    assert(kept.skip(sections as int) == found.subrange(sections as int, n));
    lemma_headed_has_entries(
        wrapped::entries(kept.skip(sections as int)),
        table.columns.len(),
    );
    assert(n > sections);
    n
}

/// The sorted candidates for the lines above a table are distinct, and are not
/// in the table or claimed.
pub proof fn lemma_line_candidates(
    items: Seq<TextItem>,
    in_table: Set<usize>,
    claimed: Set<usize>,
    first_row_y: Single,
    font: Single,
)
    requires
        items.len() <= usize::MAX,
    ensures
        ({
            let which = lines::line_candidates(items, in_table, claimed, first_row_y, font);
            let sorted = order::arranged(which, lines::upward_keys(items, which));
            &&& sorted.no_duplicates()
            &&& forall|k: int|
                0 <= k < sorted.len() ==> {
                    let i = #[trigger] sorted[k];
                    &&& i < items.len()
                    &&& !in_table.contains(i)
                    &&& !claimed.contains(i)
                    &&& lines::line_candidate(items[i as int], first_row_y, font)
                }
        }),
{
    let candidate = |i: usize|
        !in_table.contains(i) && !claimed.contains(i) && lines::line_candidate(
            items[i as int],
            first_row_y,
            font,
        );
    let which = lines::line_candidates(items, in_table, claimed, first_row_y, font);
    let sorted = order::arranged(which, lines::upward_keys(items, which));
    order::lemma_filtered_indexes(items.len(), candidate);
    order::lemma_arranged(which, lines::upward_keys(items, which));
    assert forall|k: int| 0 <= k < sorted.len() implies {
        let i = #[trigger] sorted[k];
        i < items.len() && candidate(i)
    } by {
        assert(which.contains(sorted[k]));
    }
}

/// The items that a recovered header adds to a table are distinct items that
/// were neither in the table nor claimed, and may belong to a header.
pub proof fn lemma_wrapped_members(
    table: TableModel,
    items: Seq<TextItem>,
    claimed: Set<usize>,
)
    requires
        items.len() <= usize::MAX,
        wrapped::wrapped_header(table, items, claimed) is Some,
    ensures
        ({
            let members = wrapped::wrapped_header(table, items, claimed)->Some_0.members;
            let font = body::body_font(table.item_indices, items);
            &&& wrapped::wrapped_recovered(table, items, claimed).item_indices
                == table.item_indices + members
            &&& members.no_duplicates()
            &&& forall|k: int|
                0 <= k < members.len() ==> {
                    let i = #[trigger] members[k];
                    &&& i < items.len()
                    &&& !table.item_indices.contains(i)
                    &&& !claimed.contains(i)
                    &&& lines::line_candidate(items[i as int], table.rows.first(), font)
                }
        }),
{
    let members = wrapped::wrapped_header(table, items, claimed)->Some_0.members;
    let font = body::body_font(table.item_indices, items);
    let extents = body::extents(table.columns, table.item_indices, items);
    let in_table = table.item_indices.to_set();
    let first_row_y = table.rows.first();
    let max_gap = lines::line_gap(table.rows, font);
    let limit = lines::MAX_HEADER_LINES as nat;
    let which = lines::line_candidates(items, in_table, claimed, first_row_y, font);
    let sorted = order::arranged(which, lines::upward_keys(items, which));
    let found = wrapped::table_lines(table, items, claimed);
    let n = lemma_wrapped_header_lines(table, items, claimed);
    lemma_entries_prefix(found, n);
    lemma_lines_take_up_items(items, extents, sorted, first_row_y, font, max_gap, limit);
    assert(members == sorted.take(members.len() as int)) by {
        let all = wrapped::entries(found);
        assert(wrapped::entry_items(all.take(members.len() as int)) == wrapped::entry_items(
            all,
        ).take(members.len() as int));
    }
    lemma_line_candidates(items, in_table, claimed, first_row_y, font);
    assert forall|k: int| 0 <= k < members.len() implies {
        let i = #[trigger] members[k];
        &&& i < items.len()
        &&& !table.item_indices.contains(i)
        &&& !claimed.contains(i)
        &&& lines::line_candidate(items[i as int], first_row_y, font)
    } by {
        assert(members[k] == sorted[k]);
        assert(in_table.contains(members[k]) <==> table.item_indices.contains(members[k]));
    }
}

/// A header text has characters where its column has header items.
proof fn lemma_header_text_filled(
    items: Seq<TextItem>,
    all: Seq<(usize, usize)>,
    column: usize,
)
    requires
        forall|k: int|
            0 <= k < all.len() ==> text::trimmed(
                items[(#[trigger] all[k]).0 as int].text@,
            ).len() > 0,
    ensures
        wrapped::header_text(items, all, column).len() > 0 <==> wrapped::column_parts(
            all,
            column,
        ).len() > 0,
{
    let parts = wrapped::column_parts(all, column);
    let keys = wrapped::reading_keys(items, parts);
    let sorted = order::arranged(parts, keys);
    let texts = wrapped::item_texts(items, sorted);
    order::lemma_arranged(parts, keys);
    if parts.len() > 0 {
        let last = sorted.last();
        assert(parts.contains(sorted[sorted.len() - 1]));
        let p = choose|p: int| 0 <= p < parts.len() && parts[p] == last;
        let j = order::lemma_filter_source(all, wrapped::over_column(column), p);
        assert(all[j].0 == last);
        assert(texts.last() == text::trimmed(items[last as int].text@));
    }
}

/// The items of some lines and of more lines.
pub proof fn lemma_entries_add(a: Seq<LineModel>, b: Seq<LineModel>)
    ensures
        wrapped::entries(a + b) == wrapped::entries(a) + wrapped::entries(b),
    decreases b.len(),
{
    if b.len() == 0 {
        assert(a + b == a);
        assert(wrapped::entries(a) + wrapped::entries(b) == wrapped::entries(a));
    } else {
        lemma_entries_add(a, b.drop_last());
        assert((a + b).drop_last() == a + b.drop_last());
        assert((a + b).last() == b.last());
    }
}

/// Nothing changes unless the values of the table are figures and the header
/// row has text over at least two data columns, and over at least half of them.
pub proof fn lemma_wrapped_header_reach(
    table: TableModel,
    items: Seq<TextItem>,
    claimed: Set<usize>,
)
    requires
        items.len() <= usize::MAX,
        table.columns.len() <= usize::MAX,
        wrapped::wrapped_recovered(table, items, claimed) != table,
    ensures
        ({
            let header = wrapped::wrapped_header(table, items, claimed)->Some_0;
            let over = header.cells.drop_first().filter(|cell: Seq<char>| cell.len() > 0).len();
            let extents = body::extents(table.columns, table.item_indices, items);
            &&& wrapped::wrapped_header(table, items, claimed) is Some
            &&& body::mostly_figures(table.cells)
            &&& over >= 2
            &&& 2 * over >= body::data_columns(extents)
        }),
{
    let header = wrapped::wrapped_header(table, items, claimed)->Some_0;
    let found = wrapped::table_lines(table, items, claimed);
    let n = lemma_wrapped_header_lines(table, items, claimed);
    let s = header.sections.len() as int;
    let all = wrapped::entries(found.subrange(s, n));
    let before = wrapped::entries(found.take(s));
    lemma_wrapped_members(table, items, claimed);
    lemma_entries_add(found.take(s), found.subrange(s, n));
    assert(found.take(s) + found.subrange(s, n) == found.take(n));
    assert forall|k: int| 0 <= k < all.len() implies text::trimmed(
        items[(#[trigger] all[k]).0 as int].text@,
    ).len() > 0 by {
        assert(header.members[before.len() + k] == all[k].0);
    }
    let count = table.columns.len();
    let rest = order::index_range(count).drop_first();
    let cells = header.cells.drop_first();
    let headed = |c: usize| wrapped::column_parts(all, c).len() > 0;
    let filled = |cell: Seq<char>| cell.len() > 0;
    assert forall|k: int| 0 <= k < rest.len() implies headed(#[trigger] rest[k]) == filled(
        cells[k],
    ) by {
        lemma_header_text_filled(items, all, rest[k]);
        assert(cells[k] == header.cells[k + 1]);
    }
    order::lemma_filters_agree(rest, cells, headed, filled);
    let sections = wrapped::label_run(found, 0);
    let kept = wrapped::without_top_labels(found, sections);
    lemma_label_run(found, 0);
    lemma_without_top_labels(found, sections);
    assert(kept.skip(s) == found.subrange(s, n));
}

/// A header recovered in a larger font leaves a well-formed table well formed.
pub proof fn lemma_header_row_keeps_well_formed(
    table: TableModel,
    items: Seq<TextItem>,
    small_font: Single,
)
    requires
        items.len() <= usize::MAX,
        table.columns.len() <= usize::MAX,
        types::well_formed(table, items.len()),
    ensures
        types::well_formed(header::header_recovered(table, items, small_font), items.len()),
{
    let after = header::header_recovered(table, items, small_font);
    if after != table {
        header::lemma_header_recovered_shape(table, items, small_font);
        header::lemma_header_members(table, items, small_font);
        let n = table.item_indices.len() as int;
        let added = after.item_indices.skip(n);
        assert forall|r: int| 0 <= r < after.cells.len() implies (#[trigger] after.cells[r]).len()
            == after.columns.len() by {
            if r > 0 {
                assert(after.cells[r] == after.cells.skip(1)[r - 1]);
            }
        }
        assert forall|k: int| 0 <= k < after.item_indices.len() implies (
        #[trigger] after.item_indices[k]) < items.len() by {
            if k < n {
                assert(after.item_indices[k] == after.item_indices.take(n)[k]);
            } else {
                assert(after.item_indices[k] == added[k - n]);
            }
        }
    }
}

/// A well-formed table with its header has cells for its columns in every row.
proof fn lemma_with_header_well_formed(
    table: TableModel,
    items: Seq<TextItem>,
    claimed: Set<usize>,
)
    requires
        items.len() <= usize::MAX,
        types::well_formed(table, items.len()),
        wrapped::wrapped_header(table, items, claimed) is Some,
    ensures
        types::well_formed(
            wrapped::with_header(table, wrapped::wrapped_header(table, items, claimed)->Some_0),
            items.len(),
        ),
{
    let header = wrapped::wrapped_header(table, items, claimed)->Some_0;
    let full = wrapped::with_header(table, header);
    let s = header.sections.len() as int;
    lemma_wrapped_members(table, items, claimed);
    assert forall|r: int| 0 <= r < full.cells.len() implies (#[trigger] full.cells[r]).len()
        == full.columns.len() by {
        if r > s {
            assert(full.cells[r] == table.cells[r - s - 1]);
        }
    }
    assert forall|k: int| 0 <= k < full.item_indices.len() implies (
    #[trigger] full.item_indices[k]) < items.len() by {
        let n = table.item_indices.len() as int;
        if k < n {
            assert(full.item_indices[k] == table.item_indices[k]);
        } else {
            assert(full.item_indices[k] == header.members[k - n]);
        }
    }
}

/// A header can be recovered for every well-formed table.
pub proof fn lemma_well_formed_fits(
    table: TableModel,
    items: Seq<TextItem>,
    claimed: Set<usize>,
)
    requires
        items.len() <= usize::MAX,
        types::well_formed(table, items.len()),
    ensures
        wrapped::fits(table, items, claimed),
{
    if wrapped::wrapped_header(table, items, claimed) is Some {
        lemma_with_header_well_formed(table, items, claimed);
    }
}

/// The elements kept are those at the places kept.
pub proof fn lemma_retained_places<T>(xs: Seq<T>, keep: spec_fn(int) -> bool)
    ensures
        ({
            let places = wrapped::retained(order::indexes(xs.len()), keep);
            let kept = wrapped::retained(xs, keep);
            &&& kept.len() == places.len()
            &&& forall|k: int|
                0 <= k < places.len() ==> 0 <= #[trigger] places[k] < xs.len() && keep(places[k])
                    && kept[k] == xs[places[k]]
        }),
    decreases xs.len(),
{
    if xs.len() > 0 {
        lemma_retained_places(xs.drop_last(), keep);
        assert(order::indexes(xs.len()).drop_last() == order::indexes((xs.len() - 1) as nat));
    }
}

/// A well-formed table without its empty columns is well formed, and has text
/// in every column.
proof fn lemma_without_empty_columns(table: TableModel, item_count: nat)
    requires
        types::well_formed(table, item_count),
    ensures
        ({
            let after = wrapped::without_empty_columns(table);
            &&& types::well_formed(after, item_count)
            &&& forall|c: int|
                0 <= c < after.columns.len() ==> #[trigger] wrapped::column_filled(after.cells, c)
        }),
{
    let after = wrapped::without_empty_columns(table);
    let keep = wrapped::filled_columns(table.cells);
    let places = wrapped::retained(order::indexes(table.columns.len()), keep);
    if !(forall|c: int|
        0 <= c < table.columns.len() ==> #[trigger] wrapped::column_filled(table.cells, c)) {
        lemma_retained_places(table.columns, keep);
        assert forall|r: int| 0 <= r < after.cells.len() implies (#[trigger] after.cells[r]).len()
            == after.columns.len() by {
            lemma_retained_places(table.cells[r], keep);
        }
        assert forall|c: int| 0 <= c < after.columns.len() implies
            #[trigger] wrapped::column_filled(after.cells, c) by {
            let d = places[c];
            assert(wrapped::column_filled(table.cells, d));
            let r = choose|r: int|
                0 <= r < table.cells.len() && wrapped::filled(#[trigger] table.cells[r], d);
            lemma_retained_places(table.cells[r], keep);
            assert(after.cells[r][c] == table.cells[r][d]);
            assert(wrapped::filled(after.cells[r], c));
        }
    }
}

/// Recovering a wrapped header leaves a well-formed table well formed, and
/// where a header is recovered every column that is left has text.
pub proof fn lemma_wrapped_keeps_well_formed(
    table: TableModel,
    items: Seq<TextItem>,
    claimed: Set<usize>,
)
    requires
        items.len() <= usize::MAX,
        types::well_formed(table, items.len()),
    ensures
        ({
            let after = wrapped::wrapped_recovered(table, items, claimed);
            &&& types::well_formed(after, items.len())
            &&& after != table ==> forall|c: int|
                0 <= c < after.columns.len() ==> #[trigger] wrapped::column_filled(after.cells, c)
        }),
{
    if wrapped::wrapped_header(table, items, claimed) is Some {
        lemma_with_header_well_formed(table, items, claimed);
        lemma_without_empty_columns(
            wrapped::with_header(table, wrapped::wrapped_header(table, items, claimed)->Some_0),
            items.len(),
        );
    }
}

/// The cells of a row that have text.
pub open spec fn row_content(row: Seq<Seq<char>>) -> Seq<Seq<char>> {
    row.filter(|cell: Seq<char>| text::trimmed(cell).len() > 0)
}

/// Dropping blank cells keeps the cells with text.
proof fn lemma_retained_content(row: Seq<Seq<char>>, keep: spec_fn(int) -> bool)
    requires
        forall|c: int|
            0 <= c < row.len() && !keep(c) ==> text::trimmed(#[trigger] row[c]).len() == 0,
    ensures
        row_content(wrapped::retained(row, keep)) == row_content(row),
    decreases row.len(),
{
    let full = |cell: Seq<char>| text::trimmed(cell).len() > 0;
    if row.len() > 0 {
        let rest = row.drop_last();
        assert forall|c: int| 0 <= c < rest.len() && !keep(c) implies text::trimmed(
            #[trigger] rest[c],
        ).len() == 0 by {
            assert(rest[c] == row[c]);
        }
        lemma_retained_content(rest, keep);
        rest.lemma_filter_push(row.last(), full);
        wrapped::retained(rest, keep).lemma_filter_push(row.last(), full);
        assert(rest.push(row.last()) == row);
        assert(row[row.len() - 1] == row.last());
    }
}

/// Dropping the empty columns of a table keeps the texts of its rows.
proof fn lemma_empty_columns_content(table: TableModel)
    ensures
        ({
            let after = wrapped::without_empty_columns(table);
            &&& after.rows == table.rows
            &&& after.cells.len() == table.cells.len()
            &&& forall|r: int|
                0 <= r < table.cells.len() ==> row_content(#[trigger] after.cells[r])
                    == row_content(table.cells[r])
        }),
{
    let after = wrapped::without_empty_columns(table);
    let keep = wrapped::filled_columns(table.cells);
    assert forall|r: int| 0 <= r < table.cells.len() implies row_content(#[trigger] after.cells[r])
        == row_content(table.cells[r]) by {
        let row = table.cells[r];
        if after.cells[r] != row {
            assert forall|c: int| 0 <= c < row.len() && !keep(c) implies text::trimmed(
                #[trigger] row[c],
            ).len() == 0 by {
                assert(!wrapped::filled(table.cells[r], c));
            }
            lemma_retained_content(row, keep);
        }
    }
}

/// A label row has no text but its label.
proof fn lemma_label_row_content(label: Seq<char>, count: nat)
    requires
        count > 0,
    ensures
        row_content(wrapped::label_row(label, count)) == row_content(seq![label]),
    decreases count,
{
    let row = wrapped::label_row(label, count);
    if count == 1 {
        assert(row == seq![label]);
    } else {
        let less = (count - 1) as nat;
        let rest = wrapped::label_row(label, less);
        lemma_label_row_content(label, less);
        rest.lemma_filter_push(Seq::empty(), |cell: Seq<char>| text::trimmed(cell).len() > 0);
        assert(rest.push(Seq::empty()) == row);
    }
}

/// Where the rows of a table with its header are.
pub proof fn lemma_with_header_rows(table: TableModel, header: HeaderModel)
    ensures
        ({
            let full = wrapped::with_header(table, header);
            let s = header.sections.len() as int;
            &&& full.rows.len() == 1 + s + table.rows.len()
            &&& full.rows[0] == header.y
            &&& full.rows.skip(1 + s) == table.rows
            &&& full.cells.len() == 1 + s + table.cells.len()
            &&& full.cells[0] == header.cells
            &&& forall|g: int|
                0 <= g < s ==> full.rows[s - g] == (#[trigger] header.sections[g]).0
                    && full.cells[s - g] == wrapped::label_row(
                    header.sections[g].1,
                    table.columns.len(),
                )
            &&& forall|r: int|
                0 <= r < table.cells.len() ==> full.cells[1 + s + r] == #[trigger] table.cells[r]
        }),
{
    let full = wrapped::with_header(table, header);
    let s = header.sections.len() as int;
    assert(full.rows.skip(1 + s) == table.rows);
}

/// A recovered header comes before the table's rows, whose texts stay as they
/// were: only blank cells are dropped. The sections come after the header row,
/// from the top down.
pub proof fn lemma_wrapped_keeps_texts(
    table: TableModel,
    items: Seq<TextItem>,
    claimed: Set<usize>,
)
    requires
        wrapped::wrapped_header(table, items, claimed) is Some,
    ensures
        ({
            let after = wrapped::wrapped_recovered(table, items, claimed);
            let header = wrapped::wrapped_header(table, items, claimed)->Some_0;
            let s = header.sections.len() as int;
            &&& after.rows.len() == 1 + s + table.rows.len()
            &&& after.rows[0] == header.y
            &&& after.rows.skip(1 + s) == table.rows
            &&& after.cells.len() == 1 + s + table.cells.len()
            &&& row_content(after.cells[0]) == row_content(header.cells)
            &&& forall|g: int|
                0 <= g < s ==> after.rows[s - g] == (#[trigger] header.sections[g]).0
                    && row_content(after.cells[s - g]) == row_content(seq![header.sections[g].1])
            &&& forall|r: int|
                0 <= r < table.cells.len() ==> row_content(after.cells[1 + s + r]) == row_content(
                    #[trigger] table.cells[r],
                )
        }),
{
    let after = wrapped::wrapped_recovered(table, items, claimed);
    let header = wrapped::wrapped_header(table, items, claimed)->Some_0;
    let s = header.sections.len() as int;
    assert(table.columns.len() > 0);
    lemma_with_header_rows(table, header);
    lemma_empty_columns_content(wrapped::with_header(table, header));
    assert forall|g: int| 0 <= g < s implies after.rows[s - g] == (#[trigger] header.sections[g]).0
        && row_content(after.cells[s - g]) == row_content(seq![header.sections[g].1]) by {
        lemma_label_row_content(header.sections[g].1, table.columns.len());
    }
}

/// A header row recovered in a larger font is above the rows of the table.
pub proof fn lemma_header_row_keeps_descending(
    table: TableModel,
    items: Seq<TextItem>,
    small_font: Single,
)
    requires
        items.len() <= usize::MAX,
        rows::descending(table.rows),
    ensures
        rows::descending(header::header_recovered(table, items, small_font).rows),
{
    let rows = header::header_recovered(table, items, small_font).rows;
    if header::header_recovered(table, items, small_font) != table {
        header::lemma_header_band_members(table, items, small_font);
        assert forall|i: int, j: int| 0 <= i < j < rows.len() implies (#[trigger] rows[j]).below(
            #[trigger] rows[i],
        ) by {
            assert(rows[j] == table.rows[j - 1]);
            if i > 0 {
                assert(rows[i] == table.rows[i - 1]);
            } else {
                assert(table.rows[0].below(rows[0]));
            }
        }
    }
}

/// A number whose difference is above one that is not negative is the larger.
proof fn lemma_higher(margin: Single, a: Single, b: Single)
    requires
        !margin.negative(),
        margin.below(a.minus(b)),
    ensures
        b.below(a),
{
    single::lemma_difference_positive(a, b);
}

/// The second line is above the first.
pub proof fn lemma_second_line_is_higher(
    items: Seq<TextItem>,
    extents: Seq<Extent>,
    which: Seq<usize>,
    previous_y: Single,
    font: Single,
    max_gap: Single,
    limit: nat,
)
    requires
        !font.times(single::fraction(3, 10)).negative(),
        lines::lines_above(items, extents, which, previous_y, font, max_gap, limit).len() > 1,
    ensures
        ({
            let found = lines::lines_above(
                items,
                extents,
                which,
                previous_y,
                font,
                max_gap,
                limit,
            );
            found[0].0.below(found[1].0)
        }),
{
    let found = lines::lines_above(items, extents, which, previous_y, font, max_gap, limit);
    let margin = font.times(single::fraction(3, 10));
    let (line, end) = lemma_first_line(items, extents, which, previous_y, font, max_gap, limit);
    let later = which.skip(end);
    let less = (limit - 1) as nat;
    let (second, _) = lemma_first_line(items, extents, later, line.0, font, max_gap, less);
    assert(found[1] == second);
    lemma_line_stops(items, which, line.0, margin, 0);
    assert(later[0] == which[end]);
    lemma_higher(margin, second.0, line.0);
}

/// Each line is above the one before it.
proof fn lemma_lines_rise(
    items: Seq<TextItem>,
    extents: Seq<Extent>,
    which: Seq<usize>,
    previous_y: Single,
    font: Single,
    max_gap: Single,
    limit: nat,
)
    requires
        !font.times(single::fraction(3, 10)).negative(),
    ensures
        ({
            let found = lines::lines_above(
                items,
                extents,
                which,
                previous_y,
                font,
                max_gap,
                limit,
            );
            forall|g: int, h: int|
                0 <= g < h < found.len() ==> (#[trigger] found[g]).0.below((#[trigger] found[h]).0)
        }),
    decreases limit,
{
    let found = lines::lines_above(items, extents, which, previous_y, font, max_gap, limit);
    if found.len() > 0 {
        let (line, end) = lemma_first_line(
            items,
            extents,
            which,
            previous_y,
            font,
            max_gap,
            limit,
        );
        let later = which.skip(end);
        let less = (limit - 1) as nat;
        let rest = lines::lines_above(items, extents, later, line.0, font, max_gap, less);
        lemma_lines_rise(items, extents, later, line.0, font, max_gap, less);
        if found.len() > 1 {
            lemma_second_line_is_higher(
                items,
                extents,
                which,
                previous_y,
                font,
                max_gap,
                limit,
            );
            assert(found[1] == rest[0]);
        }
        assert forall|g: int, h: int| 0 <= g < h < found.len() implies (
        #[trigger] found[g]).0.below((#[trigger] found[h]).0) by {
            assert(found[h] == rest[h - 1]);
            if g > 0 {
                assert(found[g] == rest[g - 1]);
            } else if h > 1 {
                assert(rest[0].0.below(rest[h - 1].0));
            }
        }
    }
}

/// A line stops at an item above its margin.
pub proof fn lemma_line_stops(
    items: Seq<TextItem>,
    which: Seq<usize>,
    y: Single,
    margin: Single,
    k: nat,
)
    requires
        k <= which.len(),
    ensures
        ({
            let end = lines::line_end(items, which, y, margin, k);
            end < which.len() ==> margin.below(items[which[end as int] as int].line_y.minus(y))
        }),
    decreases which.len() - k,
{
    if k < which.len() && !margin.below(items[which[k as int] as int].line_y.minus(y)) {
        lemma_line_stops(items, which, y, margin, k + 1);
    }
}

/// The lines that make a header rise from the first row of the table.
proof fn lemma_table_lines_rise(table: TableModel, items: Seq<TextItem>, claimed: Set<usize>)
    requires
        items.len() <= usize::MAX,
        wrapped::eligible(table, items),
    ensures
        ({
            let found = wrapped::table_lines(table, items, claimed);
            &&& found.len() > 0 ==> table.rows.first().below(found[0].0)
            &&& forall|g: int, h: int|
                0 <= g < h < found.len() ==> (#[trigger] found[g]).0.below((#[trigger] found[h]).0)
        }),
{
    let font = body::body_font(table.item_indices, items);
    let margin = font.times(single::fraction(3, 10));
    let extents = body::extents(table.columns, table.item_indices, items);
    let in_table = table.item_indices.to_set();
    let first_row_y = table.rows.first();
    let max_gap = lines::line_gap(table.rows, font);
    let limit = lines::MAX_HEADER_LINES as nat;
    let which = lines::line_candidates(items, in_table, claimed, first_row_y, font);
    let sorted = order::arranged(which, lines::upward_keys(items, which));
    let found = wrapped::table_lines(table, items, claimed);
    assert(!margin.negative()) by {
        lemma_margin_sign(font);
    }
    lemma_lines_rise(items, extents, sorted, first_row_y, font, max_gap, limit);
    if found.len() > 0 {
        let (line, end) = lemma_first_line(
            items,
            extents,
            sorted,
            first_row_y,
            font,
            max_gap,
            limit,
        );
        assert(found[0] == line);
        lemma_line_candidates(items, in_table, claimed, first_row_y, font);
        assert(first_row_y.plus(margin).below(items[sorted[0] as int].line_y));
        single::lemma_above_sum(first_row_y, margin, line.0);
    }
}

/// The margin of a line is not negative for a font size above zero.
proof fn lemma_margin_sign(font: Single)
    requires
        !font.at_most(single::signed(false, 0)),
    ensures
        !font.times(single::fraction(3, 10)).negative(),
{
    single::lemma_fraction_order(3, 3, 10);
    if !font.nan() {
        single::lemma_product_sign(font, single::fraction(3, 10));
    }
}

/// Positions from the top down, with some of a rising run put before them.
proof fn lemma_descending_join(rising: Seq<Single>, n: int, s: int, rows: Seq<Single>)
    requires
        0 <= s < n <= rising.len(),
        rows.len() > 0,
        rows::descending(rows),
        rows[0].below(rising[0]),
        forall|g: int, h: int|
            0 <= g < h < rising.len() ==> (#[trigger] rising[g]).below(#[trigger] rising[h]),
    ensures
        rows::descending(seq![rising[n - 1]] + rising.take(s).reverse() + rows),
{
    let all = seq![rising[n - 1]] + rising.take(s).reverse() + rows;
    assert forall|i: int, j: int| 0 <= i < j < all.len() implies (#[trigger] all[j]).below(
        #[trigger] all[i],
    ) by {
        let g = if i == 0 {
            n - 1
        } else {
            s - i
        };
        if i > s {
            assert(all[i] == rows[i - s - 1]);
            assert(all[j] == rows[j - s - 1]);
        } else {
            assert(all[i] == rising[g]);
            if j <= s {
                assert(all[j] == rising[s - j]);
            } else {
                assert(all[j] == rows[j - s - 1]);
                assert(all[j].at_most(rows[0]));
                assert(rising[0].at_most(rising[g]));
            }
        }
    }
}

/// A recovered header row and its sections are above the rows of the table, in
/// order from the top down.
pub proof fn lemma_wrapped_keeps_descending(
    table: TableModel,
    items: Seq<TextItem>,
    claimed: Set<usize>,
)
    requires
        items.len() <= usize::MAX,
        rows::descending(table.rows),
    ensures
        rows::descending(wrapped::wrapped_recovered(table, items, claimed).rows),
{
    if wrapped::wrapped_header(table, items, claimed) is Some {
        let header = wrapped::wrapped_header(table, items, claimed)->Some_0;
        let found = wrapped::table_lines(table, items, claimed);
        let rising = found.map_values(|line: LineModel| line.0);
        let s = header.sections.len() as int;
        let n = lemma_wrapped_header_lines(table, items, claimed);
        lemma_table_lines_rise(table, items, claimed);
        lemma_descending_join(rising, n, s, table.rows);
        assert(header.sections.reverse().map_values(|e: (Single, Seq<char>)| e.0)
            == rising.take(s).reverse()) by {
            assert forall|g: int| 0 <= g < s implies (#[trigger] header.sections[g]).0
                == rising[g] by {
                assert(header.sections[g].0 == found[g].0);
            }
        }
    }
}

/// The items over a column are joined in reading order: by their lines from the
/// top down, and from left to right where their lines are the same.
pub proof fn lemma_reading_order(items: Seq<TextItem>, which: Seq<usize>, i: int, j: int)
    requires
        0 <= i < j < which.len(),
    ensures
        ({
            let sorted = order::arranged(which, wrapped::reading_keys(items, which));
            let a = items[sorted[i] as int];
            let b = items[sorted[j] as int];
            ||| b.line_y.total_place() < a.line_y.total_place()
            ||| b.line_y == a.line_y && a.x.total_place() <= b.x.total_place()
        }),
{
    let keys = wrapped::reading_keys(items, which);
    order::lemma_stable_order_sorts(keys, i, j);
    order::lemma_stable_order_is_permutation(keys);
    let a = order::stable_order(keys)[i];
    let b = order::stable_order(keys)[j];
    assert(keys[a].0 == -items[which[a] as int].line_y.total_place());
    assert(keys[b].0 == -items[which[b] as int].line_y.total_place());
    assert(keys[a].1 == items[which[a] as int].x.total_place());
    assert(keys[b].1 == items[which[b] as int].x.total_place());
}

/// The items of a section row are joined from left to right.
pub proof fn lemma_section_order(items: Seq<TextItem>, which: Seq<usize>, i: int, j: int)
    requires
        0 <= i < j < which.len(),
    ensures
        ({
            let sorted = order::arranged(which, wrapped::rightward_keys(items, which));
            items[sorted[i] as int].x.total_place() <= items[sorted[j] as int].x.total_place()
        }),
{
    let keys = wrapped::rightward_keys(items, which);
    order::lemma_stable_order_sorts(keys, i, j);
    order::lemma_stable_order_is_permutation(keys);
    let a = order::stable_order(keys)[i];
    let b = order::stable_order(keys)[j];
    assert(keys[a].0 == items[which[a] as int].x.total_place());
    assert(keys[b].0 == items[which[b] as int].x.total_place());
}

/// A table of fewer than 10485760 values stays as it is where fewer than four
/// fifths of them are figures.
pub proof fn lemma_prose_is_left_alone(
    table: TableModel,
    items: Seq<TextItem>,
    claimed: Set<usize>,
)
    requires
        ({
            let values = body::cell_values(table.cells);
            let figures = values.filter(|value: Seq<char>| body::figure(value));
            values.len() < 10485760 && 5 * figures.len() < 4 * values.len()
        }),
    ensures
        wrapped::wrapped_recovered(table, items, claimed) == table,
{
    body::lemma_mostly_figures(table.cells);
}

/// The lines above a table are at most eight, and no further apart than its rows
/// are by their median distance; the first one is no further than that above
/// the first row. Where the median distance is no number above zero, the limit
/// is 1.5 times the font size of the table's body.
pub proof fn lemma_table_lines_are_close(
    table: TableModel,
    items: Seq<TextItem>,
    claimed: Set<usize>,
)
    ensures
        ({
            let found = wrapped::table_lines(table, items, claimed);
            let ys = seq![table.rows.first()] + found.map_values(|line: LineModel| line.0);
            let median = lines::median_pitch(table.rows);
            let limit = if single::signed(false, 0).below(median) {
                median
            } else {
                body::body_font(table.item_indices, items).times(single::fraction(3, 2))
            };
            &&& found.len() <= 8
            &&& forall|g: int|
                0 < g < ys.len() ==> !limit.below((#[trigger] ys[g]).minus(ys[g - 1]))
        }),
{
    let font = body::body_font(table.item_indices, items);
    let first_row_y = table.rows.first();
    let which = lines::line_candidates(
        items,
        table.item_indices.to_set(),
        claimed,
        first_row_y,
        font,
    );
    lemma_lines_are_close(
        items,
        body::extents(table.columns, table.item_indices, items),
        order::arranged(which, lines::upward_keys(items, which)),
        first_row_y,
        font,
        lines::line_gap(table.rows, font),
        lines::MAX_HEADER_LINES as nat,
    );
}

/// A table stays as it is where no free item is above its first row and within
/// the distance that lines may be apart.
pub proof fn lemma_nothing_in_reach(
    table: TableModel,
    items: Seq<TextItem>,
    claimed: Set<usize>,
)
    requires
        items.len() <= usize::MAX,
        forall|i: usize|
            #![trigger items[i as int]]
            i < items.len() && !table.item_indices.contains(i) && !claimed.contains(i) ==> {
                let y = items[i as int].line_y;
                let font = body::body_font(table.item_indices, items);
                ||| y.at_most(table.rows.first())
                ||| lines::line_gap(table.rows, font).below(y.minus(table.rows.first()))
            },
    ensures
        wrapped::wrapped_recovered(table, items, claimed) == table,
{
    if wrapped::wrapped_header(table, items, claimed) is Some {
        let font = body::body_font(table.item_indices, items);
        let extents = body::extents(table.columns, table.item_indices, items);
        let in_table = table.item_indices.to_set();
        let first_row_y = table.rows.first();
        let max_gap = lines::line_gap(table.rows, font);
        let limit = lines::MAX_HEADER_LINES as nat;
        let which = lines::line_candidates(items, in_table, claimed, first_row_y, font);
        let sorted = order::arranged(which, lines::upward_keys(items, which));
        let found = wrapped::table_lines(table, items, claimed);
        let n = lemma_wrapped_header_lines(table, items, claimed);
        lemma_table_lines_rise(table, items, claimed);
        let (line, end) = lemma_first_line(
            items,
            extents,
            sorted,
            first_row_y,
            font,
            max_gap,
            limit,
        );
        assert(found[0] == line);
        lemma_line_candidates(items, in_table, claimed, first_row_y, font);
        let i = sorted[0];
        assert(in_table.contains(i) <==> table.item_indices.contains(i));
        assert(items[i as int].line_y == line.0);
    }
}

} // verus!
