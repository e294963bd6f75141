//! Which items above a table make its lines, and where the lines end.

use crate::body;
use crate::body::Extent;
use crate::guarantees;
use crate::lines;
use crate::order;
use crate::precision;
use crate::single;
use crate::single::Single;
use crate::text;
use crate::types::{TableModel, TextItem};
use crate::wrapped;
use vstd::prelude::*;

verus! {

/// An item may belong to a wrapped header exactly where it is upright text, more
/// than 0.3 font sizes above the first row, and from 0.75 to 1.35 times the font
/// size large; but for the rounding.
pub proof fn lemma_line_candidate(item: TextItem, first_row_y: Single, font: Single, s: nat)
    requires
        s <= 20,
        item.line_y.finite(),
        item.font_size.finite(),
        first_row_y.finite(),
        font.finite(),
        !font.negative(),
        font.value() <= 0x40_0000 * precision::grain(s),
        -(0x40_0000 * precision::grain(s)) <= first_row_y.value() <= 0x40_0000
            * precision::grain(s),
    ensures
        ({
            let small = precision::grain(s);
            let above = item.line_y.value() - first_row_y.value();
            let size = item.font_size.value();
            let f = font.value();
            let shown = text::trimmed(item.text@).len() > 0 && item.upright;
            &&& lines::line_candidate(item, first_row_y, font) ==> {
                &&& shown
                &&& 10 * above > 3 * f - 30 * small
                &&& 4 * size >= 3 * f - 8 * small
                &&& 20 * size <= 27 * f + 40 * small
            }
            &&& {
                &&& shown
                &&& 10 * above > 3 * f + 30 * small
                &&& 4 * size >= 3 * f + 8 * small
                &&& 20 * size <= 27 * f - 40 * small
            } ==> lines::line_candidate(item, first_row_y, font)
        }),
{
    let margin = font.times(single::fraction(3, 10));
    let limit = first_row_y.plus(margin);
    precision::lemma_grain(s);
    precision::lemma_scaled_error(font, 3, 10, s);
    precision::lemma_scaled_error(font, 3, 4, s);
    precision::lemma_scaled_error(font, 27, 20, s);
    precision::lemma_sum_error(first_row_y, margin, (149 - s) as nat);
    single::lemma_place_orders_values(limit, item.line_y);
    single::lemma_place_orders_values(font.times(single::fraction(3, 4)), item.font_size);
    single::lemma_place_orders_values(item.font_size, font.times(single::fraction(27, 20)));
}

/// The items that lines are made of are all that may belong to a wrapped header
/// and are neither in the table nor claimed, each once, from the bottom up.
pub proof fn lemma_free_items(
    items: Seq<TextItem>,
    in_table: Set<usize>,
    claimed: Set<usize>,
    first_row_y: Single,
    font: Single,
)
    requires
        items.len() <= usize::MAX,
    ensures
        ({
            let which = lines::line_candidates(items, in_table, claimed, first_row_y, font);
            let sorted = order::arranged(which, lines::upward_keys(items, which));
            &&& sorted.no_duplicates()
            &&& forall|i: usize| #[trigger]
                sorted.contains(i) <==> i < items.len() && !in_table.contains(i)
                    && !claimed.contains(i) && lines::line_candidate(
                    items[i as int],
                    first_row_y,
                    font,
                )
            &&& forall|j: int, k: int|
                0 <= j < k < sorted.len() ==> items[
                #[trigger] sorted[j] as int].line_y.total_place() <= items[
                #[trigger] sorted[k] as int].line_y.total_place()
        }),
{
    let free = |i: usize|
        !in_table.contains(i) && !claimed.contains(i) && lines::line_candidate(
            items[i as int],
            first_row_y,
            font,
        );
    let which = lines::line_candidates(items, in_table, claimed, first_row_y, font);
    let keys = lines::upward_keys(items, which);
    let sorted = order::arranged(which, keys);
    order::lemma_filtered_indexes(items.len(), free);
    order::lemma_arranged(which, keys);
    order::lemma_stable_order_is_permutation(keys);
    assert forall|i: usize| #[trigger] sorted.contains(i) implies i < items.len() && free(i) by {
        let k = choose|k: int| 0 <= k < sorted.len() && sorted[k] == i;
        assert(which.contains(sorted[k]));
    }
    assert forall|i: usize| i < items.len() && free(i) implies #[trigger] sorted.contains(i) by {
        assert(which.contains(i));
    }
    assert forall|j: int, k: int| 0 <= j < k < sorted.len() implies items[
    #[trigger] sorted[j] as int].line_y.total_place() <= items[
    #[trigger] sorted[k] as int].line_y.total_place() by {
        order::lemma_stable_order_sorts(keys, j, k);
        let a = order::stable_order(keys)[j];
        let b = order::stable_order(keys)[k];
        assert(keys[a].0 == items[which[a] as int].line_y.total_place());
        assert(keys[b].0 == items[which[b] as int].line_y.total_place());
    }
}

/// The distances that the gap between lines is taken from have a median: it is
/// one of the distances between neighbouring rows, more than half of them are no
/// larger, and at least half are no smaller.
pub proof fn lemma_median_pitch(rows: Seq<Single>)
    requires
        2 <= rows.len() <= usize::MAX,
    ensures
        ({
            let m = lines::median_pitch(rows);
            let n = (rows.len() - 1) as nat;
            &&& exists|i: int| 0 <= i < n && (#[trigger] rows[i]).minus(rows[i + 1]) == m
            &&& 2 * order::index_range(n).filter(
                |i: usize| rows[i as int].minus(rows[i + 1]).total_place() <= m.total_place(),
            ).len() > n
            &&& 2 * order::index_range(n).filter(
                |i: usize| m.total_place() <= rows[i as int].minus(rows[i + 1]).total_place(),
            ).len() >= n
        }),
{
    let n = (rows.len() - 1) as nat;
    let pitches = Seq::new(n, |i: int| rows[i].minus(rows[i + 1]));
    let m = lines::median_pitch(rows);
    order::lemma_median(pitches);
    let i = choose|i: int| 0 <= i < pitches.len() && pitches[i] == m;
    assert(rows[i].minus(rows[i + 1]) == m);
    order::lemma_filters_agree(
        order::index_range(n),
        pitches,
        |i: usize| rows[i as int].minus(rows[i + 1]).total_place() <= m.total_place(),
        |x: Single| x.total_place() <= m.total_place(),
    );
    order::lemma_filters_agree(
        order::index_range(n),
        pitches,
        |i: usize| m.total_place() <= rows[i as int].minus(rows[i + 1]).total_place(),
        |x: Single| m.total_place() <= x.total_place(),
    );
}

/// The fallback gap between lines is 1.5 times the font size, but for the
/// rounding, where the median distance of the rows is no number above zero; else
/// it is that distance.
pub proof fn lemma_line_gap(rows: Seq<Single>, font: Single, s: nat)
    requires
        s <= 20,
        font.finite(),
        !font.negative(),
        font.value() <= 0x40_0000 * precision::grain(s),
    ensures
        ({
            let gap = lines::line_gap(rows, font);
            let m = lines::median_pitch(rows);
            if m.nan() || m.place() <= 0 {
                &&& gap.finite()
                &&& 2 * gap.value() <= 3 * font.value() + 4 * precision::grain(s)
                &&& 2 * gap.value() >= 3 * font.value() - 4 * precision::grain(s)
            } else {
                gap == m
            }
        }),
{
    precision::lemma_scaled_error(font, 3, 2, s);
}

/// Each line starts more than 0.3 font sizes above the one before it; its own
/// items are no more than that above it.
pub proof fn lemma_line_margin(
    items: Seq<TextItem>,
    extents: Seq<Extent>,
    which: Seq<usize>,
    previous_y: Single,
    font: Single,
    max_gap: Single,
    limit: nat,
    g: int,
)
    requires
        0 < g < lines::lines_above(
            items,
            extents,
            which,
            previous_y,
            font,
            max_gap,
            limit,
        ).len(),
    ensures
        ({
            let found = lines::lines_above(
                items,
                extents,
                which,
                previous_y,
                font,
                max_gap,
                limit,
            );
            font.times(single::fraction(3, 10)).below(found[g].0.minus(found[g - 1].0))
        }),
    decreases limit,
{
    let found = lines::lines_above(items, extents, which, previous_y, font, max_gap, limit);
    let (line, end) = guarantees::lemma_first_line(
        items,
        extents,
        which,
        previous_y,
        font,
        max_gap,
        limit,
    );
    let later = which.skip(end);
    let less = (limit - 1) as nat;
    let rest = lines::lines_above(items, extents, later, line.0, font, max_gap, less);
    assert(found[g] == rest[g - 1]);
    if g == 1 {
        let (second, _) = guarantees::lemma_first_line(
            items,
            extents,
            later,
            line.0,
            font,
            max_gap,
            less,
        );
        guarantees::lemma_line_stops(
            items,
            which,
            line.0,
            font.times(single::fraction(3, 10)),
            0,
        );
        assert(later[0] == which[end]);
    } else {
        assert(found[g - 1] == rest[g - 2]);
        lemma_line_margin(items, extents, later, line.0, font, max_gap, less, g - 1);
    }
}

/// Whether a run of lines ends before the `n`th item: no items are left, the
/// next one is too far above the last line, or its line has an item that is not
/// over one column.
pub open spec fn run_ends(
    items: Seq<TextItem>,
    extents: Seq<Extent>,
    which: Seq<usize>,
    last: Single,
    font: Single,
    max_gap: Single,
    n: int,
) -> bool {
    let next = items[which[n] as int].line_y;
    ||| n >= which.len()
    ||| max_gap.below(next.minus(last))
    ||| exists|k: int|
        n <= k < which.len() && !font.times(single::fraction(3, 10)).below(
            items[#[trigger] which[k] as int].line_y.minus(next),
        ) && lines::column_over(extents, items[which[k] as int]) is None
}

proof fn lemma_run_ends_at_once(
    items: Seq<TextItem>,
    extents: Seq<Extent>,
    which: Seq<usize>,
    previous_y: Single,
    font: Single,
    max_gap: Single,
    limit: nat,
)
    requires
        limit > 0,
        lines::lines_above(items, extents, which, previous_y, font, max_gap, limit).len() == 0,
    ensures
        run_ends(items, extents, which, previous_y, font, max_gap, 0),
{
    let y = items[which[0] as int].line_y;
    let margin = font.times(single::fraction(3, 10));
    let end = lines::line_end(items, which, y, margin, 0) as int;
    guarantees::lemma_line_end(items, which, y, margin, 0);
    if which.len() > 0 && !max_gap.below(y.minus(previous_y)) {
        let part = which.take(end);
        assert(lines::assigned(items, extents, part) is None);
        let k = choose|k: int|
            0 <= k < part.len() && lines::column_over(
                extents,
                items[#[trigger] part[k] as int],
            ) is None;
        assert(part[k] == which[k]);
    }
}

proof fn lemma_run_ends_later(
    items: Seq<TextItem>,
    extents: Seq<Extent>,
    which: Seq<usize>,
    last: Single,
    font: Single,
    max_gap: Single,
    end: int,
    m: int,
)
    requires
        0 <= end <= which.len(),
        0 <= m,
        run_ends(items, extents, which.skip(end), last, font, max_gap, m),
    ensures
        run_ends(items, extents, which, last, font, max_gap, end + m),
{
    let later = which.skip(end);
    let margin = font.times(single::fraction(3, 10));
    if m < later.len() {
        let next = items[later[m] as int].line_y;
        assert(later[m] == which[end + m]);
        if !max_gap.below(next.minus(last)) {
            let k = choose|k: int|
                m <= k < later.len() && !margin.below(
                    items[#[trigger] later[k] as int].line_y.minus(next),
                ) && lines::column_over(extents, items[later[k] as int]) is None;
            assert(which[end + k] == later[k]);
        }
    }
}

/// The lines end only where there are as many as may be, where no items are
/// left, where the next line is too far above the last one, or where it has an
/// item that is not over one column.
pub proof fn lemma_lines_end(
    items: Seq<TextItem>,
    extents: Seq<Extent>,
    which: Seq<usize>,
    previous_y: Single,
    font: Single,
    max_gap: Single,
    limit: nat,
)
    ensures
        ({
            let found = lines::lines_above(
                items,
                extents,
                which,
                previous_y,
                font,
                max_gap,
                limit,
            );
            let last = if found.len() > 0 {
                found.last().0
            } else {
                previous_y
            };
            found.len() == limit || run_ends(
                items,
                extents,
                which,
                last,
                font,
                max_gap,
                wrapped::entries(found).len() as int,
            )
        }),
    decreases limit,
{
    let found = lines::lines_above(items, extents, which, previous_y, font, max_gap, limit);
    if found.len() > 0 {
        let (line, end) = guarantees::lemma_first_line(
            items,
            extents,
            which,
            previous_y,
            font,
            max_gap,
            limit,
        );
        let later = which.skip(end);
        let less = (limit - 1) as nat;
        let rest = lines::lines_above(items, extents, later, line.0, font, max_gap, less);
        lemma_lines_end(items, extents, later, line.0, font, max_gap, less);
        guarantees::lemma_entries_first(line, rest);
        assert(wrapped::entry_items(line.1).len() == which.take(end).len());
        if rest.len() > 0 {
            assert(found.last() == rest.last());
        }
        if rest.len() < less {
            lemma_run_ends_later(
                items,
                extents,
                which,
                found.last().0,
                font,
                max_gap,
                end,
                wrapped::entries(rest).len() as int,
            );
        }
    } else if limit > 0 {
        lemma_run_ends_at_once(items, extents, which, previous_y, font, max_gap, limit);
    }
}

/// The lines above a table end only where there are eight, where no free items
/// are left, where the next one is too far above the last line, or where its line
/// has an item that is not over one column.
pub proof fn lemma_table_lines_end(
    table: TableModel,
    items: Seq<TextItem>,
    claimed: Set<usize>,
)
    ensures
        ({
            let font = body::body_font(table.item_indices, items);
            let which = lines::line_candidates(
                items,
                table.item_indices.to_set(),
                claimed,
                table.rows.first(),
                font,
            );
            let found = wrapped::table_lines(table, items, claimed);
            let last = if found.len() > 0 {
                found.last().0
            } else {
                table.rows.first()
            };
            found.len() == 8 || run_ends(
                items,
                body::extents(table.columns, table.item_indices, items),
                order::arranged(which, lines::upward_keys(items, which)),
                last,
                font,
                lines::line_gap(table.rows, font),
                wrapped::entries(found).len() as int,
            )
        }),
{
    let font = body::body_font(table.item_indices, items);
    let which = lines::line_candidates(
        items,
        table.item_indices.to_set(),
        claimed,
        table.rows.first(),
        font,
    );
    lemma_lines_end(
        items,
        body::extents(table.columns, table.item_indices, items),
        order::arranged(which, lines::upward_keys(items, which)),
        table.rows.first(),
        font,
        lines::line_gap(table.rows, font),
        8,
    );
}

} // verus!
