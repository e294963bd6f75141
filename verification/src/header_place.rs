//! Where a header row in a larger font is found, and what it holds.

use crate::header;
use crate::lookup;
use crate::order;
use crate::precision;
use crate::single;
use crate::single::Single;
use crate::text;
use crate::types::{TableModel, TextItem};
use vstd::arithmetic::power2::*;
use vstd::prelude::*;

verus! {

/// Whether an item is nearer than 5 to a height.
pub open spec fn close_to(items: Seq<TextItem>, y: Single) -> spec_fn(usize) -> bool {
    |i: usize| items[i as int].y.minus(y).size().below(single::whole(5))
}

/// The items that are not so near.
pub open spec fn away_from(items: Seq<TextItem>, y: Single) -> spec_fn(usize) -> bool {
    |i: usize| !items[i as int].y.minus(y).size().below(single::whole(5))
}

/// The first band of items is at the first item and holds all items nearer than
/// 5 to it; the other bands are those of the items that are left.
pub proof fn lemma_first_band(items: Seq<TextItem>, which: Seq<usize>)
    requires
        which.len() > 0,
        items[which[0] as int].y.finite(),
    ensures
        ({
            let y = items[which[0] as int].y;
            header::bands(items, which) == seq![(y, which.filter(close_to(items, y)))]
                + header::bands(items, which.filter(away_from(items, y)))
        }),
    decreases which.len(),
{
    let y = items[which[0] as int].y;
    let close = close_to(items, y);
    let away = away_from(items, y);
    let rest = which.drop_last();
    let i = which.last();
    assert(which == rest.push(i));
    rest.lemma_filter_push(i, close);
    rest.lemma_filter_push(i, away);
    if rest.len() == 0 {
        reveal(Seq::filter);
        single::lemma_difference_zero(y);
        single::lemma_whole_range(5);
        assert(close(i));
        assert(rest.filter(close) == Seq::<usize>::empty());
        assert(rest.filter(away) == Seq::<usize>::empty());
        assert(header::bands(items, rest) == Seq::<(Single, Seq<usize>)>::empty());
        assert(Seq::<usize>::empty().push(i) == seq![i]);
    } else {
        assert(rest[0] == which[0]);
        lemma_first_band(items, rest);
        let before = header::bands(items, rest);
        let others = header::bands(items, rest.filter(away));
        let x = items[i as int].y;
        if close(i) {
            assert(header::first_close(before, x, 0) == 0);
            assert(before.update(0, (before[0].0, before[0].1.push(i))) == seq![
                (y, rest.filter(close).push(i)),
            ] + others);
        } else {
            lemma_close_after_first((y, rest.filter(close)), others, x, 0);
            let at = header::first_close(others, x, 0) as int;
            header::lemma_first_close(others, x, 0);
            assert(header::first_close(before, x, 0) == header::first_close(before, x, 1));
            assert(rest.filter(away).push(i).drop_last() == rest.filter(away));
            if at < others.len() {
                assert(before.update(at + 1, (before[at + 1].0, before[at + 1].1.push(i))) == seq![
                    (y, rest.filter(close)),
                ] + others.update(at, (others[at].0, others[at].1.push(i))));
            } else {
                assert(before.push((x, seq![i])) == seq![(y, rest.filter(close))] + others.push(
                    (x, seq![i]),
                ));
            }
        }
    }
}

/// The first close band after the first one.
proof fn lemma_close_after_first(
    first: (Single, Seq<usize>),
    others: Seq<(Single, Seq<usize>)>,
    x: Single,
    g: nat,
)
    requires
        g <= others.len(),
    ensures
        header::first_close(seq![first] + others, x, g + 1) == header::first_close(others, x, g)
            + 1,
    decreases others.len() - g,
{
    let all = seq![first] + others;
    if g < others.len() {
        assert(all[g as int + 1] == others[g as int]);
        lemma_close_after_first(first, others, x, g + 1);
    }
}

/// No band is nearer than 5 to one before it.
proof fn lemma_bands_apart(items: Seq<TextItem>, which: Seq<usize>)
    ensures
        forall|g: int, h: int|
            0 <= g < h < header::bands(items, which).len() ==> !(#[trigger] header::bands(
                items,
                which,
            )[h]).0.minus((#[trigger] header::bands(items, which)[g]).0).size().below(
                single::whole(5),
            ),
    decreases which.len(),
{
    if which.len() > 0 {
        let rest = which.drop_last();
        let before = header::bands(items, rest);
        let after = header::bands(items, which);
        let x = items[which.last() as int].y;
        lemma_bands_apart(items, rest);
        header::lemma_first_close(before, x, 0);
        assert forall|g: int, h: int| 0 <= g < h < after.len() implies !(
        #[trigger] after[h]).0.minus((#[trigger] after[g]).0).size().below(single::whole(5)) by {
            assert(after[g].0 == before[g].0);
            if h < before.len() {
                assert(after[h].0 == before[h].0);
            }
        }
    }
}

/// No item of a band is above it.
proof fn lemma_band_top(items: Seq<TextItem>, which: Seq<usize>, g: int, k: int)
    requires
        forall|i: int, j: int|
            0 <= i < j < which.len() ==> items[#[trigger] which[j] as int].y.place()
                <= items[#[trigger] which[i] as int].y.place(),
        0 <= g < header::bands(items, which).len(),
        0 <= k < header::bands(items, which)[g].1.len(),
    ensures
        items[header::bands(items, which)[g].1[k] as int].y.place() <= header::bands(
            items,
            which,
        )[g].0.place(),
    decreases which.len(),
{
    let rest = which.drop_last();
    let i = which.last();
    let before = header::bands(items, rest);
    assert forall|i: int, j: int| 0 <= i < j < rest.len() implies items[
        #[trigger] rest[j] as int
    ].y.place() <= items[#[trigger] rest[i] as int].y.place() by {
        assert(rest[i] == which[i]);
        assert(rest[j] == which[j]);
    }
    if g < before.len() {
        if k < before[g].1.len() {
            lemma_band_top(items, rest, g, k);
        } else {
            header::lemma_bands_descend(items, rest);
            assert(rest.last() == which[which.len() - 2]);
            assert(which[which.len() - 1] == i);
        }
    }
}

/// A number at or below one that is 5 or more below a third is 5 or more below
/// it too.
proof fn lemma_still_away(x: Single, y: Single, b: Single)
    requires
        x.finite(),
        y.finite(),
        b.finite(),
        x.place() <= y.place() <= b.place(),
        !y.minus(b).size().below(single::whole(5)),
    ensures
        !x.minus(b).size().below(single::whole(5)),
        x != b,
{
    single::lemma_whole_range(5);
    single::lemma_place_orders_values(x, y);
    single::lemma_place_orders_values(y, b);
    single::lemma_difference_order(x, y, b);
    single::lemma_difference_order(y, b, b);
    single::lemma_difference_zero(b);
    if x == b {
        assert(x.value() == y.value());
        single::lemma_difference_order(y, x, b);
    }
}

/// Header candidates sorted from the top of the page down.
pub open spec fn candidates_down(
    items: Seq<TextItem>,
    rows: Seq<Single>,
    small_font: Single,
) -> Seq<usize> {
    let which = header::header_candidates(items, rows, small_font);
    order::arranged(which, header::downward_keys(items, which))
}

proof fn lemma_candidates_down(items: Seq<TextItem>, rows: Seq<Single>, small_font: Single)
    requires
        items.len() <= usize::MAX,
    ensures
        ({
            let sorted = candidates_down(items, rows, small_font);
            &&& sorted.no_duplicates()
            &&& forall|i: int, j: int|
                0 <= i < j < sorted.len() ==> items[#[trigger] sorted[j] as int].y.place()
                    <= items[#[trigger] sorted[i] as int].y.place()
        }),
{
    let which = header::header_candidates(items, rows, small_font);
    let sorted = candidates_down(items, rows, small_font);
    header::lemma_sorted_candidates(items, rows, small_font);
    assert forall|i: int, j: int| 0 <= i < j < sorted.len() implies items[
        #[trigger] sorted[j] as int
    ].y.place() <= items[#[trigger] sorted[i] as int].y.place() by {
        header::lemma_sorted_downward(items, which, i, j);
    }
}

/// The place of the item that a band is at.
proof fn lemma_band_start(items: Seq<TextItem>, sorted: Seq<usize>, g: int) -> (k: int)
    requires
        sorted.no_duplicates(),
        0 <= g < header::bands(items, sorted).len(),
    ensures
        0 <= k < sorted.len(),
        header::bands(items, sorted)[g].0 == items[sorted[k] as int].y,
{
    let all = header::bands(items, sorted);
    header::lemma_bands(items, sorted);
    let first = all[g].1[0];
    assert(sorted.contains(first));
    choose|k: int| 0 <= k < sorted.len() && sorted[k] == first
}

/// The band that an item is in, and the place of the item that it is at.
proof fn lemma_band_of(items: Seq<TextItem>, sorted: Seq<usize>, i: usize) -> (r: (int, int))
    requires
        sorted.no_duplicates(),
        sorted.contains(i),
    ensures
        0 <= r.0 < header::bands(items, sorted).len(),
        header::bands(items, sorted)[r.0].1.contains(i),
        0 <= r.1 < sorted.len(),
        header::bands(items, sorted)[r.0].0 == items[sorted[r.1] as int].y,
        items[i as int].y == header::bands(items, sorted)[r.0].0 || items[i as int].y.minus(
            header::bands(items, sorted)[r.0].0,
        ).size().below(single::whole(5)),
{
    let all = header::bands(items, sorted);
    header::lemma_bands(items, sorted);
    let g = choose|g: int| 0 <= g < all.len() && (#[trigger] all[g]).1.contains(i);
    let k = choose|k: int| 0 <= k < all[g].1.len() && all[g].1[k] == i;
    (g, lemma_band_start(items, sorted, g))
}

/// An item that is no higher than the last band is not in a band before it.
proof fn lemma_in_last_band(items: Seq<TextItem>, sorted: Seq<usize>, i: usize)
    requires
        sorted.no_duplicates(),
        sorted.contains(i),
        forall|j: int, k: int|
            0 <= j < k < sorted.len() ==> items[#[trigger] sorted[k] as int].y.place()
                <= items[#[trigger] sorted[j] as int].y.place(),
        forall|k: int| 0 <= k < sorted.len() ==> items[#[trigger] sorted[k] as int].y.finite(),
        header::bands(items, sorted).len() > 0,
        items[i as int].y.place() <= header::bands(items, sorted).last().0.place(),
    ensures
        header::bands(items, sorted).last().1.contains(i),
{
    let all = header::bands(items, sorted);
    let n = all.len() - 1;
    let (g, first) = lemma_band_of(items, sorted, i);
    if g < n {
        let b = all[g].0;
        let y = all[n].0;
        let last = lemma_band_start(items, sorted, n);
        assert(y.place() <= b.place()) by {
            header::lemma_bands_descend(items, sorted);
        }
        assert(!y.minus(b).size().below(single::whole(5))) by {
            lemma_bands_apart(items, sorted);
        }
        lemma_still_away(items[i as int].y, y, b);
    }
}

/// The items of the header band are the header candidates that are no higher
/// than the header row.
pub proof fn lemma_header_band_is_all_below(
    table: TableModel,
    items: Seq<TextItem>,
    small_font: Single,
    i: usize,
)
    requires
        i < items.len() <= usize::MAX,
        forall|j: int| 0 <= j < items.len() ==> (#[trigger] items[j]).y.finite(),
        header::header_candidates(items, table.rows, small_font).len() > 0,
    ensures
        ({
            let (y, members) = header::header_band(table, items, small_font);
            members.contains(i) <==> header::header_candidate(
                items[i as int],
                table.rows,
                small_font,
            ) && items[i as int].y.at_most(y)
        }),
{
    let sorted = candidates_down(items, table.rows, small_font);
    let all = header::bands(items, sorted);
    let (y, members) = header::header_band(table, items, small_font);
    let n = all.len() - 1;
    lemma_candidates_down(items, table.rows, small_font);
    assert(all.len() > 0 && (y, members) == all[n]) by {
        header::lemma_sorted_candidates(items, table.rows, small_font);
        header::lemma_bands(items, sorted);
    }
    assert(y.finite() && forall|k: int|
        0 <= k < members.len() ==> #[trigger] members[k] < items.len() && header::header_candidate(
            items[members[k] as int],
            table.rows,
            small_font,
        )) by {
        header::lemma_header_band_members(table, items, small_font);
        assert(items[members[0] as int].y.finite());
    }
    if members.contains(i) {
        let k = choose|k: int| 0 <= k < members.len() && members[k] == i;
        lemma_band_top(items, sorted, n, k);
    }
    if header::header_candidate(items[i as int], table.rows, small_font)
        && items[i as int].y.at_most(y) {
        assert(sorted.contains(i)) by {
            header::lemma_sorted_candidates(items, table.rows, small_font);
        }
        assert forall|k: int| 0 <= k < sorted.len() implies items[
            #[trigger] sorted[k] as int
        ].y.finite() by {
            header::lemma_sorted_candidates(items, table.rows, small_font);
            assert(sorted.contains(sorted[k]));
        }
        lemma_in_last_band(items, sorted, i);
    }
}

/// A header row is recovered where two candidates no higher than it have text
/// and belong to two different columns: the table's first row is the position of
/// the band, and its first row of cells holds the texts of the band's items.
pub proof fn lemma_two_columns_are_enough(
    table: TableModel,
    items: Seq<TextItem>,
    small_font: Single,
    i: usize,
    j: usize,
)
    requires
        i < items.len() <= usize::MAX,
        j < items.len(),
        table.rows.len() > 0,
        table.columns.len() <= usize::MAX,
        forall|k: int| 0 <= k < items.len() ==> (#[trigger] items[k]).y.finite(),
        header::header_candidate(items[i as int], table.rows, small_font),
        header::header_candidate(items[j as int], table.rows, small_font),
        items[i as int].y.at_most(header::header_band(table, items, small_font).0),
        items[j as int].y.at_most(header::header_band(table, items, small_font).0),
        text::trimmed(items[i as int].text@).len() > 0,
        text::trimmed(items[j as int].text@).len() > 0,
        lookup::column_index(table.columns, items[i as int].x) is Some,
        lookup::column_index(table.columns, items[j as int].x) is Some,
        lookup::column_index(table.columns, items[i as int].x) != lookup::column_index(
            table.columns,
            items[j as int].x,
        ),
    ensures
        ({
            let (y, members) = header::header_band(table, items, small_font);
            let after = header::header_recovered(table, items, small_font);
            &&& after.columns == table.columns
            &&& after.rows == seq![y] + table.rows
            &&& after.cells.len() == table.cells.len() + 1
            &&& after.cells.skip(1) == table.cells
            &&& after.cells[0].len() == table.columns.len()
            &&& forall|c: int|
                0 <= c < table.columns.len() ==> #[trigger] after.cells[0][c]
                    == header::header_cell(items, members, table.columns, c as usize)
            &&& after.item_indices == table.item_indices + members.filter(
                |k: usize|
                    lookup::column_index(table.columns, items[k as int].x) is Some
                        && text::trimmed(items[k as int].text@).len() > 0,
            )
        }),
{
    let (y, members) = header::header_band(table, items, small_font);
    let cells = header::header_cells(items, members, table.columns);
    let filled = |cell: Seq<char>| cell.len() > 0;
    let a = lookup::column_index(table.columns, items[i as int].x)->Some_0;
    let b = lookup::column_index(table.columns, items[j as int].x)->Some_0;
    let which = header::header_candidates(items, table.rows, small_font);
    assert(which.len() > 0) by {
        header::lemma_sorted_candidates(items, table.rows, small_font);
        assert(candidates_down(items, table.rows, small_font).contains(i));
    }
    lemma_header_band_is_all_below(table, items, small_font, i);
    lemma_header_band_is_all_below(table, items, small_font, j);
    lookup::lemma_index_in_range(
        table.columns,
        items[i as int].x,
        lookup::column_reach(table.columns),
    );
    lookup::lemma_index_in_range(
        table.columns,
        items[j as int].x,
        lookup::column_reach(table.columns),
    );
    lemma_cell_filled(items, members, table.columns, i);
    lemma_cell_filled(items, members, table.columns, j);
    assert(filled(cells[a as int]) && filled(cells[b as int]));
    if a < b {
        order::lemma_two_kept(cells, filled, a as int, b as int);
    } else {
        order::lemma_two_kept(cells, filled, b as int, a as int);
    }
    let after = header::header_recovered(table, items, small_font);
    assert(after.cells.skip(1) == table.cells);
    assert((|k: usize| header::lands_anywhere(items[k as int], table.columns)) =~= (|k: usize|
        lookup::column_index(table.columns, items[k as int].x) is Some && text::trimmed(
            items[k as int].text@,
        ).len() > 0));
}

/// A header cell with an item has text.
proof fn lemma_cell_filled(
    items: Seq<TextItem>,
    which: Seq<usize>,
    columns: Seq<Single>,
    i: usize,
)
    requires
        which.contains(i),
        lookup::column_index(columns, items[i as int].x) is Some,
        text::trimmed(items[i as int].text@).len() > 0,
    ensures
        header::header_cell(
            items,
            which,
            columns,
            lookup::column_index(columns, items[i as int].x)->Some_0,
        ).len() > 0,
{
    let c = lookup::column_index(columns, items[i as int].x)->Some_0;
    let here = |k: usize| header::lands(items[k as int], columns, c);
    let parts = which.filter(here).map_values(|k: usize| text::trimmed(items[k as int].text@));
    let p = choose|p: int| 0 <= p < which.len() && which[p] == i;
    which.lemma_filter_contains(here, p);
    assert forall|k: int| 0 <= k < parts.len() implies (#[trigger] parts[k]).len() > 0 by {
        which.lemma_filter_pred(here, k);
    }
    text::lemma_spaced_empty(parts);
}

/// The header cell of one item is its trimmed text in its own column, and empty
/// in any other.
pub proof fn lemma_cell_of_one(items: Seq<TextItem>, i: usize, columns: Seq<Single>, column: usize)
    ensures
        header::header_cell(items, seq![i], columns, column) == if lookup::column_index(
            columns,
            items[i as int].x,
        ) == Some(column) {
            text::trimmed(items[i as int].text@)
        } else {
            Seq::empty()
        },
{
    let here = |k: usize| header::lands(items[k as int], columns, column);
    let part_of = |k: usize| text::trimmed(items[k as int].text@);
    reveal(Seq::filter);
    let none = Seq::<usize>::empty();
    none.lemma_filter_push(i, here);
    assert(none.push(i) == seq![i]);
    assert(none.filter(here) == none);
    if here(i) {
        assert(seq![i].map_values(part_of) == seq![part_of(i)]);
    }
}

/// The header cell of items and more items is both texts with a space between
/// them, or the one that is not empty.
pub proof fn lemma_cell_of_more(
    items: Seq<TextItem>,
    a: Seq<usize>,
    b: Seq<usize>,
    columns: Seq<Single>,
    column: usize,
)
    ensures
        ({
            let left = header::header_cell(items, a, columns, column);
            let right = header::header_cell(items, b, columns, column);
            header::header_cell(items, a + b, columns, column) == if left.len() > 0 && right.len()
                > 0 {
                left + seq![' '] + right
            } else {
                left + right
            }
        }),
{
    let here = |k: usize| header::lands(items[k as int], columns, column);
    let part_of = |k: usize| text::trimmed(items[k as int].text@);
    let left = a.filter(here).map_values(part_of);
    let right = b.filter(here).map_values(part_of);
    Seq::filter_distributes_over_add(a, b, here);
    assert((a.filter(here) + b.filter(here)).map_values(part_of) == left + right);
    assert forall|k: int| 0 <= k < left.len() implies (#[trigger] left[k]).len() > 0 by {
        a.lemma_filter_pred(here, k);
    }
    assert forall|k: int| 0 <= k < right.len() implies (#[trigger] right[k]).len() > 0 by {
        b.lemma_filter_pred(here, k);
    }
    text::lemma_spaced_empty(left);
    text::lemma_spaced_empty(right);
    if left.len() > 0 && right.len() > 0 {
        text::lemma_spaced_add(left, right);
    } else if left.len() == 0 {
        assert(left + right == right);
    } else {
        assert(left + right == left);
    }
}

/// How far above the first row a header may be: from 10 to 40, and within that
/// range twice the average distance between the rows, but for the rounding; 30
/// where there is one row.
pub proof fn lemma_header_reach(rows: Seq<Single>, s: nat)
    requires
        rows.len() > 0,
        rows.len() <= 0x80_0000,
        s <= 18,
        rows.first().finite(),
        rows.last().finite(),
        -(0x40_0000 * precision::grain(s)) <= rows.first().value() <= 0x40_0000
            * precision::grain(s),
        -(0x40_0000 * precision::grain(s)) <= rows.last().value() <= 0x40_0000
            * precision::grain(s),
    ensures
        ({
            let reach = header::header_reach(rows);
            let n = rows.len() - 1;
            let spread = rows.first().value() - rows.last().value();
            let one = pow2(149);
            let slack = 6 * n * precision::grain(s);
            &&& reach.finite()
            &&& n == 0 ==> reach.value() == 30 * one
            &&& n > 0 ==> 10 * one <= reach.value() <= 40 * one
            &&& n > 0 && reach.value() > 10 * one ==> n * reach.value() <= 2 * spread + slack
            &&& n > 0 && reach.value() < 40 * one ==> n * reach.value() >= 2 * spread - slack
        }),
{
    let one = pow2(149);
    let small = precision::grain(s);
    let reach = header::header_reach(rows);
    precision::lemma_grain(s);
    precision::lemma_whole_exact(10);
    precision::lemma_whole_exact(30);
    precision::lemma_whole_exact(40);
    if rows.len() >= 2 {
        let n = (rows.len() - 1) as nat;
        let d = rows.first().minus(rows.last());
        let average = d.over(single::whole(n));
        let twice = average.times(single::whole(2));
        let spread = rows.first().value() - rows.last().value();
        precision::lemma_difference_error(rows.first(), rows.last(), s);
        precision::lemma_quotient_error(d, n, s);
        let a = average.value();
        assert(n * small >= small) by (nonlinear_arith)
            requires
                n >= 1,
                small >= 0,
        ;
        assert(-(0x80_0002 * small) <= a <= 0x80_0002 * small) by (nonlinear_arith)
            requires
                2 * (n * a - d.value()) <= n * small,
                2 * (d.value() - n * a) <= n * small,
                -(0x80_0000 * small + small) <= d.value() <= 0x80_0000 * small + small,
                n >= 1,
                small > 0,
        ;
        lemma_twice(average, s);
        let t = twice.value();
        assert(n * t - 2 * (n * a) <= n * (2 * small) && 2 * (n * a) - n * t <= n * (2 * small))
            by (nonlinear_arith)
            requires
                t - 2 * a <= 2 * small,
                2 * a - t <= 2 * small,
                n >= 0,
        ;
        assert(n * (2 * small) == 2 * (n * small) && 6 * n * small == 6 * (n * small))
            by (nonlinear_arith);
        assert(n * t <= 2 * spread + 6 * n * small && n * t >= 2 * spread - 6 * n * small);
        single::lemma_place_orders_values(twice, single::whole(10));
        single::lemma_place_orders_values(single::whole(40), twice);
        if reach != twice {
            if reach == single::whole(10) {
                assert(n * (10 * one) >= n * t) by (nonlinear_arith)
                    requires
                        t <= 10 * one,
                        n >= 0,
                ;
            } else {
                assert(n * (40 * one) <= n * t) by (nonlinear_arith)
                    requires
                        40 * one <= t,
                        n >= 0,
                ;
            }
        }
    }
}

/// Twice a number is off by no more than two grains.
proof fn lemma_twice(a: Single, s: nat)
    requires
        s <= 18,
        a.finite(),
        -(0x80_0002 * precision::grain(s)) <= a.value() <= 0x80_0002 * precision::grain(s),
    ensures
        a.times(single::whole(2)).finite(),
        a.times(single::whole(2)).value() - 2 * a.value() <= 2 * precision::grain(s),
        2 * a.value() - a.times(single::whole(2)).value() <= 2 * precision::grain(s),
{
    let one = pow2(149);
    let small = precision::grain(s);
    let coarse = pow2((150 - s) as nat);
    let ua = crate::rounding::units(a.magnitude());
    precision::lemma_grain(s);
    precision::lemma_whole_exact(2);
    assert(ua * (2 * one) <= 0x100_0000 * coarse * one) by (nonlinear_arith)
        requires
            0 <= ua <= 0x80_0002 * small,
            coarse == 2 * small,
            small > 0,
            one > 0,
    ;
    crate::rounding::lemma_nearest_error(ua * (2 * one), one, (150 - s) as nat);
    let ut = crate::rounding::units(crate::rounding::nearest(ua * (2 * one), one));
    assert(ut - 2 * ua <= small && 2 * ua - ut <= small) by (nonlinear_arith)
        requires
            2 * (ut * one - ua * (2 * one)) <= coarse * one,
            2 * (ua * (2 * one) - ut * one) <= coarse * one,
            coarse == 2 * small,
            one > 0,
    ;
}

/// An item may belong to a header exactly where it is not struck out, is in a
/// larger font, and is above the first row by no more than the reach, but for
/// the rounding.
pub proof fn lemma_header_candidate(
    item: TextItem,
    rows: Seq<Single>,
    small_font: Single,
    s: nat,
)
    requires
        s <= 18,
        rows.len() > 0,
        item.y.finite(),
        rows.first().finite(),
        header::header_reach(rows).finite(),
        -(0x40_0000 * precision::grain(s)) <= rows.first().value() <= 0x40_0000
            * precision::grain(s),
        0 <= header::header_reach(rows).value() <= 0x40_0000 * precision::grain(s),
    ensures
        ({
            let above = item.y.value() - rows.first().value();
            let reach = header::header_reach(rows).value();
            let fits = !item.is_strikeout && small_font.below(item.font_size) && above > 0;
            &&& header::header_candidate(item, rows, small_font) ==> fits && above <= reach
                + precision::grain(s)
            &&& fits && above + precision::grain(s) <= reach ==> header::header_candidate(
                item,
                rows,
                small_font,
            )
        }),
{
    let reach = header::header_reach(rows);
    let limit = rows.first().plus(reach);
    precision::lemma_grain(s);
    precision::lemma_sum_error(rows.first(), reach, (149 - s) as nat);
    single::lemma_place_orders_values(rows.first(), item.y);
    single::lemma_place_orders_values(item.y, limit);
}

} // verus!
