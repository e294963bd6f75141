//! Detection of row boundaries.

use crate::cluster;
use crate::order;
use crate::precision;
use crate::single;
use crate::single::Single;
use crate::types::TextItem;
use vstd::arithmetic::power2::*;
use vstd::prelude::*;

verus! {

/// The baselines of items from the top of the page down.
pub open spec fn baselines_down(items: Seq<(usize, &TextItem)>) -> Seq<Single> {
    order::ascending(items.map_values(|it: (usize, &TextItem)| it.1.y)).reverse()
}

/// The median of the font sizes of items, the upper one of two middle sizes.
pub open spec fn median_font_size(items: Seq<(usize, &TextItem)>) -> Single {
    order::ascending(
        items.map_values(|it: (usize, &TextItem)| it.1.font_size),
    )[items.len() as int / 2]
}

/// How far below the middle of a row the next row starts: 0.8 of the median font
/// size, but no less than 4.
pub open spec fn row_pitch(items: Seq<(usize, &TextItem)>) -> Single {
    median_font_size(items).times(single::fraction(4, 5)).larger(single::whole(4))
}

/// Whether a baseline is a full row pitch below the middle of a row.
pub open spec fn starts_row(pitch: Single) -> spec_fn(Seq<Single>, Single) -> bool {
    |row: Seq<Single>, y: Single| pitch.at_most(cluster::mean(row).minus(y))
}

/// The baselines of each row.
pub open spec fn row_groups(items: Seq<(usize, &TextItem)>) -> Seq<Seq<Single>> {
    cluster::grouped(baselines_down(items), starts_row(row_pitch(items)))
}

/// The middle of each row.
pub open spec fn row_boundaries(items: Seq<(usize, &TextItem)>) -> Seq<Single> {
    row_groups(items).map_values(|row: Seq<Single>| cluster::mean(row))
}

/// Finds row boundaries by grouping baselines from the top of the page down;
/// each row is at the average of its baselines.
pub fn find_row_boundaries(items: &[(usize, &TextItem)]) -> (rows: Vec<Single>)
    ensures
        rows@ == row_boundaries(items@),
{
    let mut ys: Vec<Single> = Vec::new();
    let mut fonts: Vec<Single> = Vec::new();
    let ghost y_of = |it: (usize, &TextItem)| it.1.y;
    let ghost font_of = |it: (usize, &TextItem)| it.1.font_size;
    let mut i: usize = 0;
    while i < items.len()
        invariant
            i <= items@.len(),
            y_of == |it: (usize, &TextItem)| it.1.y,
            font_of == |it: (usize, &TextItem)| it.1.font_size,
            ys@ == items@.map_values(y_of).take(i as int),
            fonts@ == items@.map_values(font_of).take(i as int),
        decreases items@.len() - i,
    {
        ys.push(items[i].1.y);
        fonts.push(items[i].1.font_size);
        i += 1;
    }
    assert(ys@ == items@.map_values(y_of));
    assert(fonts@ == items@.map_values(font_of));
    let mut rows: Vec<Single> = Vec::new();
    let up: Vec<Single> = order::sort_ascending(&ys);
    let sizes: Vec<Single> = order::sort_ascending(&fonts);
    let n: usize = up.len();
    let ghost down = baselines_down(items@);
    proof {
        order::lemma_ascending(ys@);
        order::lemma_ascending(fonts@);
    }
    if n == 0 {
        assert(down == Seq::<Single>::empty());
        assert(row_boundaries(items@) == rows@);
        return rows;
    }
    let pitch: Single = sizes[n / 2].mul(Single::from_ratio(4, 5)).max(Single::from_ratio(4, 1));
    let ghost apart = starts_row(pitch);
    let ghost middle = |row: Seq<Single>| cluster::mean(row);
    let none: Single = Single::from_bits(0x8000_0000);
    let mut sum: Single = none.add(up[n - 1]);
    let mut count: usize = 1;
    let mut k: usize = 1;
    proof {
        cluster::lemma_grouped_step(down, apart, 0);
        cluster::lemma_total_push(Seq::empty(), down[0]);
        assert(down.take(0) == Seq::<Single>::empty());
        assert(Seq::<Single>::empty().push(down[0]) == seq![down[0]]);
        assert(rows@ == cluster::grouped(down.take(1), apart).drop_last().map_values(middle));
    }
    while k < n
        invariant
            1 <= k <= n,
            n == up@.len(),
            down == up@.reverse(),
            none == single::signed(true, 0),
            apart == starts_row(pitch),
            middle == |row: Seq<Single>| cluster::mean(row),
            1 <= count <= k,
            ({
                let groups = cluster::grouped(down.take(k as int), apart);
                &&& groups.len() > 0
                &&& rows@ == groups.drop_last().map_values(middle)
                &&& sum == cluster::total(groups.last())
                &&& count == groups.last().len()
            }),
        decreases n - k,
    {
        let y: Single = up[n - 1 - k];
        let ghost before = cluster::grouped(down.take(k as int), apart);
        let ghost after = cluster::grouped(down.take(k + 1), apart);
        proof {
            assert(y == down[k as int]);
            cluster::lemma_grouped_step(down, apart, k as int);
            cluster::lemma_total_push(Seq::empty(), y);
            cluster::lemma_total_push(before.last(), y);
            assert(Seq::<Single>::empty().push(y) == seq![y]);
        }
        let center: Single = sum.div(Single::from_count(count));
        if pitch.le(center.sub(y)) {
            assert(after == before.push(seq![y]));
            rows.push(center);
            sum = none.add(y);
            count = 1;
            assert(after.drop_last() == before);
            assert(rows@ == before.map_values(middle));
        } else {
            assert(after == before.drop_last().push(before.last().push(y)));
            sum = sum.add(y);
            count += 1;
            assert(after.drop_last() == before.drop_last());
        }
        k += 1;
    }
    rows.push(sum.div(Single::from_count(count)));
    proof {
        assert(down.take(n as int) == down);
        assert(rows@ == row_groups(items@).map_values(middle));
    }
    rows
}

/// The row pitch is at least 4.
pub proof fn lemma_row_pitch_range(items: Seq<(usize, &TextItem)>)
    ensures
        single::whole(4).at_most(row_pitch(items)),
{
    single::lemma_whole_range(4);
}

/// Rows take up all baselines from the top down, each in one row, and none is
/// without a baseline.
pub proof fn lemma_rows_take_up_baselines(items: Seq<(usize, &TextItem)>)
    ensures
        row_groups(items).flatten() == baselines_down(items),
        baselines_down(items).to_multiset() == items.map_values(
            |it: (usize, &TextItem)| it.1.y,
        ).to_multiset(),
        row_boundaries(items).len() == row_groups(items).len(),
        row_boundaries(items).len() <= items.len(),
        items.len() > 0 ==> row_boundaries(items).len() > 0,
        forall|g: int|
            0 <= g < row_groups(items).len() ==> (#[trigger] row_groups(items)[g]).len() > 0,
{
    let ys = items.map_values(|it: (usize, &TextItem)| it.1.y);
    order::lemma_ascending(ys);
    order::ascending(ys).lemma_reverse_to_multiset();
    cluster::lemma_grouped_partition(baselines_down(items), starts_row(row_pitch(items)));
}

/// The highest baseline of a row is a full row pitch below the middle of the
/// row before it.
pub proof fn lemma_rows_are_apart(items: Seq<(usize, &TextItem)>, g: int)
    requires
        0 <= g < row_boundaries(items).len() - 1,
    ensures
        row_pitch(items).at_most(row_boundaries(items)[g].minus(row_groups(items)[g + 1].first())),
        row_groups(items)[g + 1].first().below(row_boundaries(items)[g]),
{
    let apart = starts_row(row_pitch(items));
    let groups = row_groups(items);
    cluster::lemma_grouped_apart(baselines_down(items), apart);
    assert(apart(groups[g], groups[g + 1].first()));
    assert(single::signed(false, 0).below(
        row_boundaries(items)[g].minus(groups[g + 1].first()),
    )) by {
        lemma_row_pitch_range(items);
        single::lemma_whole_range(4);
    }
    single::lemma_difference_positive(row_boundaries(items)[g], groups[g + 1].first());
}

/// The baselines of items are in order within a row, and all of them are between
/// the first and the last one of all rows.
proof fn lemma_row_order(items: Seq<(usize, &TextItem)>, g: int, k: int)
    requires
        0 <= g < row_groups(items).len(),
        0 <= k < row_groups(items)[g].len(),
    ensures
        ({
            let row = row_groups(items)[g];
            let down = baselines_down(items);
            &&& row.last().total_place() <= row[k].total_place() <= row.first().total_place()
            &&& down.last().total_place() <= row[k].total_place() <= down.first().total_place()
        }),
{
    let ys = items.map_values(|it: (usize, &TextItem)| it.1.y);
    let up = order::ascending(ys);
    let down = baselines_down(items);
    let row = row_groups(items)[g];
    let before = |a: Single, b: Single| b.total_place() <= a.total_place();
    order::lemma_ascending(ys);
    assert forall|i: int, j: int| 0 <= i < j < down.len() implies before(
        #[trigger] down[i],
        #[trigger] down[j],
    ) by {
        assert(down[i] == up[down.len() - 1 - i]);
        assert(down[j] == up[down.len() - 1 - j]);
    }
    cluster::lemma_grouped_ordered(down, starts_row(row_pitch(items)), before);
    let n = row.len() - 1;
    if k > 0 {
        assert(before(row_groups(items)[g][0], row_groups(items)[g][k]));
    }
    if k < n {
        assert(before(row_groups(items)[g][k], row_groups(items)[g][n]));
    }
    assert(down.contains(row_groups(items)[g][k]));
    let i = choose|i: int| 0 <= i < down.len() && down[i] == row[k];
    if i > 0 {
        assert(before(down[0], down[i]));
    }
    if i < down.len() - 1 {
        assert(before(down[i], down[down.len() - 1]));
    }
}

/// The middle of a row of baselines of moderate size is no more than a grain
/// out of their range.
pub proof fn lemma_row_range(items: Seq<(usize, &TextItem)>, g: int, bound: nat, s: nat)
    requires
        0 <= g < row_groups(items).len(),
        precision::moderate(row_groups(items)[g], bound, s),
    ensures
        ({
            let row = row_groups(items)[g];
            let middle = row_boundaries(items)[g];
            &&& row.first().finite()
            &&& row.last().finite()
            &&& middle.finite()
            &&& row.last().value() - precision::grain(s) <= middle.value() <= row.first().value()
                + precision::grain(s)
        }),
{
    let row = row_groups(items)[g];
    lemma_rows_take_up_baselines(items);
    assert(row.len() > 0);
    precision::lemma_moderate_values(row, bound, s);
    let first = row[0];
    let last = row[row.len() - 1];
    assert forall|k: int| 0 <= k < row.len() implies last.value() <= (#[trigger] row[k]).value()
        <= first.value() by {
        lemma_row_order(items, g, k);
        single::lemma_place_orders_values(row[k], first);
        single::lemma_place_orders_values(last, row[k]);
    }
    precision::lemma_mean_range(row, bound, s, last.value(), first.value());
}

/// A row of baselines of moderate size is a row pitch below the row before it,
/// from middle to middle, but for two grains.
pub proof fn lemma_row_distance(items: Seq<(usize, &TextItem)>, g: int, bound: nat, s: nat)
    requires
        0 <= g < row_boundaries(items).len() - 1,
        precision::moderate(row_groups(items)[g], bound, s),
        precision::moderate(row_groups(items)[g + 1], bound, s),
    ensures
        row_boundaries(items)[g].finite(),
        row_boundaries(items)[g + 1].finite(),
        row_pitch(items).finite(),
        row_pitch(items).value() >= 4 * pow2(149),
        row_boundaries(items)[g].value() - row_boundaries(items)[g + 1].value() >= row_pitch(
            items,
        ).value() - 2 * precision::grain(s),
        row_boundaries(items)[g + 1].below(row_boundaries(items)[g]),
{
    let one = pow2(149);
    let small = precision::grain(s);
    let above = row_boundaries(items)[g];
    let middle = row_boundaries(items)[g + 1];
    let first = row_groups(items)[g + 1].first();
    let pitch = row_pitch(items);
    lemma_rows_take_up_baselines(items);
    assert(row_groups(items)[g].len() > 0 && row_groups(items)[g + 1].len() > 0);
    precision::lemma_grain(s);
    precision::lemma_moderate_values(row_groups(items)[g], bound, s);
    precision::lemma_moderate_values(row_groups(items)[g + 1], bound, s);
    lemma_row_range(items, g, bound, s);
    lemma_row_range(items, g + 1, bound, s);
    let top = row_groups(items)[g][0];
    let bottom = row_groups(items)[g][row_groups(items)[g].len() - 1];
    assert((bound + 1) * one == bound * one + one) by (nonlinear_arith);
    assert(first == row_groups(items)[g + 1][0]);
    precision::lemma_difference_error(above, first, s);
    lemma_rows_are_apart(items, g);
    lemma_row_pitch_range(items);
    precision::lemma_whole_exact(4);
    single::lemma_place_orders_values(pitch, above.minus(first));
    single::lemma_place_orders_values(single::whole(4), pitch);
    single::lemma_place_orders_values(middle, above);
}

/// Whether positions come from the top of the page down, no two the same.
pub open spec fn descending(ys: Seq<Single>) -> bool {
    forall|i: int, j: int| 0 <= i < j < ys.len() ==> (#[trigger] ys[j]).below(#[trigger] ys[i])
}

/// The rows of items with baselines of moderate size come from the top of the
/// page down, and any two are a row pitch apart but for two grains.
pub proof fn lemma_rows_descend(items: Seq<(usize, &TextItem)>, bound: nat, s: nat)
    requires
        forall|g: int|
            0 <= g < row_groups(items).len() ==> precision::moderate(
                #[trigger] row_groups(items)[g],
                bound,
                s,
            ),
    ensures
        descending(row_boundaries(items)),
        row_boundaries(items).len() > 1 ==> row_pitch(items).finite(),
        forall|i: int, j: int|
            0 <= i < j < row_boundaries(items).len() ==> (#[trigger] row_boundaries(
                items,
            )[i]).value() - (#[trigger] row_boundaries(items)[j]).value() >= row_pitch(
                items,
            ).value() - 2 * precision::grain(s),
{
    let rows = row_boundaries(items);
    let distance = row_pitch(items).value() - 2 * precision::grain(s);
    if rows.len() > 1 {
        lemma_lower_row(items, bound, s, 0, 1);
    }
    assert forall|i: int, j: int| 0 <= i < j < rows.len() implies (#[trigger] rows[j]).below(
        #[trigger] rows[i],
    ) && rows[i].value() - rows[j].value() >= distance by {
        lemma_lower_row(items, bound, s, i, j);
        assert(precision::moderate(row_groups(items)[i], bound, s));
        precision::lemma_grain(s);
        single::lemma_place_orders_values(rows[j], rows[i]);
    }
}

proof fn lemma_lower_row(
    items: Seq<(usize, &TextItem)>,
    bound: nat,
    s: nat,
    i: int,
    j: int,
)
    requires
        0 <= i < j < row_boundaries(items).len(),
        forall|g: int|
            0 <= g < row_groups(items).len() ==> precision::moderate(
                #[trigger] row_groups(items)[g],
                bound,
                s,
            ),
    ensures
        row_boundaries(items)[i].finite(),
        row_boundaries(items)[j].finite(),
        row_pitch(items).finite(),
        row_pitch(items).value() >= 4 * pow2(149),
        row_boundaries(items)[i].value() - row_boundaries(items)[j].value() >= row_pitch(
            items,
        ).value() - 2 * precision::grain(s),
    decreases j - i,
{
    assert(precision::moderate(row_groups(items)[j], bound, s));
    assert(precision::moderate(row_groups(items)[j - 1], bound, s));
    precision::lemma_grain(s);
    lemma_row_distance(items, j - 1, bound, s);
    if i < j - 1 {
        lemma_lower_row(items, bound, s, i, j - 1);
    }
}

/// The rows of items with baselines of moderate size lie between the lowest and
/// the highest baseline, but for a grain.
pub proof fn lemma_rows_within_baselines(
    items: Seq<(usize, &TextItem)>,
    bound: nat,
    s: nat,
    g: int,
)
    requires
        0 <= g < row_boundaries(items).len(),
        forall|g: int|
            0 <= g < row_groups(items).len() ==> precision::moderate(
                #[trigger] row_groups(items)[g],
                bound,
                s,
            ),
    ensures
        ({
            let down = baselines_down(items);
            &&& down.first().finite()
            &&& down.last().finite()
            &&& down.last().value() - precision::grain(s) <= row_boundaries(items)[g].value()
                <= down.first().value() + precision::grain(s)
        }),
{
    let down = baselines_down(items);
    let groups = row_groups(items);
    let n = groups.len() - 1;
    lemma_rows_take_up_baselines(items);
    groups.lemma_flatten_and_flatten_alt_are_equivalent();
    assert(groups[0].len() > 0 && groups[n].len() > 0 && groups[g].len() > 0);
    assert(precision::moderate(groups[0], bound, s));
    assert(precision::moderate(groups[n], bound, s));
    assert(precision::moderate(groups[g], bound, s));
    assert(down.first() == groups[0].first()) by {
        assert(groups.flatten() == groups.first() + groups.drop_first().flatten());
    }
    assert(down.last() == groups[n].last()) by {
        assert(groups.flatten_alt() == groups.drop_last().flatten_alt() + groups.last());
    }
    lemma_row_range(items, 0, bound, s);
    lemma_row_range(items, n, bound, s);
    lemma_row_range(items, g, bound, s);
    lemma_row_order(items, g, 0);
    lemma_row_order(items, g, groups[g].len() - 1);
    single::lemma_place_orders_values(groups[g].first(), down.first());
    single::lemma_place_orders_values(down.last(), groups[g].last());
}

/// Whatever the size of its baselines, a row is below the row before it unless
/// its average is rounded up above the highest of them.
pub proof fn lemma_row_below_previous(items: Seq<(usize, &TextItem)>, g: int)
    requires
        0 <= g < row_boundaries(items).len() - 1,
        row_boundaries(items)[g + 1].at_most(row_groups(items)[g + 1].first()),
    ensures
        row_boundaries(items)[g + 1].below(row_boundaries(items)[g]),
{
    lemma_rows_are_apart(items, g);
}

/// The font size that the row pitch is taken from is a median: it is the font
/// size of an item, more than half of the items have one no larger, and at least
/// half have one no smaller.
pub proof fn lemma_median_font_size(items: Seq<(usize, &TextItem)>)
    requires
        items.len() > 0,
    ensures
        ({
            let m = median_font_size(items);
            &&& exists|i: int| 0 <= i < items.len() && (#[trigger] items[i]).1.font_size == m
            &&& 2 * items.filter(
                |it: (usize, &TextItem)| it.1.font_size.total_place() <= m.total_place(),
            ).len() > items.len()
            &&& 2 * items.filter(
                |it: (usize, &TextItem)| m.total_place() <= it.1.font_size.total_place(),
            ).len() >= items.len()
        }),
{
    let sizes = items.map_values(|it: (usize, &TextItem)| it.1.font_size);
    let m = median_font_size(items);
    order::lemma_median(sizes);
    let i = choose|i: int| 0 <= i < sizes.len() && sizes[i] == m;
    assert(items[i].1.font_size == m);
    order::lemma_filters_agree(
        items,
        sizes,
        |it: (usize, &TextItem)| it.1.font_size.total_place() <= m.total_place(),
        |x: Single| x.total_place() <= m.total_place(),
    );
    order::lemma_filters_agree(
        items,
        sizes,
        |it: (usize, &TextItem)| m.total_place() <= it.1.font_size.total_place(),
        |x: Single| m.total_place() <= x.total_place(),
    );
}

/// Where more than half of the items have one font size, the row pitch is the
/// larger of 0.8 times that size and 4, whatever the other sizes are.
pub proof fn lemma_row_pitch_of_majority(items: Seq<(usize, &TextItem)>, f: Single)
    requires
        2 * items.filter(|it: (usize, &TextItem)| it.1.font_size == f).len() > items.len(),
    ensures
        row_pitch(items) == f.times(single::fraction(4, 5)).larger(single::whole(4)),
{
    let sizes = items.map_values(|it: (usize, &TextItem)| it.1.font_size);
    order::lemma_filters_agree(
        items,
        sizes,
        |it: (usize, &TextItem)| it.1.font_size == f,
        |x: Single| x == f,
    );
    order::lemma_majority_is_median(sizes, f);
}

/// Where more than half of the items have one font size of moderate size, five
/// times the row pitch is four times that size but for the rounding, or the row
/// pitch is 4 and that size no more than 5.
pub proof fn lemma_row_pitch_value(items: Seq<(usize, &TextItem)>, f: Single, s: nat)
    requires
        2 * items.filter(|it: (usize, &TextItem)| it.1.font_size == f).len() > items.len(),
        f.finite(),
        !f.negative(),
        s <= 20,
        f.value() <= 0x80_0000 * precision::grain(s),
    ensures
        ({
            let pitch = row_pitch(items).value();
            let slack = 10 * precision::grain(s);
            &&& row_pitch(items).finite()
            &&& 5 * pitch >= 4 * f.value() - slack
            &&& pitch >= 4 * pow2(149)
            &&& 5 * pitch <= 4 * f.value() + slack || pitch == 4 * pow2(149)
        }),
{
    lemma_row_pitch_of_majority(items, f);
    precision::lemma_scaled_error(f, 4, 5, s);
    precision::lemma_whole_exact(4);
    single::lemma_place_orders_values(f.times(single::fraction(4, 5)), single::whole(4));
}

} // verus!
