//! How the distance at which columns part follows from the gaps between left
//! edges, and where columns and rows part by it.

use crate::arithmetic;
use crate::cluster;
use crate::columns;
use crate::order;
use crate::precision;
use crate::rows;
use crate::single;
use crate::single::Single;
use crate::text;
use crate::types::{TableDetectionMode, TextItem};
use vstd::arithmetic::power2::*;
use vstd::prelude::*;
use vstd::seq_lib::*;

verus! {

/// The threshold that the average gap gives: from 25 to 50, and within that
/// range the distance from the first to the last position by the number of gaps,
/// but for the rounding; 50 where there is one position.
pub proof fn lemma_average_threshold(xs: Seq<Single>, s: nat)
    requires
        0 < xs.len() <= 0x80_0000,
        s <= 18,
        xs.first().finite(),
        xs.last().finite(),
        -(0x40_0000 * precision::grain(s)) <= xs.first().value() <= 0x40_0000
            * precision::grain(s),
        -(0x40_0000 * precision::grain(s)) <= xs.last().value() <= 0x40_0000
            * precision::grain(s),
    ensures
        ({
            let base = columns::average_threshold(xs);
            let n = xs.len() - 1;
            let spread = xs.last().value() - xs.first().value();
            let one = pow2(149);
            let slack = 2 * n * precision::grain(s);
            &&& base.finite()
            &&& 25 * one <= base.value() <= 50 * one
            &&& n == 0 ==> base.value() == 50 * one
            &&& n > 0 && base.value() > 25 * one ==> n * base.value() <= spread + slack
            &&& n > 0 && base.value() < 50 * one ==> n * base.value() >= spread - slack
        }),
{
    let one = pow2(149);
    let small = precision::grain(s);
    let base = columns::average_threshold(xs);
    precision::lemma_grain(s);
    precision::lemma_whole_exact(25);
    precision::lemma_whole_exact(50);
    precision::lemma_whole_exact(60);
    if xs.len() > 1 {
        let n = (xs.len() - 1) as nat;
        let d = xs.last().minus(xs.first());
        let average = d.over(single::whole(n));
        let a = average.value();
        let spread = xs.last().value() - xs.first().value();
        precision::lemma_difference_error(xs.last(), xs.first(), s);
        precision::lemma_quotient_error(d, n, s);
        assert(n * small >= small) by (nonlinear_arith)
            requires
                n >= 1,
                small >= 0,
        ;
        assert(2 * n * small == 2 * (n * small)) by (nonlinear_arith);
        single::lemma_place_orders_values(average, single::whole(25));
        single::lemma_place_orders_values(single::whole(50), average);
        if base != average {
            if base == single::whole(25) {
                assert(n * (25 * one) >= n * a) by (nonlinear_arith)
                    requires
                        a <= 25 * one,
                        n >= 0,
                ;
            } else {
                assert(n * (50 * one) <= n * a) by (nonlinear_arith)
                    requires
                        50 * one <= a,
                        n >= 0,
                ;
            }
        }
    } else {
        single::lemma_place_orders_values(single::whole(50), single::whole(60));
        single::lemma_place_orders_values(single::whole(60), single::whole(25));
    }
}

/// The wide gaps are the gaps of more than 0.1 between neighbouring positions:
/// as many, the same, and in ascending order.
pub proof fn lemma_wide_gaps(xs: Seq<Single>)
    requires
        0 < xs.len() <= usize::MAX,
    ensures
        ({
            let wide = columns::wide_gaps(xs);
            let n = (xs.len() - 1) as nat;
            &&& wide.len() == order::index_range(n).filter(
                |i: usize| single::fraction(1, 10).below(xs[i + 1].minus(xs[i as int])),
            ).len()
            &&& forall|w: Single| #[trigger]
                wide.contains(w) <==> single::fraction(1, 10).below(w) && exists|i: int|
                    0 <= i < n && w == xs[i + 1].minus(#[trigger] xs[i])
            &&& forall|i: int, j: int|
                0 <= i <= j < wide.len() ==> (#[trigger] wide[i]).total_place() <= (
                #[trigger] wide[j]).total_place()
        }),
{
    let wide = columns::wide_gaps(xs);
    let gaps = columns::gaps(xs);
    let n = (xs.len() - 1) as nat;
    let is_wide = |g: Single| single::fraction(1, 10).below(g);
    let kept = gaps.filter(is_wide);
    order::lemma_ascending(kept);
    order::lemma_filters_agree(
        order::index_range(n),
        gaps,
        |i: usize| single::fraction(1, 10).below(xs[i + 1].minus(xs[i as int])),
        is_wide,
    );
    assert forall|w: Single| #[trigger] wide.contains(w) <==> single::fraction(1, 10).below(w)
        && exists|i: int| 0 <= i < n && w == xs[i + 1].minus(#[trigger] xs[i]) by {
        to_multiset_contains(wide, w);
        to_multiset_contains(kept, w);
        if kept.contains(w) {
            let k = choose|k: int| 0 <= k < kept.len() && kept[k] == w;
            let i = order::lemma_filter_source(gaps, is_wide, k);
            assert(w == xs[i + 1].minus(xs[i]));
        }
        if single::fraction(1, 10).below(w) && exists|i: int|
            0 <= i < n && w == xs[i + 1].minus(#[trigger] xs[i]) {
            let i = choose|i: int| 0 <= i < n && w == xs[i + 1].minus(#[trigger] xs[i]);
            assert(gaps[i] == w);
            gaps.lemma_filter_contains(is_wide, i);
        }
    }
}

/// Whether a split of `len` gaps after the `k`th leaves three gaps on each side,
/// or half of them where that is fewer.
pub open spec fn even_split(len: nat, k: int) -> bool {
    &&& 2 * (k + 1) >= len - 1 || k + 1 >= 3
    &&& 2 * (len - k - 1) >= len - 1 || len - k - 1 >= 3
    &&& k >= 0 && k + 1 < len
}

/// Whether the jump after the `k`th of some gaps is above zero, and the largest,
/// the first of equal ones, that leaves enough gaps on each side.
pub open spec fn greatest_jump(wide: Seq<Single>, k: int) -> bool {
    &&& even_split(wide.len(), k)
    &&& single::signed(false, 0).below(wide[k + 1].minus(wide[k]))
    &&& forall|i: int|
        even_split(wide.len(), i) ==> !wide[k + 1].minus(wide[k]).below(
            wide[i + 1].minus(#[trigger] wide[i]),
        )
    &&& forall|i: int|
        0 <= i < k && even_split(wide.len(), i) ==> !wide[k + 1].minus(wide[k]).at_most(
            wide[i + 1].minus(#[trigger] wide[i]),
        )
}

/// The largest jump is where it says.
proof fn lemma_greatest_jump(wide: Seq<Single>, k: int)
    requires
        greatest_jump(wide, k),
    ensures
        columns::largest_jump(wide, (wide.len() - 1) as nat) == (
            wide[k + 1].minus(wide[k]),
            k,
        ),
        columns::midway(wide, k) == wide[k].plus(wide[k + 1]).over(single::whole(2)),
{
    let n = (wide.len() - 1) as nat;
    columns::lemma_largest_jump(wide, n);
    let (jump, at) = columns::largest_jump(wide, n);
    assert(columns::balanced(wide.len(), k));
    assert(!jump.below(wide[k + 1].minus(wide[k])));
    assert(single::signed(false, 0).below(jump));
    assert(even_split(wide.len(), at));
    assert(!wide[k + 1].minus(wide[k]).below(wide[at + 1].minus(wide[at])));
    if at < k {
        assert(!wide[k + 1].minus(wide[k]).at_most(wide[at + 1].minus(wide[at])));
    } else if k < at {
        assert(!jump.at_most(wide[k + 1].minus(wide[k])));
    }
}

/// With more than two wide gaps, and up to 500 positions or the value halfway
/// across the largest jump not below 15, a largest jump of more than 10 sets the
/// threshold, if the value halfway across it is below the threshold of the
/// average gap: it is that value, or 8 if that is more.
pub proof fn lemma_threshold_of_few(xs: Seq<Single>, k: int)
    requires
        xs.len() <= 500 || !columns::wide_gaps(xs)[k].plus(columns::wide_gaps(xs)[k + 1]).over(
            single::whole(2),
        ).below(single::whole(15)),
        columns::wide_gaps(xs).len() > 2,
        greatest_jump(columns::wide_gaps(xs), k),
        single::whole(10).below(
            columns::wide_gaps(xs)[k + 1].minus(columns::wide_gaps(xs)[k]),
        ),
        columns::wide_gaps(xs)[k].plus(columns::wide_gaps(xs)[k + 1]).over(
            single::whole(2),
        ).below(columns::average_threshold(xs)),
    ensures
        ({
            let wide = columns::wide_gaps(xs);
            let halfway = wide[k].plus(wide[k + 1]).over(single::whole(2));
            let (threshold, from_edge) = columns::column_threshold(xs);
            &&& !from_edge
            &&& threshold == if halfway.below(single::whole(8)) {
                single::whole(8)
            } else {
                halfway
            }
        }),
{
    lemma_greatest_jump(columns::wide_gaps(xs), k);
}

/// With more than 500 positions, a largest jump of more than 2 with the value
/// halfway across it below 15 sets the threshold to that value, or to 8 if that
/// is more, and columns part by their last positions.
pub proof fn lemma_threshold_of_many(xs: Seq<Single>, k: int)
    requires
        xs.len() > 500,
        columns::wide_gaps(xs).len() > 2,
        greatest_jump(columns::wide_gaps(xs), k),
        single::whole(2).below(columns::wide_gaps(xs)[k + 1].minus(columns::wide_gaps(xs)[k])),
        columns::wide_gaps(xs)[k].plus(columns::wide_gaps(xs)[k + 1]).over(
            single::whole(2),
        ).below(single::whole(15)),
    ensures
        ({
            let wide = columns::wide_gaps(xs);
            let halfway = wide[k].plus(wide[k + 1]).over(single::whole(2));
            let (threshold, from_edge) = columns::column_threshold(xs);
            &&& from_edge
            &&& threshold == if halfway.below(single::whole(8)) {
                single::whole(8)
            } else {
                halfway
            }
        }),
{
    lemma_greatest_jump(columns::wide_gaps(xs), k);
    single::lemma_fraction_order(15, 25, 1);
}

/// Without more than two wide gaps, or where no jump that leaves enough gaps on
/// each side is above 2, the threshold is that of the average gap; so it is with
/// up to 500 positions where no such jump is above 10.
pub proof fn lemma_threshold_of_average(xs: Seq<Single>)
    requires
        ({
            let wide = columns::wide_gaps(xs);
            let least = if xs.len() <= 500 {
                single::whole(10)
            } else {
                single::whole(2)
            };
            wide.len() <= 2 || forall|i: int|
                even_split(wide.len(), i) ==> !least.below(wide[i + 1].minus(#[trigger] wide[i]))
        }),
    ensures
        columns::column_threshold(xs) == (columns::average_threshold(xs), false),
{
    let wide = columns::wide_gaps(xs);
    if wide.len() > 2 {
        let n = (wide.len() - 1) as nat;
        columns::lemma_largest_jump(wide, n);
        let (jump, at) = columns::largest_jump(wide, n);
        single::lemma_whole_range(2);
        single::lemma_whole_range(10);
        single::lemma_fraction_order(2, 10, 1);
        if single::signed(false, 0).below(jump) {
            assert(even_split(wide.len(), at));
            assert(jump == wide[at + 1].minus(wide[at]));
        }
    }
}

/// Where the value halfway across the largest jump is not below the threshold of
/// the average gap, and not below 15 either, that threshold stands; so it does
/// where the value is not below 15 and the jump is no more than 10.
pub proof fn lemma_threshold_kept(xs: Seq<Single>, k: int)
    requires
        columns::wide_gaps(xs).len() > 2,
        greatest_jump(columns::wide_gaps(xs), k),
        ({
            let wide = columns::wide_gaps(xs);
            let halfway = wide[k].plus(wide[k + 1]).over(single::whole(2));
            &&& xs.len() <= 500 || !halfway.below(single::whole(15))
            &&& !halfway.below(columns::average_threshold(xs)) || !single::whole(10).below(
                wide[k + 1].minus(wide[k]),
            )
        }),
    ensures
        columns::column_threshold(xs) == (columns::average_threshold(xs), false),
{
    lemma_greatest_jump(columns::wide_gaps(xs), k);
}

/// The value halfway across a jump is the middle of the two gaps, but for the
/// rounding.
pub proof fn lemma_halfway(a: Single, b: Single, s: nat)
    requires
        s <= 24,
        a.finite(),
        b.finite(),
        -(0x40_0000 * precision::grain(s)) <= a.value() <= 0x40_0000 * precision::grain(s),
        -(0x40_0000 * precision::grain(s)) <= b.value() <= 0x40_0000 * precision::grain(s),
    ensures
        a.plus(b).over(single::whole(2)).finite(),
        2 * a.plus(b).over(single::whole(2)).value() - (a.value() + b.value()) <= 2
            * precision::grain(s),
        a.value() + b.value() - 2 * a.plus(b).over(single::whole(2)).value() <= 2
            * precision::grain(s),
{
    precision::lemma_grain(s);
    precision::lemma_sum_error(a, b, (149 - s) as nat);
    precision::lemma_half_error(a.plus(b), s);
}

/// Where no item looks like a number, no groups are merged.
proof fn lemma_no_figures(items: Seq<(usize, &TextItem)>)
    requires
        items.len() < 0x100_0000,
        forall|i: int| 0 <= i < items.len() ==> !text::numeric((#[trigger] items[i]).1.text@),
    ensures
        ({
            let xs = columns::left_edges(items);
            columns::column_groups(items) == cluster::grouped(
                xs,
                columns::starts_column(columns::column_threshold(xs)),
            )
        }),
{
    let xs = columns::left_edges(items);
    let threshold = columns::column_threshold(xs);
    let groups = cluster::grouped(xs, columns::starts_column(threshold));
    assert forall|g: int| 0 <= g < groups.len() - 1 implies !columns::one_column(
        #[trigger] groups[g],
        groups[g + 1],
        items,
        threshold.0,
    ) by {
        columns::lemma_one_column(groups[g], groups[g + 1], items, threshold.0);
        lemma_none_near(items, cluster::mean(groups[g]), threshold.0);
        lemma_none_near(items, cluster::mean(groups[g + 1]), threshold.0);
    }
    columns::lemma_merging_needs_one_column(groups, items, threshold.0);
}

proof fn lemma_none_near(items: Seq<(usize, &TextItem)>, center: Single, reach: Single)
    requires
        forall|i: int| 0 <= i < items.len() ==> !text::numeric((#[trigger] items[i]).1.text@),
    ensures
        columns::figures_near(items, center, reach).len() == 0,
{
    let is_figure = |it: (usize, &TextItem)|
        columns::near(it, center, reach) && text::numeric(it.1.text@);
    if items.filter(is_figure).len() > 0 {
        let i = order::lemma_filter_source(items, is_figure, 0);
        assert(!text::numeric(items[i].1.text@));
    }
}

/// The last group of the positions up to the `i`th has its middle no more than a
/// grain right of that position, for ascending positions of moderate size.
proof fn lemma_group_up_to(
    xs: Seq<Single>,
    apart: spec_fn(Seq<Single>, Single) -> bool,
    i: int,
    bound: nat,
    s: nat,
)
    requires
        0 <= i < xs.len(),
        precision::moderate(xs, bound, s),
        forall|j: int, k: int|
            0 <= j < k < xs.len() ==> (#[trigger] xs[j]).total_place() <= (
            #[trigger] xs[k]).total_place(),
    ensures
        ({
            let group = cluster::grouped(xs.take(i + 1), apart).last();
            let high = 0x100_0000 * precision::grain(s);
            &&& group.len() > 0
            &&& group.last() == xs[i]
            &&& xs[i].finite()
            &&& -high <= xs[i].value() <= high
            &&& cluster::mean(group).finite()
            &&& -high <= cluster::mean(group).value() <= high
            &&& cluster::mean(group).value() <= xs[i].value() + precision::grain(s)
        }),
{
    let part = xs.take(i + 1);
    let groups = cluster::grouped(part, apart);
    let n = groups.len() - 1;
    let group = groups.last();
    let before = |a: Single, b: Single| a.total_place() <= b.total_place();
    cluster::lemma_last_group(part, apart);
    assert forall|j: int, k: int| 0 <= j < k < part.len() implies before(
        #[trigger] part[j],
        #[trigger] part[k],
    ) by {
        assert(part[j] == xs[j]);
        assert(part[k] == xs[k]);
    }
    cluster::lemma_grouped_ordered(part, apart, before);
    precision::lemma_grain(s);
    precision::lemma_moderate_values(xs, bound, s);
    let low = -(bound * pow2(149));
    assert forall|k: int| 0 <= k < group.len() implies low <= (#[trigger] group[k]).value()
        <= xs[i].value() && group[k].size().at_most(single::whole(bound)) by {
        assert(part.contains(groups[n][k]));
        let j = choose|j: int| 0 <= j < part.len() && part[j] == group[k];
        assert(part[j] == xs[j]);
        if j < i {
            single::lemma_place_orders_values(xs[j], xs[i]);
        }
    }
    assert(precision::moderate(group, bound, s)) by {
        let t = pow2(s);
        let (a, b) = (group.len(), xs.len());
        lemma_pow2_pos(s);
        assert(a * (bound + 1) * t <= b * (bound + 1) * t) by (nonlinear_arith)
            requires
                a <= b,
                bound >= 0,
                t > 0,
        ;
    }
    precision::lemma_mean_range(group, bound, s, low, xs[i].value());
    assert((bound + 1) * pow2(149) == bound * pow2(149) + pow2(149)) by (nonlinear_arith);
}

/// Left edges with a gap wider than the threshold between them are in different
/// columns, where no item looks like a number: the groups of columns up to the
/// gap hold exactly the edges left of it.
pub proof fn lemma_wide_gap_parts_columns(
    items: Seq<(usize, &TextItem)>,
    i: int,
    bound: nat,
    s: nat,
)
    requires
        items.len() < 0x100_0000,
        forall|k: int| 0 <= k < items.len() ==> !text::numeric((#[trigger] items[k]).1.text@),
        precision::moderate(columns::left_edges(items), bound, s),
        0 <= i < columns::left_edges(items).len() - 1,
        columns::column_threshold(columns::left_edges(items)).0.finite(),
        columns::left_edges(items)[i + 1].value() - columns::left_edges(items)[i].value()
            > columns::column_threshold(columns::left_edges(items)).0.value() + 2
            * precision::grain(s),
    ensures
        exists|g: int|
            0 < g < columns::column_groups(items).len() && (#[trigger] columns::column_groups(
                items,
            ).take(g)).flatten() == columns::left_edges(items).take(i + 1),
{
    let xs = columns::left_edges(items);
    let threshold = columns::column_threshold(xs);
    let apart = columns::starts_column(threshold);
    let group = cluster::grouped(xs.take(i + 1), apart).last();
    let x = xs[i + 1];
    lemma_no_figures(items);
    order::lemma_ascending(items.map_values(|it: (usize, &TextItem)| it.1.x));
    lemma_group_up_to(xs, apart, i, bound, s);
    lemma_group_up_to(xs, apart, i + 1, bound, s);
    let end = if threshold.1 {
        xs[i]
    } else {
        cluster::mean(group)
    };
    precision::lemma_difference_error(x, end, s);
    single::lemma_place_orders_values(threshold.0, x.minus(end));
    assert(apart(group, x));
    let g = cluster::lemma_grouped_cut(xs, apart, i);
    assert(columns::column_groups(items).take(g).flatten() == xs.take(i + 1));
}

/// Within a column, where no item looks like a number, no left edge is further
/// than the threshold right of the average of those before it, or of the one
/// before it where columns part by their last positions.
pub proof fn lemma_columns_hold_together(
    items: Seq<(usize, &TextItem)>,
    g: int,
    k: int,
)
    requires
        items.len() < 0x100_0000,
        forall|k: int| 0 <= k < items.len() ==> !text::numeric((#[trigger] items[k]).1.text@),
        0 <= g < columns::column_groups(items).len(),
        0 < k < columns::column_groups(items)[g].len(),
    ensures
        ({
            let (threshold, from_edge) = columns::column_threshold(columns::left_edges(items));
            let group = columns::column_groups(items)[g];
            !threshold.below(
                group[k].minus(
                    if from_edge {
                        group[k - 1]
                    } else {
                        cluster::mean(group.take(k))
                    },
                ),
            )
        }),
{
    let xs = columns::left_edges(items);
    let apart = columns::starts_column(columns::column_threshold(xs));
    let group = columns::column_groups(items)[g];
    lemma_no_figures(items);
    cluster::lemma_grouped_apart(xs, apart);
    assert(!apart(cluster::grouped(xs, apart)[g].take(k), cluster::grouped(xs, apart)[g][k]));
    assert(group.take(k).last() == group[k - 1]);
}

/// Baselines with a gap of a row pitch or more between them are in different
/// rows: the rows down to the gap hold exactly the baselines above it.
pub proof fn lemma_wide_gap_parts_rows(
    items: Seq<(usize, &TextItem)>,
    i: int,
    bound: nat,
    s: nat,
)
    requires
        precision::moderate(rows::baselines_down(items), bound, s),
        0 <= i < rows::baselines_down(items).len() - 1,
        rows::row_pitch(items).finite(),
        rows::baselines_down(items)[i].value() - rows::baselines_down(items)[i + 1].value()
            >= rows::row_pitch(items).value() + 2 * precision::grain(s),
    ensures
        exists|g: int|
            0 < g < rows::row_groups(items).len() && (#[trigger] rows::row_groups(items).take(
                g,
            )).flatten() == rows::baselines_down(items).take(i + 1),
{
    let down = rows::baselines_down(items);
    let pitch = rows::row_pitch(items);
    let apart = rows::starts_row(pitch);
    let part = down.take(i + 1);
    let groups = cluster::grouped(part, apart);
    let n = groups.len() - 1;
    let group = groups.last();
    let y = down[i + 1];
    let before = |a: Single, b: Single| b.total_place() <= a.total_place();
    let ys = items.map_values(|it: (usize, &TextItem)| it.1.y);
    let up = order::ascending(ys);
    order::lemma_ascending(ys);
    cluster::lemma_last_group(part, apart);
    assert forall|j: int, k: int| 0 <= j < k < part.len() implies before(
        #[trigger] part[j],
        #[trigger] part[k],
    ) by {
        assert(part[j] == up[down.len() - 1 - j]);
        assert(part[k] == up[down.len() - 1 - k]);
    }
    cluster::lemma_grouped_ordered(part, apart, before);
    precision::lemma_grain(s);
    precision::lemma_moderate_values(down, bound, s);
    let high = (bound * pow2(149)) as int;
    assert forall|k: int| 0 <= k < group.len() implies down[i].value() <= (
    #[trigger] group[k]).value() <= high && group[k].size().at_most(single::whole(bound)) by {
        assert(part.contains(groups[n][k]));
        let j = choose|j: int| 0 <= j < part.len() && part[j] == group[k];
        assert(part[j] == down[j]);
        if j < i {
            assert(before(part[j], part[i]));
            single::lemma_place_orders_values(down[i], down[j]);
        }
    }
    assert(precision::moderate(group, bound, s)) by {
        let t = pow2(s);
        let (a, b) = (group.len(), down.len());
        lemma_pow2_pos(s);
        assert(a * (bound + 1) * t <= b * (bound + 1) * t) by (nonlinear_arith)
            requires
                a <= b,
                bound >= 0,
                t > 0,
        ;
    }
    precision::lemma_mean_range(group, bound, s, down[i].value(), high);
    assert((bound + 1) * pow2(149) == bound * pow2(149) + pow2(149)) by (nonlinear_arith);
    let middle = cluster::mean(group);
    precision::lemma_difference_error(middle, y, s);
    single::lemma_place_orders_values(pitch, middle.minus(y));
    assert(apart(group, y));
    let g = cluster::lemma_grouped_cut(down, apart, i);
    assert(rows::row_groups(items).take(g).flatten() == part);
}

/// Within a row, each baseline is less than the row pitch below the average of
/// those above it.
pub proof fn lemma_rows_hold_together(items: Seq<(usize, &TextItem)>, g: int, k: int)
    requires
        0 <= g < rows::row_groups(items).len(),
        0 < k < rows::row_groups(items)[g].len(),
    ensures
        !rows::row_pitch(items).at_most(
            cluster::mean(rows::row_groups(items)[g].take(k)).minus(
                rows::row_groups(items)[g][k],
            ),
        ),
{
    let apart = rows::starts_row(rows::row_pitch(items));
    cluster::lemma_grouped_apart(rows::baselines_down(items), apart);
    assert(!apart(rows::row_groups(items)[g].take(k), rows::row_groups(items)[g][k]));
}

/// Each item is near a position whose left edge is less than the reach from it
/// on either side.
pub proof fn lemma_items_near(items: Seq<(usize, &TextItem)>, center: Single, reach: Single)
    requires
        reach.finite(),
        forall|i: int|
            0 <= i < items.len() ==> (#[trigger] items[i]).1.x.minus(center).finite(),
    ensures
        columns::items_near(items, center, reach).len() == items.filter(
            |it: (usize, &TextItem)|
                -reach.value() < it.1.x.minus(center).value() < reach.value(),
        ).len(),
        columns::figures_near(items, center, reach).len() == items.filter(
            |it: (usize, &TextItem)|
                -reach.value() < it.1.x.minus(center).value() < reach.value() && text::numeric(
                    it.1.text@,
                ),
        ).len(),
{
    let is_near = |it: (usize, &TextItem)| columns::near(it, center, reach);
    let within = |it: (usize, &TextItem)|
        -reach.value() < it.1.x.minus(center).value() < reach.value();
    let near_figure = |it: (usize, &TextItem)|
        columns::near(it, center, reach) && text::numeric(it.1.text@);
    let figure_within = |it: (usize, &TextItem)|
        -reach.value() < it.1.x.minus(center).value() < reach.value() && text::numeric(
            it.1.text@,
        );
    assert forall|i: int| 0 <= i < items.len() implies is_near(#[trigger] items[i]) == within(
        items[i],
    ) by {
        let d = items[i].1.x.minus(center);
        arithmetic::lemma_signs(d);
        single::lemma_place_orders_values(d.size(), reach);
    }
    order::lemma_filters_agree(items, items, is_near, within);
    order::lemma_filters_agree(items, items, near_figure, figure_within);
}

/// Fewer than three groups of left edges stay as they are. Of three or more, each
/// column is a run of neighbouring groups, and no two neighbouring columns are
/// one.
pub proof fn lemma_column_groups(items: Seq<(usize, &TextItem)>)
    ensures
        ({
            let xs = columns::left_edges(items);
            let threshold = columns::column_threshold(xs);
            let groups = cluster::grouped(xs, columns::starts_column(threshold));
            let found = columns::column_groups(items);
            &&& groups.len() < 3 ==> found == groups
            &&& groups.len() >= 3 ==> columns::runs_of(groups, found) && forall|g: int|
                0 <= g < found.len() - 1 ==> !columns::one_column(
                    #[trigger] found[g],
                    found[g + 1],
                    items,
                    threshold.0,
                )
        }),
{
    let xs = columns::left_edges(items);
    let threshold = columns::column_threshold(xs);
    let groups = cluster::grouped(xs, columns::starts_column(threshold));
    cluster::lemma_grouped_partition(xs, columns::starts_column(threshold));
    if groups.len() >= 3 {
        columns::lemma_merged(groups, items, threshold.0);
        columns::lemma_merged_runs(groups, items, threshold.0);
    }
}

/// There is a row for each group of baselines. With baselines of moderate size it
/// is at their exact average, but for a grain.
pub proof fn lemma_row_is_average(items: Seq<(usize, &TextItem)>, g: int, bound: nat, s: nat)
    requires
        0 <= g < rows::row_groups(items).len(),
        precision::moderate(rows::row_groups(items)[g], bound, s),
    ensures
        ({
            let row = rows::row_groups(items)[g];
            let found = rows::row_boundaries(items);
            let slack = row.len() * precision::grain(s);
            &&& found.len() == rows::row_groups(items).len()
            &&& found[g].finite()
            &&& row.len() * found[g].value() <= precision::exact_total(row) + slack
            &&& row.len() * found[g].value() >= precision::exact_total(row) - slack
        }),
{
    let row = rows::row_groups(items)[g];
    rows::lemma_rows_take_up_baselines(items);
    assert(row.len() > 0);
    precision::lemma_mean_error(row, bound, s);
}

/// Each column boundary stands for a group of left edges. With edges of moderate
/// size it is at their exact average, but for a grain.
pub proof fn lemma_column_is_average(
    items: Seq<(usize, &TextItem)>,
    mode: TableDetectionMode,
    i: int,
    bound: nat,
    s: nat,
)
    requires
        0 <= i < columns::column_boundaries(items, mode).len(),
        forall|g: int|
            0 <= g < columns::column_groups(items).len() ==> precision::moderate(
                #[trigger] columns::column_groups(items)[g],
                bound,
                s,
            ),
    ensures
        ({
            let column = columns::column_boundaries(items, mode)[i];
            let groups = columns::column_groups(items);
            &&& column.finite()
            &&& exists|g: int| #![trigger groups[g]] 0 <= g < groups.len() && {
                let n = groups[g].len();
                let slack = n * precision::grain(s);
                &&& n * column.value() <= precision::exact_total(groups[g]) + slack
                &&& n * column.value() >= precision::exact_total(groups[g]) - slack
            }
        }),
{
    let column = columns::column_boundaries(items, mode)[i];
    let groups = columns::column_groups(items);
    columns::lemma_boundary_is_populated(items, mode, i);
    columns::lemma_columns_take_up_edges(items);
    let g = choose|g: int| 0 <= g < groups.len() && column == cluster::mean(#[trigger] groups[g]);
    assert(groups[g].len() > 0);
    assert(precision::moderate(groups[g], bound, s));
    precision::lemma_mean_error(groups[g], bound, s);
}

} // verus!
