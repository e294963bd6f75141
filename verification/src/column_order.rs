//! That column boundaries come from left to right.

use crate::cluster;
use crate::columns;
use crate::lookup;
use crate::order;
use crate::precision;
use crate::single;
use crate::single::Single;
use crate::types::{TableDetectionMode, TextItem};
use vstd::arithmetic::power2::*;
use vstd::prelude::*;

verus! {

/// Whether the positions in groups are in ascending order, within a group and
/// from one group to another.
pub open spec fn in_order(groups: Seq<Seq<Single>>) -> bool {
    &&& forall|g: int, i: int, j: int|
        0 <= g < groups.len() && 0 <= i < j < groups[g].len() ==> (
        #[trigger] groups[g][i]).total_place() <= (#[trigger] groups[g][j]).total_place()
    &&& forall|g: int, h: int, i: int, j: int|
        0 <= g < h < groups.len() && 0 <= i < groups[g].len() && 0 <= j < groups[h].len() ==> (
        #[trigger] groups[g][i]).total_place() <= (#[trigger] groups[h][j]).total_place()
}

/// Whether the end of a group, from some position on, is `apart` from `x`.
pub open spec fn end_apart(
    group: Seq<Single>,
    x: Single,
    apart: spec_fn(Seq<Single>, Single) -> bool,
) -> bool {
    exists|k: int| 0 <= k < group.len() && apart(#[trigger] group.skip(k), x)
}

/// Whether groups are in order, none is empty, and the end of each is apart from
/// the first position of the next one.
pub open spec fn separate(
    groups: Seq<Seq<Single>>,
    apart: spec_fn(Seq<Single>, Single) -> bool,
) -> bool {
    &&& in_order(groups)
    &&& forall|g: int| 0 <= g < groups.len() ==> (#[trigger] groups[g]).len() > 0
    &&& forall|g: int|
        0 <= g < groups.len() - 1 ==> end_apart(
            #[trigger] groups[g],
            groups[g + 1].first(),
            apart,
        )
}

/// Grouping sorted positions gives separate groups.
proof fn lemma_grouped_separate(
    xs: Seq<Single>,
    apart: spec_fn(Seq<Single>, Single) -> bool,
)
    requires
        forall|i: int, j: int|
            0 <= i < j < xs.len() ==> (#[trigger] xs[i]).total_place() <= (
            #[trigger] xs[j]).total_place(),
    ensures
        separate(cluster::grouped(xs, apart), apart),
{
    let groups = cluster::grouped(xs, apart);
    let before = |a: Single, b: Single| a.total_place() <= b.total_place();
    assert forall|i: int, j: int| 0 <= i < j < xs.len() implies before(
        #[trigger] xs[i],
        #[trigger] xs[j],
    ) by {}
    cluster::lemma_grouped_ordered(xs, apart, before);
    cluster::lemma_grouped_partition(xs, apart);
    cluster::lemma_grouped_apart(xs, apart);
    assert forall|g: int, i: int, j: int|
        0 <= g < groups.len() && 0 <= i < j < groups[g].len() implies (
    #[trigger] groups[g][i]).total_place() <= (#[trigger] groups[g][j]).total_place() by {
        assert(before(groups[g][i], groups[g][j]));
    }
    assert forall|g: int, h: int, i: int, j: int|
        0 <= g < h < groups.len() && 0 <= i < groups[g].len() && 0 <= j
            < groups[h].len() implies (#[trigger] groups[g][i]).total_place() <= (
    #[trigger] groups[h][j]).total_place() by {
        assert(before(groups[g][i], groups[h][j]));
    }
    assert forall|g: int| 0 <= g < groups.len() - 1 implies end_apart(
        #[trigger] groups[g],
        groups[g + 1].first(),
        apart,
    ) by {
        assert(groups[g].skip(0) == groups[g]);
        assert(apart(groups[g].skip(0), groups[g + 1].first()));
    }
}

/// Joining two neighbours keeps groups in order.
proof fn lemma_joined_in_order(groups: Seq<Seq<Single>>, at: int)
    requires
        in_order(groups),
        0 <= at < groups.len() - 1,
    ensures
        in_order(columns::joined(groups, at)),
{
    let after = columns::joined(groups, at);
    let split = groups[at].len() as int;
    let group_of = |g: int, k: int|
        if g < at || (g == at && k < split) {
            g
        } else {
            g + 1
        };
    let place_of = |g: int, k: int|
        if g == at && k >= split {
            k - split
        } else {
            k
        };
    assert forall|g: int, k: int| 0 <= g < after.len() && 0 <= k < after[g].len() implies {
        let h = group_of(g, k);
        let j = place_of(g, k);
        0 <= h < groups.len() && 0 <= j < groups[h].len() && #[trigger] after[g][k]
            == groups[h][j]
    } by {
        if g == at {
            assert(after[g] == groups[at] + groups[at + 1]);
        } else if g < at {
            assert(after[g] == groups[g]);
        } else {
            assert(after[g] == groups[g + 1]);
        }
    }
}

/// Joining two neighbours keeps groups separate.
proof fn lemma_joined_separate(
    groups: Seq<Seq<Single>>,
    at: int,
    apart: spec_fn(Seq<Single>, Single) -> bool,
)
    requires
        separate(groups, apart),
        0 <= at < groups.len() - 1,
    ensures
        separate(columns::joined(groups, at), apart),
{
    let after = columns::joined(groups, at);
    lemma_joined_in_order(groups, at);
    assert forall|g: int| 0 <= g < after.len() implies (#[trigger] after[g]).len() > 0 by {
        if g == at {
            assert(after[g] == groups[at] + groups[at + 1]);
        } else if g < at {
            assert(after[g] == groups[g]);
        } else {
            assert(after[g] == groups[g + 1]);
        }
    }
    assert forall|g: int| 0 <= g < after.len() - 1 implies end_apart(
        #[trigger] after[g],
        after[g + 1].first(),
        apart,
    ) by {
        if g < at {
            assert(after[g] == groups[g]);
            if g + 1 < at {
                assert(after[g + 1] == groups[g + 1]);
            } else {
                assert(after[g + 1] == groups[at] + groups[at + 1]);
                assert(groups[at].len() > 0);
                assert(after[g + 1].first() == groups[g + 1].first());
            }
        } else {
            let x = groups[g + 2].first();
            assert(after[g + 1] == groups[g + 2]);
            assert(end_apart(groups[g + 1], x, apart));
            let k = choose|k: int|
                0 <= k < groups[g + 1].len() && apart(#[trigger] groups[g + 1].skip(k), x);
            if g == at {
                let j = groups[at].len() + k;
                assert(after[g] == groups[at] + groups[at + 1]);
                assert(after[g].skip(j) == groups[g + 1].skip(k));
            } else {
                assert(after[g] == groups[g + 1]);
            }
        }
    }
}

/// A pass over separate groups leaves them separate.
proof fn lemma_merge_pass_separate(
    groups: Seq<Seq<Single>>,
    i: nat,
    items: Seq<(usize, &TextItem)>,
    threshold: Single,
    apart: spec_fn(Seq<Single>, Single) -> bool,
)
    requires
        separate(groups, apart),
    ensures
        separate(columns::merge_pass(groups, i, items, threshold), apart),
    decreases groups.len(), groups.len() - i,
{
    if i + 1 < groups.len() {
        if columns::one_column(groups[i as int], groups[i as int + 1], items, threshold) {
            lemma_joined_separate(groups, i as int, apart);
            lemma_merge_pass_separate(
                columns::joined(groups, i as int),
                i,
                items,
                threshold,
                apart,
            );
        } else {
            lemma_merge_pass_separate(groups, i + 1, items, threshold, apart);
        }
    }
}

/// Merging separate groups leaves them separate.
proof fn lemma_merged_separate(
    groups: Seq<Seq<Single>>,
    items: Seq<(usize, &TextItem)>,
    threshold: Single,
    apart: spec_fn(Seq<Single>, Single) -> bool,
)
    requires
        separate(groups, apart),
    ensures
        separate(columns::merged(groups, items, threshold), apart),
    decreases groups.len(),
{
    let next = columns::merge_pass(groups, 0, items, threshold);
    lemma_merge_pass_separate(groups, 0, items, threshold, apart);
    if next.len() < groups.len() {
        lemma_merged_separate(next, items, threshold, apart);
    }
}

/// The groups of columns are separate.
pub proof fn lemma_column_groups_separate(items: Seq<(usize, &TextItem)>)
    ensures
        separate(
            columns::column_groups(items),
            columns::starts_column(columns::column_threshold(columns::left_edges(items))),
        ),
{
    let xs = columns::left_edges(items);
    let threshold = columns::column_threshold(xs);
    let apart = columns::starts_column(threshold);
    let groups = cluster::grouped(xs, apart);
    order::lemma_ascending(items.map_values(|it: (usize, &TextItem)| it.1.x));
    lemma_grouped_separate(xs, apart);
    if groups.len() >= 3 {
        lemma_merged_separate(groups, items, threshold.0, apart);
    }
}

/// A position that starts the next column is the threshold right of the end of
/// a group, but for a grain.
proof fn lemma_start_distance(xs: Seq<Single>, end: Single, x: Single, s: nat)
    requires
        s <= 24,
        end.finite(),
        x.finite(),
        -(0x100_0000 * precision::grain(s)) <= end.value() <= 0x100_0000 * precision::grain(s),
        -(0x100_0000 * precision::grain(s)) <= x.value() <= 0x100_0000 * precision::grain(s),
        columns::column_threshold(xs).0.below(x.minus(end)),
    ensures
        columns::column_threshold(xs).0.finite(),
        columns::column_threshold(xs).0.value() >= 8 * pow2(149),
        x.value() - end.value() >= columns::column_threshold(xs).0.value() - precision::grain(s),
{
    let threshold = columns::column_threshold(xs).0;
    columns::lemma_threshold_range(xs);
    precision::lemma_difference_error(x, end, s);
    precision::lemma_whole_exact(8);
    single::lemma_place_orders_values(threshold, x.minus(end));
    single::lemma_place_orders_values(single::whole(8), threshold);
}

/// The middle of a group of moderate size is within the reach of exact
/// differences.
proof fn lemma_middle_size(group: Seq<Single>, bound: nat, s: nat)
    requires
        group.len() > 0,
        precision::moderate(group, bound, s),
    ensures
        cluster::mean(group).finite(),
        -(0x100_0000 * precision::grain(s)) <= cluster::mean(group).value() <= 0x100_0000
            * precision::grain(s),
        forall|k: int|
            0 <= k < group.len() ==> (#[trigger] group[k]).finite() && -(0x100_0000
                * precision::grain(s)) <= group[k].value() <= 0x100_0000 * precision::grain(s),
{
    let high = (bound * pow2(149)) as int;
    precision::lemma_grain(s);
    precision::lemma_moderate_values(group, bound, s);
    precision::lemma_mean_range(group, bound, s, -high, high);
    assert((bound + 1) * pow2(149) == bound * pow2(149) + pow2(149)) by (nonlinear_arith);
}

/// The middle of a group is the threshold left of the position that its end is
/// apart from, but for three grains.
proof fn lemma_group_before(
    xs: Seq<Single>,
    group: Seq<Single>,
    x: Single,
    bound: nat,
    s: nat,
)
    requires
        group.len() > 0,
        precision::moderate(group, bound, s),
        x.finite(),
        -(0x100_0000 * precision::grain(s)) <= x.value() <= 0x100_0000 * precision::grain(s),
        forall|i: int, j: int|
            0 <= i < j < group.len() ==> (#[trigger] group[i]).total_place() <= (
            #[trigger] group[j]).total_place(),
        end_apart(group, x, columns::starts_column(columns::column_threshold(xs))),
    ensures
        cluster::mean(group).finite(),
        columns::column_threshold(xs).0.finite(),
        columns::column_threshold(xs).0.value() >= 8 * pow2(149),
        x.value() - cluster::mean(group).value() >= columns::column_threshold(xs).0.value() - 3
            * precision::grain(s),
{
    let threshold = columns::column_threshold(xs);
    let apart = columns::starts_column(threshold);
    let k = choose|k: int| 0 <= k < group.len() && apart(#[trigger] group.skip(k), x);
    let end = group.skip(k);
    precision::lemma_grain(s);
    precision::lemma_mean_of_end(group, k, bound, s);
    lemma_middle_size(group, bound, s);
    if threshold.1 {
        let last = end.last();
        let n = group.len() as int;
        let low = -(0x100_0000 * precision::grain(s));
        assert(last == group[n - 1]);
        assert forall|i: int| 0 <= i < n implies low <= (#[trigger] group[i]).value()
            <= last.value() by {
            if i < n - 1 {
                single::lemma_place_orders_values(group[i], group[n - 1]);
            }
        }
        precision::lemma_mean_range(group, bound, s, low, last.value());
        lemma_start_distance(xs, last, x, s);
    } else {
        lemma_middle_size(end, bound, s);
        lemma_start_distance(xs, cluster::mean(end), x, s);
    }
}

/// The middle of a group is no more than a grain left of its first position.
proof fn lemma_group_after(group: Seq<Single>, bound: nat, s: nat)
    requires
        group.len() > 0,
        precision::moderate(group, bound, s),
        forall|i: int, j: int|
            0 <= i < j < group.len() ==> (#[trigger] group[i]).total_place() <= (
            #[trigger] group[j]).total_place(),
    ensures
        cluster::mean(group).finite(),
        group[0].value() - cluster::mean(group).value() <= precision::grain(s),
{
    let high = (bound * pow2(149)) as int;
    precision::lemma_moderate_values(group, bound, s);
    assert forall|i: int| 0 <= i < group.len() implies group[0].value() <= (
    #[trigger] group[i]).value() <= high by {
        if i > 0 {
            single::lemma_place_orders_values(group[0], group[i]);
        }
    }
    precision::lemma_mean_range(group, bound, s, group[0].value(), high);
}

/// The middle of a group of columns is the threshold left of the middle of the
/// next one but for four grains, where their positions are of moderate size.
proof fn lemma_next_column_is_right(items: Seq<(usize, &TextItem)>, g: int, bound: nat, s: nat)
    requires
        0 <= g < columns::column_groups(items).len() - 1,
        precision::moderate(columns::column_groups(items)[g], bound, s),
        precision::moderate(columns::column_groups(items)[g + 1], bound, s),
    ensures
        ({
            let left = cluster::mean(columns::column_groups(items)[g]);
            let right = cluster::mean(columns::column_groups(items)[g + 1]);
            let threshold = columns::column_threshold(columns::left_edges(items)).0;
            &&& left.finite()
            &&& right.finite()
            &&& threshold.finite()
            &&& threshold.value() >= 8 * pow2(149)
            &&& right.value() - left.value() >= threshold.value() - 4 * precision::grain(s)
        }),
{
    let groups = columns::column_groups(items);
    let xs = columns::left_edges(items);
    let apart = columns::starts_column(columns::column_threshold(xs));
    lemma_column_groups_separate(items);
    assert(groups[g].len() > 0 && groups[g + 1].len() > 0);
    assert(end_apart(groups[g], groups[g + 1].first(), apart));
    lemma_group_after(groups[g + 1], bound, s);
    lemma_middle_size(groups[g + 1], bound, s);
    lemma_group_before(xs, groups[g], groups[g + 1][0], bound, s);
}

proof fn lemma_column_right_of(
    items: Seq<(usize, &TextItem)>,
    bound: nat,
    s: nat,
    i: int,
    j: int,
)
    requires
        0 <= i < j < columns::column_groups(items).len(),
        forall|g: int|
            0 <= g < columns::column_groups(items).len() ==> precision::moderate(
                #[trigger] columns::column_groups(items)[g],
                bound,
                s,
            ),
    ensures
        ({
            let left = cluster::mean(columns::column_groups(items)[i]);
            let right = cluster::mean(columns::column_groups(items)[j]);
            let threshold = columns::column_threshold(columns::left_edges(items)).0;
            &&& left.finite()
            &&& right.finite()
            &&& threshold.finite()
            &&& threshold.value() >= 8 * pow2(149)
            &&& right.value() - left.value() >= threshold.value() - 4 * precision::grain(s)
        }),
    decreases j - i,
{
    let groups = columns::column_groups(items);
    assert(precision::moderate(groups[j - 1], bound, s));
    assert(precision::moderate(groups[j], bound, s));
    precision::lemma_grain(s);
    lemma_next_column_is_right(items, j - 1, bound, s);
    if i < j - 1 {
        lemma_column_right_of(items, bound, s, i, j - 1);
    }
}

/// Whether positions are numbers, each of which is at least `distance` right of
/// all before it; in multiples of 2^-149.
pub open spec fn spread(xs: Seq<Single>, distance: int) -> bool {
    &&& forall|i: int| 0 <= i < xs.len() ==> (#[trigger] xs[i]).finite()
    &&& forall|i: int, j: int|
        0 <= i < j < xs.len() ==> (#[trigger] xs[j]).value() - (#[trigger] xs[i]).value()
            >= distance
}

/// Some of the positions that are spread out are spread out too.
proof fn lemma_filter_spread(xs: Seq<Single>, keep: spec_fn(Single) -> bool, distance: int)
    requires
        spread(xs, distance),
    ensures
        spread(xs.filter(keep), distance),
    decreases xs.len(),
{
    reveal(Seq::filter);
    if xs.len() > 0 {
        let rest = xs.drop_last();
        assert(forall|i: int| 0 <= i < rest.len() ==> #[trigger] rest[i] == xs[i]);
        lemma_filter_spread(rest, keep, distance);
        assert(xs[xs.len() - 1] == xs.last());
        assert forall|i: int| 0 <= i < rest.filter(keep).len() implies xs.last().value() - (
        #[trigger] rest.filter(keep)[i]).value() >= distance by {
            let j = order::lemma_filter_source(rest, keep, i);
            assert(xs[j] == rest[j]);
        }
    }
}

/// Whether positions come from left to right, no two the same.
pub open spec fn rising(xs: Seq<Single>) -> bool {
    forall|i: int, j: int| 0 <= i < j < xs.len() ==> (#[trigger] xs[i]).below(#[trigger] xs[j])
}

/// The column boundaries of items with left edges of moderate size come from
/// left to right, and any two are the column threshold apart but for four
/// grains. The threshold is at least 8.
pub proof fn lemma_columns_rise(
    items: Seq<(usize, &TextItem)>,
    mode: TableDetectionMode,
    bound: nat,
    s: nat,
)
    requires
        forall|g: int|
            0 <= g < columns::column_groups(items).len() ==> precision::moderate(
                #[trigger] columns::column_groups(items)[g],
                bound,
                s,
            ),
    ensures
        ({
            let found = columns::column_boundaries(items, mode);
            let threshold = columns::column_threshold(columns::left_edges(items)).0;
            &&& rising(found)
            &&& spread(found, threshold.value() - 4 * precision::grain(s))
            &&& found.len() > 1 ==> threshold.finite() && threshold.value() >= 8 * pow2(149)
        }),
{
    let found = columns::column_boundaries(items, mode);
    let groups = columns::column_groups(items);
    let centers = groups.map_values(|g: Seq<Single>| cluster::mean(g));
    let threshold = columns::column_threshold(columns::left_edges(items)).0;
    let distance = threshold.value() - 4 * precision::grain(s);
    let least = columns::least_items(items.len(), centers.len());
    let enough = |c: Single| columns::items_near(items, c, threshold).len() >= least;
    columns::lemma_columns_take_up_edges(items);
    assert(spread(centers, distance)) by {
        assert forall|i: int| 0 <= i < centers.len() implies (#[trigger] centers[i]).finite() by {
            assert(groups[i].len() > 0);
            precision::lemma_mean_error(groups[i], bound, s);
        }
        assert forall|i: int, j: int| 0 <= i < j < centers.len() implies (
        #[trigger] centers[j]).value() - (#[trigger] centers[i]).value() >= distance by {
            lemma_column_right_of(items, bound, s, i, j);
        }
    }
    lemma_filter_spread(centers, enough, distance);
    centers.lemma_filter_len(enough);
    if found.len() > 1 {
        lemma_column_right_of(items, bound, s, 0, 1);
        assert(precision::moderate(groups[0], bound, s));
        precision::lemma_grain(s);
        assert forall|i: int, j: int| 0 <= i < j < found.len() implies (#[trigger] found[i]).below(
            #[trigger] found[j],
        ) by {
            single::lemma_place_orders_values(found[i], found[j]);
        }
    }
}

/// Each column boundary of items with left edges of moderate size is found at
/// its own position.
pub proof fn lemma_boundary_finds_itself(
    items: Seq<(usize, &TextItem)>,
    mode: TableDetectionMode,
    bound: nat,
    s: nat,
    i: int,
)
    requires
        0 <= i < columns::column_boundaries(items, mode).len() <= usize::MAX,
        forall|g: int|
            0 <= g < columns::column_groups(items).len() ==> precision::moderate(
                #[trigger] columns::column_groups(items)[g],
                bound,
                s,
            ),
    ensures
        lookup::column_index(
            columns::column_boundaries(items, mode),
            columns::column_boundaries(items, mode)[i],
        ) == Some(i as usize),
{
    let found = columns::column_boundaries(items, mode);
    lemma_columns_rise(items, mode, bound, s);
    assert forall|j: int, k: int| 0 <= j < k < found.len() implies (#[trigger] found[j]).value()
        != (#[trigger] found[k]).value() by {
        single::lemma_place_orders_values(found[j], found[k]);
    }
    lookup::lemma_column_finds_itself(found, i);
}

} // verus!
