//! That boundaries do not depend on the order in which items are given.

use crate::cluster;
use crate::columns;
use crate::order;
use crate::rows;
use crate::single::Single;
use crate::text;
use crate::types::{TableDetectionMode, TextItem};
use vstd::prelude::*;
use vstd::seq_lib::*;

verus! {

/// Numbers in ascending order do not depend on the order they came in.
proof fn lemma_same_ascending(a: Seq<Single>, b: Seq<Single>)
    requires
        a.to_multiset() == b.to_multiset(),
    ensures
        order::ascending(a) == order::ascending(b),
{
    order::lemma_by_total_place_is_total();
    a.lemma_sort_by_ensures(order::by_total_place());
    b.lemma_sort_by_ensures(order::by_total_place());
    lemma_sorted_unique(order::ascending(a), order::ascending(b), order::by_total_place());
}

/// What the row boundaries depend on: the baselines and font sizes of items.
pub open spec fn row_pairs(items: Seq<(usize, &TextItem)>) -> Seq<(Single, Single)> {
    items.map_values(|it: (usize, &TextItem)| (it.1.y, it.1.font_size))
}

/// Row boundaries depend on the baselines and font sizes of the items only, and
/// not on the order of the items.
pub proof fn lemma_rows_ignore_order(a: Seq<(usize, &TextItem)>, b: Seq<(usize, &TextItem)>)
    requires
        row_pairs(a).to_multiset() == row_pairs(b).to_multiset(),
    ensures
        rows::row_boundaries(a) == rows::row_boundaries(b),
{
    let baseline = |it: (usize, &TextItem)| it.1.y;
    let font_size = |it: (usize, &TextItem)| it.1.font_size;
    let first = |p: (Single, Single)| p.0;
    let second = |p: (Single, Single)| p.1;
    let all = |p: (Single, Single)| true;
    order::lemma_same_elements(row_pairs(a), row_pairs(b), first, all);
    order::lemma_same_elements(row_pairs(a), row_pairs(b), second, all);
    assert(row_pairs(a).map_values(first) == a.map_values(baseline));
    assert(row_pairs(b).map_values(first) == b.map_values(baseline));
    assert(row_pairs(a).map_values(second) == a.map_values(font_size));
    assert(row_pairs(b).map_values(second) == b.map_values(font_size));
    lemma_same_ascending(a.map_values(baseline), b.map_values(baseline));
    lemma_same_ascending(a.map_values(font_size), b.map_values(font_size));
}

/// What the column boundaries depend on: the left edges of items, and whether
/// they look like numbers.
pub open spec fn column_pairs(items: Seq<(usize, &TextItem)>) -> Seq<(Single, bool)> {
    items.map_values(|it: (usize, &TextItem)| (it.1.x, text::numeric(it.1.text@)))
}

/// The items near a position, and the figures among them, counted by pairs.
pub proof fn lemma_counts_by_pairs(
    items: Seq<(usize, &TextItem)>,
    center: Single,
    reach: Single,
)
    ensures
        columns::items_near(items, center, reach).len() == column_pairs(items).filter(
            |p: (Single, bool)| p.0.minus(center).size().below(reach),
        ).len(),
        columns::figures_near(items, center, reach).len() == column_pairs(items).filter(
            |p: (Single, bool)| p.0.minus(center).size().below(reach) && p.1,
        ).len(),
{
    order::lemma_filters_agree(
        items,
        column_pairs(items),
        |it: (usize, &TextItem)| columns::near(it, center, reach),
        |p: (Single, bool)| p.0.minus(center).size().below(reach),
    );
    order::lemma_filters_agree(
        items,
        column_pairs(items),
        |it: (usize, &TextItem)|
            columns::near(it, center, reach) && text::numeric(it.1.text@),
        |p: (Single, bool)| p.0.minus(center).size().below(reach) && p.1,
    );
}

/// As many items are near a position, and as many figures, whatever the order
/// of the items.
proof fn lemma_same_counts(
    a: Seq<(usize, &TextItem)>,
    b: Seq<(usize, &TextItem)>,
    center: Single,
    reach: Single,
)
    requires
        column_pairs(a).to_multiset() == column_pairs(b).to_multiset(),
    ensures
        columns::items_near(a, center, reach).len() == columns::items_near(b, center, reach).len(),
        columns::figure_share(a, center, reach) == columns::figure_share(b, center, reach),
{
    let first = |p: (Single, bool)| p.0;
    lemma_counts_by_pairs(a, center, reach);
    lemma_counts_by_pairs(b, center, reach);
    order::lemma_same_elements(
        column_pairs(a),
        column_pairs(b),
        first,
        |p: (Single, bool)| p.0.minus(center).size().below(reach),
    );
    order::lemma_same_elements(
        column_pairs(a),
        column_pairs(b),
        first,
        |p: (Single, bool)| p.0.minus(center).size().below(reach) && p.1,
    );
}

proof fn lemma_same_merge_pass(
    groups: Seq<Seq<Single>>,
    i: nat,
    a: Seq<(usize, &TextItem)>,
    b: Seq<(usize, &TextItem)>,
    threshold: Single,
)
    requires
        column_pairs(a).to_multiset() == column_pairs(b).to_multiset(),
    ensures
        columns::merge_pass(groups, i, a, threshold) == columns::merge_pass(
            groups,
            i,
            b,
            threshold,
        ),
    decreases groups.len(), groups.len() - i,
{
    if i + 1 < groups.len() {
        let k = i as int;
        lemma_same_counts(a, b, cluster::mean(groups[k]), threshold);
        lemma_same_counts(a, b, cluster::mean(groups[k + 1]), threshold);
        if columns::one_column(groups[k], groups[k + 1], a, threshold) {
            lemma_same_merge_pass(columns::joined(groups, k), i, a, b, threshold);
        } else {
            lemma_same_merge_pass(groups, i + 1, a, b, threshold);
        }
    }
}

proof fn lemma_same_merged(
    groups: Seq<Seq<Single>>,
    a: Seq<(usize, &TextItem)>,
    b: Seq<(usize, &TextItem)>,
    threshold: Single,
)
    requires
        column_pairs(a).to_multiset() == column_pairs(b).to_multiset(),
    ensures
        columns::merged(groups, a, threshold) == columns::merged(groups, b, threshold),
    decreases groups.len(),
{
    let next = columns::merge_pass(groups, 0, a, threshold);
    lemma_same_merge_pass(groups, 0, a, b, threshold);
    if next.len() < groups.len() {
        lemma_same_merged(next, a, b, threshold);
    }
}

/// Column boundaries depend only on the left edges of the items and on whether
/// they look like numbers, and not on the order of the items.
pub proof fn lemma_columns_ignore_order(
    a: Seq<(usize, &TextItem)>,
    b: Seq<(usize, &TextItem)>,
    mode: TableDetectionMode,
)
    requires
        column_pairs(a).to_multiset() == column_pairs(b).to_multiset(),
    ensures
        columns::column_boundaries(a, mode) == columns::column_boundaries(b, mode),
{
    let edge = |it: (usize, &TextItem)| it.1.x;
    let first = |p: (Single, bool)| p.0;
    order::lemma_same_elements(column_pairs(a), column_pairs(b), first, |p: (Single, bool)| true);
    assert(column_pairs(a).map_values(first) == a.map_values(edge));
    assert(column_pairs(b).map_values(first) == b.map_values(edge));
    lemma_same_ascending(a.map_values(edge), b.map_values(edge));
    let xs = columns::left_edges(a);
    let threshold = columns::column_threshold(xs);
    lemma_same_merged(
        cluster::grouped(xs, columns::starts_column(threshold)),
        a,
        b,
        threshold.0,
    );
    let centers = columns::column_groups(a).map_values(
        |g: Seq<Single>| cluster::mean(g),
    );
    let least = columns::least_items(a.len(), centers.len());
    let enough_a = |c: Single| columns::items_near(a, c, threshold.0).len() >= least;
    let enough_b = |c: Single| columns::items_near(b, c, threshold.0).len() >= least;
    assert forall|c: Single| #[trigger] enough_a(c) == enough_b(c) by {
        lemma_same_counts(a, b, c, threshold.0);
    }
    assert(enough_a =~= enough_b);
    let found = columns::populated_columns(a);
    assert(found == columns::populated_columns(b));
    assert forall|i: int| 0 <= i < found.len() implies columns::crowded(
        a,
        #[trigger] found[i],
        threshold.0,
    ) == columns::crowded(b, found[i], threshold.0) by {
        lemma_same_counts(a, b, found[i], threshold.0);
    }
}

} // verus!
