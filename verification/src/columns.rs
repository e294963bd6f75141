//! Detection of column boundaries.

use crate::cluster;
use crate::order;
use crate::precision;
use crate::single;
use crate::single::Single;
use crate::text;
use crate::types::{TableDetectionMode, TextItem};
use vstd::prelude::*;
use vstd::seq_lib::*;

verus! {

/// Whether an item starts nearer than `reach` to `center`.
pub open spec fn near(item: (usize, &TextItem), center: Single, reach: Single) -> bool {
    item.1.x.minus(center).size().below(reach)
}

/// The items that start nearer than `reach` to `center`.
pub open spec fn items_near(
    items: Seq<(usize, &TextItem)>,
    center: Single,
    reach: Single,
) -> Seq<(usize, &TextItem)> {
    items.filter(|it: (usize, &TextItem)| near(it, center, reach))
}

/// Those of the items near `center` that look like numbers.
pub open spec fn figures_near(
    items: Seq<(usize, &TextItem)>,
    center: Single,
    reach: Single,
) -> Seq<(usize, &TextItem)> {
    items.filter(|it: (usize, &TextItem)| near(it, center, reach) && text::numeric(it.1.text@))
}

/// The part of the items near `center` that look like numbers, zero where there
/// is none.
pub open spec fn figure_share(
    items: Seq<(usize, &TextItem)>,
    center: Single,
    reach: Single,
) -> Single {
    if items_near(items, center, reach).len() > 0 {
        single::whole(figures_near(items, center, reach).len()).over(
            single::whole(items_near(items, center, reach).len()),
        )
    } else {
        single::signed(false, 0)
    }
}

/// Whether two neighbouring groups of positions are one column: their centers
/// are no further apart than 1.5 times the threshold, one of them is mostly
/// figures, and the other has at most a third of its items and at most five.
pub open spec fn one_column(
    a: Seq<Single>,
    b: Seq<Single>,
    items: Seq<(usize, &TextItem)>,
    threshold: Single,
) -> bool {
    let center_a = cluster::mean(a);
    let center_b = cluster::mean(b);
    let count_a = items_near(items, center_a, threshold).len();
    let count_b = items_near(items, center_b, threshold).len();
    let (sparse_count, dense_count, dense_center) = if count_a < count_b {
        (count_a, count_b, center_b)
    } else {
        (count_b, count_a, center_a)
    };
    &&& !threshold.times(single::fraction(3, 2)).below(center_b.minus(center_a).size())
    &&& single::fraction(1, 2).below(figure_share(items, dense_center, threshold))
    &&& 3 * sparse_count <= dense_count
    &&& sparse_count <= 5
}

/// Two neighbouring groups made one.
pub open spec fn joined(groups: Seq<Seq<Single>>, i: int) -> Seq<Seq<Single>> {
    groups.remove(i + 1).update(i, groups[i] + groups[i + 1])
}

/// One pass over groups of positions from the `i`th on, in which each group
/// takes in the next one as long as the two are one column.
pub open spec fn merge_pass(
    groups: Seq<Seq<Single>>,
    i: nat,
    items: Seq<(usize, &TextItem)>,
    threshold: Single,
) -> Seq<Seq<Single>>
    decreases groups.len(), groups.len() - i,
{
    if i + 1 >= groups.len() {
        groups
    } else if one_column(groups[i as int], groups[i as int + 1], items, threshold) {
        merge_pass(joined(groups, i as int), i, items, threshold)
    } else {
        merge_pass(groups, i + 1, items, threshold)
    }
}

/// Passes over groups of positions until one of them changes nothing.
pub open spec fn merged(
    groups: Seq<Seq<Single>>,
    items: Seq<(usize, &TextItem)>,
    threshold: Single,
) -> Seq<Seq<Single>>
    decreases groups.len(),
{
    let next = merge_pass(groups, 0, items, threshold);
    if next.len() < groups.len() {
        merged(next, items, threshold)
    } else {
        next
    }
}

/// How many items there are near a position, and how many of them look like
/// numbers.
fn count_near(items: &[(usize, &TextItem)], center: Single, reach: Single) -> (r: (usize, usize))
    ensures
        r.0 == items_near(items@, center, reach).len(),
        r.1 == figures_near(items@, center, reach).len(),
        r.1 <= r.0 <= items@.len(),
{
    let ghost is_near = |it: (usize, &TextItem)| near(it, center, reach);
    let ghost is_figure = |it: (usize, &TextItem)|
        near(it, center, reach) && text::numeric(it.1.text@);
    let mut all: usize = 0;
    let mut figures: usize = 0;
    let mut i: usize = 0;
    proof {
        reveal(Seq::filter);
        assert(items@.take(0) == Seq::<(usize, &TextItem)>::empty());
    }
    while i < items.len()
        invariant
            i <= items@.len(),
            is_near == |it: (usize, &TextItem)| near(it, center, reach),
            is_figure == |it: (usize, &TextItem)|
                near(it, center, reach) && text::numeric(it.1.text@),
            all == items@.take(i as int).filter(is_near).len(),
            figures == items@.take(i as int).filter(is_figure).len(),
            figures <= all <= i,
        decreases items@.len() - i,
    {
        proof {
            reveal(Seq::filter);
            assert(items@.take(i + 1).drop_last() == items@.take(i as int));
        }
        if items[i].1.x.sub(center).abs().lt(reach) {
            all += 1;
            if text::is_numeric_text(items[i].1.text.as_str()) {
                figures += 1;
            }
        }
        i += 1;
    }
    assert(items@.take(i as int) == items@);
    (all, figures)
}

/// Groups of positions as sequences.
pub open spec fn positions(groups: Seq<Vec<Single>>) -> Seq<Seq<Single>> {
    groups.map_values(|g: Vec<Single>| g@)
}

/// Whether two neighbouring groups of positions are one column.
fn is_one_column(
    a: &Vec<Single>,
    b: &Vec<Single>,
    items: &[(usize, &TextItem)],
    threshold: Single,
) -> (r: bool)
    ensures
        r == one_column(a@, b@, items@, threshold),
{
    let center_a: Single = cluster::average(a);
    let center_b: Single = cluster::average(b);
    if threshold.mul(Single::from_ratio(3, 2)).lt(center_b.sub(center_a).abs()) {
        return false;
    }
    let near_a: (usize, usize) = count_near(items, center_a, threshold);
    let near_b: (usize, usize) = count_near(items, center_b, threshold);
    let (sparse, dense) = if near_a.0 < near_b.0 {
        (near_a, near_b)
    } else {
        (near_b, near_a)
    };
    let share: Single = if dense.0 > 0 {
        Single::from_count(dense.1).div(Single::from_count(dense.0))
    } else {
        Single::from_bits(0)
    };
    Single::from_ratio(1, 2).lt(share) && sparse.0 <= dense.0 / 3 && sparse.0 <= 5
}

/// One pass over groups of positions that joins neighbours that are one column.
fn merge_once(
    clusters: Vec<Vec<Single>>,
    items: &[(usize, &TextItem)],
    threshold: Single,
) -> (r: Vec<Vec<Single>>)
    ensures
        positions(r@) == merge_pass(positions(clusters@), 0, items@, threshold),
        r@.len() <= clusters@.len(),
{
    let mut groups: Vec<Vec<Single>> = clusters;
    let ghost start = positions(groups@);
    let mut i: usize = 0;
    while groups.len() > 1 && i < groups.len() - 1
        invariant
            groups@.len() <= start.len(),
            start.len() == clusters@.len(),
            merge_pass(positions(groups@), i as nat, items@, threshold) == merge_pass(
                start,
                0,
                items@,
                threshold,
            ),
        decreases groups@.len(), groups@.len() - i,
    {
        let ghost before = positions(groups@);
        if is_one_column(&groups[i], &groups[i + 1], items, threshold) {
            let mut tail: Vec<Single> = groups.remove(i + 1);
            let mut head: Vec<Single> = groups.remove(i);
            head.append(&mut tail);
            groups.insert(i, head);
            assert(positions(groups@) == joined(before, i as int));
        } else {
            i += 1;
        }
    }
    groups
}

/// Joins neighbouring groups of positions where one is a sparse header group
/// and the other a dense group of figures, so that headers wrapped over several
/// lines do not split a column in two.
pub fn merge_numeric_adjacent_clusters(
    clusters: Vec<Vec<Single>>,
    items: &[(usize, &TextItem)],
    threshold: Single,
) -> (r: Vec<Vec<Single>>)
    ensures
        positions(r@) == merged(positions(clusters@), items@, threshold),
{
    let mut groups: Vec<Vec<Single>> = clusters;
    let ghost start = positions(groups@);
    let mut changed: bool = true;
    while changed
        invariant
            changed ==> merged(positions(groups@), items@, threshold) == merged(
                start,
                items@,
                threshold,
            ),
            !changed ==> positions(groups@) == merged(start, items@, threshold),
        decreases
                groups@.len(),
                if changed {
                    1int
                } else {
                    0int
                },
    {
        let count: usize = groups.len();
        let ghost before = positions(groups@);
        groups = merge_once(groups, items, threshold);
        changed = groups.len() < count;
        assert(positions(groups@).len() == groups@.len());
        assert(before.len() == count);
    }
    groups
}

/// The left edges of items in ascending order.
pub open spec fn left_edges(items: Seq<(usize, &TextItem)>) -> Seq<Single> {
    order::ascending(items.map_values(|it: (usize, &TextItem)| it.1.x))
}

/// The gaps between neighbouring positions.
pub open spec fn gaps(xs: Seq<Single>) -> Seq<Single> {
    Seq::new((xs.len() - 1) as nat, |i: int| xs[i + 1].minus(xs[i]))
}

/// The gaps of more than 0.1 between neighbouring positions, in ascending
/// order.
pub open spec fn wide_gaps(xs: Seq<Single>) -> Seq<Single> {
    order::ascending(gaps(xs).filter(|g: Single| single::fraction(1, 10).below(g)))
}

/// Whether a split after the `i`th of `len` gaps leaves enough gaps on each
/// side: three, or half of them where that is fewer.
pub open spec fn balanced(len: nat, i: int) -> bool {
    let side = if len / 2 < 3 {
        len / 2
    } else {
        3
    };
    i + 1 >= side && len - i - 1 >= side
}

/// The largest jump from one gap to the next among the first `n` jumps, and the
/// gap that it comes after: the first of equal jumps, and the middle gap where
/// no balanced split has a jump above zero.
pub open spec fn largest_jump(gaps: Seq<Single>, n: nat) -> (Single, int)
    decreases n,
{
    if n == 0 {
        (single::signed(false, 0), gaps.len() as int / 2)
    } else {
        let best = largest_jump(gaps, (n - 1) as nat);
        let jump = gaps[n as int].minus(gaps[n - 1]);
        if balanced(gaps.len(), n - 1) && best.0.below(jump) {
            (jump, n - 1)
        } else {
            best
        }
    }
}

/// The value halfway between a gap and the next one, if there is a next one.
pub open spec fn midway(gaps: Seq<Single>, at: int) -> Single {
    let next = if at + 1 < gaps.len() {
        at + 1
    } else {
        gaps.len() - 1
    };
    gaps[at].plus(gaps[next]).over(single::whole(2))
}

/// The threshold that the average gap between positions gives, from 25 to 50.
pub open spec fn average_threshold(xs: Seq<Single>) -> Single {
    let average = if xs.len() > 1 {
        xs.last().minus(xs.first()).over(single::whole((xs.len() - 1) as nat))
    } else {
        single::whole(60)
    };
    average.within(single::whole(25), single::whole(50))
}

/// The distance at which sorted positions fall into separate columns, and
/// whether it is taken from the last position of a column rather than from its
/// center. Where the gaps between positions are clearly of two kinds, the small
/// ones within columns and the large ones between them, the threshold lies
/// between the two: with more than 500 positions on a jump above 2, from the
/// last position; with fewer on a jump above 10.
pub open spec fn column_threshold(xs: Seq<Single>) -> (Single, bool) {
    let base = average_threshold(xs);
    let wide = wide_gaps(xs);
    let best = largest_jump(wide, (wide.len() - 1) as nat);
    let between = midway(wide, best.1);
    if wide.len() <= 2 {
        (base, false)
    } else if between.below(single::whole(15)) && single::whole(2).below(best.0) && xs.len() > 500 {
        (between.within(single::whole(8), single::whole(25)), true)
    } else if single::whole(10).below(best.0) && between.below(base) {
        (between.larger(single::whole(8)), false)
    } else {
        (base, false)
    }
}

/// Whether a position is further than the threshold from a column.
pub open spec fn starts_column(threshold: (Single, bool)) -> spec_fn(Seq<Single>, Single) -> bool {
    |column: Seq<Single>, x: Single|
        threshold.0.below(
            x.minus(
                if threshold.1 {
                    column.last()
                } else {
                    cluster::mean(column)
                },
            ),
        )
}

/// The positions of each column, wrapped headers joined to their columns where
/// there are three groups or more.
pub open spec fn column_groups(items: Seq<(usize, &TextItem)>) -> Seq<Seq<Single>> {
    let xs = left_edges(items);
    let threshold = column_threshold(xs);
    let groups = cluster::grouped(xs, starts_column(threshold));
    if groups.len() >= 3 {
        merged(groups, items, threshold.0)
    } else {
        groups
    }
}

/// How many items near it a column needs: a quarter of the average, but no
/// fewer than two.
pub open spec fn least_items(item_count: nat, column_count: nat) -> nat {
    let quarter = item_count / (if column_count > 1 {
        column_count
    } else {
        1
    }) / 4;
    if quarter > 2 {
        quarter
    } else {
        2
    }
}

/// Whether more than 60% of the items are near a column.
pub open spec fn crowded(
    items: Seq<(usize, &TextItem)>,
    center: Single,
    threshold: Single,
) -> bool {
    single::fraction(3, 5).below(
        single::whole(items_near(items, center, threshold).len()).over(single::whole(items.len())),
    )
}

/// The centers of the columns with enough items near them.
pub open spec fn populated_columns(items: Seq<(usize, &TextItem)>) -> Seq<Single> {
    let threshold = column_threshold(left_edges(items)).0;
    let centers = column_groups(items).map_values(|g: Seq<Single>| cluster::mean(g));
    let least = least_items(items.len(), centers.len());
    centers.filter(|c: Single| items_near(items, c, threshold).len() >= least)
}

/// The column boundaries: the populated columns, but none in body font if one
/// of them is crowded, as the left margin of a paragraph is.
pub open spec fn column_boundaries(
    items: Seq<(usize, &TextItem)>,
    mode: TableDetectionMode,
) -> Seq<Single> {
    let threshold = column_threshold(left_edges(items)).0;
    let columns = populated_columns(items);
    if items.len() == 0 {
        Seq::empty()
    } else if mode == TableDetectionMode::BodyFont && exists|i: int|
        0 <= i < columns.len() && crowded(items, #[trigger] columns[i], threshold) {
        Seq::empty()
    } else {
        columns
    }
}

/// The gaps of more than 0.1 between sorted positions, in ascending order.
fn sorted_wide_gaps(xs: &Vec<Single>) -> (r: Vec<Single>)
    requires
        xs@.len() > 0,
    ensures
        r@ == wide_gaps(xs@),
{
    let ghost is_wide = |g: Single| single::fraction(1, 10).below(g);
    let ghost all = gaps(xs@);
    let floor: Single = Single::from_ratio(1, 10);
    let mut wide: Vec<Single> = Vec::new();
    let mut i: usize = 0;
    proof {
        reveal(Seq::filter);
        assert(all.take(0) == Seq::<Single>::empty());
    }
    while i < xs.len() - 1
        invariant
            i <= all.len(),
            all == gaps(xs@),
            xs@.len() > 0,
            floor == single::fraction(1, 10),
            is_wide == |g: Single| single::fraction(1, 10).below(g),
            wide@ == all.take(i as int).filter(is_wide),
        decreases all.len() - i,
    {
        proof {
            reveal(Seq::filter);
            assert(all.take(i + 1).drop_last() == all.take(i as int));
        }
        let gap: Single = xs[i + 1].sub(xs[i]);
        if floor.lt(gap) {
            wide.push(gap);
        }
        i += 1;
    }
    assert(all.take(i as int) == all);
    order::sort_ascending(&wide)
}

/// The largest balanced jump between sorted gaps and the gap it comes after.
fn find_largest_jump(wide: &Vec<Single>) -> (r: (Single, usize))
    requires
        wide@.len() > 2,
    ensures
        (r.0, r.1 as int) == largest_jump(wide@, (wide@.len() - 1) as nat),
        r.1 < wide@.len(),
{
    let len: usize = wide.len();
    let side: usize = if len / 2 < 3 {
        len / 2
    } else {
        3
    };
    let mut jump: Single = Single::from_bits(0);
    let mut at: usize = len / 2;
    let mut i: usize = 0;
    while i < len - 1
        invariant
            i < len == wide@.len(),
            len > 2,
            side == (if len / 2 < 3 {
                len / 2
            } else {
                3
            }),
            at < len,
            (jump, at as int) == largest_jump(wide@, i as nat),
        decreases len - i,
    {
        if i + 1 >= side && len - i - 1 >= side {
            let here: Single = wide[i + 1].sub(wide[i]);
            if jump.lt(here) {
                jump = here;
                at = i;
            }
        }
        i += 1;
    }
    (jump, at)
}

/// The distance at which sorted positions fall into separate columns, and
/// whether it is taken from the last position of a column.
fn find_column_threshold(xs: &Vec<Single>) -> (r: (Single, bool))
    requires
        xs@.len() > 0,
    ensures
        r == column_threshold(xs@),
{
    let n: usize = xs.len();
    let average: Single = if n > 1 {
        xs[n - 1].sub(xs[0]).div(Single::from_count(n - 1))
    } else {
        Single::from_ratio(60, 1)
    };
    proof {
        single::lemma_fraction_order(25, 50, 1);
        single::lemma_fraction_order(8, 25, 1);
    }
    let base: Single = average.clamp(Single::from_ratio(25, 1), Single::from_ratio(50, 1));
    let wide: Vec<Single> = sorted_wide_gaps(xs);
    let len: usize = wide.len();
    if len <= 2 {
        return (base, false);
    }
    let (jump, at) = find_largest_jump(&wide);
    let next: usize = if at < len - 1 {
        at + 1
    } else {
        len - 1
    };
    let between: Single = wide[at].add(wide[next]).div(Single::from_ratio(2, 1));
    if between.lt(Single::from_ratio(15, 1)) && Single::from_ratio(2, 1).lt(jump) && n > 500 {
        (between.clamp(Single::from_ratio(8, 1), Single::from_ratio(25, 1)), true)
    } else if Single::from_ratio(10, 1).lt(jump) && between.lt(base) {
        (between.max(Single::from_ratio(8, 1)), false)
    } else {
        (base, false)
    }
}

proof fn lemma_positions_push(groups: Seq<Vec<Single>>, last: Vec<Single>)
    ensures
        positions(groups.push(last)) == positions(groups).push(last@),
{
    assert(positions(groups.push(last)) =~= positions(groups).push(last@));
}

/// Groups sorted positions into columns.
fn group_positions(xs: &Vec<Single>, threshold: (Single, bool)) -> (r: Vec<Vec<Single>>)
    requires
        xs@.len() > 0,
    ensures
        positions(r@) == cluster::grouped(xs@, starts_column(threshold)),
{
    let ghost apart = starts_column(threshold);
    let none: Single = Single::from_bits(0x8000_0000);
    let mut done: Vec<Vec<Single>> = Vec::new();
    let mut last: Vec<Single> = Vec::new();
    last.push(xs[0]);
    let mut sum: Single = none.add(xs[0]);
    let mut k: usize = 1;
    proof {
        cluster::lemma_grouped_step(xs@, apart, 0);
        cluster::lemma_total_push(Seq::empty(), xs@[0]);
        assert(xs@.take(0) == Seq::<Single>::empty());
        assert(Seq::<Single>::empty().push(xs@[0]) == seq![xs@[0]]);
        assert(positions(done@) == cluster::grouped(xs@.take(1), apart).drop_last());
    }
    while k < xs.len()
        invariant
            1 <= k <= xs@.len(),
            none == single::signed(true, 0),
            apart == starts_column(threshold),
            last@.len() > 0,
            sum == cluster::total(last@),
            ({
                let groups = cluster::grouped(xs@.take(k as int), apart);
                &&& groups.len() > 0
                &&& positions(done@) == groups.drop_last()
                &&& last@ == groups.last()
            }),
        decreases xs@.len() - k,
    {
        let x: Single = xs[k];
        let ghost before = cluster::grouped(xs@.take(k as int), apart);
        let ghost after = cluster::grouped(xs@.take(k + 1), apart);
        proof {
            cluster::lemma_grouped_step(xs@, apart, k as int);
            cluster::lemma_total_push(Seq::empty(), x);
            cluster::lemma_total_push(before.last(), x);
            assert(Seq::<Single>::empty().push(x) == seq![x]);
        }
        let reference: Single = if threshold.1 {
            last[last.len() - 1]
        } else {
            sum.div(Single::from_count(last.len()))
        };
        if threshold.0.lt(x.sub(reference)) {
            assert(after == before.push(seq![x]));
            proof {
                lemma_positions_push(done@, last);
                assert(before == before.drop_last().push(before.last()));
            }
            done.push(last);
            last = Vec::new();
            last.push(x);
            sum = none.add(x);
            assert(after.drop_last() == before);
        } else {
            assert(after == before.drop_last().push(before.last().push(x)));
            last.push(x);
            sum = sum.add(x);
            assert(after.drop_last() == before.drop_last());
        }
        k += 1;
    }
    proof {
        assert(xs@.take(k as int) == xs@);
        let groups = cluster::grouped(xs@, apart);
        lemma_positions_push(done@, last);
        assert(groups == groups.drop_last().push(groups.last()));
    }
    done.push(last);
    done
}

/// Finds the column boundaries of items by grouping their left edges; each
/// column is at the average of its left edges.
pub fn find_column_boundaries(
    items: &[(usize, &TextItem)],
    mode: TableDetectionMode,
) -> (columns: Vec<Single>)
    ensures
        columns@ == column_boundaries(items@, mode),
{
    let mut edges: Vec<Single> = Vec::new();
    let ghost x_of = |it: (usize, &TextItem)| it.1.x;
    let mut i: usize = 0;
    while i < items.len()
        invariant
            i <= items@.len(),
            x_of == |it: (usize, &TextItem)| it.1.x,
            edges@ == items@.map_values(x_of).take(i as int),
        decreases items@.len() - i,
    {
        edges.push(items[i].1.x);
        i += 1;
    }
    assert(edges@ == items@.map_values(x_of));
    if items.len() == 0 {
        return Vec::new();
    }
    let xs: Vec<Single> = order::sort_ascending(&edges);
    proof {
        order::lemma_ascending(edges@);
    }
    let threshold: (Single, bool) = find_column_threshold(&xs);
    let mut groups: Vec<Vec<Single>> = group_positions(&xs, threshold);
    if groups.len() >= 3 {
        groups = merge_numeric_adjacent_clusters(groups, items, threshold.0);
    }
    let ghost centers = column_groups(items@).map_values(|g: Seq<Single>| cluster::mean(g));
    assert(positions(groups@) == column_groups(items@));
    let column_count: usize = if groups.len() > 1 {
        groups.len()
    } else {
        1
    };
    let quarter: usize = items.len() / column_count / 4;
    let least: usize = if quarter > 2 {
        quarter
    } else {
        2
    };
    let ghost enough = |c: Single| items_near(items@, c, threshold.0).len() >= least;
    let crowd: Single = Single::from_ratio(3, 5);
    let item_count: Single = Single::from_count(items.len());
    let mut columns: Vec<Single> = Vec::new();
    let mut any_crowded: bool = false;
    let mut k: usize = 0;
    proof {
        reveal(Seq::filter);
        assert(centers.take(0) == Seq::<Single>::empty());
    }
    while k < groups.len()
        invariant
            k <= groups@.len(),
            positions(groups@) == column_groups(items@),
            centers == column_groups(items@).map_values(|g: Seq<Single>| cluster::mean(g)),
            enough == |c: Single| items_near(items@, c, threshold.0).len() >= least,
            crowd == single::fraction(3, 5),
            item_count == single::whole(items@.len()),
            columns@ == centers.take(k as int).filter(enough),
            any_crowded == exists|j: int|
                0 <= j < columns@.len() && crowded(items@, #[trigger] columns@[j], threshold.0),
        decreases groups@.len() - k,
    {
        let ghost before = columns@;
        proof {
            reveal(Seq::filter);
            assert(centers.take(k + 1).drop_last() == centers.take(k as int));
            assert(positions(groups@)[k as int] == groups@[k as int]@);
        }
        let center: Single = cluster::average(&groups[k]);
        let count: usize = count_near(items, center, threshold.0).0;
        if count >= least {
            columns.push(center);
            let here: bool = crowd.lt(Single::from_count(count).div(item_count));
            assert(here == crowded(items@, center, threshold.0));
            proof {
                assert(forall|j: int| 0 <= j < before.len() ==> columns@[j] == #[trigger] before[j]);
                if here {
                    assert(crowded(items@, columns@[before.len() as int], threshold.0));
                } else if any_crowded {
                    let j = choose|j: int|
                        0 <= j < before.len() && crowded(items@, #[trigger] before[j], threshold.0);
                    assert(crowded(items@, columns@[j], threshold.0));
                }
            }
            any_crowded = any_crowded || here;
        }
        k += 1;
    }
    proof {
        assert(centers.take(k as int) == centers);
        assert(centers.len() == groups@.len());
        assert(least == least_items(items@.len(), centers.len()));
        assert(columns@ == populated_columns(items@));
    }
    if mode == TableDetectionMode::BodyFont && any_crowded {
        return Vec::new();
    }
    columns
}

proof fn lemma_flatten_joined(groups: Seq<Seq<Single>>, i: int)
    requires
        0 <= i < groups.len() - 1,
    ensures
        joined(groups, i).flatten() == groups.flatten(),
    decreases groups.len(),
{
    let after = joined(groups, i);
    if i == 0 {
        let rest = groups.drop_first().drop_first();
        assert(after.drop_first() == rest);
        assert(groups.drop_first().flatten() == groups[1] + rest.flatten());
        assert(after.first() == groups[0] + groups[1]);
        assert(after.flatten() == groups.flatten());
    } else {
        lemma_flatten_joined(groups.drop_first(), i - 1);
        assert(after.drop_first() == joined(groups.drop_first(), i - 1));
        assert(after.first() == groups.first());
    }
}

/// A pass keeps all positions in their order and leaves no group empty, and one
/// that joins no groups finds none that are one column.
proof fn lemma_merge_pass(
    groups: Seq<Seq<Single>>,
    i: nat,
    items: Seq<(usize, &TextItem)>,
    threshold: Single,
)
    requires
        forall|g: int| 0 <= g < groups.len() ==> (#[trigger] groups[g]).len() > 0,
    ensures
        ({
            let after = merge_pass(groups, i, items, threshold);
            &&& after.flatten() == groups.flatten()
            &&& after.len() <= groups.len()
            &&& groups.len() > 0 ==> after.len() > 0
            &&& forall|g: int| 0 <= g < after.len() ==> (#[trigger] after[g]).len() > 0
            &&& after.len() == groups.len() ==> after == groups && forall|g: int|
                i <= g < groups.len() - 1 ==> !one_column(
                    #[trigger] groups[g],
                    groups[g + 1],
                    items,
                    threshold,
                )
        }),
    decreases groups.len(), groups.len() - i,
{
    if i + 1 < groups.len() {
        if one_column(groups[i as int], groups[i as int + 1], items, threshold) {
            let next = joined(groups, i as int);
            lemma_flatten_joined(groups, i as int);
            assert forall|g: int| 0 <= g < next.len() implies (#[trigger] next[g]).len() > 0 by {
                if g == i {
                    assert(next[g] == groups[g] + groups[g + 1]);
                } else if g < i {
                    assert(next[g] == groups[g]);
                } else {
                    assert(next[g] == groups[g + 1]);
                }
            }
            lemma_merge_pass(next, i, items, threshold);
        } else {
            lemma_merge_pass(groups, i + 1, items, threshold);
        }
    }
}

/// Merging keeps all positions in their order and leaves no group empty, and
/// afterwards no two neighbours are one column.
pub proof fn lemma_merged(
    groups: Seq<Seq<Single>>,
    items: Seq<(usize, &TextItem)>,
    threshold: Single,
)
    requires
        forall|g: int| 0 <= g < groups.len() ==> (#[trigger] groups[g]).len() > 0,
    ensures
        ({
            let after = merged(groups, items, threshold);
            &&& after.flatten() == groups.flatten()
            &&& after.len() <= groups.len()
            &&& groups.len() > 0 ==> after.len() > 0
            &&& forall|g: int| 0 <= g < after.len() ==> (#[trigger] after[g]).len() > 0
            &&& forall|g: int|
                0 <= g < after.len() - 1 ==> !one_column(
                    #[trigger] after[g],
                    after[g + 1],
                    items,
                    threshold,
                )
        }),
    decreases groups.len(),
{
    lemma_merge_pass(groups, 0, items, threshold);
    let next = merge_pass(groups, 0, items, threshold);
    if next.len() < groups.len() {
        lemma_merged(next, items, threshold);
    }
}

/// Whether `after` is made of `groups` cut into runs of neighbours at the given
/// places, each run made one group.
pub open spec fn cut_into(
    groups: Seq<Seq<Single>>,
    after: Seq<Seq<Single>>,
    cuts: Seq<int>,
) -> bool {
    &&& cuts.len() == after.len() + 1
    &&& cuts.first() == 0
    &&& cuts.last() == groups.len()
    &&& forall|g: int, h: int|
        0 <= g < h < cuts.len() ==> #[trigger] cuts[g] < #[trigger] cuts[h]
    &&& forall|g: int|
        0 <= g < after.len() ==> #[trigger] after[g] == groups.subrange(
            cuts[g],
            cuts[g + 1],
        ).flatten()
}

/// Whether each group of `after` is a run of neighbouring groups made one, and
/// the runs take up all groups in their order.
pub open spec fn runs_of(groups: Seq<Seq<Single>>, after: Seq<Seq<Single>>) -> bool {
    exists|cuts: Seq<int>| cut_into(groups, after, cuts)
}

/// Joining two runs of neighbours gives a run of neighbours.
proof fn lemma_joined_runs(start: Seq<Seq<Single>>, groups: Seq<Seq<Single>>, i: int)
    requires
        runs_of(start, groups),
        0 <= i < groups.len() - 1,
    ensures
        runs_of(start, joined(groups, i)),
{
    let cuts = choose|cuts: Seq<int>| cut_into(start, groups, cuts);
    let fewer = cuts.remove(i + 1);
    let after = joined(groups, i);
    assert forall|g: int| 0 <= g < after.len() implies #[trigger] after[g] == start.subrange(
        fewer[g],
        fewer[g + 1],
    ).flatten() by {
        if g < i {
            assert(after[g] == groups[g]);
        } else if g > i {
            assert(after[g] == groups[g + 1]);
        } else {
            assert(after[g] == groups[i] + groups[i + 1]);
            assert(cuts.first() <= cuts[i] < cuts[i + 1] < cuts[i + 2] <= cuts.last());
            let left = start.subrange(cuts[i], cuts[i + 1]);
            let right = start.subrange(cuts[i + 1], cuts[i + 2]);
            assert(groups[i] == left.flatten());
            assert(groups[i + 1] == right.flatten());
            lemma_flatten_concat(left, right);
            assert(left + right == start.subrange(cuts[i], cuts[i + 2]));
        }
    }
    assert(cut_into(start, after, fewer));
}

proof fn lemma_merge_pass_runs(
    start: Seq<Seq<Single>>,
    groups: Seq<Seq<Single>>,
    i: nat,
    items: Seq<(usize, &TextItem)>,
    threshold: Single,
)
    requires
        runs_of(start, groups),
    ensures
        runs_of(start, merge_pass(groups, i, items, threshold)),
    decreases groups.len(), groups.len() - i,
{
    if i + 1 < groups.len() {
        if one_column(groups[i as int], groups[i as int + 1], items, threshold) {
            lemma_joined_runs(start, groups, i as int);
            lemma_merge_pass_runs(start, joined(groups, i as int), i, items, threshold);
        } else {
            lemma_merge_pass_runs(start, groups, i + 1, items, threshold);
        }
    }
}

proof fn lemma_passes_runs(
    start: Seq<Seq<Single>>,
    groups: Seq<Seq<Single>>,
    items: Seq<(usize, &TextItem)>,
    threshold: Single,
)
    requires
        runs_of(start, groups),
    ensures
        runs_of(start, merged(groups, items, threshold)),
    decreases groups.len(),
{
    let next = merge_pass(groups, 0, items, threshold);
    lemma_merge_pass_runs(start, groups, 0, items, threshold);
    if next.len() < groups.len() {
        lemma_passes_runs(start, next, items, threshold);
    }
}

/// Each merged group is a run of neighbouring groups made one, and the runs take
/// up all groups in their order.
pub proof fn lemma_merged_runs(
    groups: Seq<Seq<Single>>,
    items: Seq<(usize, &TextItem)>,
    threshold: Single,
)
    ensures
        runs_of(groups, merged(groups, items, threshold)),
{
    let cuts = order::indexes(groups.len() + 1);
    assert forall|g: int| 0 <= g < groups.len() implies #[trigger] groups[g] == groups.subrange(
        cuts[g],
        cuts[g + 1],
    ).flatten() by {
        let one = groups.subrange(g, g + 1);
        one.lemma_flatten_one_element();
        assert(one.first() == groups[g]);
    }
    assert(cut_into(groups, groups, cuts));
    lemma_passes_runs(groups, groups, items, threshold);
}

proof fn lemma_settled_pass(
    groups: Seq<Seq<Single>>,
    i: nat,
    items: Seq<(usize, &TextItem)>,
    threshold: Single,
)
    requires
        forall|g: int|
            0 <= g < groups.len() - 1 ==> !one_column(
                #[trigger] groups[g],
                groups[g + 1],
                items,
                threshold,
            ),
    ensures
        merge_pass(groups, i, items, threshold) == groups,
    decreases groups.len() - i,
{
    if i + 1 < groups.len() {
        assert(!one_column(groups[i as int], groups[i as int + 1], items, threshold));
        lemma_settled_pass(groups, i + 1, items, threshold);
    }
}

/// Groups of which no two neighbours are one column stay as they are.
pub proof fn lemma_merging_needs_one_column(
    groups: Seq<Seq<Single>>,
    items: Seq<(usize, &TextItem)>,
    threshold: Single,
)
    requires
        forall|g: int|
            0 <= g < groups.len() - 1 ==> !one_column(
                #[trigger] groups[g],
                groups[g + 1],
                items,
                threshold,
            ),
    ensures
        merged(groups, items, threshold) == groups,
{
    lemma_settled_pass(groups, 0, items, threshold);
}

proof fn lemma_pass_skips(
    groups: Seq<Seq<Single>>,
    i: nat,
    at: nat,
    items: Seq<(usize, &TextItem)>,
    threshold: Single,
)
    requires
        i <= at < groups.len(),
        forall|g: int|
            i <= g < at ==> !one_column(#[trigger] groups[g], groups[g + 1], items, threshold),
    ensures
        merge_pass(groups, i, items, threshold) == merge_pass(groups, at, items, threshold),
    decreases at - i,
{
    if i < at {
        assert(!one_column(groups[i as int], groups[i as int + 1], items, threshold));
        lemma_pass_skips(groups, i + 1, at, items, threshold);
    }
}

proof fn lemma_pass_same_length(
    groups: Seq<Seq<Single>>,
    i: nat,
    items: Seq<(usize, &TextItem)>,
    threshold: Single,
)
    ensures
        merge_pass(groups, i, items, threshold).len() <= groups.len(),
        merge_pass(groups, i, items, threshold).len() == groups.len() ==> merge_pass(
            groups,
            i,
            items,
            threshold,
        ) == groups,
    decreases groups.len(), groups.len() - i,
{
    if i + 1 < groups.len() {
        if one_column(groups[i as int], groups[i as int + 1], items, threshold) {
            lemma_pass_same_length(joined(groups, i as int), i, items, threshold);
        } else {
            lemma_pass_same_length(groups, i + 1, items, threshold);
        }
    }
}

/// The first two neighbours from the left that are one column are merged first,
/// unless the group before them then joins in.
pub proof fn lemma_merged_from_the_left(
    groups: Seq<Seq<Single>>,
    at: nat,
    items: Seq<(usize, &TextItem)>,
    threshold: Single,
)
    requires
        at + 1 < groups.len(),
        one_column(groups[at as int], groups[at as int + 1], items, threshold),
        forall|g: int|
            0 <= g < at ==> !one_column(#[trigger] groups[g], groups[g + 1], items, threshold),
        at > 0 ==> !one_column(
            groups[at - 1],
            groups[at as int] + groups[at as int + 1],
            items,
            threshold,
        ),
    ensures
        merged(groups, items, threshold) == merged(
            groups.take(at as int) + seq![groups[at as int] + groups[at as int + 1]] + groups.skip(
                at as int + 2,
            ),
            items,
            threshold,
        ),
{
    let less = joined(groups, at as int);
    let next = merge_pass(less, at, items, threshold);
    assert(less == groups.take(at as int) + seq![groups[at as int] + groups[at as int + 1]]
        + groups.skip(at as int + 2));
    lemma_pass_skips(groups, 0, at, items, threshold);
    assert forall|g: int| 0 <= g < at implies !one_column(
        #[trigger] less[g],
        less[g + 1],
        items,
        threshold,
    ) by {
        assert(less[g] == groups[g]);
        if g + 1 < at {
            assert(less[g + 1] == groups[g + 1]);
        }
    }
    lemma_pass_skips(less, 0, at, items, threshold);
    lemma_pass_same_length(less, at, items, threshold);
    assert(merge_pass(groups, 0, items, threshold) == next);
    assert(merge_pass(less, 0, items, threshold) == next);
}

/// Merging again changes nothing.
pub proof fn lemma_merged_is_settled(
    groups: Seq<Seq<Single>>,
    items: Seq<(usize, &TextItem)>,
    threshold: Single,
)
    requires
        forall|g: int| 0 <= g < groups.len() ==> (#[trigger] groups[g]).len() > 0,
    ensures
        merged(merged(groups, items, threshold), items, threshold) == merged(
            groups,
            items,
            threshold,
        ),
{
    let after = merged(groups, items, threshold);
    lemma_merged(groups, items, threshold);
    lemma_settled_pass(after, 0, items, threshold);
}

/// The groups of columns take up all left edges of items, each in one group,
/// from left to right.
pub proof fn lemma_columns_take_up_edges(items: Seq<(usize, &TextItem)>)
    ensures
        column_groups(items).flatten() == left_edges(items),
        left_edges(items).to_multiset() == items.map_values(
            |it: (usize, &TextItem)| it.1.x,
        ).to_multiset(),
        forall|g: int|
            0 <= g < column_groups(items).len() ==> (#[trigger] column_groups(items)[g]).len() > 0,
{
    let xs = left_edges(items);
    let threshold = column_threshold(xs);
    order::lemma_ascending(items.map_values(|it: (usize, &TextItem)| it.1.x));
    cluster::lemma_grouped_partition(xs, starts_column(threshold));
    let groups = cluster::grouped(xs, starts_column(threshold));
    if groups.len() >= 3 {
        lemma_merged(groups, items, threshold.0);
    }
}

/// Each column boundary is at the average of one group of left edges and has at
/// least two items near it, and in body font no more than 60% of all items.
pub proof fn lemma_boundary_is_populated(
    items: Seq<(usize, &TextItem)>,
    mode: TableDetectionMode,
    i: int,
)
    requires
        0 <= i < column_boundaries(items, mode).len(),
    ensures
        ({
            let threshold = column_threshold(left_edges(items)).0;
            let column = column_boundaries(items, mode)[i];
            &&& exists|g: int|
                0 <= g < column_groups(items).len() && column == cluster::mean(
                    #[trigger] column_groups(items)[g],
                )
            &&& items_near(items, column, threshold).len() >= 2
            &&& items_near(items, column, threshold).len() >= least_items(
                items.len(),
                column_groups(items).len(),
            )
            &&& mode == TableDetectionMode::BodyFont ==> !crowded(items, column, threshold)
        }),
{
    let threshold = column_threshold(left_edges(items)).0;
    let groups = column_groups(items);
    let centers = groups.map_values(|g: Seq<Single>| cluster::mean(g));
    let least = least_items(items.len(), centers.len());
    let enough = |c: Single| items_near(items, c, threshold).len() >= least;
    let columns = populated_columns(items);
    let column = columns[i];
    assert(columns == centers.filter(enough));
    centers.lemma_filter_pred(enough, i);
    centers.lemma_filter_contains_rev(enough, column);
    let g = choose|g: int| 0 <= g < centers.len() && centers[g] == column;
    assert(column == cluster::mean(groups[g]));
}

/// The largest jump is above zero and that of a balanced split, or there is none
/// and the middle is taken; no balanced split has a larger one, and none before
/// it one as large.
pub proof fn lemma_largest_jump(gaps: Seq<Single>, n: nat)
    requires
        n < gaps.len(),
    ensures
        ({
            let (jump, at) = largest_jump(gaps, n);
            let zero = single::signed(false, 0);
            &&& !jump.nan()
            &&& jump == zero && at == gaps.len() as int / 2 || zero.below(jump) && 0 <= at < n
                && balanced(gaps.len(), at) && jump == gaps[at + 1].minus(gaps[at])
            &&& forall|i: int|
                0 <= i < n && balanced(gaps.len(), i) ==> !jump.below(
                    gaps[i + 1].minus(#[trigger] gaps[i]),
                )
            &&& zero.below(jump) ==> forall|i: int|
                0 <= i < at && balanced(gaps.len(), i) ==> !jump.at_most(
                    gaps[i + 1].minus(#[trigger] gaps[i]),
                )
        }),
    decreases n,
{
    if n > 0 {
        lemma_largest_jump(gaps, (n - 1) as nat);
        let best = largest_jump(gaps, (n - 1) as nat);
        let jump = gaps[n as int].minus(gaps[n - 1]);
        if balanced(gaps.len(), n - 1) && best.0.below(jump) {
            assert forall|i: int| 0 <= i < n && balanced(gaps.len(), i) implies !jump.below(
                gaps[i + 1].minus(#[trigger] gaps[i]),
            ) by {
                if i < n - 1 {
                    assert(!best.0.below(gaps[i + 1].minus(gaps[i])));
                }
            }
        }
    }
}

/// The column threshold is from 8 to 50, unless it is NaN.
pub proof fn lemma_threshold_range(xs: Seq<Single>)
    ensures
        ({
            let threshold = column_threshold(xs).0;
            !threshold.nan() ==> single::whole(8).at_most(threshold) && threshold.at_most(
                single::whole(50),
            )
        }),
{
    single::lemma_fraction_order(8, 25, 1);
    single::lemma_fraction_order(25, 50, 1);
    single::lemma_fraction_order(50, 50, 1);
    single::lemma_fraction_order(15, 50, 1);
    single::lemma_fraction_order(8, 50, 1);
}

/// With up to 3728272 items, a column is crowded exactly where more than three
/// fifths of them are near it.
pub proof fn lemma_crowded(items: Seq<(usize, &TextItem)>, center: Single, threshold: Single)
    requires
        0 < items.len() <= 3728272,
    ensures
        crowded(items, center, threshold) <==> 5 * items_near(items, center, threshold).len() > 3
            * items.len(),
{
    items.lemma_filter_len(|it: (usize, &TextItem)| near(it, center, threshold));
    precision::lemma_above_three_fifths(
        items_near(items, center, threshold).len(),
        items.len(),
    );
}

/// With fewer than 2^24 items, two neighbouring groups are one column exactly
/// where their centers are close, more than half of the items near the denser
/// one are figures, and the other has at most a third of its items and at most
/// five.
pub proof fn lemma_one_column(
    a: Seq<Single>,
    b: Seq<Single>,
    items: Seq<(usize, &TextItem)>,
    threshold: Single,
)
    requires
        items.len() < 0x100_0000,
    ensures
        ({
            let center_a = cluster::mean(a);
            let center_b = cluster::mean(b);
            let count_a = items_near(items, center_a, threshold).len();
            let count_b = items_near(items, center_b, threshold).len();
            let (sparse, dense, center) = if count_a < count_b {
                (count_a, count_b, center_b)
            } else {
                (count_b, count_a, center_a)
            };
            one_column(a, b, items, threshold) <==> {
                &&& !threshold.times(single::fraction(3, 2)).below(
                    center_b.minus(center_a).size(),
                )
                &&& 2 * figures_near(items, center, threshold).len() > dense
                &&& 3 * sparse <= dense
                &&& sparse <= 5
            }
        }),
{
    lemma_figure_share(items, cluster::mean(a), threshold);
    lemma_figure_share(items, cluster::mean(b), threshold);
}

/// More than half of the items near a position are figures.
proof fn lemma_figure_share(items: Seq<(usize, &TextItem)>, center: Single, reach: Single)
    requires
        items.len() < 0x100_0000,
    ensures
        single::fraction(1, 2).below(figure_share(items, center, reach)) <==> 2 * figures_near(
            items,
            center,
            reach,
        ).len() > items_near(items, center, reach).len(),
{
    let is_near = |it: (usize, &TextItem)| near(it, center, reach);
    let is_figure = |it: (usize, &TextItem)|
        near(it, center, reach) && text::numeric(it.1.text@);
    items.lemma_filter_len(is_near);
    order::lemma_filter_implied(items, is_figure, is_near);
    if items_near(items, center, reach).len() > 0 {
        precision::lemma_above_half(
            figures_near(items, center, reach).len(),
            items_near(items, center, reach).len(),
        );
    } else {
        single::lemma_fraction_order(1, 1, 2);
    }
}

/// In body font the column boundaries are those of the small font, or there are
/// none: none exactly where one of them is crowded, or there were none.
pub proof fn lemma_body_font(items: Seq<(usize, &TextItem)>)
    ensures
        ({
            let threshold = column_threshold(left_edges(items)).0;
            let small = column_boundaries(items, TableDetectionMode::SmallFont);
            let body = column_boundaries(items, TableDetectionMode::BodyFont);
            let any_crowded = exists|i: int|
                0 <= i < small.len() && crowded(items, #[trigger] small[i], threshold);
            &&& body == small || body.len() == 0
            &&& body.len() == 0 <==> any_crowded || small.len() == 0
        }),
{
}

/// With up to 3728272 items, the body font has no columns where more than three
/// fifths of the items are nearer than 8 to one of the small font, and it has
/// all of them where no more than three fifths are nearer than 50 to any.
pub proof fn lemma_body_font_share(items: Seq<(usize, &TextItem)>)
    requires
        items.len() <= 3728272,
    ensures
        ({
            let small = column_boundaries(items, TableDetectionMode::SmallFont);
            let body = column_boundaries(items, TableDetectionMode::BodyFont);
            &&& (exists|i: int|
                0 <= i < small.len() && 5 * items_near(
                    items,
                    #[trigger] small[i],
                    single::whole(8),
                ).len() > 3 * items.len()) ==> body.len() == 0
            &&& (forall|i: int|
                0 <= i < small.len() ==> 5 * items_near(
                    items,
                    #[trigger] small[i],
                    single::whole(50),
                ).len() <= 3 * items.len()) ==> body == small
        }),
{
    let threshold = column_threshold(left_edges(items)).0;
    let small = column_boundaries(items, TableDetectionMode::SmallFont);
    lemma_body_font(items);
    assert forall|i: int| 0 <= i < small.len() implies {
        let c = #[trigger] small[i];
        let near_8 = items_near(items, c, single::whole(8)).len();
        let near_50 = items_near(items, c, single::whole(50)).len();
        &&& 5 * near_8 > 3 * items.len() ==> crowded(items, c, threshold)
        &&& 5 * near_50 <= 3 * items.len() ==> !crowded(items, c, threshold)
    } by {
        let c = small[i];
        lemma_boundary_is_populated(items, TableDetectionMode::SmallFont, i);
        lemma_near_threshold(items, c);
        lemma_crowded(items, c, threshold);
    }
}

/// The items nearer than 8 to a position are among those within the threshold,
/// and these among those nearer than 50.
proof fn lemma_near_threshold(items: Seq<(usize, &TextItem)>, c: Single)
    requires
        items_near(items, c, column_threshold(left_edges(items)).0).len() > 0,
    ensures
        ({
            let threshold = column_threshold(left_edges(items)).0;
            &&& items_near(items, c, single::whole(8)).len() <= items_near(
                items,
                c,
                threshold,
            ).len() <= items_near(items, c, single::whole(50)).len()
            &&& items.len() > 0
        }),
{
    let threshold = column_threshold(left_edges(items)).0;
    let within = |it: (usize, &TextItem)| near(it, c, threshold);
    let k = order::lemma_filter_source(items, within, 0);
    lemma_threshold_range(left_edges(items));
    order::lemma_filter_implied(
        items,
        |it: (usize, &TextItem)| near(it, c, single::whole(8)),
        within,
    );
    order::lemma_filter_implied(
        items,
        within,
        |it: (usize, &TextItem)| near(it, c, single::whole(50)),
    );
}

/// The column boundaries in small font are the centers of the groups with enough
/// items near them: two, and with `n` items in `m` groups a quarter of `n / m`.
pub proof fn lemma_boundary_of_group(items: Seq<(usize, &TextItem)>, c: Single)
    requires
        items.len() > 0,
    ensures
        ({
            let threshold = column_threshold(left_edges(items)).0;
            let near = items_near(items, c, threshold).len();
            let m = column_groups(items).len();
            column_boundaries(items, TableDetectionMode::SmallFont).contains(c) <==> near >= 2 && 4
                * m * (near + 1) > items.len() && exists|g: int|
                0 <= g < m && c == cluster::mean(#[trigger] column_groups(items)[g])
        }),
{
    let groups = column_groups(items);
    let threshold = column_threshold(left_edges(items)).0;
    let centers = groups.map_values(|g: Seq<Single>| cluster::mean(g));
    let least = least_items(items.len(), centers.len());
    let enough = |c: Single| items_near(items, c, threshold).len() >= least;
    let near = items_near(items, c, threshold).len();
    let m = groups.len();
    let n = items.len();
    let found = column_boundaries(items, TableDetectionMode::SmallFont);
    assert(found == centers.filter(enough));
    if m > 0 {
        lemma_quarter(n, m, near);
    }
    if found.contains(c) {
        let k = choose|k: int| 0 <= k < found.len() && found[k] == c;
        let g = order::lemma_filter_source(centers, enough, k);
        assert(c == cluster::mean(groups[g]));
    }
    if near >= 2 && 4 * m * (near + 1) > n && exists|g: int|
        0 <= g < m && c == cluster::mean(#[trigger] groups[g]) {
        let g = choose|g: int| 0 <= g < m && c == cluster::mean(#[trigger] groups[g]);
        assert(centers[g] == c);
        centers.lemma_filter_contains(enough, g);
    }
}

/// A quarter of `n / m`, rounded down, in one step.
proof fn lemma_quarter(n: nat, m: nat, near: nat)
    requires
        m > 0,
    ensures
        near >= n / m / 4 <==> 4 * m * (near + 1) > n,
{
    let q = n / m;
    assert(m * q <= n < m * (q + 1)) by (nonlinear_arith)
        requires
            q == n / m,
            m > 0,
    ;
    let r = q / 4;
    assert(4 * r <= q < 4 * (r + 1));
    if near >= r {
        assert(4 * m * (near + 1) >= m * (q + 1)) by (nonlinear_arith)
            requires
                4 * (near + 1) >= q + 1,
                m > 0,
        ;
    } else {
        assert(4 * m * (near + 1) <= m * q) by (nonlinear_arith)
            requires
                4 * (near + 1) <= q,
                m > 0,
        ;
    }
}

} // verus!
