//! Assignment of positions to columns and rows.

use crate::single;
use crate::single::Single;
use vstd::prelude::*;

verus! {

/// How far `x` is from the `i`th of some positions.
pub open spec fn distance(positions: Seq<Single>, x: Single, i: int) -> Single {
    x.minus(positions[i]).size()
}

/// Which of the first `n` positions is closest to `x`: a later position only
/// takes the place of an earlier one by a smaller distance.
pub open spec fn closest(positions: Seq<Single>, x: Single, n: nat) -> int
    decreases n,
{
    if n <= 1 {
        0
    } else {
        let best = closest(positions, x, (n - 1) as nat);
        if distance(positions, x, n - 1).below(distance(positions, x, best)) {
            n - 1
        } else {
            best
        }
    }
}

/// The closest position to `x`, if it is nearer than `reach`.
pub open spec fn index_within(positions: Seq<Single>, x: Single, reach: Single) -> Option<usize> {
    let i = closest(positions, x, positions.len());
    if positions.len() > 0 && distance(positions, x, i).below(reach) {
        Some(i as usize)
    } else {
        None
    }
}

/// The smallest of the first `n` gaps between neighbouring positions, or
/// infinity where there is none.
pub open spec fn smallest_gap(positions: Seq<Single>, n: nat) -> Single
    decreases n,
{
    if n == 0 {
        single::signed(false, crate::rounding::INFINITE as nat)
    } else {
        smallest_gap(positions, (n - 1) as nat).smaller(
            positions[n as int].minus(positions[n - 1]).size(),
        )
    }
}

/// How near a position must be to a column to belong to it: half the smallest
/// gap between columns, but no less than 25 and no more than 50.
pub open spec fn column_reach(columns: Seq<Single>) -> Single {
    if columns.len() >= 2 {
        smallest_gap(columns, (columns.len() - 1) as nat).over(single::whole(2)).within(
            single::whole(25),
            single::whole(50),
        )
    } else {
        single::whole(50)
    }
}

/// The column that a horizontal position belongs to.
pub open spec fn column_index(columns: Seq<Single>, x: Single) -> Option<usize> {
    index_within(columns, x, column_reach(columns))
}

/// The row that a vertical position belongs to.
pub open spec fn row_index(rows: Seq<Single>, y: Single) -> Option<usize> {
    index_within(rows, y, single::whole(15))
}

proof fn lemma_closest_in_range(positions: Seq<Single>, x: Single, n: nat)
    requires
        n > 0,
    ensures
        0 <= closest(positions, x, n) < n,
    decreases n,
{
    if n > 1 {
        lemma_closest_in_range(positions, x, (n - 1) as nat);
    }
}

/// A column index is the index of a column.
pub proof fn lemma_index_in_range(positions: Seq<Single>, x: Single, reach: Single)
    ensures
        index_within(positions, x, reach) matches Some(i) ==> (positions.len() <= usize::MAX ==> i
            < positions.len()),
{
    if positions.len() > 0 {
        lemma_closest_in_range(positions, x, positions.len());
    }
}

fn find_index_within(positions: &[Single], x: Single, reach: Single) -> (r: Option<usize>)
    ensures
        r == index_within(positions@, x, reach),
{
    if positions.len() == 0 {
        return None;
    }
    let mut best: usize = 0;
    let mut best_distance: Single = x.sub(positions[0]).abs();
    let mut n: usize = 1;
    while n < positions.len()
        invariant
            1 <= n <= positions@.len(),
            best < n,
            best == closest(positions@, x, n as nat),
            best_distance == distance(positions@, x, best as int),
        decreases positions@.len() - n,
    {
        let d: Single = x.sub(positions[n]).abs();
        if d.lt(best_distance) {
            best = n;
            best_distance = d;
        }
        n += 1;
    }
    if best_distance.lt(reach) {
        Some(best)
    } else {
        None
    }
}

/// Finds the column that a horizontal position belongs to: the closest one, if
/// it is within half the smallest gap between columns, taken between 25 and 50.
pub fn find_column_index(columns: &[Single], x: Single) -> (r: Option<usize>)
    ensures
        r == column_index(columns@, x),
        r matches Some(i) ==> i < columns@.len(),
{
    let high: Single = Single::from_ratio(50, 1);
    let reach: Single = if columns.len() >= 2 {
        let mut gap: Single = Single::from_bits(crate::rounding::INFINITE);
        let mut n: usize = 0;
        while n < columns.len() - 1
            invariant
                n < columns@.len(),
                gap == smallest_gap(columns@, n as nat),
            decreases columns@.len() - n,
        {
            gap = gap.min(columns[n + 1].sub(columns[n]).abs());
            n += 1;
        }
        proof {
            single::lemma_fraction_order(25, 50, 1);
        }
        gap.div(Single::from_ratio(2, 1)).clamp(Single::from_ratio(25, 1), high)
    } else {
        high
    };
    proof {
        lemma_index_in_range(columns@, x, reach);
    }
    find_index_within(columns, x, reach)
}

/// Finds the row that a vertical position belongs to: the closest one, if it is
/// nearer than 15.
pub fn find_row_index(rows: &[Single], y: Single) -> (r: Option<usize>)
    ensures
        r == row_index(rows@, y),
        r matches Some(i) ==> i < rows@.len(),
{
    let reach: Single = Single::from_ratio(15, 1);
    proof {
        lemma_index_in_range(rows@, y, reach);
    }
    find_index_within(rows, y, reach)
}

proof fn lemma_smallest_gap_is_number(positions: Seq<Single>, n: nat)
    ensures
        !smallest_gap(positions, n).nan(),
        !smallest_gap(positions, n).negative(),
    decreases n,
{
    if n > 0 {
        lemma_smallest_gap_is_number(positions, (n - 1) as nat);
    }
}

/// The reach of columns is always from 25 to 50.
pub proof fn lemma_column_reach_range(columns: Seq<Single>)
    ensures
        single::whole(25).at_most(column_reach(columns)),
        column_reach(columns).at_most(single::whole(50)),
{
    single::lemma_fraction_order(25, 50, 1);
    single::lemma_fraction_order(50, 50, 1);
    if columns.len() >= 2 {
        let gap = smallest_gap(columns, (columns.len() - 1) as nat);
        lemma_smallest_gap_is_number(columns, (columns.len() - 1) as nat);
        single::lemma_whole_range(2);
        let half = gap.over(single::whole(2));
        if gap.finite() {
            crate::rounding::lemma_units_zero();
            crate::rounding::lemma_units_increase(0, single::whole(2).magnitude());
            crate::rounding::lemma_nearest_exists(
                crate::rounding::units(gap.magnitude()) * vstd::arithmetic::power2::pow2(149),
                crate::rounding::units(single::whole(2).magnitude()),
            );
        }
        assert(!half.nan());
    }
}

/// Among distances that are numbers, the closest position is no further than
/// any other, and nearer than those before it.
pub proof fn lemma_closest_is_least(positions: Seq<Single>, x: Single, n: nat)
    requires
        0 < n <= positions.len(),
        forall|j: int| 0 <= j < positions.len() ==> !(#[trigger] distance(positions, x, j)).nan(),
    ensures
        ({
            let best = closest(positions, x, n);
            &&& 0 <= best < n
            &&& forall|j: int|
                0 <= j < n ==> distance(positions, x, best).at_most(
                    #[trigger] distance(positions, x, j),
                )
            &&& forall|j: int|
                0 <= j < best ==> distance(positions, x, best).below(
                    #[trigger] distance(positions, x, j),
                )
        }),
    decreases n,
{
    if n > 1 {
        lemma_closest_is_least(positions, x, (n - 1) as nat);
        let earlier = closest(positions, x, (n - 1) as nat);
        assert(!distance(positions, x, n - 1).nan());
        assert(!distance(positions, x, earlier).nan());
    } else {
        assert(!distance(positions, x, 0).nan());
    }
}

/// Where all distances are numbers, the index found is that of the first of the
/// closest positions, and none is found exactly where no position is within
/// reach.
pub proof fn lemma_index_is_first_closest(positions: Seq<Single>, x: Single, reach: Single)
    requires
        positions.len() <= usize::MAX,
        forall|j: int| 0 <= j < positions.len() ==> !(#[trigger] distance(positions, x, j)).nan(),
    ensures
        match index_within(positions, x, reach) {
            Some(i) => {
                &&& i < positions.len()
                &&& distance(positions, x, i as int).below(reach)
                &&& forall|j: int|
                    0 <= j < positions.len() ==> distance(positions, x, i as int).at_most(
                        #[trigger] distance(positions, x, j),
                    )
                &&& forall|j: int|
                    0 <= j < i ==> distance(positions, x, i as int).below(
                        #[trigger] distance(positions, x, j),
                    )
            },
            None => forall|j: int|
                0 <= j < positions.len() ==> !(#[trigger] distance(positions, x, j)).below(reach),
        },
{
    if positions.len() > 0 {
        lemma_closest_is_least(positions, x, positions.len());
        let best = closest(positions, x, positions.len());
        assert(!distance(positions, x, best).nan());
    }
}

/// A position that is exactly that of a column belongs to a column there, where
/// all distances are numbers.
pub proof fn lemma_exact_position_is_found(columns: Seq<Single>, i: int)
    requires
        columns.len() <= usize::MAX,
        0 <= i < columns.len(),
        columns[i].finite(),
        forall|j: int|
            0 <= j < columns.len() ==> !(#[trigger] distance(columns, columns[i], j)).nan(),
    ensures
        column_index(columns, columns[i]) matches Some(k) && distance(columns, columns[i], k as int)
            == single::signed(false, 0),
{
    let x = columns[i];
    single::lemma_difference_zero(x);
    assert(distance(columns, x, i) == single::signed(false, 0));
    lemma_column_reach_range(columns);
    single::lemma_whole_range(25);
    lemma_index_is_first_closest(columns, x, column_reach(columns));
    let k = column_index(columns, x)->0;
    assert(distance(columns, x, k as int).at_most(distance(columns, x, i)));
    assert(!distance(columns, x, k as int).negative());
    assert(distance(columns, x, k as int) == single::signed(false, 0));
}

/// Each of some finite positions of different value is found at its own index.
proof fn lemma_own_index(positions: Seq<Single>, i: int, reach: Single)
    requires
        positions.len() <= usize::MAX,
        0 <= i < positions.len(),
        single::signed(false, 0).below(reach),
        forall|j: int| 0 <= j < positions.len() ==> (#[trigger] positions[j]).finite(),
        forall|j: int, k: int|
            0 <= j < k < positions.len() ==> (#[trigger] positions[j]).value() != (
            #[trigger] positions[k]).value(),
    ensures
        index_within(positions, positions[i], reach) == Some(i as usize),
{
    let x = positions[i];
    single::lemma_difference_zero(x);
    assert(distance(positions, x, i) == single::signed(false, 0));
    assert forall|j: int| 0 <= j < positions.len() implies !(
    #[trigger] distance(positions, x, j)).nan() && (j != i ==> !distance(
        positions,
        x,
        j,
    ).zero()) by {
        if j != i {
            assert(x.value() != positions[j].value());
            single::lemma_difference_nonzero(x, positions[j]);
        }
    }
    lemma_index_is_first_closest(positions, x, reach);
    let k = index_within(positions, x, reach)->0;
    assert(distance(positions, x, k as int).at_most(distance(positions, x, i)));
    assert(!distance(positions, x, k as int).negative());
}

/// Each of some finite columns of different value is found at its own position.
pub proof fn lemma_column_finds_itself(columns: Seq<Single>, i: int)
    requires
        columns.len() <= usize::MAX,
        0 <= i < columns.len(),
        forall|j: int| 0 <= j < columns.len() ==> (#[trigger] columns[j]).finite(),
        forall|j: int, k: int|
            0 <= j < k < columns.len() ==> (#[trigger] columns[j]).value() != (
            #[trigger] columns[k]).value(),
    ensures
        column_index(columns, columns[i]) == Some(i as usize),
{
    assert(single::signed(false, 0).below(column_reach(columns))) by {
        lemma_column_reach_range(columns);
        single::lemma_whole_range(25);
    }
    lemma_own_index(columns, i, column_reach(columns));
}

/// Each of some finite rows of different value is found at its own position.
pub proof fn lemma_row_finds_itself(rows: Seq<Single>, i: int)
    requires
        rows.len() <= usize::MAX,
        0 <= i < rows.len(),
        forall|j: int| 0 <= j < rows.len() ==> (#[trigger] rows[j]).finite(),
        forall|j: int, k: int|
            0 <= j < k < rows.len() ==> (#[trigger] rows[j]).value() != (
            #[trigger] rows[k]).value(),
    ensures
        row_index(rows, rows[i]) == Some(i as usize),
{
    single::lemma_whole_range(15);
    lemma_own_index(rows, i, single::whole(15));
}

/// The smallest gap is a number, no larger than any gap, and one of them.
proof fn lemma_smallest_gap(positions: Seq<Single>, n: nat)
    requires
        n < positions.len(),
        forall|j: int| 0 <= j < positions.len() ==> (#[trigger] positions[j]).finite(),
    ensures
        !smallest_gap(positions, n).nan(),
        !smallest_gap(positions, n).negative(),
        forall|i: int|
            0 <= i < n ==> smallest_gap(positions, n).at_most(
                positions[i + 1].minus(#[trigger] positions[i]).size(),
            ),
        n > 0 ==> exists|i: int|
            0 <= i < n && smallest_gap(positions, n) == positions[i + 1].minus(
                #[trigger] positions[i],
            ).size(),
    decreases n,
{
    if n > 0 {
        let less = (n - 1) as nat;
        let before = smallest_gap(positions, less);
        let gap = positions[n as int].minus(positions[n - 1]).size();
        lemma_smallest_gap(positions, less);
        single::lemma_difference_order(
            positions[n as int],
            positions[n as int],
            positions[n - 1],
        );
        assert(!gap.nan());
        assert forall|i: int| 0 <= i < n implies smallest_gap(positions, n).at_most(
            positions[i + 1].minus(#[trigger] positions[i]).size(),
        ) by {
            if i < less {
                assert(before.at_most(positions[i + 1].minus(positions[i]).size()));
            }
        }
        if n == 1 || smallest_gap(positions, n) == gap {
            assert(positions[n - 1 + 1] == positions[n as int]);
            assert(smallest_gap(positions, n) == gap);
        } else {
            let i = choose|i: int|
                0 <= i < less && before == positions[i + 1].minus(#[trigger] positions[i]).size();
            assert(smallest_gap(positions, n) == positions[i + 1].minus(positions[i]).size());
        }
    }
}

/// Halves are in the order of the numbers.
proof fn lemma_half_order(a: Single, b: Single)
    requires
        !a.negative(),
        !b.negative(),
        a.at_most(b),
    ensures
        a.over(single::whole(2)).at_most(b.over(single::whole(2))),
{
    let one = vstd::arithmetic::power2::pow2(149);
    single::lemma_whole_range(2);
    crate::rounding::lemma_units_zero();
    crate::rounding::lemma_units_increase(0, single::whole(2).magnitude());
    let den = crate::rounding::units(single::whole(2).magnitude());
    if a.finite() {
        let ua = crate::rounding::units(a.magnitude());
        crate::rounding::lemma_nearest_exists(ua * one, den);
        if b.finite() {
            let ub = crate::rounding::units(b.magnitude());
            if a.magnitude() < b.magnitude() {
                crate::rounding::lemma_units_increase(a.magnitude(), b.magnitude());
            }
            assert(ua * one <= ub * one) by (nonlinear_arith)
                requires
                    ua <= ub,
                    one >= 0,
            ;
            crate::rounding::lemma_nearest_exists(ub * one, den);
            crate::rounding::lemma_nearest_monotone(ua * one, ub * one, den);
        }
    }
}

/// The reach of finite columns is taken from the smallest gap between
/// neighbours: it is no more than half of any of them or 25, and it is half of
/// one of them, or 25 where that is less, or 50 where it is more.
pub proof fn lemma_column_reach(columns: Seq<Single>)
    requires
        columns.len() >= 2,
        forall|j: int| 0 <= j < columns.len() ==> (#[trigger] columns[j]).finite(),
    ensures
        forall|i: int|
            0 <= i < columns.len() - 1 ==> column_reach(columns).at_most(single::whole(25))
                || column_reach(columns).at_most(
                columns[i + 1].minus(#[trigger] columns[i]).size().over(single::whole(2)),
            ),
        exists|i: int|
            0 <= i < columns.len() - 1 && {
                let half = columns[i + 1].minus(#[trigger] columns[i]).size().over(
                    single::whole(2),
                );
                ||| column_reach(columns) == half
                ||| column_reach(columns) == single::whole(25) && half.below(single::whole(25))
                ||| column_reach(columns) == single::whole(50) && single::whole(50).below(half)
            },
{
    let n = (columns.len() - 1) as nat;
    let gap = smallest_gap(columns, n);
    let half = gap.over(single::whole(2));
    lemma_smallest_gap(columns, n);
    lemma_column_reach_range(columns);
    single::lemma_whole_range(25);
    single::lemma_fraction_order(25, 50, 1);
    lemma_half_order(gap, gap);
    assert forall|i: int| 0 <= i < columns.len() - 1 implies column_reach(columns).at_most(
        single::whole(25),
    ) || column_reach(columns).at_most(
        columns[i + 1].minus(#[trigger] columns[i]).size().over(single::whole(2)),
    ) by {
        lemma_half_order(gap, columns[i + 1].minus(columns[i]).size());
    }
    let i = choose|i: int|
        0 <= i < n && gap == columns[i + 1].minus(#[trigger] columns[i]).size();
    assert(half == columns[i + 1].minus(columns[i]).size().over(single::whole(2)));
}

/// Which column a position belongs to, among finite columns: the closest one,
/// the first of several, if it is nearer than 50, and nearer than 25 or than
/// half of every gap between neighbouring columns. There is none only where no
/// column is so near.
pub proof fn lemma_column_index(columns: Seq<Single>, x: Single)
    requires
        columns.len() <= usize::MAX,
        x.finite(),
        forall|j: int| 0 <= j < columns.len() ==> (#[trigger] columns[j]).finite(),
    ensures
        match column_index(columns, x) {
            Some(i) => {
                let d = x.minus(columns[i as int]).size();
                &&& i < columns.len()
                &&& forall|j: int|
                    0 <= j < columns.len() ==> d.at_most(x.minus(#[trigger] columns[j]).size())
                &&& forall|j: int| 0 <= j < i ==> d.below(x.minus(#[trigger] columns[j]).size())
                &&& d.below(single::whole(50))
                &&& forall|j: int|
                    0 <= j < columns.len() - 1 ==> d.below(single::whole(25)) || d.below(
                        columns[j + 1].minus(#[trigger] columns[j]).size().over(single::whole(2)),
                    )
            },
            None => forall|i: int|
                0 <= i < columns.len() ==> {
                    let d = x.minus(#[trigger] columns[i]).size();
                    &&& single::whole(25).at_most(d)
                    &&& single::whole(50).at_most(d) || exists|j: int|
                        0 <= j < columns.len() - 1 && columns[j + 1].minus(
                            #[trigger] columns[j],
                        ).size().over(single::whole(2)).at_most(d)
                },
        },
{
    let reach = column_reach(columns);
    single::lemma_whole_range(25);
    single::lemma_whole_range(50);
    assert forall|j: int| 0 <= j < columns.len() implies !(
    #[trigger] distance(columns, x, j)).nan() by {
        single::lemma_difference_order(x, x, columns[j]);
    }
    lemma_column_reach_range(columns);
    lemma_index_is_first_closest(columns, x, reach);
    if columns.len() >= 2 {
        lemma_column_reach(columns);
    }
    match column_index(columns, x) {
        Some(i) => {
            assert forall|j: int| 0 <= j < columns.len() implies distance(
                columns,
                x,
                i as int,
            ).at_most(x.minus(#[trigger] columns[j]).size()) by {
                assert(distance(columns, x, j) == x.minus(columns[j]).size());
            }
            assert forall|j: int| 0 <= j < i implies distance(columns, x, i as int).below(
                x.minus(#[trigger] columns[j]).size(),
            ) by {
                assert(distance(columns, x, j) == x.minus(columns[j]).size());
            }
        },
        None => {
            assert forall|i: int| 0 <= i < columns.len() implies {
                let d = x.minus(#[trigger] columns[i]).size();
                &&& single::whole(25).at_most(d)
                &&& single::whole(50).at_most(d) || exists|j: int|
                    0 <= j < columns.len() - 1 && columns[j + 1].minus(
                        #[trigger] columns[j],
                    ).size().over(single::whole(2)).at_most(d)
            } by {
                let d = distance(columns, x, i);
                assert(!d.below(reach));
                if columns.len() >= 2 && !single::whole(50).at_most(d) {
                    let j = choose|j: int|
                        0 <= j < columns.len() - 1 && {
                            let half = columns[j + 1].minus(#[trigger] columns[j]).size().over(
                                single::whole(2),
                            );
                            ||| reach == half
                            ||| reach == single::whole(25) && half.below(single::whole(25))
                            ||| reach == single::whole(50) && single::whole(50).below(half)
                        };
                    assert(columns[j + 1].minus(columns[j]).size().over(single::whole(2)).at_most(
                        d,
                    ));
                }
            }
        },
    }
}

/// Which row a position belongs to, among finite rows: the closest one, the
/// first of several, if it is nearer than 15. There is none only where no row is
/// so near.
pub proof fn lemma_row_index(rows: Seq<Single>, y: Single)
    requires
        rows.len() <= usize::MAX,
        y.finite(),
        forall|j: int| 0 <= j < rows.len() ==> (#[trigger] rows[j]).finite(),
    ensures
        match row_index(rows, y) {
            Some(i) => {
                let d = y.minus(rows[i as int]).size();
                &&& i < rows.len()
                &&& d.below(single::whole(15))
                &&& forall|j: int|
                    0 <= j < rows.len() ==> d.at_most(y.minus(#[trigger] rows[j]).size())
                &&& forall|j: int| 0 <= j < i ==> d.below(y.minus(#[trigger] rows[j]).size())
            },
            None => forall|j: int|
                0 <= j < rows.len() ==> single::whole(15).at_most(
                    y.minus(#[trigger] rows[j]).size(),
                ),
        },
{
    single::lemma_whole_range(15);
    assert forall|j: int| 0 <= j < rows.len() implies !(#[trigger] distance(rows, y, j)).nan()
        && distance(rows, y, j) == y.minus(rows[j]).size() by {
        single::lemma_difference_order(y, y, rows[j]);
    }
    lemma_index_is_first_closest(rows, y, single::whole(15));
    match row_index(rows, y) {
        Some(i) => {
            assert forall|j: int| 0 <= j < rows.len() implies distance(rows, y, i as int).at_most(
                y.minus(#[trigger] rows[j]).size(),
            ) by {
                assert(!distance(rows, y, j).nan());
            }
            assert forall|j: int| 0 <= j < i implies distance(rows, y, i as int).below(
                y.minus(#[trigger] rows[j]).size(),
            ) by {
                assert(!distance(rows, y, j).nan());
            }
        },
        None => {
            assert forall|j: int| 0 <= j < rows.len() implies single::whole(15).at_most(
                y.minus(#[trigger] rows[j]).size(),
            ) by {
                assert(!distance(rows, y, j).below(single::whole(15)));
            }
        },
    }
}

} // verus!
