//! Which column an item above a table is over, by where it is between the texts
//! of the columns.

use crate::body;
use crate::body::Extent;
use crate::lines;
use crate::order;
use crate::precision;
use crate::single;
use crate::single::Single;
use crate::types::TextItem;
use vstd::prelude::*;

verus! {

/// Whether the texts of columns are next to each other from left to right, at
/// numbers up to 2^22 grains.
pub open spec fn side_by_side(extents: Seq<Extent>, s: nat) -> bool {
    &&& s <= 24
    &&& extents.len() <= usize::MAX
    &&& forall|c: int|
        0 <= c < extents.len() && #[trigger] extents[c] is Some ==> {
            let (left, right) = extents[c]->Some_0;
            &&& left.finite()
            &&& right.finite()
            &&& -(0x40_0000 * precision::grain(s)) <= left.value() <= right.value()
            &&& right.value() <= 0x40_0000 * precision::grain(s)
        }
    &&& forall|c: int, d: int|
        0 <= c < d < extents.len() && #[trigger] extents[c] is Some && #[trigger] extents[d] is Some
            ==> extents[c]->Some_0.1.value() <= extents[d]->Some_0.0.value()
}

/// Whether the left edge and the width of an item are numbers up to 2^22 grains.
pub open spec fn placed(item: TextItem, s: nat) -> bool {
    &&& item.x.finite()
    &&& item.width.finite()
    &&& -(0x40_0000 * precision::grain(s)) <= item.x.value() <= 0x40_0000 * precision::grain(s)
    &&& -(0x40_0000 * precision::grain(s)) <= item.width.value() <= 0x40_0000
        * precision::grain(s)
}

/// Twice the place of the middle of an item, in multiples of 2^-149.
pub open spec fn twice_middle(item: TextItem) -> int {
    2 * item.x.value() + item.width.value()
}

/// Columns with text are listed from left to right.
proof fn lemma_present_columns(extents: Seq<Extent>, n: nat)
    requires
        n <= extents.len() <= usize::MAX,
    ensures
        ({
            let present = order::index_range(n).filter(|c: usize| extents[c as int] is Some);
            &&& forall|i: int, j: int|
                0 <= i < j < present.len() ==> #[trigger] present[i] < #[trigger] present[j]
            &&& forall|i: int|
                0 <= i < present.len() ==> #[trigger] present[i] < n && extents[present[i] as int]
                    is Some
            &&& forall|c: usize| c < n && extents[c as int] is Some ==> #[trigger] present.contains(
                c,
            )
        }),
    decreases n,
{
    let is_present = |c: usize| extents[c as int] is Some;
    let all = order::index_range(n);
    order::lemma_filtered_indexes(n, is_present);
    if n > 0 {
        let less = order::index_range((n - 1) as nat);
        lemma_present_columns(extents, (n - 1) as nat);
        less.lemma_filter_push((n - 1) as usize, is_present);
        assert(less.push((n - 1) as usize) == all);
    } else {
        reveal(Seq::filter);
    }
}

/// Twice the middle of an item, as computed, is off by no more than two grains.
proof fn lemma_middle(item: TextItem, s: nat)
    requires
        s <= 24,
        placed(item, s),
    ensures
        ({
            let centre = item.x.plus(body::right_edge(item)).over(single::whole(2));
            &&& centre.finite()
            &&& 2 * centre.value() - twice_middle(item) <= 2 * precision::grain(s)
            &&& twice_middle(item) - 2 * centre.value() <= 2 * precision::grain(s)
        }),
{
    let e = (149 - s) as nat;
    let right = body::right_edge(item);
    precision::lemma_grain(s);
    precision::lemma_sum_error(item.x, item.width, e);
    precision::lemma_sum_error(item.x, right, e);
    precision::lemma_half_error(item.x.plus(right), s);
}

/// Twice the divider between two columns, as computed, is off by no more than
/// two grains.
proof fn lemma_divider(extents: Seq<Extent>, a: usize, b: usize, s: nat)
    requires
        side_by_side(extents, s),
        a < extents.len(),
        b < extents.len(),
        extents[a as int] is Some,
        extents[b as int] is Some,
    ensures
        ({
            let middle = extents[a as int]->Some_0.1.value() + extents[b as int]->Some_0.0.value();
            let divider = lines::divider(extents, a, b);
            &&& divider.finite()
            &&& 2 * divider.value() - middle <= 2 * precision::grain(s)
            &&& middle - 2 * divider.value() <= 2 * precision::grain(s)
        }),
{
    let right = extents[a as int]->Some_0.1;
    let left = extents[b as int]->Some_0.0;
    precision::lemma_grain(s);
    precision::lemma_sum_error(right, left, (149 - s) as nat);
    precision::lemma_half_error(right.plus(left), s);
}

/// Two neighbouring columns with text part at the middle of the gap between
/// their texts: an item whose middle is nearer to the text on the left is over
/// that column or one left of it, and one whose middle is nearer to the text on
/// the right is over that column or one right of it. Four grains at the middle
/// are left open.
pub proof fn lemma_parted_at_middle(
    extents: Seq<Extent>,
    item: TextItem,
    p: usize,
    q: usize,
    s: nat,
)
    requires
        side_by_side(extents, s),
        placed(item, s),
        p < q < extents.len(),
        extents[p as int] is Some,
        extents[q as int] is Some,
        forall|c: int| p < c < q ==> #[trigger] extents[c] is None,
    ensures
        ({
            let middle = extents[p as int]->Some_0.1.value() + extents[q as int]->Some_0.0.value();
            let column = lines::column_below(extents, item);
            &&& twice_middle(item) + 4 * precision::grain(s) < middle ==> column <= p
            &&& middle + 4 * precision::grain(s) < twice_middle(item) ==> q <= column
        }),
{
    let present = lines::present_columns(extents);
    let centre = item.x.plus(body::right_edge(item)).over(single::whole(2));
    let middle = extents[p as int]->Some_0.1.value() + extents[q as int]->Some_0.0.value();
    let small = precision::grain(s);
    lemma_present_columns(extents, extents.len());
    precision::lemma_grain(s);
    assert(present.contains(p) && present.contains(q));
    let i = choose|i: int| 0 <= i < present.len() && present[i] == p;
    let j = choose|j: int| 0 <= j < present.len() && present[j] == q;
    assert(i < j);
    if i + 1 < j {
        let c = present[i + 1];
        assert(present[i] < c < present[j]);
        assert(extents[c as int] is None);
    }
    lines::lemma_slot(extents, present, centre, 0);
    let found = lines::slot(extents, present, centre, 0) as int;
    lemma_middle(item, s);
    lemma_divider(extents, p, q, s);
    single::lemma_place_orders_values(centre, lines::divider(extents, p, q));
    if twice_middle(item) + 4 * small < middle {
        assert(centre.below(lines::divider(extents, present[i], present[i + 1])));
        assert(found <= i);
    }
    if middle + 4 * small < twice_middle(item) && found <= i {
        let a = present[found];
        let b = present[found + 1];
        assert(extents[a as int] is Some && extents[b as int] is Some);
        assert(a <= p && b <= q);
        lemma_divider(extents, a, b, s);
        single::lemma_place_orders_values(centre, lines::divider(extents, a, b));
        lemma_ends_in_order(extents, a, p, s);
        lemma_ends_in_order(extents, b, q, s);
        assert(centre.below(lines::divider(extents, a, b)));
    }
}

/// The ends of texts are in the order of the columns.
proof fn lemma_ends_in_order(extents: Seq<Extent>, a: usize, b: usize, s: nat)
    requires
        side_by_side(extents, s),
        a <= b < extents.len(),
        extents[a as int] is Some,
        extents[b as int] is Some,
    ensures
        extents[a as int]->Some_0.0.value() <= extents[b as int]->Some_0.0.value(),
        extents[a as int]->Some_0.1.value() <= extents[b as int]->Some_0.1.value(),
{
    if a < b {
        assert(extents[a as int]->Some_0.1.value() <= extents[b as int]->Some_0.0.value());
    }
}

/// The column with text before another one, if there is one.
proof fn lemma_column_before(extents: Seq<Extent>, q: int) -> (p: Option<usize>)
    requires
        0 <= q <= extents.len() <= usize::MAX,
    ensures
        match p {
            Some(p) => p < q && extents[p as int] is Some && forall|c: int|
                p < c < q ==> #[trigger] extents[c] is None,
            None => forall|c: int| 0 <= c < q ==> #[trigger] extents[c] is None,
        },
    decreases q,
{
    if q == 0 {
        None
    } else if extents[q - 1] is Some {
        Some((q - 1) as usize)
    } else {
        lemma_column_before(extents, q - 1)
    }
}

/// The column with text after another one, if there is one.
proof fn lemma_column_after(extents: Seq<Extent>, q: int) -> (n: Option<usize>)
    requires
        -1 <= q < extents.len() <= usize::MAX,
    ensures
        match n {
            Some(n) => q < n < extents.len() && extents[n as int] is Some && forall|c: int|
                q < c < n ==> #[trigger] extents[c] is None,
            None => forall|c: int| q < c < extents.len() ==> #[trigger] extents[c] is None,
        },
    decreases extents.len() - q,
{
    if q + 1 == extents.len() {
        None
    } else if extents[q + 1] is Some {
        Some((q + 1) as usize)
    } else {
        lemma_column_after(extents, q + 1)
    }
}

/// The column below an item is one with text.
proof fn lemma_column_below_has_text(extents: Seq<Extent>, item: TextItem, q: usize)
    requires
        extents.len() <= usize::MAX,
        q < extents.len(),
        extents[q as int] is Some,
    ensures
        lines::column_below(extents, item) < extents.len(),
        extents[lines::column_below(extents, item) as int] is Some,
{
    let present = lines::present_columns(extents);
    let centre = item.x.plus(body::right_edge(item)).over(single::whole(2));
    lemma_present_columns(extents, extents.len());
    assert(present.contains(q));
    lines::lemma_slot(extents, present, centre, 0);
}

/// An item is over a column, and over no other, where its middle is past the
/// middle of the gap from every text on the left, and before the middle of the
/// gap to every text on the right, unless it reaches over the text of another
/// column: then it is over none.
pub proof fn lemma_over_column(extents: Seq<Extent>, item: TextItem, q: usize, s: nat)
    requires
        side_by_side(extents, s),
        placed(item, s),
        q < extents.len(),
        extents[q as int] is Some,
        forall|p: int|
            0 <= p < q && #[trigger] extents[p] is Some ==> extents[p]->Some_0.1.value()
                + extents[q as int]->Some_0.0.value() + 4 * precision::grain(s) < twice_middle(
                item,
            ),
        forall|n: int|
            q < n < extents.len() && #[trigger] extents[n] is Some ==> twice_middle(item) + 4
                * precision::grain(s) < extents[q as int]->Some_0.1.value()
                + extents[n]->Some_0.0.value(),
    ensures
        lines::column_over(extents, item) == if exists|c: int|
            0 <= c < extents.len() && c != q && (#[trigger] extents[c] matches Some((left, right))
                && left.below(item.x.plus(item.width)) && item.x.below(right)) {
            None
        } else {
            Some(q)
        },
{
    let column = lines::column_below(extents, item);
    lemma_column_below_has_text(extents, item, q);
    if let Some(p) = lemma_column_before(extents, q as int) {
        lemma_parted_at_middle(extents, item, p, q, s);
    }
    if let Some(n) = lemma_column_after(extents, q as int) {
        lemma_parted_at_middle(extents, item, q, n, s);
    }
    assert(column == q) by {
        if column < q {
            assert(extents[column as int] is Some);
        }
        if column > q {
            assert(extents[column as int] is Some);
        }
    }
    if exists|c: int|
        0 <= c < extents.len() && c != q && (#[trigger] extents[c] matches Some((left, right))
            && left.below(item.x.plus(item.width)) && item.x.below(right)) {
        let c = choose|c: int|
            0 <= c < extents.len() && c != q && (#[trigger] extents[c] matches Some((left, right))
                && left.below(item.x.plus(item.width)) && item.x.below(right));
        assert(lines::reaches(item, extents[c]));
    } else if exists|c: int|
        0 <= c < extents.len() && c != q && lines::reaches(item, #[trigger] extents[c]) {
        let c = choose|c: int|
            0 <= c < extents.len() && c != q && lines::reaches(item, #[trigger] extents[c]);
        assert(extents[c] is Some);
    }
}

/// An item that ends where the text of a column ends, and starts right of the
/// texts before it, is over that column if its middle is past the middle of the
/// gap from the text before.
pub proof fn lemma_right_aligned(extents: Seq<Extent>, item: TextItem, q: usize, s: nat)
    requires
        side_by_side(extents, s),
        placed(item, s),
        q < extents.len(),
        extents[q as int] is Some,
        item.x.plus(item.width) == extents[q as int]->Some_0.1,
        item.width.value() > 6 * precision::grain(s),
        forall|p: int|
            0 <= p < q && #[trigger] extents[p] is Some ==> extents[p]->Some_0.1.value()
                <= item.x.value() && extents[p]->Some_0.1.value()
                + extents[q as int]->Some_0.0.value() + 4 * precision::grain(s) < twice_middle(
                item,
            ),
    ensures
        lines::column_over(extents, item) == Some(q),
{
    let right = extents[q as int]->Some_0.1;
    precision::lemma_grain(s);
    precision::lemma_sum_error(item.x, item.width, (149 - s) as nat);
    assert forall|n: int|
        q < n < extents.len() && #[trigger] extents[n] is Some implies twice_middle(item) + 4
        * precision::grain(s) < right.value() + extents[n]->Some_0.0.value() by {
        assert(right.value() <= extents[n]->Some_0.0.value());
    }
    lemma_over_column(extents, item, q, s);
    assert forall|c: int|
        0 <= c < extents.len() && c != q && #[trigger] extents[c] is Some implies !(
    extents[c]->Some_0.0.below(right) && item.x.below(extents[c]->Some_0.1)) by {
        single::lemma_place_orders_values(extents[c]->Some_0.0, right);
        single::lemma_place_orders_values(item.x, extents[c]->Some_0.1);
        if c > q {
            assert(right.value() <= extents[c]->Some_0.0.value());
        }
    }
}

/// An item that starts where the text of a column starts, and ends left of the
/// texts after it, is over that column if its middle is before the middle of
/// the gap to the text after.
pub proof fn lemma_left_aligned(extents: Seq<Extent>, item: TextItem, q: usize, s: nat)
    requires
        side_by_side(extents, s),
        placed(item, s),
        q < extents.len(),
        extents[q as int] is Some,
        item.x == extents[q as int]->Some_0.0,
        item.width.value() > 6 * precision::grain(s),
        forall|n: int|
            q < n < extents.len() && #[trigger] extents[n] is Some ==> item.x.plus(
                item.width,
            ).value() <= extents[n]->Some_0.0.value() && twice_middle(item) + 4
                * precision::grain(s) < extents[q as int]->Some_0.1.value()
                + extents[n]->Some_0.0.value(),
    ensures
        lines::column_over(extents, item) == Some(q),
{
    let left = extents[q as int]->Some_0.0;
    let right = item.x.plus(item.width);
    precision::lemma_grain(s);
    precision::lemma_sum_error(item.x, item.width, (149 - s) as nat);
    assert forall|p: int|
        0 <= p < q && #[trigger] extents[p] is Some implies extents[p]->Some_0.1.value()
        + left.value() + 4 * precision::grain(s) < twice_middle(item) by {
        assert(extents[p]->Some_0.1.value() <= left.value());
    }
    lemma_over_column(extents, item, q, s);
    assert forall|c: int|
        0 <= c < extents.len() && c != q && #[trigger] extents[c] is Some implies !(
    extents[c]->Some_0.0.below(right) && item.x.below(extents[c]->Some_0.1)) by {
        single::lemma_place_orders_values(extents[c]->Some_0.0, right);
        single::lemma_place_orders_values(item.x, extents[c]->Some_0.1);
        if c < q {
            assert(extents[c]->Some_0.1.value() <= left.value());
        }
    }
}

} // verus!
