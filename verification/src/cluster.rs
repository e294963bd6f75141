//! Averages and the grouping of sorted positions.

use crate::single;
use crate::single::Single;
use vstd::prelude::*;

verus! {

/// The sum of numbers, added up from the first on.
pub open spec fn total(xs: Seq<Single>) -> Single
    decreases xs.len(),
{
    if xs.len() == 0 {
        single::signed(true, 0)
    } else {
        total(xs.drop_last()).plus(xs.last())
    }
}

/// The average of numbers.
pub open spec fn mean(xs: Seq<Single>) -> Single {
    total(xs).over(single::whole(xs.len()))
}

/// Positions in groups: each position joins the group of the one before it,
/// unless it is `apart` from that group and starts the next one.
pub open spec fn grouped(
    xs: Seq<Single>,
    apart: spec_fn(Seq<Single>, Single) -> bool,
) -> Seq<Seq<Single>>
    decreases xs.len(),
{
    if xs.len() == 0 {
        Seq::empty()
    } else {
        let before = grouped(xs.drop_last(), apart);
        let x = xs.last();
        if before.len() == 0 || apart(before.last(), x) {
            before.push(seq![x])
        } else {
            before.drop_last().push(before.last().push(x))
        }
    }
}

/// The sum of one more number.
pub proof fn lemma_total_push(xs: Seq<Single>, x: Single)
    ensures
        total(xs.push(x)) == total(xs).plus(x),
{
    assert(xs.push(x).drop_last() == xs);
}

/// The groups of the first positions, one by one.
pub proof fn lemma_grouped_step(
    xs: Seq<Single>,
    apart: spec_fn(Seq<Single>, Single) -> bool,
    k: int,
)
    requires
        0 <= k < xs.len(),
    ensures
        ({
            let before = grouped(xs.take(k), apart);
            let after = grouped(xs.take(k + 1), apart);
            let x = xs[k];
            &&& after == if before.len() == 0 || apart(before.last(), x) {
                before.push(seq![x])
            } else {
                before.drop_last().push(before.last().push(x))
            }
            &&& k > 0 ==> before.len() > 0
        }),
    decreases k,
{
    assert(xs.take(k + 1).drop_last() == xs.take(k));
    if k > 0 {
        lemma_grouped_step(xs, apart, k - 1);
    }
}

/// Grouping splits the positions up without losing, adding or moving any, and
/// no group is empty.
pub proof fn lemma_grouped_partition(
    xs: Seq<Single>,
    apart: spec_fn(Seq<Single>, Single) -> bool,
)
    ensures
        grouped(xs, apart).flatten() == xs,
        forall|g: int|
            0 <= g < grouped(xs, apart).len() ==> (#[trigger] grouped(xs, apart)[g]).len() > 0,
        xs.len() > 0 ==> grouped(xs, apart).len() > 0,
        grouped(xs, apart).len() <= xs.len(),
    decreases xs.len(),
{
    let groups = grouped(xs, apart);
    if xs.len() > 0 {
        let before = grouped(xs.drop_last(), apart);
        let x = xs.last();
        lemma_grouped_partition(xs.drop_last(), apart);
        groups.lemma_flatten_and_flatten_alt_are_equivalent();
        before.lemma_flatten_and_flatten_alt_are_equivalent();
        assert(groups.drop_last().flatten_alt() + groups.last() == groups.flatten_alt());
        if before.len() == 0 || apart(before.last(), x) {
            assert(groups.drop_last() == before);
            assert(groups.last() == seq![x]);
        } else {
            assert(groups.drop_last() == before.drop_last());
            assert(groups.last() == before.last().push(x));
            assert(before.flatten_alt() == before.drop_last().flatten_alt() + before.last());
        }
        assert(xs == xs.drop_last().push(x));
    } else {
        assert(groups.flatten() == xs);
    }
}

/// Each group is apart from the first position of the next one, and no position
/// is apart from those of its group that come before it.
pub proof fn lemma_grouped_apart(xs: Seq<Single>, apart: spec_fn(Seq<Single>, Single) -> bool)
    ensures
        forall|g: int|
            0 <= g < grouped(xs, apart).len() - 1 ==> apart(
                #[trigger] grouped(xs, apart)[g],
                grouped(xs, apart)[g + 1].first(),
            ),
        forall|g: int, k: int|
            0 <= g < grouped(xs, apart).len() && 0 < k < grouped(xs, apart)[g].len() ==> !apart(
                grouped(xs, apart)[g].take(k),
                #[trigger] grouped(xs, apart)[g][k],
            ),
    decreases xs.len(),
{
    if xs.len() > 0 {
        let before = grouped(xs.drop_last(), apart);
        let groups = grouped(xs, apart);
        let x = xs.last();
        lemma_grouped_apart(xs.drop_last(), apart);
        lemma_grouped_partition(xs.drop_last(), apart);
        let n = before.len() as int;
        if n == 0 || apart(before.last(), x) {
            assert forall|g: int| 0 <= g < groups.len() - 1 implies apart(
                #[trigger] groups[g],
                groups[g + 1].first(),
            ) by {
                assert(groups[g] == before[g]);
                if g + 1 < n {
                    assert(groups[g + 1] == before[g + 1]);
                }
            }
            assert forall|g: int, k: int|
                0 <= g < groups.len() && 0 < k < groups[g].len() implies !apart(
                groups[g].take(k),
                #[trigger] groups[g][k],
            ) by {
                assert(groups[g] == before[g]);
                assert(!apart(before[g].take(k), before[g][k]));
            }
        } else {
            let last = before.last();
            assert(last.len() > 0) by {
                assert(before[n - 1].len() > 0);
            }
            assert forall|g: int| 0 <= g < groups.len() - 1 implies apart(
                #[trigger] groups[g],
                groups[g + 1].first(),
            ) by {
                assert(groups[g] == before[g]);
                if g + 1 < n - 1 {
                    assert(groups[g + 1] == before[g + 1]);
                } else {
                    assert(groups[g + 1].first() == last.first());
                    assert(before[g + 1] == last);
                }
            }
            assert forall|g: int, k: int|
                0 <= g < groups.len() && 0 < k < groups[g].len() implies !apart(
                groups[g].take(k),
                #[trigger] groups[g][k],
            ) by {
                if g < n - 1 {
                    assert(groups[g] == before[g]);
                    assert(!apart(before[g].take(k), before[g][k]));
                } else if k < last.len() {
                    assert(before[g] == last);
                    assert(groups[g].take(k) == before[g].take(k));
                    assert(groups[g][k] == before[g][k]);
                    assert(!apart(before[g].take(k), before[g][k]));
                } else {
                    assert(groups[g].take(k) == last);
                }
            }
        }
    }
}

/// Groups are made of the positions, and are in the order of the positions:
/// where each position is before all later ones, so it is within a group and
/// from one group to another.
pub proof fn lemma_grouped_ordered(
    xs: Seq<Single>,
    apart: spec_fn(Seq<Single>, Single) -> bool,
    before: spec_fn(Single, Single) -> bool,
)
    requires
        forall|i: int, j: int|
            0 <= i < j < xs.len() ==> before(#[trigger] xs[i], #[trigger] xs[j]),
    ensures
        forall|g: int, k: int|
            0 <= g < grouped(xs, apart).len() && 0 <= k < grouped(xs, apart)[g].len()
                ==> xs.contains(#[trigger] grouped(xs, apart)[g][k]),
        forall|g: int, i: int, j: int|
            0 <= g < grouped(xs, apart).len() && 0 <= i < j < grouped(xs, apart)[g].len()
                ==> before(
                #[trigger] grouped(xs, apart)[g][i],
                #[trigger] grouped(xs, apart)[g][j],
            ),
        forall|g: int, h: int, i: int, j: int|
            0 <= g < h < grouped(xs, apart).len() && 0 <= i < grouped(xs, apart)[g].len() && 0 <= j
                < grouped(xs, apart)[h].len() ==> before(
                #[trigger] grouped(xs, apart)[g][i],
                #[trigger] grouped(xs, apart)[h][j],
            ),
    decreases xs.len(),
{
    if xs.len() > 0 {
        let rest = xs.drop_last();
        let x = xs.last();
        let earlier = grouped(rest, apart);
        let groups = grouped(xs, apart);
        let n = earlier.len() as int;
        let joins = !(n == 0 || apart(earlier.last(), x));
        assert forall|i: int, j: int| 0 <= i < j < rest.len() implies before(
            #[trigger] rest[i],
            #[trigger] rest[j],
        ) by {
            assert(before(xs[i], xs[j]));
        }
        lemma_grouped_ordered(rest, apart, before);
        assert forall|g: int, k: int| 0 <= g < n && 0 <= k < earlier[g].len() implies xs.contains(
            #[trigger] earlier[g][k],
        ) && before(earlier[g][k], x) by {
            assert(rest.contains(earlier[g][k]));
            let i = choose|i: int| 0 <= i < rest.len() && rest[i] == earlier[g][k];
            assert(xs[i] == earlier[g][k]);
            assert(before(xs[i], xs[xs.len() - 1]));
        }
        assert(xs[xs.len() - 1] == x);
        let m = if joins {
            earlier.last().len() as int
        } else {
            0
        };
        let at = groups.len() - 1;
        assert forall|g: int, k: int|
            0 <= g < groups.len() && 0 <= k < groups[g].len() implies (if g == at && k == m {
            #[trigger] groups[g][k] == x
        } else {
            g < n && k < earlier[g].len() && groups[g][k] == earlier[g][k]
        }) by {
            if g < n {
                assert(joins && g == n - 1 ==> groups[g] == earlier[g].push(x));
            }
        }
    }
}

/// The average of numbers.
pub fn average(xs: &Vec<Single>) -> (r: Single)
    ensures
        r == mean(xs@),
{
    let mut sum: Single = Single::from_bits(0x8000_0000);
    let mut i: usize = 0;
    assert(xs@.take(0) == Seq::<Single>::empty());
    while i < xs.len()
        invariant
            i <= xs@.len(),
            sum == total(xs@.take(i as int)),
        decreases xs@.len() - i,
    {
        proof {
            lemma_total_push(xs@.take(i as int), xs@[i as int]);
            assert(xs@.take(i + 1) == xs@.take(i as int).push(xs@[i as int]));
        }
        sum = sum.add(xs[i]);
        i += 1;
    }
    assert(xs@.take(i as int) == xs@);
    sum.div(Single::from_count(xs.len()))
}

/// Groups that are closed stay as they are when more positions come.
proof fn lemma_groups_closed(
    xs: Seq<Single>,
    apart: spec_fn(Seq<Single>, Single) -> bool,
    i: int,
    m: int,
)
    requires
        0 <= i < xs.len() - 1,
        i + 2 <= m <= xs.len(),
        apart(grouped(xs.take(i + 1), apart).last(), xs[i + 1]),
    ensures
        ({
            let before = grouped(xs.take(i + 1), apart);
            let after = grouped(xs.take(m), apart);
            &&& after.len() > before.len()
            &&& after.take(before.len() as int) == before
        }),
    decreases m,
{
    let before = grouped(xs.take(i + 1), apart);
    lemma_grouped_step(xs, apart, m - 1);
    if m > i + 2 {
        lemma_groups_closed(xs, apart, i, m - 1);
        let earlier = grouped(xs.take(m - 1), apart);
        let after = grouped(xs.take(m), apart);
        assert(after.take(before.len() as int) == earlier.take(before.len() as int));
    } else {
        assert(before.push(seq![xs[i + 1]]).take(before.len() as int) == before);
    }
}

/// A position that is apart from the group of those before it starts a new
/// group: the groups up to it hold exactly the positions before it.
pub proof fn lemma_grouped_cut(
    xs: Seq<Single>,
    apart: spec_fn(Seq<Single>, Single) -> bool,
    i: int,
) -> (g: int)
    requires
        0 <= i < xs.len() - 1,
        apart(grouped(xs.take(i + 1), apart).last(), xs[i + 1]),
    ensures
        0 < g < grouped(xs, apart).len(),
        grouped(xs, apart).take(g).flatten() == xs.take(i + 1),
{
    let before = grouped(xs.take(i + 1), apart);
    lemma_groups_closed(xs, apart, i, xs.len() as int);
    lemma_grouped_partition(xs.take(i + 1), apart);
    assert(xs.take(xs.len() as int) == xs);
    before.len() as int
}

/// The last group of some positions ends with the last position, and has no more
/// positions than there are.
pub proof fn lemma_last_group(xs: Seq<Single>, apart: spec_fn(Seq<Single>, Single) -> bool)
    requires
        xs.len() > 0,
    ensures
        grouped(xs, apart).len() > 0,
        0 < grouped(xs, apart).last().len() <= xs.len(),
        grouped(xs, apart).last().last() == xs.last(),
{
    let groups = grouped(xs, apart);
    let n = groups.len() - 1;
    lemma_grouped_partition(xs, apart);
    assert(groups[n].len() > 0);
    groups.lemma_flatten_and_flatten_alt_are_equivalent();
    assert(groups.flatten_alt() == groups.drop_last().flatten_alt() + groups.last());
}

} // verus!
