//! The lines of text above a table, and the columns that their items are over.

use crate::body;
use crate::body::Extent;
use crate::order;
use crate::single;
use crate::single::Single;
use crate::text;
use crate::types::TextItem;
use std::collections::HashSet;
use vstd::prelude::*;
use vstd::string::*;

verus! {

/// The most lines that a header is gathered from.
pub const MAX_HEADER_LINES: usize = 8;

/// A line: its position, and its items with the columns that they are over.
pub type LineModel = (Single, Seq<(usize, usize)>);

/// The columns that have text.
pub open spec fn present_columns(extents: Seq<Extent>) -> Seq<usize> {
    order::index_range(extents.len()).filter(|c: usize| extents[c as int] is Some)
}

/// The middle of the gap between the texts of two columns.
pub open spec fn divider(extents: Seq<Extent>, a: usize, b: usize) -> Single {
    let (_, right) = extents[a as int].unwrap();
    let (left, _) = extents[b as int].unwrap();
    right.plus(left).over(single::whole(2))
}

/// The first of the present columns, from the `s`th on, that ends right of
/// `centre`; the last one goes on without end.
pub open spec fn slot(extents: Seq<Extent>, present: Seq<usize>, centre: Single, s: nat) -> nat
    decreases present.len() - s,
{
    if s + 1 >= present.len() {
        (present.len() - 1) as nat
    } else if centre.below(divider(extents, present[s as int], present[s as int + 1])) {
        s
    } else {
        slot(extents, present, centre, s + 1)
    }
}

/// Whether an item reaches over the text of a column.
pub open spec fn reaches(item: TextItem, extent: Extent) -> bool {
    match extent {
        Some((left, right)) => left.below(body::right_edge(item)) && item.x.below(right),
        None => false,
    }
}

/// The column that the middle of an item is over.
pub open spec fn column_below(extents: Seq<Extent>, item: TextItem) -> usize {
    let present = present_columns(extents);
    let centre = item.x.plus(body::right_edge(item)).over(single::whole(2));
    present[slot(extents, present, centre, 0) as int]
}

/// The one column that an item is over, if it does not reach over the text of
/// another one.
pub open spec fn column_over(extents: Seq<Extent>, item: TextItem) -> Option<usize> {
    let column = column_below(extents, item);
    if exists|c: int| 0 <= c < extents.len() && c != column && reaches(item, #[trigger] extents[c]) {
        None
    } else {
        Some(column)
    }
}

/// Whether an item may belong to a wrapped header: it is upright text above the
/// first row, in about the font of the table's body.
pub open spec fn line_candidate(item: TextItem, first_row_y: Single, font: Single) -> bool {
    &&& text::trimmed(item.text@).len() > 0
    &&& item.upright
    &&& first_row_y.plus(font.times(single::fraction(3, 10))).below(item.line_y)
    &&& font.times(single::fraction(3, 4)).at_most(item.font_size)
    &&& item.font_size.at_most(font.times(single::fraction(27, 20)))
}

/// The items that may belong to a wrapped header and are neither in the table
/// nor claimed otherwise.
pub open spec fn line_candidates(
    items: Seq<TextItem>,
    in_table: Set<usize>,
    claimed: Set<usize>,
    first_row_y: Single,
    font: Single,
) -> Seq<usize> {
    order::index_range(items.len()).filter(
        |i: usize|
            !in_table.contains(i) && !claimed.contains(i) && line_candidate(
                items[i as int],
                first_row_y,
                font,
            ),
    )
}

/// The keys that sort items by their lines from the bottom of the page up.
pub open spec fn upward_keys(items: Seq<TextItem>, which: Seq<usize>) -> Seq<(i64, i64)> {
    which.map_values(|i: usize| (items[i as int].line_y.total_place() as i64, 0i64))
}

/// How many items, from the `k`th on, are on the line at `y`: those before the
/// first one that is more than `margin` above it.
pub open spec fn line_end(
    items: Seq<TextItem>,
    which: Seq<usize>,
    y: Single,
    margin: Single,
    k: nat,
) -> nat
    decreases which.len() - k,
{
    if k >= which.len() {
        which.len()
    } else if margin.below(items[which[k as int] as int].line_y.minus(y)) {
        k
    } else {
        line_end(items, which, y, margin, k + 1)
    }
}

/// Items with the columns that they are over, if each of them is over one.
pub open spec fn assigned(items: Seq<TextItem>, extents: Seq<Extent>, which: Seq<usize>) -> Option<
    Seq<(usize, usize)>,
> {
    if forall|k: int|
        0 <= k < which.len() ==> column_over(extents, items[#[trigger] which[k] as int]) is Some {
        Some(which.map_values(|i: usize| (i, column_over(extents, items[i as int])->0)))
    } else {
        None
    }
}

/// The lines that a run of sorted items makes upwards from `previous_y`, at
/// most `limit` of them, up to the first one that is more than `max_gap` above
/// the one before or has an item that is not over one column.
pub open spec fn lines_above(
    items: Seq<TextItem>,
    extents: Seq<Extent>,
    which: Seq<usize>,
    previous_y: Single,
    font: Single,
    max_gap: Single,
    limit: nat,
) -> Seq<LineModel>
    decreases limit,
{
    let y = items[which[0] as int].line_y;
    let end = line_end(items, which, y, font.times(single::fraction(3, 10)), 0) as int;
    if limit == 0 || which.len() == 0 || max_gap.below(y.minus(previous_y)) {
        Seq::empty()
    } else {
        match assigned(items, extents, which.take(end)) {
            None => Seq::empty(),
            Some(line) => seq![(y, line)] + lines_above(
                items,
                extents,
                which.skip(end),
                y,
                font,
                max_gap,
                (limit - 1) as nat,
            ),
        }
    }
}

/// The median distance between rows, the upper one of two middle distances.
pub open spec fn median_pitch(rows: Seq<Single>) -> Single {
    let pitches = Seq::new((rows.len() - 1) as nat, |i: int| rows[i].minus(rows[i + 1]));
    order::ascending(pitches)[pitches.len() as int / 2]
}

/// How far apart lines may be: as far as the rows are by their median distance.
/// Where that is no number above zero, as with rows that do not descend, 1.5
/// times the font size.
pub open spec fn line_gap(rows: Seq<Single>, font: Single) -> Single {
    if single::signed(false, 0).below(median_pitch(rows)) {
        median_pitch(rows)
    } else {
        font.times(single::fraction(3, 2))
    }
}

/// Finds the columns that have text.
pub fn find_present_columns(extents: &Vec<Extent>) -> (r: Vec<usize>)
    ensures
        r@ == present_columns(extents@),
        forall|k: int|
            0 <= k < r@.len() ==> #[trigger] r@[k] < extents@.len() && extents@[r@[k] as int]
                is Some,
        extents@.len() > 0 && extents@[0] is Some ==> r@.len() > 0,
{
    let ghost all = order::index_range(extents@.len());
    let ghost present = |c: usize| extents@[c as int] is Some;
    let mut r: Vec<usize> = Vec::new();
    let mut c: usize = 0;
    proof {
        reveal(Seq::filter);
        assert(all.take(0) == Seq::<usize>::empty());
    }
    while c < extents.len()
        invariant
            c <= extents@.len(),
            all == order::index_range(extents@.len()),
            present == |c: usize| extents@[c as int] is Some,
            r@ == all.take(c as int).filter(present),
            forall|k: int|
                0 <= k < r@.len() ==> #[trigger] r@[k] < extents@.len() && extents@[r@[k] as int]
                    is Some,
            c > 0 && extents@[0] is Some ==> r@.len() > 0,
        decreases extents@.len() - c,
    {
        proof {
            all.take(c as int).lemma_filter_push(c, present);
            assert(all.take(c + 1) == all.take(c as int).push(c));
        }
        if extents[c].is_some() {
            r.push(c);
        }
        c += 1;
    }
    assert(all.take(c as int) == all);
    r
}

/// Finds the one column that an item is over.
pub fn find_column_over(extents: &Vec<Extent>, present: &Vec<usize>, item: &TextItem) -> (r: Option<
    usize,
>)
    requires
        present@ == present_columns(extents@),
        present@.len() > 0,
        forall|k: int|
            0 <= k < present@.len() ==> #[trigger] present@[k] < extents@.len()
                && extents@[present@[k] as int] is Some,
    ensures
        r == column_over(extents@, *item),
        r matches Some(c) ==> c < extents@.len(),
{
    let left: Single = item.x;
    let right: Single = item.x.add(item.width);
    let two: Single = Single::from_ratio(2, 1);
    let centre: Single = left.add(right).div(two);
    let mut s: usize = 0;
    let mut found: bool = false;
    while !found && s < present.len() - 1
        invariant
            s < present@.len(),
            two == single::whole(2),
            present@ == present_columns(extents@),
            forall|k: int|
                0 <= k < present@.len() ==> #[trigger] present@[k] < extents@.len()
                    && extents@[present@[k] as int] is Some,
            slot(extents@, present@, centre, 0) == if found {
                s as nat
            } else {
                slot(extents@, present@, centre, s as nat)
            },
        decreases
                present@.len() - s,
                if found {
                    0int
                } else {
                    1int
                },
    {
        let a: (Single, Single) = extents[present[s]].unwrap();
        let b: (Single, Single) = extents[present[s + 1]].unwrap();
        if centre.lt(a.1.add(b.0).div(two)) {
            found = true;
        } else {
            s += 1;
        }
    }
    let column: usize = present[s];
    assert(column == column_below(extents@, *item));
    let mut c: usize = 0;
    while c < extents.len()
        invariant
            c <= extents@.len(),
            left == item.x,
            right == body::right_edge(*item),
            column == column_below(extents@, *item),
            forall|d: int|
                0 <= d < c && d != column ==> !reaches(*item, #[trigger] extents@[d]),
        decreases extents@.len() - c,
    {
        if c != column {
            if let Some((a, b)) = extents[c] {
                if a.lt(right) && left.lt(b) {
                    assert(reaches(*item, extents@[c as int]));
                    return None;
                }
            }
        }
        c += 1;
    }
    Some(column)
}

/// The set of the given indexes.
fn index_set(which: &Vec<usize>) -> (r: HashSet<usize>)
    ensures
        r@ == which@.to_set(),
{
    broadcast use vstd::std_specs::hash::group_hash_axioms;

    let mut r: HashSet<usize> = HashSet::new();
    let mut k: usize = 0;
    assert(which@.take(0).to_set() == Set::<usize>::empty());
    while k < which.len()
        invariant
            k <= which@.len(),
            r@ == which@.take(k as int).to_set(),
        decreases which@.len() - k,
    {
        r.insert(which[k]);
        proof {
            let before = which@.take(k as int);
            let after = which@.take(k + 1);
            let x = which@[k as int];
            assert(after == before.push(x));
            assert forall|i: usize| after.to_set().contains(i) <==> before.to_set().insert(
                x,
            ).contains(i) by {
                if before.contains(i) {
                    let j = choose|j: int| 0 <= j < before.len() && before[j] == i;
                    assert(after[j] == i);
                }
                if i == x {
                    assert(after[k as int] == x);
                }
            }
            assert(after.to_set() == before.to_set().insert(x));
        }
        k += 1;
    }
    assert(which@.take(k as int) == which@);
    r
}

/// Finds the items that may belong to a wrapped header.
pub fn find_line_candidates(
    items: &[TextItem],
    members: &Vec<usize>,
    claimed: &HashSet<usize>,
    first_row_y: Single,
    font: Single,
) -> (which: Vec<usize>)
    ensures
        which@ == line_candidates(items@, members@.to_set(), claimed@, first_row_y, font),
        forall|k: int| 0 <= k < which@.len() ==> #[trigger] which@[k] < items@.len(),
{
    broadcast use vstd::std_specs::hash::group_hash_axioms;

    let in_table: HashSet<usize> = index_set(members);
    let low: Single = first_row_y.add(font.mul(Single::from_ratio(3, 10)));
    let smallest: Single = font.mul(Single::from_ratio(3, 4));
    let largest: Single = font.mul(Single::from_ratio(27, 20));
    let ghost candidate = |i: usize|
        !in_table@.contains(i) && !claimed@.contains(i) && line_candidate(
            items@[i as int],
            first_row_y,
            font,
        );
    let ghost all = order::index_range(items@.len());
    let mut which: Vec<usize> = Vec::new();
    let mut i: usize = 0;
    proof {
        reveal(Seq::filter);
        assert(all.take(0) == Seq::<usize>::empty());
    }
    while i < items.len()
        invariant
            i <= items@.len(),
            all == order::index_range(items@.len()),
            low == first_row_y.plus(font.times(single::fraction(3, 10))),
            smallest == font.times(single::fraction(3, 4)),
            largest == font.times(single::fraction(27, 20)),
            candidate == |i: usize|
                !in_table@.contains(i) && !claimed@.contains(i) && line_candidate(
                    items@[i as int],
                    first_row_y,
                    font,
                ),
            which@ == all.take(i as int).filter(candidate),
            forall|k: int| 0 <= k < which@.len() ==> #[trigger] which@[k] < items@.len(),
        decreases items@.len() - i,
    {
        proof {
            all.take(i as int).lemma_filter_push(i, candidate);
            assert(all.take(i + 1) == all.take(i as int).push(i));
        }
        let item: &TextItem = &items[i];
        if !in_table.contains(&i) && !claimed.contains(&i) && text::trim(
            item.text.as_str(),
        ).unicode_len() != 0 && item.upright && low.lt(item.line_y) && smallest.le(item.font_size)
            && item.font_size.le(largest) {
            which.push(i);
        }
        i += 1;
    }
    assert(all.take(i as int) == all);
    which
}

/// Sorts items by their lines from the bottom of the page up.
pub fn sort_upward(items: &[TextItem], which: &Vec<usize>) -> (r: Vec<usize>)
    requires
        forall|k: int| 0 <= k < which@.len() ==> #[trigger] which@[k] < items@.len(),
    ensures
        r@ == order::arranged(which@, upward_keys(items@, which@)),
        forall|k: int| 0 <= k < r@.len() ==> #[trigger] r@[k] < items@.len(),
{
    let mut keys: Vec<(i64, i64)> = Vec::new();
    while keys.len() < which.len()
        invariant
            keys@.len() <= which@.len(),
            keys@ == upward_keys(items@, which@).take(keys@.len() as int),
            forall|k: int| 0 <= k < which@.len() ==> #[trigger] which@[k] < items@.len(),
        decreases which@.len() - keys@.len(),
    {
        keys.push((items[which[keys.len()]].line_y.total_key(), 0));
    }
    assert(keys@ == upward_keys(items@, which@));
    let r: Vec<usize> = order::arrange(which, &keys);
    proof {
        assert forall|k: int| 0 <= k < r@.len() implies #[trigger] r@[k] < items@.len() by {
            assert(which@.contains(r@[k]));
        }
    }
    r
}

/// Finds how far apart lines may be.
pub fn find_line_gap(rows: &Vec<Single>, font: Single) -> (r: Single)
    requires
        rows@.len() >= 2,
    ensures
        r == line_gap(rows@, font),
{
    let mut pitches: Vec<Single> = Vec::new();
    let n: usize = rows.len() - 1;
    while pitches.len() < n
        invariant
            n == rows@.len() - 1,
            pitches@.len() <= n,
            forall|i: int|
                0 <= i < pitches@.len() ==> #[trigger] pitches@[i] == rows@[i].minus(rows@[i + 1]),
        decreases n - pitches@.len(),
    {
        let i: usize = pitches.len();
        pitches.push(rows[i].sub(rows[i + 1]));
    }
    proof {
        assert(pitches@ == Seq::new(
            (rows@.len() - 1) as nat,
            |i: int| rows@[i].minus(rows@[i + 1]),
        ));
        order::lemma_ascending(pitches@);
    }
    let sorted: Vec<Single> = order::sort_ascending(&pitches);
    let median: Single = sorted[n / 2];
    if Single::from_bits(0).lt(median) {
        median
    } else {
        font.mul(Single::from_ratio(3, 2))
    }
}

/// Lines as models.
pub open spec fn line_models(lines: Seq<(Single, Vec<(usize, usize)>)>) -> Seq<LineModel> {
    lines.map_values(|line: (Single, Vec<(usize, usize)>)| (line.0, line.1@))
}

/// Assigns a run of items to the columns that they are over.
fn assign_line(
    items: &[TextItem],
    extents: &Vec<Extent>,
    present: &Vec<usize>,
    which: &Vec<usize>,
    from: usize,
    to: usize,
) -> (r: Option<Vec<(usize, usize)>>)
    requires
        from <= to <= which@.len(),
        forall|k: int| 0 <= k < which@.len() ==> #[trigger] which@[k] < items@.len(),
        present@ == present_columns(extents@),
        present@.len() > 0,
        forall|k: int|
            0 <= k < present@.len() ==> #[trigger] present@[k] < extents@.len()
                && extents@[present@[k] as int] is Some,
    ensures
        assigned(items@, extents@, which@.subrange(from as int, to as int)) == match r {
            Some(line) => Some(line@),
            None => None,
        },
        r matches Some(line) ==> forall|k: int|
            0 <= k < line@.len() ==> (#[trigger] line@[k]).0 < items@.len() && line@[k].1
                < extents@.len(),
{
    let ghost part = which@.subrange(from as int, to as int);
    let mut line: Vec<(usize, usize)> = Vec::new();
    let mut k: usize = from;
    while k < to
        invariant
            from <= k <= to <= which@.len(),
            part == which@.subrange(from as int, to as int),
            forall|k: int| 0 <= k < which@.len() ==> #[trigger] which@[k] < items@.len(),
            present@ == present_columns(extents@),
            present@.len() > 0,
            forall|k: int|
                0 <= k < present@.len() ==> #[trigger] present@[k] < extents@.len()
                    && extents@[present@[k] as int] is Some,
            line@.len() == k - from,
            forall|j: int|
                0 <= j < line@.len() ==> (#[trigger] line@[j]).0 == part[j] && column_over(
                    extents@,
                    items@[part[j] as int],
                ) == Some(line@[j].1) && line@[j].0 < items@.len() && line@[j].1 < extents@.len(),
        decreases to - k,
    {
        let i: usize = which[k];
        assert(part[k - from] == i);
        match find_column_over(extents, present, &items[i]) {
            Some(column) => {
                line.push((i, column));
            },
            None => {
                return None;
            },
        }
        k += 1;
    }
    proof {
        assert forall|j: int| 0 <= j < part.len() implies column_over(
            extents@,
            items@[#[trigger] part[j] as int],
        ) is Some by {
            assert(line@[j].0 == part[j]);
        }
        assert(line@ == part.map_values(
            |i: usize| (i, column_over(extents@, items@[i as int])->0),
        ));
    }
    Some(line)
}

/// Gathers the lines directly above a table from items sorted upwards.
pub fn find_lines(
    items: &[TextItem],
    extents: &Vec<Extent>,
    which: &Vec<usize>,
    first_row_y: Single,
    font: Single,
    max_gap: Single,
) -> (lines: Vec<(Single, Vec<(usize, usize)>)>)
    requires
        extents@.len() > 0,
        extents@[0] is Some,
        forall|k: int| 0 <= k < which@.len() ==> #[trigger] which@[k] < items@.len(),
    ensures
        line_models(lines@) == lines_above(
            items@,
            extents@,
            which@,
            first_row_y,
            font,
            max_gap,
            MAX_HEADER_LINES as nat,
        ),
        lines@.len() <= MAX_HEADER_LINES,
        forall|l: int, k: int|
            0 <= l < lines@.len() && 0 <= k < lines@[l].1@.len() ==> (#[trigger] lines@[l].1@[k]).0
                < items@.len() && lines@[l].1@[k].1 < extents@.len(),
{
    let present: Vec<usize> = find_present_columns(extents);
    let margin: Single = font.mul(Single::from_ratio(3, 10));
    let ghost whole_run = lines_above(
        items@,
        extents@,
        which@,
        first_row_y,
        font,
        max_gap,
        MAX_HEADER_LINES as nat,
    );
    let mut lines: Vec<(Single, Vec<(usize, usize)>)> = Vec::new();
    let mut previous_y: Single = first_row_y;
    let mut start: usize = 0;
    let mut going: bool = true;
    proof {
        assert(which@.skip(0) == which@);
        assert(line_models(lines@) + whole_run == whole_run);
    }
    while going && start < which.len() && lines.len() < MAX_HEADER_LINES
        invariant
            start <= which@.len(),
            lines@.len() <= MAX_HEADER_LINES,
            margin == font.times(single::fraction(3, 10)),
            forall|k: int| 0 <= k < which@.len() ==> #[trigger] which@[k] < items@.len(),
            present@ == present_columns(extents@),
            present@.len() > 0,
            forall|k: int|
                0 <= k < present@.len() ==> #[trigger] present@[k] < extents@.len()
                    && extents@[present@[k] as int] is Some,
            forall|l: int, k: int|
                0 <= l < lines@.len() && 0 <= k < lines@[l].1@.len() ==> (
                #[trigger] lines@[l].1@[k]).0 < items@.len() && lines@[l].1@[k].1 < extents@.len(),
            whole_run == line_models(lines@) + if going {
                lines_above(
                    items@,
                    extents@,
                    which@.skip(start as int),
                    previous_y,
                    font,
                    max_gap,
                    (MAX_HEADER_LINES - lines@.len()) as nat,
                )
            } else {
                Seq::empty()
            },
        decreases
                MAX_HEADER_LINES - lines@.len(),
                if going {
                    1int
                } else {
                    0int
                },
    {
        let ghost rest = which@.skip(start as int);
        let ghost before = lines@;
        let ghost limit = (MAX_HEADER_LINES - lines@.len()) as nat;
        let y: Single = items[which[start]].line_y;
        assert(rest[0] == which@[start as int]);
        if max_gap.lt(y.sub(previous_y)) {
            going = false;
        } else {
            let mut end: usize = start;
            while end < which.len() && !margin.lt(items[which[end]].line_y.sub(y))
                invariant
                    start <= end <= which@.len(),
                    rest == which@.skip(start as int),
                    forall|k: int| 0 <= k < which@.len() ==> #[trigger] which@[k] < items@.len(),
                    line_end(items@, rest, y, margin, 0) == line_end(
                        items@,
                        rest,
                        y,
                        margin,
                        (end - start) as nat,
                    ),
                decreases which@.len() - end,
            {
                end += 1;
            }
            proof {
                assert(rest.take(end - start) == which@.subrange(start as int, end as int));
                assert(rest.skip(end - start) == which@.skip(end as int));
            }
            match assign_line(items, extents, &present, which, start, end) {
                None => {
                    going = false;
                },
                Some(line) => {
                    proof {
                        let next = lines_above(
                            items@,
                            extents@,
                            which@.skip(end as int),
                            y,
                            font,
                            max_gap,
                            (limit - 1) as nat,
                        );
                        assert(line_models(before.push((y, line))) == line_models(before).push(
                            (y, line@),
                        ));
                        assert(line_models(before) + (seq![(y, line@)] + next) == line_models(
                            before.push((y, line)),
                        ) + next);
                    }
                    lines.push((y, line));
                    previous_y = y;
                    start = end;
                },
            }
        }
    }
    assert(line_models(lines@) + Seq::<LineModel>::empty() == line_models(lines@));
    lines
}

/// The column that the middle of an item is over is the first one whose divider
/// from the next is right of it; the last column has no end.
pub proof fn lemma_slot(extents: Seq<Extent>, present: Seq<usize>, centre: Single, s: nat)
    requires
        s < present.len(),
    ensures
        ({
            let found = slot(extents, present, centre, s) as int;
            &&& s <= found < present.len()
            &&& found + 1 < present.len() ==> centre.below(
                divider(extents, present[found], present[found + 1]),
            )
            &&& forall|t: int|
                s <= t < found ==> !centre.below(
                    divider(extents, #[trigger] present[t], present[t + 1]),
                )
        }),
    decreases present.len() - s,
{
    if s + 1 < present.len() && !centre.below(
        divider(extents, present[s as int], present[s as int + 1]),
    ) {
        lemma_slot(extents, present, centre, s + 1);
    }
}

} // verus!
