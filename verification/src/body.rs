//! What the body of a table shows of its columns: where their texts are, in
//! what font, and whether they are figures.

use crate::lookup;
use crate::order;
use crate::precision;
use crate::single;
use crate::single::Single;
use crate::text;
use crate::types;
use crate::types::TextItem;
use vstd::prelude::*;
use vstd::string::*;

verus! {

/// The left and right end of a column's body text, if it has any.
pub type Extent = Option<(Single, Single)>;

/// Those of the given items that belong to a column.
pub open spec fn column_items(
    columns: Seq<Single>,
    which: Seq<usize>,
    items: Seq<TextItem>,
    column: usize,
) -> Seq<usize> {
    which.filter(|i: usize| lookup::column_index(columns, items[i as int].x) == Some(column))
}

/// The right edge of an item.
pub open spec fn right_edge(item: TextItem) -> Single {
    item.x.plus(item.width)
}

/// The leftmost left edge of items.
pub open spec fn leftmost(items: Seq<TextItem>, which: Seq<usize>) -> Single
    decreases which.len(),
{
    if which.len() <= 1 {
        items[which[0] as int].x
    } else {
        leftmost(items, which.drop_last()).smaller(items[which.last() as int].x)
    }
}

/// The rightmost right edge of items.
pub open spec fn rightmost(items: Seq<TextItem>, which: Seq<usize>) -> Single
    decreases which.len(),
{
    if which.len() <= 1 {
        right_edge(items[which[0] as int])
    } else {
        rightmost(items, which.drop_last()).larger(right_edge(items[which.last() as int]))
    }
}

/// The extent of items.
pub open spec fn extent(items: Seq<TextItem>, which: Seq<usize>) -> Extent {
    if which.len() == 0 {
        None
    } else {
        Some((leftmost(items, which), rightmost(items, which)))
    }
}

/// The extents of a table's columns.
pub open spec fn extents(
    columns: Seq<Single>,
    which: Seq<usize>,
    items: Seq<TextItem>,
) -> Seq<Extent> {
    Seq::new(
        columns.len(),
        |c: int| extent(items, column_items(columns, which, items, c as usize)),
    )
}

/// How many columns after the first one have text.
pub open spec fn data_columns(extents: Seq<Extent>) -> nat {
    extents.drop_first().filter(|e: Extent| e is Some).len()
}

/// The median font size of the given items, the upper one of two middle sizes.
pub open spec fn body_font(which: Seq<usize>, items: Seq<TextItem>) -> Single {
    order::ascending(which.map_values(|i: usize| items[i as int].font_size))[which.len() as int / 2]
}

/// The texts in the cells of a row after the first one.
pub open spec fn row_values(row: Seq<Seq<char>>) -> Seq<Seq<char>> {
    if row.len() == 0 {
        Seq::empty()
    } else {
        row.drop_first().map_values(|cell: Seq<char>| text::trimmed(cell)).filter(
            |value: Seq<char>| value.len() > 0,
        )
    }
}

/// The texts in the cells of all rows, those of the first column aside.
pub open spec fn cell_values(cells: Seq<Seq<Seq<char>>>) -> Seq<Seq<char>>
    decreases cells.len(),
{
    if cells.len() == 0 {
        Seq::empty()
    } else {
        cell_values(cells.drop_last()) + row_values(cells.last())
    }
}

/// A figure, negative ones in brackets among them.
pub open spec fn figure(value: Seq<char>) -> bool {
    text::numeric(text::unbracketed(value))
}

/// Whether there are values and at least 80% of them are figures.
pub open spec fn mostly_figures(cells: Seq<Seq<Seq<char>>>) -> bool {
    let values = cell_values(cells);
    let figures = values.filter(|value: Seq<char>| figure(value));
    values.len() > 0 && !single::whole(figures.len()).below(
        single::whole(values.len()).times(single::fraction(4, 5)),
    )
}

proof fn lemma_extent_push(items: Seq<TextItem>, which: Seq<usize>, i: usize)
    ensures
        extent(items, which.push(i)) == Some(
            match extent(items, which) {
                None => (items[i as int].x, right_edge(items[i as int])),
                Some((left, right)) => (
                    left.smaller(items[i as int].x),
                    right.larger(right_edge(items[i as int])),
                ),
            },
        ),
{
    assert(which.push(i).drop_last() == which);
}

/// Finds the extents of a table's columns.
pub fn find_extents(columns: &Vec<Single>, which: &Vec<usize>, items: &[TextItem]) -> (r: Vec<
    Extent,
>)
    requires
        forall|k: int| 0 <= k < which@.len() ==> #[trigger] which@[k] < items@.len(),
    ensures
        r@ == extents(columns@, which@, items@),
{
    let mut r: Vec<Extent> = Vec::new();
    while r.len() < columns.len()
        invariant
            r@.len() <= columns@.len(),
            forall|c: int| 0 <= c < r@.len() ==> #[trigger] r@[c] == None::<(Single, Single)>,
        decreases columns@.len() - r@.len(),
    {
        r.push(None);
    }
    let mut k: usize = 0;
    proof {
        reveal(Seq::filter);
        assert(which@.take(0) == Seq::<usize>::empty());
        assert(r@ == extents(columns@, which@.take(0), items@));
    }
    while k < which.len()
        invariant
            k <= which@.len(),
            forall|k: int| 0 <= k < which@.len() ==> #[trigger] which@[k] < items@.len(),
            r@ == extents(columns@, which@.take(k as int), items@),
        decreases which@.len() - k,
    {
        let i: usize = which[k];
        let ghost before = r@;
        add_extent(&mut r, columns, &items[i]);
        proof {
            let prefix = which@.take(k as int);
            let n: usize = columns.len();
            assert(which@.take(k + 1) == prefix.push(i));
            assert forall|c: int| 0 <= c < n implies #[trigger] r@[c] == extents(
                columns@,
                prefix.push(i),
                items@,
            )[c] by {
                let here = |i: usize|
                    lookup::column_index(columns@, items@[i as int].x) == Some(c as usize);
                prefix.lemma_filter_push(i, here);
                lemma_extent_push(
                    items@,
                    column_items(columns@, prefix, items@, c as usize),
                    i,
                );
                assert(before[c] == extent(
                    items@,
                    column_items(columns@, prefix, items@, c as usize),
                ));
            }
            assert(r@ == extents(columns@, prefix.push(i), items@));
        }
        k += 1;
    }
    assert(which@.take(k as int) == which@);
    r
}

/// Widens the extent of an item's column to the item.
fn add_extent(extents: &mut Vec<Extent>, columns: &Vec<Single>, item: &TextItem)
    requires
        old(extents)@.len() == columns@.len(),
    ensures
        final(extents)@.len() == columns@.len(),
        forall|c: int|
            0 <= c < columns@.len() ==> #[trigger] final(extents)@[c] == if lookup::column_index(
                columns@,
                item.x,
            ) == Some(c as usize) {
                Some(
                    match old(extents)@[c] {
                        None => (item.x, right_edge(*item)),
                        Some((left, right)) => (
                            left.smaller(item.x),
                            right.larger(right_edge(*item)),
                        ),
                    },
                )
            } else {
                old(extents)@[c]
            },
{
    if let Some(column) = lookup::find_column_index(columns.as_slice(), item.x) {
        let right: Single = item.x.add(item.width);
        let wider: (Single, Single) = match extents[column] {
            None => (item.x, right),
            Some((l, r)) => (l.min(item.x), r.max(right)),
        };
        let ghost before = extents@;
        extents.set(column, Some(wider));
        proof {
            let n: usize = columns.len();
            assert forall|c: int| 0 <= c < n && c != column implies #[trigger] extents@[c]
                == before[c] && c as usize != column by {}
        }
    }
}

/// Counts the columns after the first one that have text.
pub fn count_data_columns(extents: &Vec<Extent>) -> (n: usize)
    requires
        extents@.len() > 0,
    ensures
        n == data_columns(extents@),
        n <= extents@.len(),
{
    let ghost present = |e: Extent| e is Some;
    let ghost rest = extents@.drop_first();
    let mut n: usize = 0;
    let mut i: usize = 1;
    proof {
        reveal(Seq::filter);
        assert(rest.take(0) == Seq::<Extent>::empty());
    }
    while i < extents.len()
        invariant
            1 <= i <= extents@.len(),
            rest == extents@.drop_first(),
            present == |e: Extent| e is Some,
            n == rest.take(i - 1).filter(present).len(),
            n <= i - 1,
        decreases extents@.len() - i,
    {
        proof {
            rest.take(i - 1).lemma_filter_push(rest[i - 1], present);
            assert(rest.take(i as int) == rest.take(i - 1).push(rest[i - 1]));
        }
        if extents[i].is_some() {
            n += 1;
        }
        i += 1;
    }
    assert(rest.take(i - 1) == rest);
    n
}

/// Finds the median font size of items.
pub fn find_body_font(which: &Vec<usize>, items: &[TextItem]) -> (r: Single)
    requires
        which@.len() > 0,
        forall|k: int| 0 <= k < which@.len() ==> #[trigger] which@[k] < items@.len(),
    ensures
        r == body_font(which@, items@),
{
    let mut sizes: Vec<Single> = Vec::new();
    while sizes.len() < which.len()
        invariant
            sizes@.len() <= which@.len(),
            forall|k: int| 0 <= k < which@.len() ==> #[trigger] which@[k] < items@.len(),
            forall|k: int|
                0 <= k < sizes@.len() ==> #[trigger] sizes@[k] == items@[which@[k] as int].font_size,
        decreases which@.len() - sizes@.len(),
    {
        sizes.push(items[which[sizes.len()]].font_size);
    }
    proof {
        assert(sizes@ == which@.map_values(|i: usize| items@[i as int].font_size));
        order::lemma_ascending(sizes@);
    }
    let sorted: Vec<Single> = order::sort_ascending(&sizes);
    sorted[sorted.len() / 2]
}

proof fn lemma_row_values_push(row: Seq<Seq<char>>, k: int)
    requires
        1 <= k < row.len(),
    ensures
        ({
            let value = text::trimmed(row[k]);
            row_values(row.take(k + 1)) == if value.len() > 0 {
                row_values(row.take(k)).push(value)
            } else {
                row_values(row.take(k))
            }
        }),
{
    let trim = |cell: Seq<char>| text::trimmed(cell);
    let filled = |value: Seq<char>| value.len() > 0;
    let before = row.take(k).drop_first().map_values(trim);
    let after = row.take(k + 1).drop_first().map_values(trim);
    assert(after == before.push(text::trimmed(row[k])));
    before.lemma_filter_push(text::trimmed(row[k]), filled);
}

/// The texts of string slices.
spec fn texts_of(values: Seq<&str>) -> Seq<Seq<char>> {
    values.map_values(|value: &str| value@)
}

/// Adds the values in a row to others.
fn add_row_values<'a>(values: &mut Vec<&'a str>, row: &'a Vec<String>)
    ensures
        texts_of(final(values)@) == texts_of(old(values)@) + row_values(types::row_texts(row@)),
{
    let ghost texts = types::row_texts(row@);
    let ghost before = texts_of(values@);
    if row.len() == 0 {
        assert(before + row_values(texts) == before);
        return;
    }
    let mut k: usize = 1;
    proof {
        reveal(Seq::filter);
        assert(texts.take(1).drop_first() == Seq::<Seq<char>>::empty());
        assert(row_values(texts.take(1)) == Seq::<Seq<char>>::empty());
        assert(before + row_values(texts.take(1)) == before);
    }
    while k < row.len()
        invariant
            1 <= k <= row@.len(),
            texts == types::row_texts(row@),
            texts_of(values@) == before + row_values(texts.take(k as int)),
        decreases row@.len() - k,
    {
        let value: &'a str = text::trim(row[k].as_str());
        let ghost earlier = values@;
        proof {
            lemma_row_values_push(texts, k as int);
        }
        if value.unicode_len() != 0 {
            values.push(value);
            assert(texts_of(values@) == texts_of(earlier).push(value@));
        }
        k += 1;
    }
    assert(texts.take(k as int) == texts);
}

/// Whether there are values in the cells of a table and at least 80% of them
/// are figures.
pub fn is_mostly_figures(cells: &Vec<Vec<String>>) -> (b: bool)
    ensures
        b == mostly_figures(types::grid_texts(cells@)),
{
    let ghost grid = types::grid_texts(cells@);
    let ghost is_figure = |value: Seq<char>| figure(value);
    let mut values: Vec<&str> = Vec::new();
    let mut k: usize = 0;
    assert(grid.take(0) == Seq::<Seq<Seq<char>>>::empty());
    while k < cells.len()
        invariant
            k <= cells@.len(),
            grid == types::grid_texts(cells@),
            texts_of(values@) == cell_values(grid.take(k as int)),
        decreases cells@.len() - k,
    {
        add_row_values(&mut values, &cells[k]);
        assert(grid.take(k + 1).drop_last() == grid.take(k as int));
        k += 1;
    }
    assert(grid.take(k as int) == grid);
    let ghost texts = texts_of(values@);
    let mut figures: usize = 0;
    let mut i: usize = 0;
    proof {
        reveal(Seq::filter);
        assert(texts.take(0) == Seq::<Seq<char>>::empty());
    }
    while i < values.len()
        invariant
            i <= values@.len(),
            texts == texts_of(values@),
            is_figure == |value: Seq<char>| figure(value),
            figures == texts.take(i as int).filter(is_figure).len(),
            figures <= i,
        decreases values@.len() - i,
    {
        proof {
            texts.take(i as int).lemma_filter_push(texts[i as int], is_figure);
            assert(texts.take(i + 1) == texts.take(i as int).push(texts[i as int]));
        }
        if text::is_numeric_text(text::strip_brackets(values[i])) {
            figures += 1;
        }
        i += 1;
    }
    assert(texts.take(i as int) == texts);
    values.len() > 0 && !Single::from_count(figures).lt(
        Single::from_count(values.len()).mul(Single::from_ratio(4, 5)),
    )
}

/// Figures are at least 80% of fewer than 10485760 values exactly where they are
/// at least four fifths of them.
pub proof fn lemma_mostly_figures(cells: Seq<Seq<Seq<char>>>)
    requires
        cell_values(cells).len() < 10485760,
    ensures
        ({
            let values = cell_values(cells);
            let figures = values.filter(|value: Seq<char>| figure(value));
            mostly_figures(cells) <==> values.len() > 0 && 5 * figures.len() >= 4 * values.len()
        }),
{
    let values = cell_values(cells);
    let is_figure = |value: Seq<char>| figure(value);
    values.lemma_filter_len(is_figure);
    if values.len() > 0 {
        precision::lemma_four_fifths(values.filter(is_figure).len(), values.len());
    }
}

/// The left end of items is the left edge of one of them, and no other starts
/// left of it.
proof fn lemma_leftmost(items: Seq<TextItem>, which: Seq<usize>)
    requires
        which.len() > 0,
        forall|k: int| 0 <= k < which.len() ==> items[#[trigger] which[k] as int].x.finite(),
    ensures
        leftmost(items, which).finite(),
        exists|k: int|
            0 <= k < which.len() && leftmost(items, which) == items[#[trigger] which[k] as int].x,
        forall|k: int|
            0 <= k < which.len() ==> leftmost(items, which).at_most(
                items[#[trigger] which[k] as int].x,
            ),
    decreases which.len(),
{
    if which.len() == 1 {
        assert(leftmost(items, which) == items[which[0] as int].x);
    } else {
        let rest = which.drop_last();
        assert(forall|k: int| 0 <= k < rest.len() ==> #[trigger] rest[k] == which[k]);
        lemma_leftmost(items, rest);
        let n = which.len() - 1;
        assert(which[n] == which.last());
        let j = choose|j: int|
            0 <= j < rest.len() && leftmost(items, rest) == items[#[trigger] rest[j] as int].x;
        assert(rest[j] == which[j]);
        assert(leftmost(items, which) == items[which[n] as int].x || leftmost(items, which)
            == items[which[j] as int].x);
        assert forall|k: int| 0 <= k < which.len() implies leftmost(items, which).at_most(
            items[#[trigger] which[k] as int].x,
        ) by {
            if k < n {
                assert(leftmost(items, rest).at_most(items[rest[k] as int].x));
            }
        }
    }
}

/// The right end of items is the right edge of one of them, and no other ends
/// right of it.
proof fn lemma_rightmost(items: Seq<TextItem>, which: Seq<usize>)
    requires
        which.len() > 0,
        forall|k: int|
            0 <= k < which.len() ==> right_edge(items[#[trigger] which[k] as int]).finite(),
    ensures
        rightmost(items, which).finite(),
        exists|k: int|
            0 <= k < which.len() && rightmost(items, which) == right_edge(
                items[#[trigger] which[k] as int],
            ),
        forall|k: int|
            0 <= k < which.len() ==> right_edge(items[#[trigger] which[k] as int]).at_most(
                rightmost(items, which),
            ),
    decreases which.len(),
{
    if which.len() == 1 {
        assert(rightmost(items, which) == right_edge(items[which[0] as int]));
    } else {
        let rest = which.drop_last();
        assert(forall|k: int| 0 <= k < rest.len() ==> #[trigger] rest[k] == which[k]);
        lemma_rightmost(items, rest);
        let n = which.len() - 1;
        assert(which[n] == which.last());
        let j = choose|j: int|
            0 <= j < rest.len() && rightmost(items, rest) == right_edge(
                items[#[trigger] rest[j] as int],
            );
        assert(rest[j] == which[j]);
        assert(rightmost(items, which) == right_edge(items[which[n] as int]) || rightmost(
            items,
            which,
        ) == right_edge(items[which[j] as int]));
        assert forall|k: int| 0 <= k < which.len() implies right_edge(
            items[#[trigger] which[k] as int],
        ).at_most(rightmost(items, which)) by {
            if k < n {
                assert(right_edge(items[rest[k] as int]).at_most(rightmost(items, rest)));
            }
        }
    }
}

/// The extent of a column is that of the items that belong to it: it starts
/// where the leftmost of them starts and ends where the rightmost of them ends,
/// and there is none only where no item belongs to the column.
pub proof fn lemma_extent(
    columns: Seq<Single>,
    which: Seq<usize>,
    items: Seq<TextItem>,
    column: int,
)
    requires
        0 <= column < columns.len() <= usize::MAX,
        forall|k: int|
            0 <= k < which.len() ==> items[#[trigger] which[k] as int].x.finite()
                && items[which[k] as int].x.plus(items[which[k] as int].width).finite(),
    ensures
        ({
            let own = |k: int|
                0 <= k < which.len() && lookup::column_index(columns, items[which[k] as int].x)
                    == Some(column as usize);
            match extents(columns, which, items)[column] {
                None => forall|k: int| !#[trigger] own(k),
                Some((left, right)) => {
                    &&& exists|k: int| #[trigger] own(k) && items[which[k] as int].x == left
                    &&& exists|k: int| #[trigger]
                        own(k) && items[which[k] as int].x.plus(items[which[k] as int].width)
                            == right
                    &&& forall|k: int| #[trigger]
                        own(k) ==> left.at_most(items[which[k] as int].x)
                            && items[which[k] as int].x.plus(items[which[k] as int].width).at_most(
                            right,
                        )
                },
            }
        }),
{
    let own = |k: int|
        0 <= k < which.len() && lookup::column_index(columns, items[which[k] as int].x) == Some(
            column as usize,
        );
    let here = |i: usize|
        lookup::column_index(columns, items[i as int].x) == Some(column as usize);
    let mine = column_items(columns, which, items, column as usize);
    assert(mine == which.filter(here));
    assert forall|k: int| 0 <= k < mine.len() implies items[#[trigger] mine[k] as int].x.finite()
        && right_edge(items[mine[k] as int]).finite() by {
        let j = order::lemma_filter_source(which, here, k);
    }
    assert forall|k: int| #[trigger] own(k) implies mine.contains(which[k]) by {
        which.lemma_filter_contains(here, k);
    }
    if mine.len() > 0 {
        lemma_leftmost(items, mine);
        lemma_rightmost(items, mine);
        let a = choose|a: int|
            0 <= a < mine.len() && leftmost(items, mine) == items[#[trigger] mine[a] as int].x;
        let j = order::lemma_filter_source(which, here, a);
        assert(own(j));
        let b = choose|b: int|
            0 <= b < mine.len() && rightmost(items, mine) == right_edge(
                items[#[trigger] mine[b] as int],
            );
        let k = order::lemma_filter_source(which, here, b);
        assert(own(k));
    }
}

/// The data columns are the columns with text, the first one aside.
pub proof fn lemma_data_columns(extents: Seq<Extent>)
    requires
        0 < extents.len() <= usize::MAX,
    ensures
        data_columns(extents) == order::index_range(extents.len()).filter(
            |c: usize| c > 0 && extents[c as int] is Some,
        ).len(),
{
    let all = order::index_range(extents.len());
    let keep = |c: usize| c > 0 && extents[c as int] is Some;
    order::lemma_filters_agree(
        extents.drop_first(),
        all.drop_first(),
        |e: Extent| e is Some,
        keep,
    );
    assert(all == seq![0usize] + all.drop_first());
    Seq::filter_distributes_over_add(seq![0usize], all.drop_first(), keep);
    reveal(Seq::filter);
    let none = Seq::<usize>::empty();
    none.lemma_filter_push(0, keep);
    assert(none.push(0usize) == seq![0usize]);
}

/// The font size of a table's body is a median: that of one of its items, with
/// more than half of the items having one no larger, and at least half one no
/// smaller.
pub proof fn lemma_body_font(which: Seq<usize>, items: Seq<TextItem>)
    requires
        which.len() > 0,
    ensures
        ({
            let m = body_font(which, items);
            &&& exists|k: int|
                0 <= k < which.len() && items[#[trigger] which[k] as int].font_size == m
            &&& 2 * which.filter(
                |i: usize| items[i as int].font_size.total_place() <= m.total_place(),
            ).len() > which.len()
            &&& 2 * which.filter(
                |i: usize| m.total_place() <= items[i as int].font_size.total_place(),
            ).len() >= which.len()
        }),
{
    let sizes = which.map_values(|i: usize| items[i as int].font_size);
    let m = body_font(which, items);
    order::lemma_median(sizes);
    let k = choose|k: int| 0 <= k < sizes.len() && sizes[k] == m;
    assert(items[which[k] as int].font_size == m);
    order::lemma_filters_agree(
        which,
        sizes,
        |i: usize| items[i as int].font_size.total_place() <= m.total_place(),
        |x: Single| x.total_place() <= m.total_place(),
    );
    order::lemma_filters_agree(
        which,
        sizes,
        |i: usize| m.total_place() <= items[i as int].font_size.total_place(),
        |x: Single| m.total_place() <= x.total_place(),
    );
}

/// A font size that more than half of a table's items have is that of its body.
pub proof fn lemma_body_font_of_majority(which: Seq<usize>, items: Seq<TextItem>, f: Single)
    requires
        2 * which.filter(|i: usize| items[i as int].font_size == f).len() > which.len(),
    ensures
        body_font(which, items) == f,
{
    let sizes = which.map_values(|i: usize| items[i as int].font_size);
    order::lemma_filters_agree(
        which,
        sizes,
        |i: usize| items[i as int].font_size == f,
        |x: Single| x == f,
    );
    order::lemma_majority_is_median(sizes, f);
}

/// The values of rows and of more rows.
pub proof fn lemma_cell_values_add(a: Seq<Seq<Seq<char>>>, b: Seq<Seq<Seq<char>>>)
    ensures
        cell_values(a + b) == cell_values(a) + cell_values(b),
    decreases b.len(),
{
    if b.len() == 0 {
        assert(a + b == a);
        assert(cell_values(a) + cell_values(b) == cell_values(a));
    } else {
        lemma_cell_values_add(a, b.drop_last());
        assert((a + b).drop_last() == a + b.drop_last());
        assert((a + b).last() == b.last());
    }
}

/// The values of a row are the trimmed texts of its cells that are not blank, the
/// first cell aside: as many, and the same.
pub proof fn lemma_values_of_row(row: Seq<Seq<char>>)
    requires
        0 < row.len() <= usize::MAX,
    ensures
        cell_values(seq![row]).len() == order::index_range(row.len()).filter(
            |c: usize| c > 0 && text::trimmed(row[c as int]).len() > 0,
        ).len(),
        forall|v: Seq<char>| #[trigger]
            cell_values(seq![row]).contains(v) <==> v.len() > 0 && exists|c: int|
                0 < c < row.len() && v == text::trimmed(#[trigger] row[c]),
{
    let values = cell_values(seq![row]);
    let rest = row.drop_first();
    let texts = rest.map_values(|cell: Seq<char>| text::trimmed(cell));
    let full = |value: Seq<char>| value.len() > 0;
    let all = order::index_range(row.len());
    let keep = |c: usize| c > 0 && text::trimmed(row[c as int]).len() > 0;
    assert(seq![row].drop_last() == Seq::<Seq<Seq<char>>>::empty());
    assert(values == texts.filter(full)) by {
        assert(cell_values(Seq::empty()) + row_values(row) == row_values(row));
        assert(seq![row].last() == row);
    }
    order::lemma_filters_agree(all.drop_first(), texts, keep, full);
    assert(all == seq![0usize] + all.drop_first());
    Seq::filter_distributes_over_add(seq![0usize], all.drop_first(), keep);
    assert(seq![0usize].filter(keep).len() == 0) by {
        reveal(Seq::filter);
        let none = Seq::<usize>::empty();
        none.lemma_filter_push(0, keep);
        assert(none.push(0usize) == seq![0usize]);
    }
    assert forall|v: Seq<char>| #[trigger] values.contains(v) <==> v.len() > 0 && exists|c: int|
        0 < c < row.len() && v == text::trimmed(#[trigger] row[c]) by {
        if values.contains(v) {
            let k = choose|k: int| 0 <= k < values.len() && values[k] == v;
            let j = order::lemma_filter_source(texts, full, k);
            assert(v == text::trimmed(row[j + 1]));
        }
        if v.len() > 0 && exists|c: int| 0 < c < row.len() && v == text::trimmed(
            #[trigger] row[c],
        ) {
            let c = choose|c: int| 0 < c < row.len() && v == text::trimmed(#[trigger] row[c]);
            assert(texts[c - 1] == v);
            texts.lemma_filter_contains(full, c - 1);
        }
    }
}

/// A value is a figure with or without brackets around it; without any, where it
/// looks like a number.
pub proof fn lemma_figure(value: Seq<char>)
    ensures
        figure(seq!['('] + value.push(')')) == figure(value),
        value.len() > 0 && value.first() != '(' && value.last() != ')' ==> figure(value)
            == text::numeric(value),
{
    text::lemma_unbracketing(value);
    text::lemma_unbracketing(value.push(')'));
}

} // verus!
