//! Recovery of a header row that is set in a larger font than its table.

use crate::lookup;
use crate::order;
use crate::single;
use crate::single::Single;
use crate::text;
use crate::types;
use crate::types::{Table, TableModel, TextItem};
use vstd::prelude::*;
use vstd::string::*;

verus! {

/// How far above the first row a header may be: twice the average distance
/// between rows, taken between 10 and 40, or 30 where there is one row.
pub open spec fn header_reach(rows: Seq<Single>) -> Single {
    if rows.len() >= 2 {
        rows.first().minus(rows.last()).over(single::whole((rows.len() - 1) as nat)).times(
            single::whole(2),
        ).within(single::whole(10), single::whole(40))
    } else {
        single::whole(30)
    }
}

/// Whether an item may belong to a header: it is not struck out, its font is
/// larger than the table's, and it is above the first row within reach.
pub open spec fn header_candidate(item: TextItem, rows: Seq<Single>, small_font: Single) -> bool {
    &&& !item.is_strikeout
    &&& small_font.below(item.font_size)
    &&& rows.first().below(item.y)
    &&& item.y.at_most(rows.first().plus(header_reach(rows)))
}

/// The indexes of the items that may belong to a header.
pub open spec fn header_candidates(
    items: Seq<TextItem>,
    rows: Seq<Single>,
    small_font: Single,
) -> Seq<usize> {
    order::index_range(items.len()).filter(
        |i: usize| header_candidate(items[i as int], rows, small_font),
    )
}

/// The keys that sort items from the top of the page down.
pub open spec fn downward_keys(items: Seq<TextItem>, which: Seq<usize>) -> Seq<(i64, i64)> {
    which.map_values(|i: usize| ((-items[i as int].y.place()) as i64, 0i64))
}

/// The first band, from the `g`th on, whose position is nearer than 5 to `y`,
/// or the number of bands.
pub open spec fn first_close(bands: Seq<(Single, Seq<usize>)>, y: Single, g: nat) -> nat
    decreases bands.len() - g,
{
    if g >= bands.len() {
        bands.len()
    } else if y.minus(bands[g as int].0).size().below(single::whole(5)) {
        g
    } else {
        first_close(bands, y, g + 1)
    }
}

/// Items in bands of about the same height, each band at the position of its
/// first item.
pub open spec fn bands(items: Seq<TextItem>, which: Seq<usize>) -> Seq<(Single, Seq<usize>)>
    decreases which.len(),
{
    if which.len() == 0 {
        Seq::empty()
    } else {
        let before = bands(items, which.drop_last());
        let i = which.last();
        let y = items[i as int].y;
        let g = first_close(before, y, 0) as int;
        if g < before.len() {
            before.update(g, (before[g].0, before[g].1.push(i)))
        } else {
            before.push((y, seq![i]))
        }
    }
}

/// Whether an item has text and belongs to the given column.
pub open spec fn lands(item: TextItem, columns: Seq<Single>, column: usize) -> bool {
    lookup::column_index(columns, item.x) == Some(column) && text::trimmed(item.text@).len() > 0
}

/// Whether an item has text and belongs to some column.
pub open spec fn lands_anywhere(item: TextItem, columns: Seq<Single>) -> bool {
    lookup::column_index(columns, item.x) is Some && text::trimmed(item.text@).len() > 0
}

/// The text of a header cell: the texts of the items of its column.
pub open spec fn header_cell(
    items: Seq<TextItem>,
    which: Seq<usize>,
    columns: Seq<Single>,
    column: usize,
) -> Seq<char> {
    text::spaced(
        which.filter(|i: usize| lands(items[i as int], columns, column)).map_values(
            |i: usize| text::trimmed(items[i as int].text@),
        ),
    )
}

/// The cells of a header row.
pub open spec fn header_cells(
    items: Seq<TextItem>,
    which: Seq<usize>,
    columns: Seq<Single>,
) -> Seq<Seq<char>> {
    Seq::new(columns.len(), |c: int| header_cell(items, which, columns, c as usize))
}

/// The items of a header row that are in its cells.
pub open spec fn header_members(
    items: Seq<TextItem>,
    which: Seq<usize>,
    columns: Seq<Single>,
) -> Seq<usize> {
    which.filter(|i: usize| lands_anywhere(items[i as int], columns))
}

/// A table with a row put before its first one.
pub open spec fn with_first_row(
    table: TableModel,
    y: Single,
    cells: Seq<Seq<char>>,
    members: Seq<usize>,
) -> TableModel {
    TableModel {
        columns: table.columns,
        rows: seq![y] + table.rows,
        cells: seq![cells] + table.cells,
        item_indices: table.item_indices + members,
    }
}

/// The band of header candidates that is closest to a table's first row.
pub open spec fn header_band(
    table: TableModel,
    items: Seq<TextItem>,
    small_font: Single,
) -> (Single, Seq<usize>) {
    let which = header_candidates(items, table.rows, small_font);
    bands(items, order::arranged(which, downward_keys(items, which))).last()
}

/// A table with its header row recovered, if there is one: the items of the
/// band closest above the first row that belong to columns, provided that they
/// fill at least two.
pub open spec fn header_recovered(
    table: TableModel,
    items: Seq<TextItem>,
    small_font: Single,
) -> TableModel {
    if table.rows.len() == 0 || table.columns.len() == 0 || header_candidates(
        items,
        table.rows,
        small_font,
    ).len() == 0 {
        table
    } else {
        let (y, which) = header_band(table, items, small_font);
        let cells = header_cells(items, which, table.columns);
        if cells.filter(|cell: Seq<char>| cell.len() > 0).len() < 2 {
            table
        } else {
            with_first_row(table, y, cells, header_members(items, which, table.columns))
        }
    }
}

/// The exec form of bands.
spec fn band_model(ys: Seq<Single>, members: Seq<Vec<usize>>) -> Seq<(Single, Seq<usize>)> {
    Seq::new(ys.len(), |g: int| (ys[g], members[g]@))
}

fn find_bands(items: &[TextItem], which: &Vec<usize>) -> (r: (Vec<Single>, Vec<Vec<usize>>))
    requires
        forall|k: int| 0 <= k < which@.len() ==> #[trigger] which@[k] < items@.len(),
    ensures
        r.0@.len() == r.1@.len(),
        band_model(r.0@, r.1@) == bands(items@, which@),
        which@.len() > 0 ==> r.0@.len() > 0,
        forall|g: int, k: int|
            0 <= g < r.1@.len() && 0 <= k < r.1@[g]@.len() ==> #[trigger] r.1@[g]@[k]
                < items@.len(),
{
    let mut ys: Vec<Single> = Vec::new();
    let mut members: Vec<Vec<usize>> = Vec::new();
    let five: Single = Single::from_ratio(5, 1);
    let mut k: usize = 0;
    assert(which@.take(0) == Seq::<usize>::empty());
    assert(band_model(ys@, members@) == bands(items@, which@.take(0)));
    while k < which.len()
        invariant
            k <= which@.len(),
            five == single::whole(5),
            forall|k: int| 0 <= k < which@.len() ==> #[trigger] which@[k] < items@.len(),
            ys@.len() == members@.len(),
            band_model(ys@, members@) == bands(items@, which@.take(k as int)),
            k > 0 ==> ys@.len() > 0,
            forall|g: int, k: int|
                0 <= g < members@.len() && 0 <= k < members@[g]@.len() ==> #[trigger] members@[g]@[k]
                    < items@.len(),
        decreases which@.len() - k,
    {
        let i: usize = which[k];
        let y: Single = items[i].y;
        let ghost before = band_model(ys@, members@);
        assert(which@.take(k + 1).drop_last() == which@.take(k as int));
        let mut g: usize = 0;
        while g < ys.len() && !y.sub(ys[g]).abs().lt(five)
            invariant
                g <= ys@.len(),
                five == single::whole(5),
                before == band_model(ys@, members@),
                first_close(before, y, 0) == first_close(before, y, g as nat),
            decreases ys@.len() - g,
        {
            g += 1;
        }
        if g < ys.len() {
            members[g].push(i);
            assert(band_model(ys@, members@) == before.update(
                g as int,
                (before[g as int].0, before[g as int].1.push(i)),
            ));
        } else {
            ys.push(y);
            let mut first: Vec<usize> = Vec::new();
            first.push(i);
            members.push(first);
            assert(band_model(ys@, members@) == before.push((y, seq![i])));
        }
        k += 1;
    }
    assert(which@.take(k as int) == which@);
    (ys, members)
}

/// The text of a cell with that of one more item.
pub open spec fn extended(cell: Seq<char>, part: Seq<char>) -> Seq<char> {
    if cell.len() == 0 {
        part
    } else {
        cell + seq![' '] + part
    }
}

/// How one more item changes a header cell.
proof fn lemma_header_cell_push(
    items: Seq<TextItem>,
    which: Seq<usize>,
    i: usize,
    columns: Seq<Single>,
    column: usize,
)
    ensures
        ({
            let before = header_cell(items, which, columns, column);
            let part = text::trimmed(items[i as int].text@);
            header_cell(items, which.push(i), columns, column) == if lands(
                items[i as int],
                columns,
                column,
            ) {
                extended(before, part)
            } else {
                before
            }
        }),
{
    let here = |i: usize| lands(items[i as int], columns, column);
    let part_of = |i: usize| text::trimmed(items[i as int].text@);
    let before = which.filter(here);
    let parts = before.map_values(part_of);
    which.lemma_filter_push(i, here);
    assert forall|k: int| 0 <= k < parts.len() implies (#[trigger] parts[k]).len() > 0 by {
        which.lemma_filter_pred(here, k);
    }
    text::lemma_spaced_empty(parts);
    if here(i) {
        assert(before.push(i).map_values(part_of) == parts.push(part_of(i)));
        text::lemma_spaced_push(parts, part_of(i));
    }
}

/// Adds the text of an item to the cell of its column, if it has one.
fn add_to_header(cells: &mut Vec<String>, item: &TextItem, columns: &Vec<Single>) -> (added: bool)
    requires
        old(cells)@.len() == columns@.len(),
    ensures
        added == lands_anywhere(*item, columns@),
        final(cells)@.len() == columns@.len(),
        forall|c: int|
            0 <= c < columns@.len() ==> (#[trigger] final(cells)@[c])@ == if lands(
                *item,
                columns@,
                c as usize,
            ) {
                extended(old(cells)@[c]@, text::trimmed(item.text@))
            } else {
                old(cells)@[c]@
            },
{
    if let Some(column) = lookup::find_column_index(columns.as_slice(), item.x) {
        let part: &str = text::trim(item.text.as_str());
        if part.unicode_len() != 0 {
            let ghost before = cells@;
            text::append_spaced(&mut cells[column], part);
            proof {
                let n: usize = columns.len();
                assert forall|c: int| 0 <= c < n implies (#[trigger] cells@[c])@ == if lands(
                    *item,
                    columns@,
                    c as usize,
                ) {
                    extended(before[c]@, text::trimmed(item.text@))
                } else {
                    before[c]@
                } by {
                    if c != column {
                        assert(cells@[c] == before[c]);
                        assert(c as usize != column);
                    }
                }
            }
            return true;
        }
    }
    false
}

/// Puts the texts of header items into the cells of their columns.
fn fill_header(items: &[TextItem], which: &Vec<usize>, columns: &Vec<Single>) -> (r: (
    Vec<String>,
    Vec<usize>,
))
    requires
        forall|k: int| 0 <= k < which@.len() ==> #[trigger] which@[k] < items@.len(),
    ensures
        types::row_texts(r.0@) == header_cells(items@, which@, columns@),
        r.1@ == header_members(items@, which@, columns@),
{
    let ghost mapped = |i: usize| lands_anywhere(items@[i as int], columns@);
    let mut cells: Vec<String> = Vec::new();
    let mut members: Vec<usize> = Vec::new();
    while cells.len() < columns.len()
        invariant
            cells@.len() <= columns@.len(),
            forall|c: int| 0 <= c < cells@.len() ==> (#[trigger] cells@[c])@ == Seq::<char>::empty(),
        decreases columns@.len() - cells@.len(),
    {
        cells.push(String::new());
    }
    let mut k: usize = 0;
    proof {
        reveal(Seq::filter);
        assert(which@.take(0) == Seq::<usize>::empty());
        assert forall|c: int| 0 <= c < cells@.len() implies (#[trigger] cells@[c])@ == header_cell(
            items@,
            which@.take(0),
            columns@,
            c as usize,
        ) by {
            let none = which@.take(0).filter(
                |i: usize| lands(items@[i as int], columns@, c as usize),
            );
            assert(none.map_values(|i: usize| text::trimmed(items@[i as int].text@)).len() == 0);
        }
    }
    while k < which.len()
        invariant
            k <= which@.len(),
            forall|k: int| 0 <= k < which@.len() ==> #[trigger] which@[k] < items@.len(),
            mapped == |i: usize| lands_anywhere(items@[i as int], columns@),
            members@ == which@.take(k as int).filter(mapped),
            cells@.len() == columns@.len(),
            forall|c: int|
                0 <= c < cells@.len() ==> (#[trigger] cells@[c])@ == header_cell(
                    items@,
                    which@.take(k as int),
                    columns@,
                    c as usize,
                ),
        decreases which@.len() - k,
    {
        let i: usize = which[k];
        let ghost before = cells@;
        proof {
            assert(which@.take(k + 1) == which@.take(k as int).push(i));
            which@.take(k as int).lemma_filter_push(i, mapped);
        }
        if add_to_header(&mut cells, &items[i], columns) {
            members.push(i);
        }
        proof {
            assert forall|c: int| 0 <= c < cells@.len() implies (#[trigger] cells@[c])@
                == header_cell(items@, which@.take(k + 1), columns@, c as usize) by {
                lemma_header_cell_push(items@, which@.take(k as int), i, columns@, c as usize);
                assert(before[c]@ == header_cell(
                    items@,
                    which@.take(k as int),
                    columns@,
                    c as usize,
                ));
            }
        }
        k += 1;
    }
    proof {
        assert(which@.take(k as int) == which@);
        assert(types::row_texts(cells@) == header_cells(items@, which@, columns@));
    }
    (cells, members)
}

/// Finds the items that may belong to a header.
fn find_header_candidates(items: &[TextItem], rows: &Vec<Single>, small_font: Single) -> (which: Vec<
    usize,
>)
    requires
        rows@.len() > 0,
    ensures
        which@ == header_candidates(items@, rows@, small_font),
        forall|k: int| 0 <= k < which@.len() ==> #[trigger] which@[k] < items@.len(),
{
    let n: usize = rows.len();
    let first: Single = rows[0];
    let reach: Single = if n >= 2 {
        proof {
            single::lemma_fraction_order(10, 40, 1);
        }
        first.sub(rows[n - 1]).div(Single::from_count(n - 1)).mul(Single::from_ratio(2, 1)).clamp(
            Single::from_ratio(10, 1),
            Single::from_ratio(40, 1),
        )
    } else {
        Single::from_ratio(30, 1)
    };
    let top: Single = first.add(reach);
    let ghost candidate = |i: usize| header_candidate(items@[i as int], rows@, small_font);
    let ghost all = order::index_range(items@.len());
    let mut which: Vec<usize> = Vec::new();
    let mut i: usize = 0;
    proof {
        reveal(Seq::filter);
        assert(all.take(0) == Seq::<usize>::empty());
    }
    while i < items.len()
        invariant
            i <= items@.len(),
            all == order::index_range(items@.len()),
            rows@.len() > 0,
            first == rows@.first(),
            top == first.plus(header_reach(rows@)),
            candidate == |i: usize| header_candidate(items@[i as int], rows@, small_font),
            which@ == all.take(i as int).filter(candidate),
            forall|k: int| 0 <= k < which@.len() ==> #[trigger] which@[k] < items@.len(),
        decreases items@.len() - i,
    {
        proof {
            all.take(i as int).lemma_filter_push(i, candidate);
            assert(all.take(i + 1) == all.take(i as int).push(i));
        }
        let item: &TextItem = &items[i];
        if !item.is_strikeout && small_font.lt(item.font_size) && first.lt(item.y) && item.y.le(
            top,
        ) {
            which.push(i);
        }
        i += 1;
    }
    assert(all.take(i as int) == all);
    which
}

/// How many cells have text.
fn count_filled(cells: &Vec<String>) -> (n: usize)
    ensures
        n == types::row_texts(cells@).filter(|cell: Seq<char>| cell.len() > 0).len(),
        n <= cells@.len(),
{
    let ghost filled = |cell: Seq<char>| cell.len() > 0;
    let ghost texts = types::row_texts(cells@);
    let mut n: usize = 0;
    let mut i: usize = 0;
    proof {
        reveal(Seq::filter);
        assert(texts.take(0) == Seq::<Seq<char>>::empty());
    }
    while i < cells.len()
        invariant
            i <= cells@.len(),
            n <= i,
            texts == types::row_texts(cells@),
            filled == |cell: Seq<char>| cell.len() > 0,
            n == texts.take(i as int).filter(filled).len(),
        decreases cells@.len() - i,
    {
        proof {
            texts.take(i as int).lemma_filter_push(texts[i as int], filled);
            assert(texts.take(i + 1) == texts.take(i as int).push(texts[i as int]));
        }
        if cells[i].as_str().unicode_len() != 0 {
            n += 1;
        }
        i += 1;
    }
    assert(texts.take(i as int) == texts);
    n
}

/// Recovers the header row of a table set in small font: the items in a larger
/// font closest above the first row that line up with the table's columns. They
/// become the first row if they fill at least two columns.
pub fn recover_header_row(table: &mut Table, all_items: &[TextItem], small_font_threshold: Single)
    ensures
        final(table)@ == header_recovered(old(table)@, all_items@, small_font_threshold),
{
    if table.rows.len() == 0 || table.columns.len() == 0 {
        return;
    }
    let which: Vec<usize> = find_header_candidates(all_items, &table.rows, small_font_threshold);
    if which.len() == 0 {
        return;
    }
    let mut keys: Vec<(i64, i64)> = Vec::new();
    while keys.len() < which.len()
        invariant
            keys@.len() <= which@.len(),
            keys@ == downward_keys(all_items@, which@).take(keys@.len() as int),
            forall|k: int| 0 <= k < which@.len() ==> #[trigger] which@[k] < all_items@.len(),
        decreases which@.len() - keys@.len(),
    {
        keys.push((-all_items[which[keys.len()]].y.value_key(), 0));
    }
    assert(keys@ == downward_keys(all_items@, which@));
    let sorted: Vec<usize> = order::arrange(&which, &keys);
    proof {
        assert forall|k: int| 0 <= k < sorted@.len() implies #[trigger] sorted@[k]
            < all_items@.len() by {
            assert(which@.contains(sorted@[k]));
        }
    }
    let (ys, members) = find_bands(all_items, &sorted);
    let last: usize = ys.len() - 1;
    let ghost band = header_band(table@, all_items@, small_font_threshold);
    assert(band == (ys@[last as int], members@[last as int]@));
    let (cells, mapped) = fill_header(all_items, &members[last], &table.columns);
    if count_filled(&cells) < 2 {
        return;
    }
    let ghost before = table@;
    table.rows.insert(0, ys[last]);
    table.cells.insert(0, cells);
    let mut more: Vec<usize> = mapped;
    table.item_indices.append(&mut more);
    proof {
        assert(table@.rows == seq![band.0] + before.rows);
        assert(table@.cells == seq![header_cells(all_items@, band.1, before.columns)]
            + before.cells);
        assert(table@ == with_first_row(
            before,
            band.0,
            header_cells(all_items@, band.1, before.columns),
            header_members(all_items@, band.1, before.columns),
        ));
    }
}

/// The band found is the first one that is nearer than 5 to `y`, or there is
/// none.
pub proof fn lemma_first_close(bands: Seq<(Single, Seq<usize>)>, y: Single, g: nat)
    requires
        g <= bands.len(),
    ensures
        g <= first_close(bands, y, g) <= bands.len(),
        first_close(bands, y, g) < bands.len() ==> y.minus(
            bands[first_close(bands, y, g) as int].0,
        ).size().below(single::whole(5)),
        forall|h: int|
            g <= h < first_close(bands, y, g) ==> !y.minus(
                (#[trigger] bands[h]).0,
            ).size().below(single::whole(5)),
    decreases bands.len() - g,
{
    if g < bands.len() {
        lemma_first_close(bands, y, g + 1);
    }
}

/// Bands hold the given items, each item in one band, and are at the position
/// of their first item.
pub proof fn lemma_bands(items: Seq<TextItem>, which: Seq<usize>)
    requires
        which.no_duplicates(),
    ensures
        which.len() > 0 ==> bands(items, which).len() > 0,
        forall|g: int|
            0 <= g < bands(items, which).len() ==> {
                let band = #[trigger] bands(items, which)[g];
                &&& band.1.len() > 0
                &&& band.0 == items[band.1[0] as int].y
                &&& band.1.no_duplicates()
                &&& forall|k: int| 0 <= k < band.1.len() ==> which.contains(#[trigger] band.1[k])
                &&& forall|k: int|
                    0 < k < band.1.len() ==> items[#[trigger] band.1[k] as int].y.minus(
                        band.0,
                    ).size().below(single::whole(5))
            },
        forall|i: usize|
            which.contains(i) ==> exists|g: int|
                0 <= g < bands(items, which).len() && (
                #[trigger] bands(items, which)[g]).1.contains(i),
    decreases which.len(),
{
    if which.len() > 0 {
        let rest = which.drop_last();
        let i = which.last();
        let before = bands(items, rest);
        let after = bands(items, which);
        let y = items[i as int].y;
        let at = first_close(before, y, 0) as int;
        lemma_bands(items, rest);
        lemma_first_close(before, y, 0);
        assert(!rest.contains(i)) by {
            if rest.contains(i) {
                let k = choose|k: int| 0 <= k < rest.len() && rest[k] == i;
                assert(which[k] == which[which.len() - 1]);
            }
        }
        assert(which.contains(i)) by {
            assert(which[which.len() - 1] == i);
        }
        assert forall|j: usize| rest.contains(j) implies which.contains(j) by {
            let k = choose|k: int| 0 <= k < rest.len() && rest[k] == j;
            assert(which[k] == j);
        }
        assert forall|g: int| 0 <= g < after.len() implies {
            let band = #[trigger] after[g];
            &&& band.1.len() > 0
            &&& band.0 == items[band.1[0] as int].y
            &&& band.1.no_duplicates()
            &&& forall|k: int| 0 <= k < band.1.len() ==> which.contains(#[trigger] band.1[k])
            &&& forall|k: int|
                0 < k < band.1.len() ==> items[#[trigger] band.1[k] as int].y.minus(
                    band.0,
                ).size().below(single::whole(5))
        } by {
            let band = after[g];
            if g < before.len() {
                let old = before[g];
                if g == at {
                    assert(band.1 == old.1.push(i));
                    assert forall|k: int| 0 <= k < band.1.len() implies which.contains(
                        #[trigger] band.1[k],
                    ) by {
                        if k < old.1.len() {
                            assert(rest.contains(old.1[k]));
                        }
                    }
                    assert forall|a: int, b: int|
                        0 <= a < band.1.len() && 0 <= b < band.1.len() && a != b implies band.1[a]
                        != band.1[b] by {
                        if a < old.1.len() {
                            assert(rest.contains(old.1[a]));
                        }
                        if b < old.1.len() {
                            assert(rest.contains(old.1[b]));
                        }
                    }
                } else {
                    assert(band == old);
                    assert forall|k: int| 0 <= k < band.1.len() implies which.contains(
                        #[trigger] band.1[k],
                    ) by {
                        assert(rest.contains(old.1[k]));
                    }
                }
            } else {
                assert(band == (y, seq![i]));
            }
        }
        assert forall|j: usize| which.contains(j) implies exists|g: int|
            0 <= g < after.len() && (#[trigger] after[g]).1.contains(j) by {
            if j == i {
                if at < before.len() {
                    assert(after[at].1[before[at].1.len() as int] == i);
                    assert(after[at].1.contains(i));
                } else {
                    assert(after[at].1[0] == i);
                    assert(after[at].1.contains(i));
                }
            } else {
                let k = choose|k: int| 0 <= k < which.len() && which[k] == j;
                assert(rest[k] == j);
                assert(rest.contains(j));
                let g = choose|g: int|
                    0 <= g < before.len() && (#[trigger] before[g]).1.contains(j);
                let m = choose|m: int| 0 <= m < before[g].1.len() && before[g].1[m] == j;
                assert(after[g].1[m] == j);
                assert(after[g].1.contains(j));
            }
        }
    }
}

/// The bands of items sorted from the top down come from the top down.
pub proof fn lemma_bands_descend(items: Seq<TextItem>, which: Seq<usize>)
    requires
        forall|i: int, j: int|
            0 <= i < j < which.len() ==> items[#[trigger] which[j] as int].y.place()
                <= items[#[trigger] which[i] as int].y.place(),
    ensures
        forall|g: int|
            0 <= g < bands(items, which).len() ==> which.len() > 0
                && items[which.last() as int].y.place() <= (#[trigger] bands(
                items,
                which,
            )[g]).0.place(),
        forall|g: int, h: int|
            0 <= g < h < bands(items, which).len() ==> (#[trigger] bands(
                items,
                which,
            )[h]).0.place() <= (#[trigger] bands(items, which)[g]).0.place(),
    decreases which.len(),
{
    if which.len() > 0 {
        let rest = which.drop_last();
        let i = which.last();
        let before = bands(items, rest);
        let after = bands(items, which);
        let y = items[i as int].y;
        let at = first_close(before, y, 0) as int;
        assert forall|i: int, j: int| 0 <= i < j < rest.len() implies items[
            #[trigger] rest[j] as int
        ].y.place() <= items[#[trigger] rest[i] as int].y.place() by {
            assert(rest[i] == which[i]);
            assert(rest[j] == which[j]);
        }
        lemma_bands_descend(items, rest);
        lemma_first_close(before, y, 0);
        assert forall|g: int| 0 <= g < before.len() implies y.place() <= (
        #[trigger] before[g]).0.place() && after[g].0 == before[g].0 by {
            assert(rest.last() == which[which.len() - 2]);
            assert(which[which.len() - 1] == i);
        }
    }
}

/// What header recovery does to a table: nothing, or one row before the first
/// one with a cell for each column, at least two of them with text. The body of
/// the table stays as it was.
pub proof fn lemma_header_recovered_shape(
    table: TableModel,
    items: Seq<TextItem>,
    small_font: Single,
)
    ensures
        ({
            let after = header_recovered(table, items, small_font);
            after == table || {
                &&& after.columns == table.columns
                &&& after.rows.len() == table.rows.len() + 1
                &&& after.rows.skip(1) == table.rows
                &&& after.cells.len() == table.cells.len() + 1
                &&& after.cells.skip(1) == table.cells
                &&& after.cells[0].len() == table.columns.len()
                &&& after.cells[0].filter(|cell: Seq<char>| cell.len() > 0).len() >= 2
                &&& after.item_indices.take(table.item_indices.len() as int) == table.item_indices
            }
        }),
{
    let after = header_recovered(table, items, small_font);
    if after != table {
        assert(after.rows.skip(1) == table.rows);
        assert(after.cells.skip(1) == table.cells);
        assert(after.item_indices.take(table.item_indices.len() as int) == table.item_indices);
    }
}

/// Items sorted by their downward keys come from the top of the page down.
pub proof fn lemma_sorted_downward(items: Seq<TextItem>, which: Seq<usize>, i: int, j: int)
    requires
        0 <= i < j < which.len(),
    ensures
        ({
            let sorted = order::arranged(which, downward_keys(items, which));
            items[sorted[j] as int].y.place() <= items[sorted[i] as int].y.place()
        }),
{
    let keys = downward_keys(items, which);
    order::lemma_stable_order_sorts(keys, i, j);
    order::lemma_stable_order_is_permutation(keys);
    let a = order::stable_order(keys)[i];
    let b = order::stable_order(keys)[j];
    assert(keys[a].0 == -items[which[a] as int].y.place());
    assert(keys[b].0 == -items[which[b] as int].y.place());
}

/// The last band of items sorted from the top down is the lowest.
proof fn lemma_bands_downward(items: Seq<TextItem>, which: Seq<usize>, g: int)
    requires
        0 <= g < bands(items, order::arranged(which, downward_keys(items, which))).len(),
    ensures
        ({
            let all = bands(items, order::arranged(which, downward_keys(items, which)));
            all.last().0.place() <= all[g].0.place()
        }),
{
    let sorted = order::arranged(which, downward_keys(items, which));
    order::lemma_arranged(which, downward_keys(items, which));
    assert forall|i: int, j: int| 0 <= i < j < sorted.len() implies items[
        #[trigger] sorted[j] as int
    ].y.place() <= items[#[trigger] sorted[i] as int].y.place() by {
        lemma_sorted_downward(items, which, i, j);
    }
    lemma_bands_descend(items, sorted);
    let all = bands(items, sorted);
    assert(all.last() == all[all.len() - 1]);
}

/// The header candidates, sorted from the top down, are distinct indexes.
pub proof fn lemma_sorted_candidates(items: Seq<TextItem>, rows: Seq<Single>, small_font: Single)
    requires
        items.len() <= usize::MAX,
    ensures
        ({
            let which = header_candidates(items, rows, small_font);
            let sorted = order::arranged(which, downward_keys(items, which));
            &&& sorted.len() == which.len()
            &&& sorted.no_duplicates()
            &&& forall|i: usize| #[trigger]
                sorted.contains(i) <==> i < items.len() && header_candidate(
                    items[i as int],
                    rows,
                    small_font,
                )
        }),
{
    let candidate = |i: usize| header_candidate(items[i as int], rows, small_font);
    let which = header_candidates(items, rows, small_font);
    let sorted = order::arranged(which, downward_keys(items, which));
    order::lemma_filtered_indexes(items.len(), candidate);
    order::lemma_arranged(which, downward_keys(items, which));
    assert forall|i: usize| #[trigger] sorted.contains(i) implies i < items.len() && candidate(
        i,
    ) by {
        let k = choose|k: int| 0 <= k < sorted.len() && sorted[k] == i;
        assert(which.contains(sorted[k]));
    }
    assert forall|i: usize| i < items.len() && candidate(i) implies #[trigger] sorted.contains(
        i,
    ) by {
        assert(which.contains(i));
    }
}

/// The header band holds header candidates only, each of them once, and is at
/// the position of its first item, above the first row. The other items are
/// nearer than 5 to it.
pub proof fn lemma_header_band_members(
    table: TableModel,
    items: Seq<TextItem>,
    small_font: Single,
)
    requires
        items.len() <= usize::MAX,
        header_candidates(items, table.rows, small_font).len() > 0,
    ensures
        ({
            let (y, members) = header_band(table, items, small_font);
            &&& members.len() > 0
            &&& members.no_duplicates()
            &&& y == items[members[0] as int].y
            &&& table.rows.first().below(y)
            &&& forall|k: int|
                0 <= k < members.len() ==> #[trigger] members[k] < items.len() && header_candidate(
                    items[members[k] as int],
                    table.rows,
                    small_font,
                )
            &&& forall|k: int|
                0 < k < members.len() ==> items[#[trigger] members[k] as int].y.minus(
                    y,
                ).size().below(single::whole(5))
        }),
{
    let which = header_candidates(items, table.rows, small_font);
    let sorted = order::arranged(which, downward_keys(items, which));
    let all = bands(items, sorted);
    let (y, members) = header_band(table, items, small_font);
    lemma_sorted_candidates(items, table.rows, small_font);
    lemma_bands(items, sorted);
    assert((y, members) == all[all.len() - 1]);
    assert forall|k: int| 0 <= k < members.len() implies #[trigger] members[k] < items.len()
        && header_candidate(items[members[k] as int], table.rows, small_font) by {
        assert(sorted.contains(members[k]));
    }
    assert(header_candidate(items[members[0] as int], table.rows, small_font));
}

/// The header band is the lowest of the bands of header candidates, and each
/// header candidate is in a band.
pub proof fn lemma_header_band_is_lowest(
    table: TableModel,
    items: Seq<TextItem>,
    small_font: Single,
)
    requires
        items.len() <= usize::MAX,
        header_candidates(items, table.rows, small_font).len() > 0,
    ensures
        ({
            let which = header_candidates(items, table.rows, small_font);
            let all = bands(items, order::arranged(which, downward_keys(items, which)));
            &&& forall|g: int|
                0 <= g < all.len() ==> header_band(table, items, small_font).0.place() <= (
                #[trigger] all[g]).0.place()
            &&& forall|i: usize|
                #![trigger items[i as int]]
                i < items.len() && header_candidate(items[i as int], table.rows, small_font)
                    ==> exists|g: int| 0 <= g < all.len() && (#[trigger] all[g]).1.contains(i)
        }),
{
    let which = header_candidates(items, table.rows, small_font);
    let sorted = order::arranged(which, downward_keys(items, which));
    let all = bands(items, sorted);
    lemma_sorted_candidates(items, table.rows, small_font);
    assert(all.len() > 0) by {
        lemma_bands(items, sorted);
    }
    assert forall|i: usize|
        #![trigger items[i as int]]
        i < items.len() && header_candidate(
            items[i as int],
            table.rows,
            small_font,
        ) implies exists|g: int| 0 <= g < all.len() && (#[trigger] all[g]).1.contains(i) by {
        assert(sorted.contains(i));
        lemma_bands(items, sorted);
    }
    assert forall|g: int| 0 <= g < all.len() implies all.last().0.place() <= (
    #[trigger] all[g]).0.place() by {
        lemma_bands_downward(items, which, g);
    }
}

/// A header cell with text has an item of the band.
proof fn lemma_header_cell_member(
    items: Seq<TextItem>,
    which: Seq<usize>,
    columns: Seq<Single>,
    column: usize,
) -> (k: int)
    requires
        header_cell(items, which, columns, column).len() > 0,
    ensures
        0 <= k < header_members(items, which, columns).len(),
        lands(items[header_members(items, which, columns)[k] as int], columns, column),
{
    let here = |i: usize| lands(items[i as int], columns, column);
    let anywhere = |i: usize| lands_anywhere(items[i as int], columns);
    let members = header_members(items, which, columns);
    let j = order::lemma_filter_source(which, here, 0);
    which.lemma_filter_contains(anywhere, j);
    assert(members.contains(which[j]));
    choose|k: int| 0 <= k < members.len() && members[k] == which[j]
}

/// A header row with two filled cells has two items.
proof fn lemma_two_header_members(items: Seq<TextItem>, which: Seq<usize>, columns: Seq<Single>)
    requires
        columns.len() <= usize::MAX,
        header_cells(items, which, columns).filter(|cell: Seq<char>| cell.len() > 0).len() >= 2,
    ensures
        header_members(items, which, columns).len() >= 2,
{
    let cells = header_cells(items, which, columns);
    let (a, b) = order::lemma_filter_two(cells, |cell: Seq<char>| cell.len() > 0);
    let i = lemma_header_cell_member(items, which, columns, a as usize);
    let j = lemma_header_cell_member(items, which, columns, b as usize);
    assert(i != j);
}

/// The items that a recovered header adds to a table: two or more header
/// candidates, each of them once, with text and in a column.
pub proof fn lemma_header_members(table: TableModel, items: Seq<TextItem>, small_font: Single)
    requires
        items.len() <= usize::MAX,
        table.columns.len() <= usize::MAX,
        header_recovered(table, items, small_font) != table,
    ensures
        ({
            let added = header_recovered(table, items, small_font).item_indices.skip(
                table.item_indices.len() as int,
            );
            &&& added.len() >= 2
            &&& added.no_duplicates()
            &&& forall|k: int|
                0 <= k < added.len() ==> #[trigger] added[k] < items.len() && header_candidate(
                    items[added[k] as int],
                    table.rows,
                    small_font,
                ) && lands_anywhere(items[added[k] as int], table.columns)
        }),
{
    let (y, which) = header_band(table, items, small_font);
    let anywhere = |i: usize| lands_anywhere(items[i as int], table.columns);
    let members = header_members(items, which, table.columns);
    lemma_header_band_members(table, items, small_font);
    assert((table.item_indices + members).skip(table.item_indices.len() as int) == members);
    order::lemma_filter_distinct(which, anywhere);
    assert forall|k: int| 0 <= k < members.len() implies #[trigger] members[k] < items.len()
        && header_candidate(items[members[k] as int], table.rows, small_font) && lands_anywhere(
        items[members[k] as int],
        table.columns,
    ) by {
        let j = order::lemma_filter_source(which, anywhere, k);
    }
    lemma_two_header_members(items, which, table.columns);
}

/// A number that is at or close to one no lower than `y` is not 5 or more below
/// `y`.
proof fn lemma_not_far_below(y: Single, band: Single, x: Single)
    requires
        !y.nan(),
        !band.nan(),
        !x.nan(),
        y.place() <= band.place(),
        x == band || x.minus(band).size().below(single::whole(5)),
        !(x.infinite() && x.negative()),
    ensures
        !single::whole(5).at_most(y.minus(x)),
{
    single::lemma_whole_range(5);
    if y.finite() && x.finite() && band.finite() {
        single::lemma_place_orders_values(y, band);
        single::lemma_difference_order(y, band, x);
        if x == band {
            single::lemma_difference_zero(x);
        } else {
            single::lemma_difference_size(x, band);
        }
    }
}

/// The position of a header candidate is a number above minus infinity.
proof fn lemma_candidate_position(item: TextItem, rows: Seq<Single>, small_font: Single)
    requires
        header_candidate(item, rows, small_font),
    ensures
        !item.y.nan(),
        !(item.y.infinite() && item.y.negative()),
{
}

/// The position of the band that a header candidate is in.
proof fn lemma_candidate_band(
    items: Seq<TextItem>,
    rows: Seq<Single>,
    small_font: Single,
    i: usize,
) -> (g: int)
    requires
        i < items.len() <= usize::MAX,
        header_candidate(items[i as int], rows, small_font),
    ensures
        ({
            let which = header_candidates(items, rows, small_font);
            let all = bands(items, order::arranged(which, downward_keys(items, which)));
            let x = items[i as int].y;
            &&& which.len() > 0
            &&& 0 <= g < all.len()
            &&& !all[g].0.nan()
            &&& x == all[g].0 || x.minus(all[g].0).size().below(single::whole(5))
        }),
{
    let which = header_candidates(items, rows, small_font);
    let sorted = order::arranged(which, downward_keys(items, which));
    let all = bands(items, sorted);
    lemma_sorted_candidates(items, rows, small_font);
    assert(sorted.contains(i));
    lemma_bands(items, sorted);
    let g = choose|g: int| 0 <= g < all.len() && (#[trigger] all[g]).1.contains(i);
    let band = all[g];
    let k = choose|k: int| 0 <= k < band.1.len() && band.1[k] == i;
    let first = band.1[0];
    assert(sorted.contains(first));
    lemma_candidate_position(items[first as int], rows, small_font);
    g
}

/// No header candidate is 5 or more below a recovered header row.
pub proof fn lemma_no_candidate_below(
    table: TableModel,
    items: Seq<TextItem>,
    small_font: Single,
    i: usize,
)
    requires
        i < items.len() <= usize::MAX,
        header_candidate(items[i as int], table.rows, small_font),
    ensures
        !single::whole(5).at_most(
            header_band(table, items, small_font).0.minus(items[i as int].y),
        ),
{
    let which = header_candidates(items, table.rows, small_font);
    let all = bands(items, order::arranged(which, downward_keys(items, which)));
    let y = header_band(table, items, small_font).0;
    let g = lemma_candidate_band(items, table.rows, small_font, i);
    assert(!y.nan()) by {
        lemma_header_band_members(table, items, small_font);
    }
    assert(y.place() <= all[g].0.place()) by {
        lemma_bands_downward(items, which, g);
    }
    lemma_candidate_position(items[i as int], table.rows, small_font);
    lemma_not_far_below(y, all[g].0, items[i as int].y);
}

} // verus!
