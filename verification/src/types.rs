//! Positioned text items and the tables that they are arranged in.

use crate::single::Single;
use vstd::prelude::*;

verus! {

/// A run of text at its place on a page; vertical positions grow upwards.
#[derive(Debug)]
pub struct TextItem {
    pub text: String,
    /// The left edge.
    pub x: Single,
    /// The baseline.
    pub y: Single,
    pub width: Single,
    pub font_size: Single,
    pub is_strikeout: bool,
    /// Whether the text is not turned.
    pub upright: bool,
    /// The baseline of the line that the text belongs to.
    pub line_y: Single,
}

/// The pass that looks for a table.
#[derive(Clone, Copy, Debug, PartialEq, Eq, Structural)]
pub enum TableDetectionMode {
    /// Tables set in a font smaller than the body text.
    SmallFont,
    /// Tables set in the font of the body text.
    BodyFont,
}

/// A table: the positions of its columns and rows, the text of its cells by
/// rows, and the indexes of the items that it was built from.
#[derive(Debug)]
pub struct Table {
    pub columns: Vec<Single>,
    /// Row positions from the top of the page down.
    pub rows: Vec<Single>,
    pub cells: Vec<Vec<String>>,
    pub item_indices: Vec<usize>,
}

/// What a table holds.
#[verifier::ext_equal]
pub struct TableModel {
    pub columns: Seq<Single>,
    pub rows: Seq<Single>,
    pub cells: Seq<Seq<Seq<char>>>,
    pub item_indices: Seq<usize>,
}

/// Whether a table has a row of cells for each row position, in it a cell for
/// each column, and only items out of `item_count`.
pub open spec fn well_formed(table: TableModel, item_count: nat) -> bool {
    &&& table.cells.len() == table.rows.len()
    &&& forall|r: int|
        0 <= r < table.cells.len() ==> (#[trigger] table.cells[r]).len() == table.columns.len()
    &&& forall|k: int|
        0 <= k < table.item_indices.len() ==> #[trigger] table.item_indices[k] < item_count
}

/// The texts of a row of cells.
pub open spec fn row_texts(row: Seq<String>) -> Seq<Seq<char>> {
    row.map_values(|cell: String| cell@)
}

/// The texts of rows of cells.
pub open spec fn grid_texts(cells: Seq<Vec<String>>) -> Seq<Seq<Seq<char>>> {
    cells.map_values(|row: Vec<String>| row_texts(row@))
}

impl View for Table {
    type V = TableModel;

    open spec fn view(&self) -> TableModel {
        TableModel {
            columns: self.columns@,
            rows: self.rows@,
            cells: grid_texts(self.cells@),
            item_indices: self.item_indices@,
        }
    }
}

} // verus!
