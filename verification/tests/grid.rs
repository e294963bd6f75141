use table_grid::columns::find_column_boundaries;
use table_grid::header::recover_header_row;
use table_grid::lookup::{find_column_index, find_row_index};
use table_grid::rows::find_row_boundaries;
use table_grid::single::Single;
use table_grid::types::{Table, TableDetectionMode, TextItem};

fn single(x: f32) -> Single {
    Single::from_bits(x.to_bits())
}

fn singles(xs: &[f32]) -> Vec<Single> {
    xs.iter().map(|x| single(*x)).collect()
}

fn float(x: Single) -> f32 {
    f32::from_bits(x.to_bits())
}

fn floats(xs: &[Single]) -> Vec<f32> {
    xs.iter().map(|x| float(*x)).collect()
}

fn make_item(text: &str, x: f32, y: f32, font_size: f32) -> TextItem {
    TextItem {
        text: text.to_string(),
        x: single(x),
        y: single(y),
        width: single(text.len() as f32 * font_size * 0.5),
        font_size: single(font_size),
        is_strikeout: false,
        upright: true,
        line_y: single(y),
    }
}

fn make_wide_item(text: &str, x: f32, y: f32, width: f32, font_size: f32) -> TextItem {
    TextItem {
        text: text.to_string(),
        x: single(x),
        y: single(y),
        width: single(width),
        font_size: single(font_size),
        is_strikeout: false,
        upright: true,
        line_y: single(y),
    }
}

fn numbered(items: &[TextItem]) -> Vec<(usize, &TextItem)> {
    items.iter().enumerate().collect()
}

fn column_index(columns: &[f32], x: f32) -> Option<usize> {
    find_column_index(&singles(columns), single(x))
}

fn row_index(rows: &[f32], y: f32) -> Option<usize> {
    find_row_index(&singles(rows), single(y))
}

// --- find_column_index ---

#[test]
fn test_find_column_index_exact_match() {
    let columns = vec![100.0, 200.0, 300.0];
    assert_eq!(column_index(&columns, 100.0), Some(0));
    assert_eq!(column_index(&columns, 200.0), Some(1));
    assert_eq!(column_index(&columns, 300.0), Some(2));
}

#[test]
fn test_find_column_index_closest_within_threshold() {
    let columns = vec![100.0, 200.0, 300.0];
    assert_eq!(column_index(&columns, 105.0), Some(0));
    assert_eq!(column_index(&columns, 195.0), Some(1));
}

#[test]
fn test_find_column_index_outside_threshold() {
    let columns = vec![100.0, 200.0, 300.0];
    // Half the smallest gap, 50, is the threshold.
    assert_eq!(column_index(&columns, 500.0), None);
}

#[test]
fn test_find_column_index_single_column() {
    let columns = vec![150.0];
    // A single column has the threshold 50.
    assert_eq!(column_index(&columns, 150.0), Some(0));
    assert_eq!(column_index(&columns, 170.0), Some(0));
}

#[test]
fn test_find_column_index_empty_columns() {
    let columns: Vec<f32> = vec![];
    assert_eq!(column_index(&columns, 100.0), None);
}

#[test]
fn column_reach_is_between_25_and_50() {
    // Half the smallest gap is 5, raised to 25.
    assert_eq!(column_index(&[100.0, 110.0], 134.5), Some(1));
    assert_eq!(column_index(&[100.0, 110.0], 135.0), None);
    // Half the smallest gap is 200, lowered to 50.
    assert_eq!(column_index(&[100.0, 500.0], 149.0), Some(0));
    assert_eq!(column_index(&[100.0, 500.0], 150.0), None);
    // Half the smallest gap is 30.
    assert_eq!(column_index(&[100.0, 160.0, 400.0], 429.5), Some(2));
    assert_eq!(column_index(&[100.0, 160.0, 400.0], 430.0), None);
}

#[test]
fn first_of_equally_close_positions_is_taken() {
    assert_eq!(column_index(&[100.0, 140.0], 120.0), Some(0));
    assert_eq!(row_index(&[500.0, 490.0], 495.0), Some(0));
}

#[test]
fn positions_that_are_not_numbers_belong_nowhere() {
    assert_eq!(column_index(&[100.0, 200.0], f32::NAN), None);
    assert_eq!(row_index(&[100.0, 200.0], f32::NAN), None);
    // The first column stays the closest one where distances are not numbers.
    assert_eq!(column_index(&[f32::NAN, 200.0], 200.0), None);
}

// --- find_row_index ---

#[test]
fn test_find_row_index_exact_match() {
    let rows = vec![500.0, 480.0, 460.0];
    assert_eq!(row_index(&rows, 500.0), Some(0));
    assert_eq!(row_index(&rows, 480.0), Some(1));
}

#[test]
fn test_find_row_index_within_threshold() {
    let rows = vec![500.0, 480.0, 460.0];
    assert_eq!(row_index(&rows, 505.0), Some(0));
    assert_eq!(row_index(&rows, 475.0), Some(1));
}

#[test]
fn test_find_row_index_outside_threshold() {
    let rows = vec![500.0, 480.0, 460.0];
    // The threshold is 15.
    assert_eq!(row_index(&rows, 400.0), None);
}

#[test]
fn test_find_row_index_single_row() {
    let rows = vec![500.0];
    assert_eq!(row_index(&rows, 500.0), Some(0));
    assert_eq!(row_index(&rows, 510.0), Some(0));
}

#[test]
fn row_reach_ends_before_15() {
    assert_eq!(row_index(&[500.0], 514.9), Some(0));
    assert_eq!(row_index(&[500.0], 515.0), None);
    assert_eq!(row_index(&[], 500.0), None);
}

// --- find_column_boundaries ---

#[test]
fn test_find_column_boundaries_empty() {
    let items: Vec<(usize, &TextItem)> = vec![];
    assert_eq!(
        floats(&find_column_boundaries(&items, TableDetectionMode::SmallFont)),
        Vec::<f32>::new()
    );
}

#[test]
fn test_find_column_boundaries_two_clusters() {
    // Items at x=100 and x=200 with enough repetition
    let items_data: Vec<TextItem> = (0..10)
        .map(|i| {
            let x = if i % 2 == 0 { 100.0 } else { 200.0 };
            make_item("Cell", x, 500.0 - (i as f32 * 20.0), 10.0)
        })
        .collect();
    let cols = find_column_boundaries(&numbered(&items_data), TableDetectionMode::SmallFont);
    assert_eq!(cols.len(), 2);
    assert_eq!(floats(&cols), vec![100.0, 200.0]);
}

#[test]
fn test_find_column_boundaries_single_item() {
    let item = make_item("Solo", 100.0, 500.0, 10.0);
    let items: Vec<(usize, &TextItem)> = vec![(0, &item)];
    // A column needs two items.
    let cols = find_column_boundaries(&items, TableDetectionMode::SmallFont);
    assert!(cols.is_empty());
}

#[test]
fn test_find_column_boundaries_body_font_paragraph_rejection() {
    // All items at the same X: more than 60% in one column
    let items_data: Vec<TextItem> = (0..10)
        .map(|i| make_item("Text", 100.0, 500.0 - (i as f32 * 20.0), 10.0))
        .collect();
    let cols = find_column_boundaries(&numbered(&items_data), TableDetectionMode::BodyFont);
    assert!(cols.is_empty());
    let cols = find_column_boundaries(&numbered(&items_data), TableDetectionMode::SmallFont);
    assert_eq!(floats(&cols), vec![100.0]);
}

#[test]
fn test_find_column_boundaries_min_items_filter() {
    // 10 items at x=100 and 1 item at x=300
    let mut items_data: Vec<TextItem> = (0..10)
        .map(|i| make_item("Cell", 100.0, 500.0 - (i as f32 * 20.0), 10.0))
        .collect();
    items_data.push(make_item("Lone", 300.0, 500.0, 10.0));
    let cols = find_column_boundaries(&numbered(&items_data), TableDetectionMode::SmallFont);
    // Only the cluster at x=100 should survive
    assert!(cols.len() <= 1);
    assert_eq!(floats(&cols), vec![100.0]);
}

#[test]
fn test_find_column_boundaries_dense_schedule() {
    // A 24-column train schedule with 26pt column spacing and per-glyph items
    // that create many X-positions within each column.
    let mut items: Vec<(usize, TextItem)> = Vec::new();
    let mut rng_offset = 0.0f32;
    for col in 0..24 {
        let base_x = 50.0 + col as f32 * 26.0;
        for row in 0..50 {
            rng_offset = (rng_offset + 0.7) % 4.0;
            let x = base_x + rng_offset - 2.0;
            let y = 700.0 - row as f32 * 12.0;
            items.push((0, make_wide_item(&format!("{}", row), x, y, 8.0, 7.0)));
        }
    }
    let refs: Vec<(usize, &TextItem)> = items.iter().map(|(i, t)| (*i, t)).collect();
    let cols = find_column_boundaries(&refs, TableDetectionMode::SmallFont);
    // Close to 24 columns
    assert!(
        cols.len() >= 22 && cols.len() <= 26,
        "Expected ~24 columns, got {}",
        cols.len()
    );
}

#[test]
fn test_find_column_boundaries_wide_spacing_still_works() {
    // A table with 4 widely-spaced columns
    let mut items = Vec::new();
    for col in 0..4 {
        let base_x = 50.0 + col as f32 * 120.0;
        for row in 0..10 {
            items.push((
                0,
                make_wide_item(
                    &format!("cell_{}_{}", col, row),
                    base_x + (row as f32 * 0.3),
                    700.0 - row as f32 * 15.0,
                    40.0,
                    10.0,
                ),
            ));
        }
    }
    let refs: Vec<(usize, &TextItem)> = items.iter().map(|(i, t)| (*i, t)).collect();
    let cols = find_column_boundaries(&refs, TableDetectionMode::BodyFont);
    assert_eq!(cols.len(), 4, "Expected 4 columns, got {}", cols.len());
}

#[test]
fn sparse_header_groups_join_columns_of_figures() {
    // Three columns of figures, 100 apart, with a header word left of each.
    let mut items = Vec::new();
    for col in 0..3 {
        let base_x = 100.0 + col as f32 * 100.0;
        items.push(make_item("Total", base_x - 30.0, 700.0, 10.0));
        for row in 0..12 {
            items.push(make_item("12.50", base_x, 680.0 - row as f32 * 12.0, 10.0));
        }
    }
    let cols = find_column_boundaries(&numbered(&items), TableDetectionMode::SmallFont);
    assert_eq!(cols.len(), 3);
    // With words instead of figures the headers stay apart and are filtered out.
    let mut words = Vec::new();
    for col in 0..3 {
        let base_x = 100.0 + col as f32 * 100.0;
        words.push(make_item("Total", base_x - 30.0, 700.0, 10.0));
        for row in 0..12 {
            words.push(make_item("word", base_x, 680.0 - row as f32 * 12.0, 10.0));
        }
    }
    let apart = find_column_boundaries(&numbered(&words), TableDetectionMode::SmallFont);
    assert_eq!(floats(&apart), vec![100.0, 200.0, 300.0]);
    assert!(float(cols[0]) < 100.0);
}

// --- find_row_boundaries ---

#[test]
fn test_find_row_boundaries_empty() {
    let items: Vec<(usize, &TextItem)> = vec![];
    assert_eq!(floats(&find_row_boundaries(&items)), Vec::<f32>::new());
}

#[test]
fn test_find_row_boundaries_descending_order() {
    let items_data = vec![
        make_item("A", 100.0, 500.0, 10.0),
        make_item("B", 100.0, 480.0, 10.0),
        make_item("C", 100.0, 460.0, 10.0),
    ];
    let rows = floats(&find_row_boundaries(&numbered(&items_data)));
    assert_eq!(rows.len(), 3);
    assert!(rows[0] > rows[1]);
    assert!(rows[1] > rows[2]);
    assert_eq!(rows, vec![500.0, 480.0, 460.0]);
}

#[test]
fn test_find_row_boundaries_clustering() {
    // Items close together should cluster into one row
    let items_data = vec![
        make_item("A", 100.0, 500.0, 10.0),
        make_item("B", 200.0, 501.0, 10.0),
        make_item("C", 100.0, 480.0, 10.0),
    ];
    let rows = find_row_boundaries(&numbered(&items_data));
    assert_eq!(rows.len(), 2); // 500 and 501 cluster together
    assert_eq!(floats(&rows), vec![500.5, 480.0]);
}

#[test]
fn test_find_row_boundaries_single_row() {
    let items_data = vec![make_item("A", 100.0, 500.0, 10.0)];
    let rows = floats(&find_row_boundaries(&numbered(&items_data)));
    assert_eq!(rows.len(), 1);
    assert!((rows[0] - 500.0).abs() < 0.01);
}

#[test]
fn test_find_row_boundaries_items_at_same_y() {
    let items_data = vec![
        make_item("A", 100.0, 500.0, 10.0),
        make_item("B", 200.0, 500.0, 10.0),
        make_item("C", 300.0, 500.0, 10.0),
    ];
    let rows = find_row_boundaries(&numbered(&items_data));
    assert_eq!(rows.len(), 1);
}

#[test]
fn rows_are_apart_from_the_pitch_on() {
    // 0.8 of font size 10 is 8.
    let apart = vec![
        make_item("A", 100.0, 500.0, 10.0),
        make_item("B", 100.0, 492.0, 10.0),
    ];
    assert_eq!(floats(&find_row_boundaries(&numbered(&apart))), vec![500.0, 492.0]);
    let together = vec![
        make_item("A", 100.0, 500.0, 10.0),
        make_item("B", 100.0, 493.0, 10.0),
    ];
    assert_eq!(floats(&find_row_boundaries(&numbered(&together))), vec![496.5]);
    // The pitch is no less than 4.
    let small = vec![
        make_item("A", 100.0, 500.0, 2.0),
        make_item("B", 100.0, 497.0, 2.0),
        make_item("C", 100.0, 490.0, 2.0),
    ];
    assert_eq!(floats(&find_row_boundaries(&numbered(&small))), vec![498.5, 490.0]);
}

// --- recover_header_row ---

fn make_table(columns: &[f32], rows: &[f32], cells: &[&[&str]], item_indices: &[usize]) -> Table {
    Table {
        columns: singles(columns),
        rows: singles(rows),
        cells: cells
            .iter()
            .map(|row| row.iter().map(|cell| cell.to_string()).collect())
            .collect(),
        item_indices: item_indices.to_vec(),
    }
}

#[test]
fn test_recover_header_row_prepends_header() {
    let all_items = vec![
        make_item("Col1", 100.0, 520.0, 12.0), // body font, above table
        make_item("Col2", 200.0, 520.0, 12.0), // body font, above table
        make_item("A", 100.0, 500.0, 8.0),     // small font, in table
        make_item("B", 200.0, 500.0, 8.0),
    ];
    let mut table = make_table(
        &[100.0, 200.0],
        &[500.0, 480.0],
        &[&["A", "B"], &["C", "D"]],
        &[2, 3],
    );

    recover_header_row(&mut table, &all_items, single(9.0));
    assert_eq!(table.cells.len(), 3);
    assert_eq!(table.cells[0], vec!["Col1", "Col2"]);
    assert_eq!(table.cells[1], vec!["A", "B"]);
    assert_eq!(floats(&table.rows), vec![520.0, 500.0, 480.0]);
    assert_eq!(table.item_indices, vec![2, 3, 0, 1]);
}

#[test]
fn test_recover_header_row_no_candidates() {
    let all_items = vec![
        make_item("A", 100.0, 500.0, 8.0),
        make_item("B", 200.0, 500.0, 8.0),
    ];
    let mut table = make_table(&[100.0, 200.0], &[500.0], &[&["A", "B"]], &[0, 1]);

    let rows_before = table.rows.len();
    recover_header_row(&mut table, &all_items, single(9.0));
    assert_eq!(table.rows.len(), rows_before);
}

#[test]
fn test_recover_header_row_skips_strikeout_candidates() {
    let mut old_col1 = make_item("Old Col1", 100.0, 520.0, 12.0);
    old_col1.is_strikeout = true;
    let mut old_col2 = make_item("Old Col2", 200.0, 520.0, 12.0);
    old_col2.is_strikeout = true;
    let all_items = vec![
        old_col1,
        old_col2,
        make_item("A", 100.0, 500.0, 8.0),
        make_item("B", 200.0, 500.0, 8.0),
    ];
    let mut table = make_table(
        &[100.0, 200.0],
        &[500.0, 480.0],
        &[&["A", "B"], &["C", "D"]],
        &[2, 3],
    );

    recover_header_row(&mut table, &all_items, single(9.0));
    assert_eq!(table.rows.len(), 2);
    assert_eq!(table.cells[0], vec!["A", "B"]);
}

#[test]
fn test_recover_header_row_too_far_above() {
    let all_items = vec![
        make_item("Col1", 100.0, 600.0, 12.0), // way above
        make_item("Col2", 200.0, 600.0, 12.0),
        make_item("A", 100.0, 500.0, 8.0),
        make_item("B", 200.0, 500.0, 8.0),
    ];
    let mut table = make_table(
        &[100.0, 200.0],
        &[500.0, 480.0],
        &[&["A", "B"], &["C", "D"]],
        &[2, 3],
    );

    let rows_before = table.rows.len();
    recover_header_row(&mut table, &all_items, single(9.0));
    assert_eq!(table.rows.len(), rows_before);
}

#[test]
fn test_recover_header_row_single_column_populated() {
    // One column populated is no header.
    let all_items = vec![
        make_item("OnlyCol1", 100.0, 520.0, 12.0),
        make_item("A", 100.0, 500.0, 8.0),
        make_item("B", 200.0, 500.0, 8.0),
    ];
    let mut table = make_table(&[100.0, 200.0], &[500.0], &[&["A", "B"]], &[1, 2]);

    let rows_before = table.rows.len();
    recover_header_row(&mut table, &all_items, single(9.0));
    assert_eq!(table.rows.len(), rows_before);
}

#[test]
fn test_recover_header_row_empty_table() {
    let all_items = vec![make_item("Col1", 100.0, 520.0, 12.0)];
    let mut table = make_table(&[], &[], &[], &[]);

    recover_header_row(&mut table, &all_items, single(9.0));
    assert!(table.cells.is_empty());
}

#[test]
fn header_row_is_the_band_closest_to_the_table() {
    let all_items = vec![
        make_item("Title", 100.0, 538.0, 12.0),
        make_item("Page", 200.0, 538.0, 12.0),
        make_item(" Net ", 100.0, 518.0, 12.0),
        make_item("sales", 105.0, 516.0, 12.0),
        make_item("Cost", 200.0, 517.0, 12.0),
        make_item("   ", 200.0, 517.0, 12.0),
        make_item("far", 400.0, 517.0, 12.0),
        make_item("small", 100.0, 515.0, 8.0),
    ];
    let mut table = make_table(
        &[100.0, 200.0],
        &[500.0, 480.0],
        &[&["1", "2"], &["3", "4"]],
        &[],
    );
    recover_header_row(&mut table, &all_items, single(9.0));
    assert_eq!(table.cells[0], vec!["Net sales", "Cost"]);
    assert_eq!(floats(&table.rows), vec![518.0, 500.0, 480.0]);
    // Top down within the band, the blank and the far item left out.
    assert_eq!(table.item_indices, vec![2, 4, 3]);
}

#[test]
fn header_reach_follows_the_row_spacing() {
    let headers = |y: f32| {
        vec![
            make_item("Col1", 100.0, y, 12.0),
            make_item("Col2", 200.0, y, 12.0),
        ]
    };
    let rows_after = |rows: &[f32], y: f32| {
        let mut table = make_table(&[100.0, 200.0], rows, &[&["A", "B"]], &[]);
        recover_header_row(&mut table, &headers(y), single(9.0));
        table.rows.len() - rows.len()
    };
    // One row: 30.
    assert_eq!(rows_after(&[500.0], 530.0), 1);
    assert_eq!(rows_after(&[500.0], 530.5), 0);
    // Rows 12 apart: 24.
    assert_eq!(rows_after(&[500.0, 488.0, 476.0], 524.0), 1);
    assert_eq!(rows_after(&[500.0, 488.0, 476.0], 524.5), 0);
    // Rows 2 apart: 10 at least; rows 100 apart: 40 at most.
    assert_eq!(rows_after(&[500.0, 498.0], 510.0), 1);
    assert_eq!(rows_after(&[500.0, 498.0], 510.5), 0);
    assert_eq!(rows_after(&[500.0, 400.0], 540.0), 1);
    assert_eq!(rows_after(&[500.0, 400.0], 540.5), 0);
    // Never at or below the first row.
    assert_eq!(rows_after(&[500.0], 500.0), 0);
}
