use std::collections::HashSet;
use table_grid::single::Single;
use table_grid::types::{Table, TextItem};
use table_grid::wrapped::{recover_wrapped_column_headers, try_recover_wrapped_column_headers};

fn single(x: f32) -> Single {
    Single::from_bits(x.to_bits())
}

fn floats(xs: &[Single]) -> Vec<f32> {
    xs.iter().map(|x| f32::from_bits(x.to_bits())).collect()
}

fn item(text: &str, x: f32, y: f32, width: f32) -> TextItem {
    TextItem {
        text: text.to_string(),
        x: single(x),
        y: single(y),
        width: single(width),
        font_size: single(10.0),
        is_strikeout: false,
        upright: true,
        line_y: single(y),
    }
}

/// A table of labels and three columns of figures in three rows from 500 down,
/// 15 apart, and its twelve items.
fn figures() -> (Table, Vec<TextItem>) {
    let columns = [50.0, 200.0, 300.0, 400.0];
    let texts = [
        ["Cash", "1.5", "20", "(3)"],
        ["Loans", "2.5", "30", "4%"],
        ["Other", "3.5", "40", "5"],
    ];
    let mut items: Vec<TextItem> = Vec::new();
    let mut rows: Vec<Single> = Vec::new();
    let mut cells: Vec<Vec<String>> = Vec::new();
    for (r, row) in texts.iter().enumerate() {
        let y = 500.0 - 15.0 * r as f32;
        rows.push(single(y));
        cells.push(row.iter().map(|t| t.to_string()).collect());
        for (c, text) in row.iter().enumerate() {
            let width = if c == 0 { 60.0 } else { 30.0 };
            items.push(item(text, columns[c], y, width));
        }
    }
    let table = Table {
        columns: columns.iter().map(|x| single(*x)).collect(),
        rows,
        cells,
        item_indices: (0..items.len()).collect(),
    };
    (table, items)
}

fn recover(table: &mut Table, items: &[TextItem], claimed: &[usize]) -> bool {
    let claimed: HashSet<usize> = claimed.iter().copied().collect();
    let rows = table.rows.len();
    assert!(try_recover_wrapped_column_headers(table, items, &claimed));
    table.rows.len() > rows
}

fn assert_unchanged(mut table: Table, items: &[TextItem]) {
    let before = format!("{:?}", table);
    assert!(!recover(&mut table, items, &[]));
    assert_eq!(format!("{:?}", table), before);
}

#[test]
fn lines_are_joined_within_their_columns() {
    let (mut table, mut items) = figures();
    items.push(item("2019-", 200.0, 526.0, 30.0));
    items.push(item("2020", 200.0, 514.0, 30.0));
    items.push(item("Net", 300.0, 526.0, 25.0));
    items.push(item(" income ", 300.0, 514.0, 35.0));
    items.push(item("Total", 400.0, 514.0, 30.0));
    recover_wrapped_column_headers(&mut table, &items, &HashSet::new());
    assert_eq!(floats(&table.rows), vec![526.0, 500.0, 485.0, 470.0]);
    assert_eq!(table.cells[0], vec!["", "2019-2020", "Net income", "Total"]);
    assert_eq!(table.cells[1], vec!["Cash", "1.5", "20", "(3)"]);
    assert_eq!(table.cells.len(), 4);
    assert_eq!(floats(&table.columns), vec![50.0, 200.0, 300.0, 400.0]);
    assert_eq!(table.item_indices[12..], [13, 15, 16, 12, 14]);
}

#[test]
fn staggered_lines_are_read_from_the_top_down() {
    let (mut table, mut items) = figures();
    items.push(item("below", 200.0, 512.0, 30.0));
    items.push(item("Over", 300.0, 516.0, 30.0));
    items.push(item("Above", 200.0, 520.0, 30.0));
    items.push(item("b", 215.0, 528.0, 10.0));
    items.push(item("A", 200.0, 528.0, 10.0));
    assert!(recover(&mut table, &items, &[]));
    assert_eq!(table.cells[0], vec!["", "A b Above below", "Over", ""]);
    assert_eq!(floats(&table.rows)[0], 528.0);
}

#[test]
fn label_lines_next_to_the_table_are_sections() {
    let (mut table, mut items) = figures();
    items.push(item("lines", 80.0, 510.0, 25.0));
    items.push(item("Label", 50.0, 510.0, 25.0));
    items.push(item("Upper", 50.0, 520.0, 25.0));
    items.push(item("One", 200.0, 532.0, 30.0));
    items.push(item("Item", 50.0, 532.0, 30.0));
    items.push(item("Two", 300.0, 532.0, 30.0));
    items.push(item("Title", 50.0, 544.0, 30.0));
    assert!(recover(&mut table, &items, &[]));
    assert_eq!(floats(&table.rows), vec![532.0, 520.0, 510.0, 500.0, 485.0, 470.0]);
    assert_eq!(table.cells[0], vec!["Item", "One", "Two", ""]);
    assert_eq!(table.cells[1], vec!["Upper", "", "", ""]);
    assert_eq!(table.cells[2], vec!["Label lines", "", "", ""]);
    assert_eq!(table.cells[3], vec!["Cash", "1.5", "20", "(3)"]);
    assert_eq!(table.item_indices[12..], [12, 13, 14, 15, 16, 17]);
}

#[test]
fn columns_without_text_are_dropped() {
    let (mut table, mut items) = figures();
    table.columns.insert(1, single(130.0));
    for row in table.cells.iter_mut() {
        row.insert(1, "  ".to_string());
    }
    items.push(item("One", 200.0, 512.0, 30.0));
    items.push(item("Two", 300.0, 512.0, 30.0));
    assert!(recover(&mut table, &items, &[]));
    assert_eq!(floats(&table.columns), vec![50.0, 200.0, 300.0, 400.0]);
    assert_eq!(table.cells[0], vec!["", "One", "Two", ""]);
    assert_eq!(table.cells[2], vec!["Loans", "2.5", "30", "4%"]);
    for c in 0..table.columns.len() {
        assert!(table.cells.iter().any(|row| !row[c].trim().is_empty()));
    }
    for row in &table.cells {
        assert_eq!(row.len(), table.columns.len());
    }
}

#[test]
fn claimed_items_are_left_alone() {
    let (mut table, mut items) = figures();
    items.push(item("One", 200.0, 512.0, 30.0));
    items.push(item("Two", 300.0, 512.0, 30.0));
    items.push(item("Three", 400.0, 512.0, 30.0));
    assert!(recover(&mut table, &items, &[14, 99]));
    assert_eq!(table.cells[0], vec!["", "One", "Two", ""]);
    assert_eq!(table.item_indices[12..], [12, 13]);
}

#[test]
fn items_of_the_table_are_not_added_again() {
    let (mut table, mut items) = figures();
    items.push(item("One", 200.0, 512.0, 30.0));
    items.push(item("Two", 300.0, 512.0, 30.0));
    items.push(item("Three", 400.0, 512.0, 30.0));
    table.item_indices.push(14);
    assert!(recover(&mut table, &items, &[]));
    assert_eq!(table.item_indices[12..], [14, 12, 13]);
}

#[test]
fn recovering_again_finds_nothing_more() {
    let (mut table, mut items) = figures();
    items.push(item("One", 200.0, 512.0, 30.0));
    items.push(item("Two", 300.0, 512.0, 30.0));
    assert!(recover(&mut table, &items, &[]));
    assert_unchanged(table, &items);
}

#[test]
fn one_headed_column_is_not_enough() {
    let (table, mut items) = figures();
    items.push(item("Item", 50.0, 512.0, 30.0));
    items.push(item("One", 200.0, 512.0, 30.0));
    assert_unchanged(table, &items);
}

#[test]
fn half_of_the_data_columns_must_be_headed() {
    let columns: Vec<f32> = (0..6).map(|c| 50.0 + 100.0 * c as f32).collect();
    for (headed, expected) in [(2, false), (3, true)] {
        let mut items: Vec<TextItem> = Vec::new();
        for r in 0..2 {
            for x in &columns {
                items.push(item("1", *x, 500.0 - 15.0 * r as f32, 30.0));
            }
        }
        let mut table = Table {
            columns: columns.iter().map(|x| single(*x)).collect(),
            rows: vec![single(500.0), single(485.0)],
            cells: vec![vec!["1".to_string(); 6]; 2],
            item_indices: (0..12).collect(),
        };
        for x in columns.iter().skip(1).take(headed) {
            items.push(item("H", *x, 512.0, 30.0));
        }
        assert_eq!(recover(&mut table, &items, &[]), expected);
    }
}

#[test]
fn four_figures_in_five_values_are_enough() {
    for (words, expected) in [(1, true), (2, false)] {
        let (mut table, mut items) = figures();
        for row in table.cells.iter_mut() {
            row[3] = String::new();
        }
        table.cells[0][3] = String::new();
        table.cells[2][2] = " ".to_string();
        for w in 0..words {
            table.cells[w][1] = "word".to_string();
        }
        items.push(item("One", 200.0, 512.0, 30.0));
        items.push(item("Two", 300.0, 512.0, 30.0));
        assert_eq!(recover(&mut table, &items, &[]), expected);
    }
}

#[test]
fn bracketed_figures_count_as_figures() {
    let (mut table, mut items) = figures();
    for row in table.cells.iter_mut() {
        for cell in row.iter_mut().skip(1) {
            *cell = "((1,234.5))".to_string();
        }
    }
    items.push(item("One", 200.0, 512.0, 30.0));
    items.push(item("Two", 300.0, 512.0, 30.0));
    assert!(recover(&mut table, &items, &[]));
}

#[test]
fn a_line_that_spans_columns_ends_the_header() {
    let (mut table, mut items) = figures();
    items.push(item("One", 200.0, 512.0, 30.0));
    items.push(item("Two", 300.0, 512.0, 30.0));
    items.push(item("Group", 200.0, 524.0, 120.0));
    items.push(item("Above", 200.0, 536.0, 30.0));
    assert!(recover(&mut table, &items, &[]));
    assert_eq!(table.cells[0], vec!["", "One", "Two", ""]);
    assert_eq!(table.item_indices[12..], [12, 13]);
}

#[test]
fn an_item_that_only_touches_a_column_does_not_reach_it() {
    for (width, expected) in [(100.0, true), (100.5, false)] {
        let (mut table, mut items) = figures();
        items.push(item("One", 200.0, 512.0, width));
        items.push(item("Two", 400.0, 512.0, 30.0));
        assert_eq!(recover(&mut table, &items, &[]), expected);
    }
}

#[test]
fn lines_are_no_further_apart_than_the_rows() {
    for (rows, y, expected) in [
        // 15 apart.
        ([500.0, 485.0, 470.0], 515.0, true),
        ([500.0, 485.0, 470.0], 515.1, false),
        // 5 apart, less than the font size.
        ([500.0, 495.0, 490.0], 505.0, true),
        ([500.0, 495.0, 490.0], 505.1, false),
        // 10 and 14 apart: of two middle distances the larger one counts.
        ([500.0, 490.0, 476.0], 514.0, true),
        ([500.0, 490.0, 476.0], 514.1, false),
    ] {
        let (mut table, mut items) = figures();
        table.rows = rows.iter().map(|y| single(*y)).collect();
        items.push(item("One", 200.0, y, 30.0));
        items.push(item("Two", 300.0, y, 30.0));
        assert_eq!(recover(&mut table, &items, &[]), expected);
    }
}

#[test]
fn rows_without_a_median_distance_leave_a_gap_of_one_and_a_half_font_sizes() {
    let nan = f32::NAN;
    for (rows, y, expected) in [
        ([500.0, nan, 470.0], 515.0, true),
        ([500.0, nan, 470.0], 515.1, false),
        ([500.0, nan, nan], 530.0, false),
        // Rows that do not descend.
        ([470.0, 485.0, 500.0], 485.0, true),
        ([470.0, 485.0, 500.0], 485.1, false),
        // Rows at one position.
        ([500.0, 500.0, 500.0], 515.0, true),
        ([500.0, 500.0, 500.0], 515.1, false),
        // One distance is a number above zero, and it is the middle one.
        ([500.0, 505.0, 480.0], 525.0, true),
        ([500.0, 505.0, 480.0], 525.1, false),
    ] {
        let (mut table, mut items) = figures();
        table.rows = rows.iter().map(|y| single(*y)).collect();
        items.push(item("One", 200.0, y, 30.0));
        items.push(item("Two", 300.0, y, 30.0));
        assert_eq!(recover(&mut table, &items, &[]), expected, "{:?} {}", rows, y);
    }
}

#[test]
fn a_line_out_of_reach_of_a_row_that_is_no_number_is_not_a_header() {
    let items: Vec<TextItem> = [
        ("a", 50.0, 500.0),
        ("1", 200.0, 500.0),
        ("2", 300.0, 500.0),
        ("b", 50.0, 480.0),
        ("3", 200.0, 480.0),
        ("4", 300.0, 480.0),
        ("X", 200.0, 530.0),
        ("Y", 300.0, 530.0),
    ]
    .iter()
    .map(|(text, x, y)| item(text, *x, *y, 5.0))
    .collect();
    let table = Table {
        columns: vec![single(50.0), single(200.0), single(300.0)],
        rows: vec![single(500.0), single(f32::NAN)],
        cells: vec![
            vec!["a".to_string(), "1".to_string(), "2".to_string()],
            vec!["b".to_string(), "3".to_string(), "4".to_string()],
        ],
        item_indices: (0..6).collect(),
    };
    assert_unchanged(table, &items);
}

#[test]
fn rows_that_do_not_descend_have_headers_too() {
    let (mut table, mut items) = figures();
    table.rows = vec![single(480.0), single(500.0)];
    items.push(item("One", 200.0, 490.0, 30.0));
    items.push(item("Two", 300.0, 490.0, 30.0));
    assert!(recover(&mut table, &items, &[]));
    assert_eq!(floats(&table.rows), vec![490.0, 480.0, 500.0]);
}

#[test]
fn a_line_further_away_than_the_rows_ends_the_header() {
    let (mut table, mut items) = figures();
    items.push(item("One", 200.0, 514.0, 30.0));
    items.push(item("Two", 300.0, 514.0, 30.0));
    items.push(item("Far", 200.0, 529.5, 30.0));
    assert!(recover(&mut table, &items, &[]));
    assert_eq!(table.cells[0], vec!["", "One", "Two", ""]);
    assert_eq!(table.item_indices[12..], [12, 13]);
}

#[test]
fn a_single_line_further_away_than_the_rows_is_not_a_header() {
    let items: Vec<TextItem> = [
        ("a", 50.0, 500.0),
        ("1", 200.0, 500.0),
        ("2", 300.0, 500.0),
        ("b", 50.0, 480.0),
        ("3", 200.0, 480.0),
        ("4", 300.0, 480.0),
        ("X", 200.0, 524.0),
        ("Y", 300.0, 524.0),
    ]
    .iter()
    .map(|(text, x, y)| item(text, *x, *y, 5.0))
    .collect();
    let table = Table {
        columns: vec![single(50.0), single(200.0), single(300.0)],
        rows: vec![single(500.0), single(480.0)],
        cells: vec![
            vec!["a".to_string(), "1".to_string(), "2".to_string()],
            vec!["b".to_string(), "3".to_string(), "4".to_string()],
        ],
        item_indices: (0..6).collect(),
    };
    assert_unchanged(table, &items);
}

#[test]
fn three_dashes_stand_for_a_figure() {
    let (mut table, mut items) = figures();
    for row in table.cells.iter_mut() {
        row[1] = "---".to_string();
        row[2] = "(---)".to_string();
    }
    items.push(item("One", 200.0, 512.0, 30.0));
    items.push(item("Two", 300.0, 512.0, 30.0));
    assert!(recover(&mut table, &items, &[]));
}

#[test]
fn header_items_have_about_the_font_size_of_the_body() {
    for (size, expected) in [(7.5, true), (7.4, false), (13.5, true), (13.6, false)] {
        let (mut table, mut items) = figures();
        items.push(item("One", 200.0, 512.0, 30.0));
        items.push(item("Two", 300.0, 512.0, 30.0));
        items[12].font_size = single(size);
        assert_eq!(recover(&mut table, &items, &[]), expected);
    }
}

#[test]
fn header_items_are_upright_text_above_the_first_row() {
    for change in 0..4 {
        let (mut table, mut items) = figures();
        items.push(item("One", 200.0, 512.0, 30.0));
        items.push(item("Two", 300.0, 512.0, 30.0));
        match change {
            0 => {}
            1 => items[12].upright = false,
            2 => items[12].text = " \u{a0}".to_string(),
            _ => items[12].line_y = single(503.0),
        }
        assert_eq!(recover(&mut table, &items, &[]), change == 0);
    }
}

#[test]
fn at_most_eight_lines_are_read() {
    let (mut table, mut items) = figures();
    for l in 0..10 {
        items.push(item("a", 200.0, 512.0 + 12.0 * l as f32, 30.0));
        items.push(item("b", 300.0, 512.0 + 12.0 * l as f32, 30.0));
    }
    assert!(recover(&mut table, &items, &[]));
    assert_eq!(table.item_indices.len(), 12 + 16);
    assert_eq!(floats(&table.rows)[0], 512.0 + 12.0 * 7.0);
    assert_eq!(table.cells[0][1], "a a a a a a a a");
}

#[test]
fn small_tables_have_no_wrapped_header() {
    let (mut table, mut items) = figures();
    items.push(item("One", 200.0, 512.0, 30.0));
    items.push(item("Two", 300.0, 512.0, 30.0));
    table.rows.truncate(1);
    assert_unchanged(table, &items);
    let (mut table, _) = figures();
    table.columns.truncate(2);
    assert_unchanged(table, &items);
    let (mut table, _) = figures();
    table.item_indices.clear();
    assert_unchanged(table, &items);
}

#[test]
fn missing_items_are_told() {
    let (mut table, items) = figures();
    table.item_indices.push(12);
    let before = format!("{:?}", table);
    assert!(!try_recover_wrapped_column_headers(&mut table, &items, &HashSet::new()));
    assert_eq!(format!("{:?}", table), before);
    table.rows.truncate(1);
    assert!(try_recover_wrapped_column_headers(&mut table, &items, &HashSet::new()));
}

#[test]
fn missing_and_extra_cells_are_told() {
    let (mut table, mut items) = figures();
    items.push(item("One", 200.0, 512.0, 30.0));
    items.push(item("Two", 300.0, 512.0, 30.0));
    table.cells[0].truncate(3);
    assert!(!try_recover_wrapped_column_headers(&mut table, &items, &HashSet::new()));
    assert_eq!(table.cells[0], vec!["", "One", "Two", ""]);
    assert_eq!(table.cells[1], vec!["Cash", "1.5", "20"]);

    let (mut table, _) = figures();
    table.cells[1].push("9".to_string());
    assert!(recover(&mut table, &items, &[]));
    assert_eq!(table.cells[2].len(), 5);

    let (mut table, _) = figures();
    for row in table.cells.iter_mut() {
        row[3] = String::new();
    }
    table.cells[1].push("9".to_string());
    assert!(!try_recover_wrapped_column_headers(&mut table, &items, &HashSet::new()));
    assert_eq!(table.columns.len(), 4);
}
