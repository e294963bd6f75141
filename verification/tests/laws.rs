use table_grid::columns::{find_column_boundaries, merge_numeric_adjacent_clusters};
use table_grid::header::recover_header_row;
use table_grid::lookup::{find_column_index, find_row_index};
use table_grid::rows::find_row_boundaries;
use table_grid::single::Single;
use table_grid::text::{is_numeric_text, trim};
use table_grid::types::{Table, TableDetectionMode, TextItem};

fn single(x: f32) -> Single {
    Single::from_bits(x.to_bits())
}

fn floats(xs: &[Single]) -> Vec<f32> {
    xs.iter().map(|x| f32::from_bits(x.to_bits())).collect()
}

fn item(text: &str, x: f32, y: f32, font_size: f32) -> TextItem {
    TextItem {
        text: text.to_string(),
        x: single(x),
        y: single(y),
        width: single(20.0),
        font_size: single(font_size),
        is_strikeout: false,
        upright: true,
        line_y: single(y),
    }
}

#[test]
fn rows_come_from_the_top_down() {
    let items: Vec<TextItem> = (0..200)
        .map(|i| item("x", 10.0, ((i * 37) % 101) as f32 * 8.1 + (i % 3) as f32 * 0.4, 10.0))
        .collect();
    let numbered: Vec<(usize, &TextItem)> = items.iter().enumerate().collect();
    let rows = floats(&find_row_boundaries(&numbered));
    assert!(rows.len() > 50);
    // The pitch is 8, and the baselines are from 0 to 810.8.
    assert!(rows.windows(2).all(|w| w[0] - w[1] >= 8.0 - 0.01));
    assert!(rows.iter().all(|y| (-0.01..=810.81).contains(y)));
}

#[test]
fn the_order_of_items_does_not_matter() {
    let mut items: Vec<TextItem> = (0..60)
        .map(|i| item("1", (i % 4) as f32 * 80.0 + (i % 3) as f32, (i / 4) as f32 * 14.0, 10.0))
        .collect();
    items.push(item("Head", 50.0, 300.0, 10.0));
    let forwards: Vec<(usize, &TextItem)> = items.iter().enumerate().collect();
    let backwards: Vec<(usize, &TextItem)> = items.iter().enumerate().rev().collect();
    assert_eq!(find_row_boundaries(&forwards), find_row_boundaries(&backwards));
    for mode in [TableDetectionMode::SmallFont, TableDetectionMode::BodyFont] {
        let columns = find_column_boundaries(&forwards, mode);
        assert!(!columns.is_empty());
        assert_eq!(columns, find_column_boundaries(&backwards, mode));
    }
}

#[test]
fn other_items_at_the_same_places_give_the_same_boundaries() {
    let items: Vec<TextItem> = (0..40)
        .map(|i| item("1", (i % 4) as f32 * 80.0, (i / 4) as f32 * 14.0, 10.0))
        .collect();
    let others: Vec<TextItem> = (0..40)
        .map(|i| item("23.5%", (i % 4) as f32 * 80.0, (i / 4) as f32 * 14.0, 10.0))
        .collect();
    let a: Vec<(usize, &TextItem)> = items.iter().enumerate().collect();
    let b: Vec<(usize, &TextItem)> = others.iter().map(|it| (7, it)).collect();
    assert_eq!(find_row_boundaries(&a), find_row_boundaries(&b));
    let mode = TableDetectionMode::SmallFont;
    assert_eq!(find_column_boundaries(&a, mode), find_column_boundaries(&b, mode));
}

#[test]
fn header_candidates_are_not_5_below_the_header_row() {
    // The bands are at 520 and 514; 516 is in the upper one, and 510 in the lower.
    let texts = [("A", 520.0), ("B", 516.0), ("C", 514.0), ("D", 510.0), ("E", 509.5)];
    let mut items = vec![item("a", 100.0, 500.0, 8.0), item("b", 200.0, 500.0, 8.0)];
    for (k, (text, y)) in texts.iter().enumerate() {
        items.push(item(text, 100.0 + 100.0 * (k % 2) as f32, *y, 10.0));
    }
    let mut table = Table {
        columns: vec![single(100.0), single(200.0)],
        rows: vec![single(500.0)],
        cells: vec![vec!["a".to_string(), "b".to_string()]],
        item_indices: vec![0, 1],
    };
    recover_header_row(&mut table, &items, single(9.0));
    let y = floats(&table.rows)[0];
    assert_eq!(y, 514.0);
    assert!(texts.iter().all(|t| y - t.1 < 5.0));
    assert_eq!(table.cells[0], vec!["C E", "D"]);
}

#[test]
fn columns_come_from_left_to_right() {
    let items: Vec<TextItem> = (0..200)
        .map(|i| item("x", ((i * 7) % 5) as f32 * 90.0 + (i % 4) as f32 * 1.5, 500.0, 10.0))
        .collect();
    let numbered: Vec<(usize, &TextItem)> = items.iter().enumerate().collect();
    let columns = floats(&find_column_boundaries(&numbered, TableDetectionMode::BodyFont));
    assert_eq!(columns.len(), 5);
    assert!(columns.windows(2).all(|w| w[1] - w[0] > 8.0));
}

#[test]
fn merging_again_changes_nothing() {
    let mut items: Vec<TextItem> = Vec::new();
    let mut groups: Vec<Vec<Single>> = vec![Vec::new(); 4];
    for r in 0..8 {
        items.push(item("name", 50.0, 500.0 - 12.0 * r as f32, 10.0));
        items.push(item("12.5", 200.0, 500.0 - 12.0 * r as f32, 10.0));
        groups[0].push(single(50.0));
        groups[2].push(single(200.0));
    }
    for (g, x) in [(1, 170.0), (3, 231.0)] {
        items.push(item("Head", x, 520.0, 10.0));
        groups[g].push(single(x));
    }
    let numbered: Vec<(usize, &TextItem)> = items.iter().enumerate().collect();
    let once = merge_numeric_adjacent_clusters(groups.clone(), &numbered, single(25.0));
    assert_eq!(once.len(), 2);
    assert_eq!(once.concat(), groups.concat());
    assert!(once.iter().all(|g| !g.is_empty()));
    let twice = merge_numeric_adjacent_clusters(once.clone(), &numbered, single(25.0));
    assert_eq!(twice, once);
}

#[test]
fn a_sparse_group_has_at_most_a_third_of_the_items() {
    for (figures, merged) in [(4, false), (5, false), (6, true)] {
        let mut items = vec![item("Year", 100.0, 500.0, 10.0), item("Total", 100.0, 490.0, 10.0)];
        for i in 0..figures {
            items.push(item("1", 130.0, 480.0 - 10.0 * i as f32, 10.0));
        }
        let numbered: Vec<(usize, &TextItem)> = items.iter().enumerate().collect();
        let groups = vec![vec![single(100.0); 2], vec![single(130.0); figures]];
        let after = merge_numeric_adjacent_clusters(groups.clone(), &numbered, single(25.0));
        if merged {
            assert_eq!(after, vec![groups.concat()]);
        } else {
            assert_eq!(after, groups);
        }
    }
}

#[test]
fn a_sparse_group_has_at_most_five_items() {
    for (words, merged) in [(5, true), (6, false)] {
        let mut items: Vec<TextItem> = Vec::new();
        for i in 0..words {
            items.push(item("word", 100.0, 500.0 - 10.0 * i as f32, 10.0));
        }
        for i in 0..20 {
            items.push(item("1", 130.0, 500.0 - 10.0 * i as f32, 10.0));
        }
        let numbered: Vec<(usize, &TextItem)> = items.iter().enumerate().collect();
        let groups = vec![vec![single(100.0); words], vec![single(130.0); 20]];
        let after = merge_numeric_adjacent_clusters(groups, &numbered, single(25.0));
        assert_eq!(after.len(), if merged { 1 } else { 2 });
    }
}

#[test]
fn body_font_has_the_columns_of_the_small_font_or_none() {
    // Of ten items six are 60%, and seven are more.
    for (left, expected) in [(6, vec![100.0, 300.0]), (7, vec![])] {
        let items: Vec<TextItem> = (0..10)
            .map(|i| {
                let x = if i < left { 100.0 } else { 300.0 };
                item("x", x, 500.0 - 20.0 * i as f32, 10.0)
            })
            .collect();
        let numbered: Vec<(usize, &TextItem)> = items.iter().enumerate().collect();
        let small = find_column_boundaries(&numbered, TableDetectionMode::SmallFont);
        let body = find_column_boundaries(&numbered, TableDetectionMode::BodyFont);
        assert_eq!(floats(&small), vec![100.0, 300.0]);
        assert_eq!(floats(&body), expected);
    }
}

#[test]
fn every_row_position_is_found() {
    let rows: Vec<Single> = [500.0, 499.0, 20.0, -3.5].iter().map(|y| single(*y)).collect();
    for (r, y) in rows.iter().enumerate() {
        assert_eq!(find_row_index(&rows, *y), Some(r));
    }
}

#[test]
fn every_column_position_is_found() {
    let columns: Vec<Single> = [10.0, 10.5, 35.0, 120.0].iter().map(|x| single(*x)).collect();
    for (c, x) in columns.iter().enumerate() {
        assert_eq!(find_column_index(&columns, *x), Some(c));
    }
}

#[test]
fn a_header_row_goes_before_an_unchanged_body() {
    let items = vec![
        item("a", 100.0, 500.0, 8.0),
        item("b", 200.0, 500.0, 8.0),
        item("Name", 101.0, 512.0, 10.0),
        item("Value", 201.0, 513.0, 10.0),
        item("stray", 900.0, 512.0, 10.0),
        item("higher", 100.0, 525.0, 10.0),
    ];
    let mut table = Table {
        columns: vec![single(100.0), single(200.0)],
        rows: vec![single(500.0)],
        cells: vec![vec!["a".to_string(), "b".to_string()]],
        item_indices: vec![0, 1],
    };
    recover_header_row(&mut table, &items, single(9.0));
    assert_eq!(floats(&table.rows), vec![513.0, 500.0]);
    assert_eq!(table.cells, vec![vec!["Name", "Value"], vec!["a", "b"]]);
    assert_eq!(table.item_indices, vec![0, 1, 3, 2]);
    assert_eq!(floats(&table.columns), vec![100.0, 200.0]);
}

#[test]
fn trimming_again_changes_nothing() {
    let t = trim("\t 3,400 \u{3000}");
    assert_eq!(t, "3,400");
    assert_eq!(trim(t), t);
    assert!(is_numeric_text("\t 3,400 \u{3000}") && is_numeric_text(t));
}
