use rag_ingestion_core::column_layout::partition_into_columns;
use rag_ingestion_core::types::{TextElement, POINT};

fn pt(v: f64) -> i64 {
    (v * POINT as f64).round() as i64
}

fn el(text: &str, x_min: f64, y_min: f64, width: f64) -> TextElement {
    TextElement {
        text: text.to_string(),
        x_min: pt(x_min),
        y_min: pt(y_min),
        x_max: pt(x_min + width),
        y_max: pt(y_min + 8.0),
        font_size: pt(10.0),
        page_num: 1,
    }
}

/// Many lines, each across roughly the same wide x-range, with the gap between words at another
/// place in each line.
fn single_column_page(n_lines: usize) -> Vec<TextElement> {
    let mut out = Vec::new();
    for i in 0..n_lines {
        let y = 700.0 - (i as f64) * 12.0;
        let gap_x = 50.0 + ((i * 37) % 400) as f64;
        out.push(el("word", 50.0, y, gap_x - 50.0));
        out.push(el("word", gap_x + 4.0, y, 450.0 - (gap_x - 50.0)));
    }
    out
}

/// Two columns of prose with a gutter of 40 points between them.
fn two_column_page(n_lines_each: usize) -> Vec<TextElement> {
    let mut out = Vec::new();
    for i in 0..n_lines_each {
        let y = 700.0 - (i as f64) * 12.0;
        out.push(el("this is left column prose text", 50.0, y, 240.0));
        out.push(el("this is right column prose text", 330.0, y, 240.0));
    }
    out
}

#[test]
fn single_column_page_is_not_split() {
    let elements = single_column_page(20);
    let refs: Vec<&TextElement> = elements.iter().collect();
    let columns = partition_into_columns(&refs);
    assert_eq!(columns.len(), 1, "a genuine single-column page must not be split");
}

#[test]
fn two_column_page_is_correctly_split() {
    let elements = two_column_page(10);
    let refs: Vec<&TextElement> = elements.iter().collect();
    let columns = partition_into_columns(&refs);
    assert_eq!(columns.len(), 2, "a genuine 2-column page should be detected as such");
    assert!(columns[0].iter().all(|e| e.text.contains("left")));
    assert!(columns[1].iter().all(|e| e.text.contains("right")));
}

#[test]
fn narrow_stray_caption_does_not_trigger_false_split() {
    let mut elements = single_column_page(20);
    elements.push(el("(fig 1)", 560.0, 400.0, 30.0));
    let refs: Vec<&TextElement> = elements.iter().collect();
    let columns = partition_into_columns(&refs);
    assert_eq!(columns.len(), 1, "a single stray element must not be misread as a second column");
}

#[test]
fn borderless_table_is_not_misread_as_reading_columns() {
    let mut elements = Vec::new();
    let col_x = [54.0, 162.0, 270.0, 378.0];
    let rows = [
        ["Quarter", "Product X", "Product Y", "Total"],
        ["Q1 2026", "12.4", "3.1", "15.5"],
        ["Q2 2026", "14.0", "3.4", "17.4"],
        ["Q3 2026", "15.2", "3.9", "19.1"],
        ["Q4 2026", "16.8", "4.2", "21.0"],
    ];
    for (r, row) in rows.iter().enumerate() {
        let y = 700.0 - (r as f64) * 16.0;
        for (cell, &x) in row.iter().zip(col_x.iter()) {
            elements.push(el(cell, x, y, 40.0));
        }
    }
    let refs: Vec<&TextElement> = elements.iter().collect();
    let columns = partition_into_columns(&refs);
    assert_eq!(columns.len(), 1, "a borderless data table must never be split into per-column reading order");
}

#[test]
fn longer_borderless_table_is_not_split_either() {
    // Lines enough for two columns, gutters between them, but no prose in any.
    let mut elements = Vec::new();
    for r in 0..8 {
        let y = 700.0 - (r as f64) * 16.0;
        for x in [54.0, 162.0, 270.0, 378.0] {
            elements.push(el("12.4", x, y, 40.0));
        }
    }
    let refs: Vec<&TextElement> = elements.iter().collect();
    let columns = partition_into_columns(&refs);
    assert_eq!(columns.len(), 1);
    assert_eq!(columns[0].len(), 32);
}

#[test]
fn too_few_lines_skips_detection_entirely() {
    let elements = two_column_page(1);
    let refs: Vec<&TextElement> = elements.iter().collect();
    let columns = partition_into_columns(&refs);
    assert_eq!(columns.len(), 1, "too few lines to reliably detect columns should fall back to 1");
}

#[test]
fn reproduces_real_world_page27_coordinates() {
    let raw: Vec<(f64, f64, f64, &str)> = vec![
        (54.0, 193.5, 709.5, "Risk Factors Overview"),
        (54.0, 252.0, 688.8, "Market risk arises from curren"),
        (54.0, 267.8, 675.8, "fluctuations across the region"),
        (54.0, 257.8, 662.8, "operates its manufacturing and"),
        (54.0, 277.3, 649.8, "Management monitors exposure u"),
        (54.0, 247.8, 636.8, "placed on a quarterly basis to"),
        (54.0, 219.8, 623.8, "earnings volatility from perio"),
        (54.0, 263.1, 610.8, "These hedges are reviewed by t"),
        (334.8, 539.1, 688.8, "Operational risk includes disr"),
        (334.8, 557.6, 675.8, "chain from single-source compo"),
        (334.8, 541.3, 662.8, "in regions subject to periodic"),
        (334.8, 561.8, 649.8, "The company maintains dual-sou"),
        (334.8, 545.5, 636.8, "its highest-volume components "),
        (334.8, 534.9, 623.8, "Contingency logistics plans ar"),
        (334.8, 526.5, 610.8, "year with each regional operat"),
    ];
    let elements: Vec<TextElement> = raw
        .iter()
        .map(|&(x_min, x_max, y_min, text)| TextElement {
            text: text.to_string(),
            x_min: pt(x_min),
            y_min: pt(y_min),
            x_max: pt(x_max),
            y_max: pt(y_min + 9.0),
            font_size: pt(9.5),
            page_num: 27,
        })
        .collect();
    let refs: Vec<&TextElement> = elements.iter().collect();
    let columns = partition_into_columns(&refs);
    assert_eq!(columns.len(), 2, "real-world page-27 coordinates with a ~57pt gutter must be split into 2 columns");
    assert_eq!(columns[0].len(), 8);
    assert_eq!(columns[1].len(), 7);
}

#[test]
fn empty_page_has_no_columns() {
    assert!(partition_into_columns(&[]).is_empty());
}

#[test]
fn column_order_is_kept_within_a_column() {
    let elements = two_column_page(10);
    let refs: Vec<&TextElement> = elements.iter().collect();
    let columns = partition_into_columns(&refs);
    let heights: Vec<i64> = columns[1].iter().map(|e| e.y_min).collect();
    let mut expected = heights.clone();
    expected.sort();
    expected.reverse();
    assert_eq!(heights, expected);
}

#[test]
fn narrow_gutter_is_no_gutter() {
    // A gap of 18 points, which no six buckets of 3 points make 20 of.
    let mut elements = Vec::new();
    for i in 0..10 {
        let y = 700.0 - (i as f64) * 12.0;
        elements.push(el("this is left column prose text", 50.0, y, 240.0));
        elements.push(el("this is right column prose text", 308.0, y, 240.0));
    }
    let refs: Vec<&TextElement> = elements.iter().collect();
    assert_eq!(partition_into_columns(&refs).len(), 1);
}
