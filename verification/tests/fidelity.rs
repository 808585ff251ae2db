use rag_ingestion_core::fidelity::{
    alnum_count, char_retention, detect_md_grid, detect_pdf_grid, detect_spatial_grid, report_from, score_page,
    table_matrix_score, text_fits,
};
use rag_ingestion_core::markdown_render::render_column_markdown;
use rag_ingestion_core::types::{IngestionQuality, LineSegment, Ratio, TextElement, POINT};

fn pt(v: f64) -> i64 {
    (v * POINT as f64).round() as i64
}

fn el(text: &str, x_min: f64, y_min: f64) -> TextElement {
    TextElement {
        text: text.to_string(),
        x_min: pt(x_min),
        y_min: pt(y_min),
        x_max: pt(x_min + 20.0),
        y_max: pt(y_min + 8.0),
        font_size: pt(10.0),
        page_num: 1,
    }
}

fn value(r: Ratio) -> f64 {
    r.num as f64 / r.den as f64
}

#[test]
fn full_retention_scores_perfectly() {
    let elements = vec![el("Hello world", 0.0, 100.0)];
    let refs: Vec<&TextElement> = elements.iter().collect();
    let score = char_retention(&refs, "Hello world");
    assert_eq!(value(score), 1.0);
}

#[test]
fn severe_character_loss_is_penalized() {
    let elements = vec![el("A fairly long sentence with real content here", 0.0, 100.0)];
    let refs: Vec<&TextElement> = elements.iter().collect();
    let score = value(char_retention(&refs, "A"));
    assert!(score < 0.3, "expected heavy penalty for major content loss, got {score}");
}

#[test]
fn clean_table_grid_matches_and_passes_gate() {
    let elements = vec![
        el("Quarter", 0.0, 100.0), el("Revenue", 30.0, 100.0), el("Cost", 60.0, 100.0),
        el("Q1", 0.0, 88.0), el("10", 30.0, 88.0), el("5", 60.0, 88.0),
        el("Q2", 0.0, 76.0), el("12", 30.0, 76.0), el("6", 60.0, 76.0),
    ];
    let refs: Vec<&TextElement> = elements.iter().collect();
    let md = "| Quarter | Revenue | Cost |\n| --- | --- | --- |\n| Q1 | 10 | 5 |\n| Q2 | 12 | 6 |\n";
    let report = score_page(1, &refs, md, &[]);
    assert!(report.table_detected_in_pdf);
    assert!(report.table_detected_in_md);
    assert_eq!(report.t_matrix, 1);
    assert_eq!(report.quality, IngestionQuality::Pass);
}

#[test]
fn detected_table_lost_in_markdown_triggers_quarantine_range() {
    let elements = vec![
        el("Quarter", 0.0, 100.0), el("Revenue", 30.0, 100.0), el("Cost", 60.0, 100.0),
        el("Q1", 0.0, 88.0), el("10", 30.0, 88.0), el("5", 60.0, 88.0),
    ];
    let refs: Vec<&TextElement> = elements.iter().collect();
    let md = "Quarter Revenue Cost Q1 10 5";
    let report = score_page(1, &refs, md, &[]);
    assert!(report.table_detected_in_pdf);
    assert!(!report.table_detected_in_md);
    assert_eq!(report.t_matrix, 0);
    assert_eq!(report.quality, IngestionQuality::Quarantined);
    assert_eq!(value(report.s_fidelity), 0.4);
}

#[test]
fn plain_paragraph_never_falsely_flagged_as_table() {
    let elements = vec![el("This is a single line of ordinary prose.", 0.0, 100.0)];
    let refs: Vec<&TextElement> = elements.iter().collect();
    assert!(detect_pdf_grid(&refs, &[]).is_none());
}

#[test]
fn ruled_grid_takes_precedence_over_spatial_heuristic_and_is_exact() {
    let elements = vec![el("A", 5.0, 55.0), el("B", 55.0, 55.0)];
    let refs: Vec<&TextElement> = elements.iter().collect();
    let lines = vec![
        LineSegment { x0: 0, y0: pt(100.0), x1: pt(100.0), y1: pt(100.0) },
        LineSegment { x0: 0, y0: pt(50.0), x1: pt(100.0), y1: pt(50.0) },
        LineSegment { x0: 0, y0: 0, x1: 0, y1: pt(100.0) },
        LineSegment { x0: pt(100.0), y0: 0, x1: pt(100.0), y1: pt(100.0) },
    ];
    let grid = detect_pdf_grid(&refs, &lines);
    assert_eq!(grid, Some((1, 1)), "ruled-line detector should fire even though the spatial heuristic alone would not");
}

#[test]
fn letters_and_numbers_are_counted() {
    assert_eq!(alnum_count("a-Z 09_é\n|"), 5);
    assert_eq!(alnum_count(""), 0);
}

#[test]
fn retention_counts_loss_and_surplus_alike() {
    let elements = vec![el("abcd", 0.0, 0.0)];
    let refs: Vec<&TextElement> = elements.iter().collect();
    assert_eq!(char_retention(&refs, "abc"), Ratio { num: 3, den: 4 });
    assert_eq!(char_retention(&refs, "abcde"), Ratio { num: 3, den: 4 });
    assert_eq!(char_retention(&refs, "abcdabcdab"), Ratio { num: 0, den: 4 });
    assert_eq!(char_retention(&[], "anything"), Ratio { num: 1, den: 1 });
    assert!(text_fits(&refs));
}

#[test]
fn rows_of_aligned_runs_make_a_grid() {
    let elements = vec![
        el("a", 0.0, 100.0), el("b", 30.0, 101.0), el("c", 60.0, 99.0),
        el("d", 0.0, 80.0), el("e", 30.0, 80.0),
        el("lone", 0.0, 40.0),
    ];
    let refs: Vec<&TextElement> = elements.iter().collect();
    assert_eq!(detect_spatial_grid(&refs), Some((2, 2)));
    assert_eq!(detect_spatial_grid(&refs[..3]), None);
    // Four runs in one row are one row.
    let row: Vec<TextElement> = (0..4).map(|i| el("x", 30.0 * i as f64, 10.0)).collect();
    let row_refs: Vec<&TextElement> = row.iter().collect();
    assert_eq!(detect_spatial_grid(&row_refs), None);
}

#[test]
fn many_runs_are_found_row_by_row() {
    // More runs than a node of the index holds.
    let mut elements = Vec::new();
    for r in 0..20 {
        for c in 0..5 {
            elements.push(el("cell", 30.0 * c as f64, 700.0 - 20.0 * r as f64));
        }
    }
    let refs: Vec<&TextElement> = elements.iter().collect();
    assert_eq!(detect_spatial_grid(&refs), Some((20, 5)));
}

#[test]
fn row_band_reaches_into_boxes_from_above_and_below() {
    // The box of a run reaches 8 points up from its foot, and the band of a row 3 points down
    // from it: a line 11 points lower touches, one further down does not.
    let touching = vec![el("a", 0.0, 100.0), el("b", 30.0, 100.0), el("c", 0.0, 89.0), el("d", 30.0, 89.0)];
    let refs: Vec<&TextElement> = touching.iter().collect();
    assert_eq!(detect_spatial_grid(&refs), None);
    let apart = vec![el("a", 0.0, 100.0), el("b", 30.0, 100.0), el("c", 0.0, 88.9), el("d", 30.0, 88.9)];
    let refs: Vec<&TextElement> = apart.iter().collect();
    assert_eq!(detect_spatial_grid(&refs), Some((2, 2)));
}

#[test]
fn markdown_tables_are_measured() {
    assert_eq!(detect_md_grid("| a | b |\n| --- | :-: |\n| c | d |\n"), Some((2, 2)));
    assert_eq!(detect_md_grid("  | a | b | c\ntext\n|d\n"), Some((2, 3)));
    assert_eq!(detect_md_grid("| a | b |\n"), None);
    assert_eq!(detect_md_grid("| a |\n| b |\n"), None);
    assert_eq!(detect_md_grid("| | a |\n| b | c |\n"), None);
    assert_eq!(detect_md_grid(""), None);
}

#[test]
fn tables_are_compared() {
    assert_eq!(table_matrix_score(None, None), (1, false, false));
    assert_eq!(table_matrix_score(None, Some((2, 2))), (1, false, true));
    assert_eq!(table_matrix_score(Some((2, 2)), Some((2, 2))), (1, true, true));
    assert_eq!(table_matrix_score(Some((2, 2)), Some((2, 3))), (0, true, true));
    assert_eq!(table_matrix_score(Some((2, 2)), None), (0, true, false));
}

#[test]
fn verdicts_change_at_their_thresholds() {
    let quality = |num: i128, den: i128| report_from(1, Ratio { num, den }, None, None).quality;
    assert_eq!(quality(3, 4), IngestionQuality::Pass);
    assert_eq!(quality(74, 100), IngestionQuality::Warning);
    assert_eq!(quality(1, 4), IngestionQuality::Warning);
    assert_eq!(quality(24, 100), IngestionQuality::Quarantined);
    let lost = report_from(1, Ratio { num: 1, den: 1 }, Some((2, 2)), None);
    assert_eq!(lost.quality, IngestionQuality::Quarantined);
    assert_eq!(lost.s_fidelity, Ratio { num: 40, den: 100 });
}

#[test]
fn table_comes_out_of_its_own_markdown() {
    // Three rows of two cells, given in no order.
    let elements = vec![
        el("7", 60.0, 80.0),
        el("Name", 0.0, 120.0),
        el(" beta ", 0.0, 80.0),
        el("alpha", 0.0, 100.0),
        el("Value", 60.0, 120.0),
        el("1:2-3", 60.0, 100.0),
    ];
    let refs: Vec<&TextElement> = elements.iter().collect();
    let markdown: String = render_column_markdown(&refs, pt(10.0), &[]).into_iter().collect();
    assert_eq!(markdown, "| Name | Value |\n| --- | --- |\n| alpha | 1:2-3 |\n| beta | 7 |");
    assert_eq!(detect_md_grid(&markdown), Some((3, 2)));
}

#[test]
fn surplus_counts_as_loss() {
    let elements = vec![el("abcd", 0.0, 100.0)];
    let refs: Vec<&TextElement> = elements.iter().collect();
    assert_eq!(value(char_retention(&refs, "abc")), 0.75);
    assert_eq!(value(char_retention(&refs, "abcde")), 0.75);
    assert_eq!(value(char_retention(&refs, "")), 0.0);
    assert_eq!(value(char_retention(&refs, "abcdefgh")), 0.0);
    assert_eq!(value(char_retention(&[], "abc")), 1.0);
}
