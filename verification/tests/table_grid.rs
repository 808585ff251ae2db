use rag_ingestion_core::table_grid::{cluster_rules, detect_ruled_grid, keep_mutual_rules, Rule};
use rag_ingestion_core::types::{LineSegment, POINT};

fn pt(v: f64) -> i64 {
    (v * POINT as f64).round() as i64
}

fn hline(x0: f64, x1: f64, y: f64) -> LineSegment {
    LineSegment { x0: pt(x0), y0: pt(y), x1: pt(x1), y1: pt(y) }
}

fn vline(x: f64, y0: f64, y1: f64) -> LineSegment {
    LineSegment { x0: pt(x), y0: pt(y0), x1: pt(x), y1: pt(y1) }
}

#[test]
fn detects_clean_3x3_ruled_grid() {
    let mut lines = Vec::new();
    for y in [100.0, 80.0, 60.0, 40.0] {
        lines.push(hline(0.0, 150.0, y));
    }
    for x in [0.0, 50.0, 100.0, 150.0] {
        lines.push(vline(x, 40.0, 100.0));
    }
    assert_eq!(detect_ruled_grid(&lines), Some((3, 3)));
}

#[test]
fn single_stray_divider_line_is_not_a_grid() {
    let lines = vec![hline(0.0, 500.0, 700.0)];
    assert_eq!(detect_ruled_grid(&lines), None);
}

#[test]
fn unrelated_lines_elsewhere_on_page_dont_form_a_false_grid() {
    let lines = vec![
        hline(0.0, 100.0, 700.0),
        hline(0.0, 100.0, 100.0),
        vline(300.0, 300.0, 320.0),
        vline(400.0, 300.0, 320.0),
    ];
    assert_eq!(detect_ruled_grid(&lines), None);
}

#[test]
fn tiny_decorative_marks_are_ignored() {
    let lines = vec![hline(0.0, 3.0, 100.0), vline(0.0, 97.0, 100.0)];
    assert_eq!(detect_ruled_grid(&lines), None);
}

#[test]
fn dynamic_page_number_style_near_duplicate_rules_merge() {
    let mut lines = vec![hline(0.0, 150.0, 100.0), hline(0.0, 150.0, 99.3), hline(0.0, 150.0, 60.0)];
    lines.push(vline(0.0, 60.0, 100.0));
    lines.push(vline(150.0, 60.0, 100.0));
    assert_eq!(detect_ruled_grid(&lines), Some((1, 1)));
}

#[test]
fn close_rules_merge_midway_and_span_both() {
    let rules = vec![
        Rule { pos: pt(10.0), span_min: pt(5.0), span_max: pt(50.0) },
        Rule { pos: pt(8.0), span_min: pt(0.0), span_max: pt(40.0) },
        Rule { pos: pt(20.0), span_min: pt(0.0), span_max: pt(1.0) },
    ];
    assert_eq!(
        cluster_rules(&rules),
        vec![
            Rule { pos: pt(9.0), span_min: pt(0.0), span_max: pt(50.0) },
            Rule { pos: pt(20.0), span_min: pt(0.0), span_max: pt(1.0) },
        ]
    );
}

#[test]
fn leaning_lines_are_no_rules() {
    // The same grid with one line leaning by more than a point is missing that rule.
    let mut lines = vec![
        hline(0.0, 100.0, 0.0),
        hline(0.0, 100.0, 50.0),
        LineSegment { x0: pt(0.0), y0: pt(100.0), x1: pt(100.0), y1: pt(101.5) },
    ];
    for x in [0.0, 100.0] {
        lines.push(vline(x, 0.0, 100.0));
    }
    assert_eq!(detect_ruled_grid(&lines), Some((1, 1)));
    lines[2].y1 = pt(101.0);
    assert_eq!(detect_ruled_grid(&lines), Some((2, 1)));
}

#[test]
fn short_lines_need_eight_points() {
    let grid = |length: f64| {
        vec![
            hline(0.0, length, 0.0),
            hline(0.0, length, 6.0),
            vline(0.0, -1.0, 7.0),
            vline(length, -1.0, 7.0),
        ]
    };
    assert_eq!(detect_ruled_grid(&grid(8.0)), Some((1, 1)));
    assert_eq!(detect_ruled_grid(&grid(7.9)), None);
}

#[test]
fn stray_lines_change_nothing() {
    let mut lines = vec![hline(0.0, 100.0, 0.0), hline(0.0, 100.0, 50.0), vline(0.0, 0.0, 50.0), vline(100.0, 0.0, 50.0)];
    assert_eq!(detect_ruled_grid(&lines), Some((1, 1)));
    lines.insert(1, LineSegment { x0: 0, y0: 0, x1: pt(40.0), y1: pt(40.0) });
    lines.push(hline(3.0, 5.0, 25.0));
    assert_eq!(detect_ruled_grid(&lines), Some((1, 1)));
}

#[test]
fn far_apart_corners_do_not_overflow() {
    let far = LineSegment { x0: i64::MIN, y0: i64::MAX, x1: i64::MAX, y1: i64::MAX };
    assert_eq!(detect_ruled_grid(&[far]), None);
}

#[test]
fn rules_that_do_not_cross_each_other_are_left_out() {
    let mut lines =
        vec![hline(0.0, 100.0, 0.0), hline(0.0, 100.0, 100.0), vline(0.0, 0.0, 100.0), vline(100.0, 0.0, 100.0)];
    lines.push(hline(190.0, 310.0, 300.0));
    lines.push(vline(200.0, 290.0, 310.0));
    lines.push(vline(300.0, 290.0, 310.0));
    assert_eq!(detect_ruled_grid(&lines), Some((1, 1)));
    let rule = |pos: f64, from: f64, to: f64| Rule { pos: pt(pos), span_min: pt(from), span_max: pt(to) };
    let (hs, vs) = keep_mutual_rules(
        vec![rule(0.0, 0.0, 100.0), rule(100.0, 0.0, 100.0), rule(300.0, 190.0, 310.0)],
        vec![
            rule(0.0, 0.0, 100.0),
            rule(100.0, 0.0, 100.0),
            rule(200.0, 290.0, 310.0),
            rule(300.0, 290.0, 310.0),
        ],
    );
    assert_eq!(hs.iter().map(|r| r.pos).collect::<Vec<_>>(), vec![0, pt(100.0)]);
    assert_eq!(vs.iter().map(|r| r.pos).collect::<Vec<_>>(), vec![0, pt(100.0)]);
}
