use rag_ingestion_core::markdown_render::{
    estimate_body_font_size, group_into_lines, heading_depth, rank_larger_sizes, render_page_markdown,
};
use rag_ingestion_core::order::order_by_keys;
use rag_ingestion_core::types::{TextElement, POINT};

fn pt(v: f64) -> i64 {
    (v * POINT as f64).round() as i64
}

fn run(text: &str, x: f64, y: f64, size: f64) -> TextElement {
    TextElement {
        text: text.to_string(),
        x_min: pt(x),
        y_min: pt(y),
        x_max: pt(x + 20.0),
        y_max: pt(y + 8.0),
        font_size: pt(size),
        page_num: 1,
    }
}

fn render(elements: &[TextElement]) -> String {
    let refs: Vec<&TextElement> = elements.iter().collect();
    render_page_markdown(&refs, pt(10.0), &[pt(20.0), pt(14.0)])
}

#[test]
fn lines_are_grouped_from_the_top_and_read_from_the_left() {
    let elements = vec![
        run("d", 50.0, 100.0, 10.0),
        run("b", 40.0, 198.0, 10.0),
        run("a", 10.0, 200.0, 12.0),
        run("c", 10.0, 103.0, 10.0),
        run("e", 10.0, 96.0, 10.0),
    ];
    let refs: Vec<&TextElement> = elements.iter().collect();
    let lines = group_into_lines(&refs);
    let texts: Vec<Vec<&str>> =
        lines.iter().map(|l| l.elements.iter().map(|e| e.text.as_str()).collect()).collect();
    assert_eq!(texts, vec![vec!["a", "b"], vec!["c", "d"], vec!["e"]]);
    assert_eq!(lines[0].y, pt(200.0));
    assert_eq!(lines[0].font_total, (pt(12.0) + pt(10.0)) as i128);
}

#[test]
fn equal_positions_keep_their_order() {
    assert_eq!(order_by_keys(&[3, 1, 3, 2, 1]), vec![1, 4, 3, 0, 2]);
    let elements = vec![run("x", 5.0, 10.0, 10.0), run("y", 5.0, 10.0, 10.0)];
    let refs: Vec<&TextElement> = elements.iter().collect();
    let lines = group_into_lines(&refs);
    assert_eq!(lines[0].elements[0].text, "x");
}

#[test]
fn body_size_is_the_commonest() {
    let elements = vec![run("a", 0.0, 0.0, 9.9), run("b", 0.0, 0.0, 10.1), run("c", 0.0, 0.0, 24.0)];
    let refs: Vec<&TextElement> = elements.iter().collect();
    assert_eq!(estimate_body_font_size(&refs), pt(10.0));
    assert_eq!(estimate_body_font_size(&[]), pt(11.0));
    // Of equally common sizes the first, and halves of a step away from zero.
    let tied = vec![run("a", 0.0, 0.0, 10.25), run("b", 0.0, 0.0, 9.0)];
    let refs: Vec<&TextElement> = tied.iter().collect();
    assert_eq!(estimate_body_font_size(&refs), pt(10.5));
    let mut negative = run("a", 0.0, 0.0, 10.0);
    negative.font_size = pt(-10.25);
    assert_eq!(estimate_body_font_size(&[&negative]), pt(-10.5));
}

#[test]
fn larger_sizes_are_ranked_without_near_doubles() {
    let elements = vec![
        run("a", 0.0, 0.0, 14.0),
        run("b", 0.0, 0.0, 20.0),
        run("c", 0.0, 0.0, 11.5),
        run("d", 0.0, 0.0, 19.5),
        run("e", 0.0, 0.0, 19.4),
        run("f", 0.0, 0.0, 11.6),
    ];
    let refs: Vec<&TextElement> = elements.iter().collect();
    assert_eq!(rank_larger_sizes(&refs, pt(10.0)), vec![pt(20.0), pt(19.4), pt(14.0), pt(11.6)]);
    // Every size above the body size is ranked, though it be too small for a heading.
    let slight = vec![run("a", 0.0, 0.0, 11.0), run("b", 0.0, 0.0, 10.0), run("c", 0.0, 0.0, 9.0)];
    let refs: Vec<&TextElement> = slight.iter().collect();
    assert_eq!(rank_larger_sizes(&refs, pt(10.0)), vec![pt(11.0)]);
}

#[test]
fn heading_depth_is_the_rank_of_the_size() {
    let sizes = [pt(24.0), pt(20.0), pt(16.0), pt(14.0), pt(12.0)];
    let depth = |size: f64| heading_depth(pt(size) as i128, 1, pt(10.0), &sizes);
    assert_eq!(depth(11.5), None);
    assert_eq!(depth(24.3), Some(1));
    assert_eq!(depth(20.0), Some(2));
    assert_eq!(depth(16.5), Some(3));
    assert_eq!(depth(14.0), Some(4));
    assert_eq!(depth(12.0), Some(4));
    // A size that comes close to none ranks last.
    assert_eq!(depth(30.0), Some(4));
    assert_eq!(heading_depth(pt(30.0) as i128, 1, pt(10.0), &[]), Some(1));
    // The average of three runs counts.
    assert_eq!(heading_depth((pt(20.0) + pt(24.0) + pt(28.0)) as i128, 3, pt(10.0), &sizes), Some(1));
}

#[test]
fn headings_paragraphs_and_tables_are_rendered() {
    let elements = vec![
        run(" Title ", 0.0, 700.0, 20.0),
        run("first line", 0.0, 680.0, 10.0),
        run("second line", 0.0, 668.0, 10.0),
        run("next paragraph", 0.0, 640.0, 10.0),
        run("a", 0.0, 600.0, 10.0),
        run("b", 50.0, 600.0, 10.0),
        run("c", 0.0, 588.0, 10.0),
        run("d", 50.0, 588.0, 10.0),
        run("after", 0.0, 570.0, 10.0),
    ];
    assert_eq!(
        render(&elements),
        "# Title\n\nfirst line second line\nnext paragraph\n| a | b |\n| --- | --- |\n| c | d |\n\n\nafter"
    );
}

#[test]
fn single_row_of_cells_is_a_line() {
    let elements = vec![run("a", 0.0, 600.0, 10.0), run("b", 50.0, 600.0, 10.0), run("c", 0.0, 588.0, 10.0)];
    assert_eq!(render(&elements), "a b c");
}

#[test]
fn blank_page_renders_to_nothing() {
    assert_eq!(render(&[]), "");
    assert_eq!(render(&[run("  ", 0.0, 10.0, 10.0)]), "");
}

#[test]
fn columns_are_rendered_one_after_another() {
    let mut elements = Vec::new();
    for i in 0..6 {
        let y = 700.0 - 12.0 * i as f64;
        let mut left = run("left column prose here", 50.0, y, 10.0);
        left.x_max = pt(290.0);
        let mut right = run("right column prose here", 330.0, y, 10.0);
        right.x_max = pt(570.0);
        elements.push(left);
        elements.push(right);
    }
    let md = render(&elements);
    let left = vec!["left column prose here"; 6].join(" ");
    let right = vec!["right column prose here"; 6].join(" ");
    assert_eq!(md, format!("{left}\n\n{right}"));
}

#[test]
fn rendering_keeps_every_letter() {
    let elements = vec![
        run("Zeta 9", 0.0, 700.0, 20.0),
        run("|pipe|", 0.0, 600.0, 10.0),
        run("b#2", 50.0, 600.0, 10.0),
        run("c", 0.0, 588.0, 10.0),
        run("-d-", 50.0, 588.0, 10.0),
    ];
    let letters = |s: &str| {
        let mut v: Vec<char> = s.chars().filter(|c| c.is_alphanumeric()).collect();
        v.sort();
        v
    };
    let all: String = elements.iter().map(|e| e.text.as_str()).collect();
    assert_eq!(letters(&render(&elements)), letters(&all));
}
