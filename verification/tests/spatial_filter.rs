use rag_ingestion_core::spatial_filter::{
    normalized_levenshtein, pass1_profile_candidates, pass2_build_redact_clusters, should_redact, zone_label,
    NLD_SIMILARITY_THRESHOLD,
};
use rag_ingestion_core::types::{HeaderFooterCandidate, PageContent, Ratio, TextElement, POINT};

fn pt(v: f64) -> i64 {
    (v * POINT as f64).round() as i64
}

fn el(text: &str, y_min: f64, page_num: usize) -> TextElement {
    TextElement {
        text: text.to_string(),
        x_min: 0,
        y_min: pt(y_min),
        x_max: pt(10.0),
        y_max: pt(y_min + 8.0),
        font_size: pt(10.0),
        page_num,
    }
}

fn page(page_num: usize, elements: Vec<TextElement>) -> PageContent {
    PageContent { page_num, page_height: pt(800.0), page_width: pt(612.0), elements, vector_lines: vec![] }
}

#[test]
fn nld_catches_dynamic_page_numbers() {
    let sim = normalized_levenshtein("Page 1 of 500", "Page 2 of 500");
    assert!(sim.at_least_percent(NLD_SIMILARITY_THRESHOLD), "expected high similarity, got {sim:?}");
}

#[test]
fn unrelated_footer_strings_are_not_merged() {
    let sim = normalized_levenshtein("Page 1 of 500", "Confidential Draft");
    assert!(!sim.at_least_percent(NLD_SIMILARITY_THRESHOLD), "expected low similarity, got {sim:?}");
}

#[test]
fn recurring_footer_crosses_redact_threshold() {
    let total_pages = 10;
    let mut pages = Vec::new();
    for p in 1..=total_pages {
        pages.push(page(p, vec![el(&format!("Page {p} of {total_pages}"), 770.0, p)]));
    }
    let candidates = pass1_profile_candidates(&pages);
    assert_eq!(candidates.len(), total_pages);
    let clusters = pass2_build_redact_clusters(&candidates, total_pages);
    assert_eq!(clusters.len(), 1, "dynamic page numbers should merge into a single cluster");
    assert!(clusters[0].redact, "appearing on 100% of pages must exceed the 30% threshold");
    assert_eq!(clusters[0].pages_seen, 10);
    assert_eq!(clusters[0].frequency, Ratio { num: 10, den: 10 });
}

#[test]
fn rare_one_off_header_is_not_redacted() {
    let total_pages = 20;
    let mut pages = Vec::new();
    for p in 1..=total_pages {
        let elements = if p == 1 { vec![el("Draft reviewed by Legal on 2026-01-04", 770.0, p)] } else { vec![] };
        pages.push(page(p, elements));
    }
    let candidates = pass1_profile_candidates(&pages);
    let clusters = pass2_build_redact_clusters(&candidates, total_pages);
    assert!(!clusters.is_empty());
    assert!(!clusters[0].redact, "a single-page occurrence (5%) must stay below the 30% threshold");
}

#[test]
fn body_text_in_middle_of_page_is_never_a_candidate() {
    let pages = vec![page(1, vec![el("System Requirements", 400.0, 1)])];
    let candidates = pass1_profile_candidates(&pages);
    assert!(candidates.is_empty());
}

#[test]
fn similarity_is_one_less_the_edits_over_the_longer_length() {
    assert_eq!(normalized_levenshtein("kitten", "sitting"), Ratio { num: 4, den: 7 });
    assert_eq!(normalized_levenshtein("sitting", "kitten"), Ratio { num: 4, den: 7 });
    assert_eq!(normalized_levenshtein("", ""), Ratio { num: 1, den: 1 });
    assert_eq!(normalized_levenshtein("", "abc"), Ratio { num: 0, den: 3 });
    assert_eq!(normalized_levenshtein("äöü", "äöü"), Ratio { num: 3, den: 3 });
}

#[test]
fn zone_labels_have_two_decimals() {
    let label = |num: i128, den: i128| zone_label(&Ratio { num, den });
    assert_eq!(label(3, 80), "0.04");
    assert_eq!(label(1, 1), "1.00");
    assert_eq!(label(19, 20), "0.95");
    assert_eq!(label(1, 200), "0.00");
    assert_eq!(label(3, 200), "0.02");
    assert_eq!(label(-1, 1000), "-0.00");
    assert_eq!(label(-1234, 100), "-12.34");
    assert_eq!(label(0, 7), "0.00");
}

#[test]
fn candidates_keep_page_height_and_trimmed_text() {
    let pages = vec![page(4, vec![el("  Annual Report ", 770.0, 4), el("body", 400.0, 4), el("foot", 10.0, 4)])];
    let candidates = pass1_profile_candidates(&pages);
    let got: Vec<(usize, &str, &str)> =
        candidates.iter().map(|c| (c.page_num, c.y_zone.as_str(), c.text.as_str())).collect();
    assert_eq!(got, vec![(4, "0.04", "Annual Report"), (4, "0.99", "foot")]);
}

#[test]
fn zone_edges_are_outside_the_zones() {
    // 0.07 and 0.93 of the page from its top.
    let pages = vec![page(1, vec![el("a", 744.0, 1), el("b", 56.0, 1), el("c", 744.001, 1), el("d", 55.999, 1)])];
    let texts: Vec<String> = pass1_profile_candidates(&pages).into_iter().map(|c| c.text).collect();
    assert_eq!(texts, vec!["c".to_string(), "d".to_string()]);
}

#[test]
fn page_without_height_is_all_header() {
    let mut p = page(1, vec![el("a", 400.0, 1)]);
    p.page_height = 0;
    let candidates = pass1_profile_candidates(&[p]);
    assert_eq!(candidates.len(), 1);
    assert_eq!(candidates[0].y_zone, "0.00");
}

fn candidate(page_num: usize, y_zone: &str, text: &str) -> HeaderFooterCandidate {
    HeaderFooterCandidate { page_num, y_zone: y_zone.to_string(), text: text.to_string() }
}

#[test]
fn clusters_stand_zone_by_zone_and_count_pages_once() {
    let candidates = vec![
        candidate(1, "0.04", "Annual Report"),
        candidate(1, "0.96", "Page 1"),
        candidate(1, "0.04", "Annual Report"),
        candidate(2, "0.04", "Confidential"),
        candidate(2, "0.96", "Page 2"),
        candidate(3, "0.04", "Annual Report"),
    ];
    let clusters = pass2_build_redact_clusters(&candidates, 10);
    let got: Vec<(&str, &str, usize, bool)> = clusters
        .iter()
        .map(|c| (c.y_zone.as_str(), c.representative_text.as_str(), c.pages_seen, c.redact))
        .collect();
    assert_eq!(
        got,
        vec![
            ("0.04", "Annual Report", 2, false),
            ("0.04", "Confidential", 1, false),
            ("0.96", "Page 1", 2, false),
        ]
    );
}

#[test]
fn three_pages_in_ten_are_enough() {
    let candidates: Vec<HeaderFooterCandidate> = (1..=3).map(|p| candidate(p, "0.04", "Annual Report")).collect();
    assert!(pass2_build_redact_clusters(&candidates, 10)[0].redact);
    assert!(!pass2_build_redact_clusters(&candidates, 11)[0].redact);
    let none = pass2_build_redact_clusters(&candidates, 0);
    assert!(!none[0].redact);
    assert_eq!(none[0].frequency, Ratio { num: 0, den: 1 });
}

#[test]
fn recurring_text_is_redacted_where_it_stands() {
    let pages: Vec<PageContent> = (1..=10).map(|p| page(p, vec![el(&format!("Page {p} of 10"), 770.0, p)])).collect();
    let clusters = pass2_build_redact_clusters(&pass1_profile_candidates(&pages), 10);
    assert!(should_redact(&el("Page 7 of 10", 770.0, 7), pt(800.0), &clusters));
    assert!(should_redact(&el("Page 77 of 100", 770.0, 7), pt(800.0), &clusters));
    // Another height, another text, or the body of the page: kept.
    assert!(!should_redact(&el("Page 7 of 10", 780.0, 7), pt(800.0), &clusters));
    assert!(!should_redact(&el("Introduction to it", 770.0, 7), pt(800.0), &clusters));
    assert!(!should_redact(&el("Page 7 of 10", 400.0, 7), pt(800.0), &clusters));
}

#[test]
fn clusters_of_a_zone_are_dissimilar() {
    let texts = ["Page 1 of 500", "Confidential Draft", "Page 2 of 500", "Confidential Drafts", "Annual Report"];
    let candidates: Vec<HeaderFooterCandidate> = texts
        .iter()
        .enumerate()
        .map(|(i, t)| HeaderFooterCandidate { page_num: i + 1, y_zone: "0.04".to_string(), text: t.to_string() })
        .collect();
    let clusters = pass2_build_redact_clusters(&candidates, 10);
    let named: Vec<(&str, usize)> =
        clusters.iter().map(|c| (c.representative_text.as_str(), c.pages_seen)).collect();
    assert_eq!(named, vec![("Page 1 of 500", 2), ("Confidential Draft", 2), ("Annual Report", 1)]);
    for (i, a) in clusters.iter().enumerate() {
        for b in &clusters[i + 1..] {
            let sim = normalized_levenshtein(&a.representative_text, &b.representative_text);
            assert!(!sim.at_least_percent(NLD_SIMILARITY_THRESHOLD));
        }
    }
}
