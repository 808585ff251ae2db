use rag_ingestion_core::pipeline::{ingest, keep_runs};
use rag_ingestion_core::spatial_filter::{pass1_profile_candidates, pass2_build_redact_clusters};
use rag_ingestion_core::tokens::TokenCounter;
use rag_ingestion_core::types::{IngestionQuality, LineSegment, PageContent, TextElement, POINT};

fn counter() -> TokenCounter {
    let definition = r#"{
        "version": "1.0", "truncation": null, "padding": null, "added_tokens": [],
        "normalizer": null, "pre_tokenizer": {"type": "Whitespace"},
        "post_processor": null, "decoder": null,
        "model": {"type": "WordLevel", "vocab": {"[UNK]": 0}, "unk_token": "[UNK]"}
    }"#;
    match TokenCounter::from_definition(definition.as_bytes()) {
        Ok(counter) => counter,
        Err(e) => panic!("the definition should load: {e:?}"),
    }
}

fn run(text: &str, x: i64, y: i64, size: i64, page_num: usize) -> TextElement {
    TextElement {
        text: text.to_string(),
        x_min: x * POINT,
        y_min: y * POINT,
        x_max: (x + 20) * POINT,
        y_max: (y + 8) * POINT,
        font_size: size * POINT,
        page_num,
    }
}

fn document() -> Vec<PageContent> {
    (1..=4)
        .map(|n| PageContent {
            page_num: n,
            page_height: 800 * POINT,
            page_width: 600 * POINT,
            elements: vec![
                run(&format!("Page {n} of 4"), 10, 780, 8, n),
                run("Chapter", 10, 700, 20, n),
                run(&format!("body of page {n}"), 10, 600, 10, n),
                run("more body", 10, 588, 10, n),
            ],
            vector_lines: vec![],
        })
        .collect()
}

#[test]
fn document_goes_through_the_pipeline() {
    let result = ingest(&document(), "doc", &counter()).unwrap();
    assert_eq!(result.candidates, 4);
    assert_eq!(result.redact_clusters, 1);
    assert_eq!(result.reports.len(), 4);
    assert_eq!((result.pages_passed, result.pages_warned, result.pages_quarantined), (4, 0, 0));
    assert_eq!(result.chunks.len(), 1);
    let chunk = &result.chunks[0];
    assert_eq!(chunk.parent_hierarchy, vec!["Chapter".to_string()]);
    assert_eq!(
        chunk.text,
        "body of page 1 more body\n\nbody of page 2 more body\n\nbody of page 3 more body\n\nbody of page 4 more body"
    );
    assert_eq!(chunk.token_count, 24);
    assert_eq!(chunk.source_pages, vec![1, 2, 3, 4]);
    assert_eq!(chunk.root_document, "doc");
}

#[test]
fn recurring_headers_are_left_out() {
    let pages = document();
    let clusters = pass2_build_redact_clusters(&pass1_profile_candidates(&pages), pages.len());
    let texts: Vec<&str> = keep_runs(&pages[1], &clusters).into_iter().map(|e| e.text.as_str()).collect();
    assert_eq!(texts, vec!["Chapter", "body of page 2", "more body"]);
}

#[test]
fn page_that_loses_its_table_is_quarantined() {
    // A drawn grid around a text that renders to no table.
    let mut pages = document();
    let line = |x0: i64, y0: i64, x1: i64, y1: i64| LineSegment {
        x0: x0 * POINT,
        y0: y0 * POINT,
        x1: x1 * POINT,
        y1: y1 * POINT,
    };
    pages[2].vector_lines =
        vec![line(0, 0, 100, 0), line(0, 50, 100, 50), line(0, 0, 0, 50), line(100, 0, 100, 50)];
    let result = ingest(&pages, "doc", &counter()).unwrap();
    assert_eq!((result.pages_passed, result.pages_warned, result.pages_quarantined), (3, 0, 1));
    assert_eq!(result.reports[2].quality, IngestionQuality::Quarantined);
    assert_eq!(result.chunks[0].source_pages, vec![1, 2, 4]);
    assert!(!result.chunks[0].text.contains("page 3"));
}

#[test]
fn empty_document_gives_nothing() {
    let result = ingest(&[], "doc", &counter()).unwrap();
    assert_eq!(result.candidates, 0);
    assert!(result.reports.is_empty());
    assert!(result.chunks.is_empty());
}
