use rag_ingestion_core::chunker::{chunk_document, T_MAX_TOKENS};
use rag_ingestion_core::markdown::{classify_and_group, header_level, node_type_label, starts_with_ordinal, NodeType};
use rag_ingestion_core::tokens::{count_from_encoding, get_exact_token_count, DefinitionError, TokenCounter, MAX_ENCODED_TEXT};
use rag_ingestion_core::types::ChunkPayload;

/// A tokenizer with one token for each word or run of punctuation.
fn counter() -> TokenCounter {
    let definition = r#"{
        "version": "1.0", "truncation": null, "padding": null, "added_tokens": [],
        "normalizer": null, "pre_tokenizer": {"type": "Whitespace"},
        "post_processor": null, "decoder": null,
        "model": {"type": "WordLevel", "vocab": {"[UNK]": 0, "word": 1}, "unk_token": "[UNK]"}
    }"#;
    match TokenCounter::from_definition(definition.as_bytes()) {
        Ok(counter) => counter,
        Err(e) => panic!("the definition should load: {e:?}"),
    }
}

fn chunks_of(pages: &[(usize, String)]) -> Vec<ChunkPayload> {
    chunk_document(pages, "doc1", &counter())
}

#[test]
fn header_context_inherits_across_chunk_boundary() {
    let long_para = "word ".repeat(700);
    let markdown_by_page = vec![
        (1, format!("# Product X\n\n## System Requirements\n\n{long_para}")),
        (2, "Second paragraph that continues the same section.".to_string()),
    ];
    let chunks = chunks_of(&markdown_by_page);
    assert!(chunks.len() >= 2, "oversized first paragraph should force at least 2 chunks");
    for c in &chunks {
        assert_eq!(c.parent_hierarchy, vec!["Product X".to_string(), "System Requirements".to_string()]);
        assert_eq!(c.root_document, "doc1");
    }
}

#[test]
fn new_h1_resets_deeper_context() {
    let markdown_by_page = vec![(
        1,
        "# Product X\n\n## System Requirements\n\nText about X.\n\n# Product Y\n\nText about Y with no sub-header.".to_string(),
    )];
    let chunks = chunks_of(&markdown_by_page);
    let y_chunk = chunks.iter().find(|c| c.text.contains("Text about Y")).unwrap();
    assert_eq!(y_chunk.parent_hierarchy, vec!["Product Y".to_string()]);
}

#[test]
fn respects_token_budget() {
    let para = "word ".repeat(200);
    let markdown_by_page = vec![(1, format!("# Title\n\n{para}\n\n{para}\n\n{para}"))];
    let chunks = chunks_of(&markdown_by_page);
    for c in &chunks {
        assert!(c.token_count <= T_MAX_TOKENS, "chunk exceeded token budget: {} tokens", c.token_count);
    }
    assert!(chunks.len() >= 2, "three ~260-token paragraphs must not fit in a single 512-token chunk");
}

#[test]
fn repeated_identical_header_does_not_fragment_chunks() {
    let mut markdown_by_page = Vec::new();
    for p in 1..=10 {
        markdown_by_page.push((p, format!("## Appendix Notes\n\nShort note on page {p}.")));
    }
    let chunks = chunks_of(&markdown_by_page);
    assert_eq!(chunks.len(), 1, "identical repeated headers should merge into a single chunk, got {}", chunks.len());
    assert_eq!(chunks[0].source_pages.len(), 10);
}

#[test]
fn oversized_single_node_still_emits_progress() {
    let huge = "word ".repeat(2000);
    let markdown_by_page = vec![(1, huge)];
    let chunks = chunks_of(&markdown_by_page);
    assert_eq!(chunks.len(), 1);
}

#[test]
fn chunks_count_the_tokens_of_their_nodes() {
    let para = "word ".repeat(200);
    let pages = vec![(1, format!("# Title\n\n{para}\n\n{para}\n\n{para}"))];
    let chunks = chunks_of(&pages);
    assert_eq!(chunks.len(), 2);
    assert_eq!(chunks[0].token_count, 400);
    assert_eq!(chunks[1].token_count, 200);
    assert_eq!(chunks[0].chunk_id, 0);
    assert_eq!(chunks[1].chunk_id, 1);
    assert_eq!(chunks[0].text, format!("{}\n\n{}", para.trim(), para.trim()));
    assert_eq!(chunks[1].parent_hierarchy, vec!["Title".to_string()]);
}

#[test]
fn context_tokens_belong_to_the_budget() {
    // 256 + 255 tokens and one of the title fill the budget; one more token does not fit.
    let a = "word ".repeat(256);
    let b = "word ".repeat(255);
    let fits = vec![(1, format!("# Title\n\n{a}\n\n{b}"))];
    assert_eq!(chunks_of(&fits).len(), 1);
    let over = vec![(1, format!("# Title\n\n{a}\n\n{b}word"))];
    assert_eq!(chunks_of(&over).len(), 2);
}

#[test]
fn empty_document_has_no_chunks() {
    assert!(chunks_of(&[]).is_empty());
    assert!(chunks_of(&[(1, "# Only a header\n\n\n".to_string())]).is_empty());
}

#[test]
fn body_is_parted_in_order_among_the_chunks() {
    let pages = vec![
        (3, "first\n\n# A\n\nsecond\nstill second\n\n| a | b |\n| c | d |\n- x\n- y\n".to_string()),
        (2, "# B\nthird".to_string()),
        (3, "fourth".to_string()),
    ];
    let chunks = chunks_of(&pages);
    let texts: Vec<&str> = chunks.iter().map(|c| c.text.as_str()).collect();
    assert_eq!(
        texts,
        vec!["first", "second still second\n\n| a | b |\n| c | d |\n\n- x\n- y", "third\n\nfourth"]
    );
    assert_eq!(chunks[0].parent_hierarchy, Vec::<String>::new());
    assert_eq!(chunks[1].parent_hierarchy, vec!["A".to_string()]);
    assert_eq!(chunks[2].parent_hierarchy, vec!["B".to_string()]);
    assert_eq!(chunks[2].source_pages, vec![2, 3]);
}

#[test]
fn lines_are_classified() {
    let nodes = classify_and_group(&[(
        7,
        "####### seven\n###### six\n#none\n1. one\n22. two\n* star\n1x\n|row\n".to_string(),
    )]);
    let kinds: Vec<(NodeType, &str)> = nodes.iter().map(|n| (n.node_type, n.text.as_str())).collect();
    assert_eq!(
        kinds,
        vec![
            (NodeType::Paragraph, "####### seven"),
            (NodeType::Header(6), "six"),
            (NodeType::Paragraph, "#none"),
            (NodeType::List, "1. one\n22. two\n* star"),
            (NodeType::Paragraph, "1x"),
            (NodeType::Table, "|row"),
        ]
    );
    assert!(nodes.iter().all(|n| n.page_num == 7));
}

#[test]
fn header_levels_and_ordinals() {
    let chars = |s: &str| s.chars().collect::<Vec<char>>();
    assert_eq!(header_level(&chars("## x")), Some(2));
    assert_eq!(header_level(&chars("##x")), None);
    assert_eq!(header_level(&chars("##")), None);
    assert_eq!(header_level(&chars("")), None);
    assert!(starts_with_ordinal(&chars("12. x")));
    assert!(!starts_with_ordinal(&chars(". x")));
    assert!(!starts_with_ordinal(&chars("12")));
    assert_eq!(node_type_label(&NodeType::Header(1)), "header");
    assert_eq!(node_type_label(&NodeType::Paragraph), "paragraph");
    assert_eq!(node_type_label(&NodeType::Table), "table");
    assert_eq!(node_type_label(&NodeType::List), "list");
}

#[test]
fn token_counts_are_those_of_the_tokenizer() {
    let counter = counter();
    assert_eq!(get_exact_token_count(&counter, ""), 0);
    assert_eq!(get_exact_token_count(&counter, "word word, unknown"), 4);
    assert_eq!(get_exact_token_count(&counter, "   "), 0);
}

#[test]
fn failed_encoding_counts_words() {
    assert_eq!(count_from_encoding("two words", None), 2);
    assert_eq!(count_from_encoding("two words", Some(5)), 5);
    assert_eq!(count_from_encoding("", Some(5)), 0);
}

#[test]
fn definitions_are_checked() {
    assert_eq!(TokenCounter::from_definition(b"no json").err(), Some(DefinitionError::Malformed));
    let dropout = r#"{
        "version": "1.0", "truncation": null, "padding": null, "added_tokens": [],
        "normalizer": null, "pre_tokenizer": null, "post_processor": null, "decoder": null,
        "model": {"type": "BPE", "dropout": 0.5, "unk_token": null,
            "continuing_subword_prefix": null, "end_of_word_suffix": null, "fuse_unk": false,
            "byte_fallback": false, "vocab": {"a": 0, "b": 1, "ab": 2}, "merges": ["a b"]}
    }"#;
    assert_eq!(TokenCounter::from_definition(dropout.as_bytes()).err(), Some(DefinitionError::Dropout));
    let exact = dropout.replace("0.5", "null");
    let cut = r#""truncation": {"direction": "Right", "max_length": 1, "strategy": "LongestFirst", "stride": 1}"#;
    let truncating = exact.replace(r#""truncation": null"#, cut);
    assert_eq!(
        TokenCounter::from_definition(truncating.as_bytes()).err(),
        Some(DefinitionError::Truncation)
    );
    let fill = r#""padding": {"strategy": {"Fixed": 9}, "direction": "Right", "pad_to_multiple_of": null,
        "pad_id": 0, "pad_type_id": 0, "pad_token": "a"}"#;
    let padding = exact.replace(r#""padding": null"#, fill);
    assert_eq!(TokenCounter::from_definition(padding.as_bytes()).err(), Some(DefinitionError::Padding));
    let counter = TokenCounter::from_definition(exact.as_bytes());
    match counter {
        Ok(counter) => assert_eq!(get_exact_token_count(&counter, "abab"), 2),
        Err(e) => panic!("the definition should load: {e:?}"),
    }
    let no_model = exact.replace(r#""merges": ["a b"]"#, r#""merges": ["a c"]"#);
    assert_eq!(TokenCounter::from_definition(no_model.as_bytes()).err(), Some(DefinitionError::Malformed));
    let unsupported = |from: &str, to: &str| {
        assert!(exact.contains(from));
        TokenCounter::from_definition(exact.replace(from, to).as_bytes()).err()
    };
    for (from, to) in [
        (r#""continuing_subword_prefix": null"#, r###""continuing_subword_prefix": "##""###),
        (r#""end_of_word_suffix": null"#, r#""end_of_word_suffix": "</w>""#),
        (r#""byte_fallback": false"#, r#""byte_fallback": true"#),
        (r#""ab": 2"#, r#""ab": 4294967295"#),
        (r#""normalizer": null"#, r#""normalizer": {"type": "StripAccents"}"#),
        (
            r#""added_tokens": []"#,
            r#""added_tokens": [{"id": 3, "content": "x", "single_word": false, "lstrip": false, "rstrip": false,
                "normalized": true, "special": false}]"#,
        ),
        (
            r#""pre_tokenizer": null"#,
            r#""pre_tokenizer": {"type": "Split", "pattern": {"Regex": "(a+)+b"}, "behavior": "Isolated",
                "invert": false}"#,
        ),
        (r#""type": "BPE""#, r#""type": "Unigram""#),
    ] {
        assert_eq!(unsupported(from, to), Some(DefinitionError::Unsupported), "{to}");
    }
}

#[test]
fn byte_level_definition_counts_exactly() {
    let definition = r#"{
        "version": "1.0", "truncation": null, "padding": null,
        "added_tokens": [{"id": 4, "content": "<|end|>", "single_word": false, "lstrip": false, "rstrip": false,
            "normalized": false, "special": true}],
        "normalizer": null,
        "pre_tokenizer": {"type": "Sequence", "pretokenizers": [
            {"type": "Split", "behavior": "Isolated", "invert": false, "pattern": {"Regex":
                "(?i:'s|'t|'re|'ve|'m|'ll|'d)|[^\\r\\n\\p{L}\\p{N}]?\\p{L}+|\\p{N}{1,3}| ?[^\\s\\p{L}\\p{N}]+[\\r\\n]*|\\s*[\\r\\n]+|\\s+(?!\\S)|\\s+"}},
            {"type": "ByteLevel", "add_prefix_space": false, "trim_offsets": true, "use_regex": false}]},
        "post_processor": {"type": "ByteLevel", "add_prefix_space": true, "trim_offsets": false, "use_regex": true},
        "decoder": {"type": "ByteLevel", "add_prefix_space": true, "trim_offsets": true, "use_regex": true},
        "model": {"type": "BPE", "dropout": null, "unk_token": null, "continuing_subword_prefix": null,
            "end_of_word_suffix": null, "fuse_unk": false, "byte_fallback": false,
            "vocab": {"a": 0, "b": 1, "ab": 2, "\u0120": 3}, "merges": ["a b"]}
    }"#;
    let counter = TokenCounter::from_definition(definition.as_bytes()).ok().unwrap();
    assert_eq!(get_exact_token_count(&counter, "ab ab"), 3);
    assert_eq!(get_exact_token_count(&counter, "abab<|end|>a"), 4);
    // White space to the limit is still encoded; the words of a longer text are counted.
    assert_eq!(get_exact_token_count(&counter, &" ".repeat(MAX_ENCODED_TEXT)), MAX_ENCODED_TEXT);
    assert_eq!(get_exact_token_count(&counter, &" a".repeat(MAX_ENCODED_TEXT)), MAX_ENCODED_TEXT);
}

#[test]
fn keys_that_stand_twice_count_once() {
    let definition = r###"{
        "version": "1.0", "truncation": null, "padding": null, "added_tokens": [],
        "normalizer": null, "pre_tokenizer": null, "post_processor": null, "decoder": null,
        "model": {"type": "BPE", "continuing_subword_prefix": "##", "vocab": {"a": 0, "b": 1, "ab": 2}, "merges": ["a b"]},
        "model": {"type": "BPE", "vocab": {"a": 0, "b": 1, "ab": 2}, "merges": ["a b"]}
    }"###;
    let counter = TokenCounter::from_definition(definition.as_bytes()).ok().unwrap();
    assert_eq!(get_exact_token_count(&counter, "aba"), 2);
}

#[test]
fn nodes_keep_every_letter() {
    let md = "# Title 1\n\nsome text\r\nmore\n| a | b2 |\n| --- | --- |\n- item\n3. third\n###bare\n";
    let letters = |s: &str| s.chars().filter(|c| c.is_alphanumeric()).collect::<String>();
    let nodes = classify_and_group(&[(1, md.to_string())]);
    let texts: String = nodes.iter().map(|n| n.text.as_str()).collect();
    assert_eq!(letters(&texts), letters(md));
}

#[test]
fn chunks_are_closed_only_where_the_next_node_does_not_fit() {
    let para = "word ".repeat(200);
    let small = "word ".repeat(20);
    let pages = vec![(1, format!("# Title\n\n{para}\n\n{para}\n\n{para}\n\n{small}\n\n# Next\n\n{small}"))];
    let counts: Vec<usize> = chunks_of(&pages).iter().map(|c| c.token_count).collect();
    assert_eq!(counts, vec![400, 220, 20]);
}
