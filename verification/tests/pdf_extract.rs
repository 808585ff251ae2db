use lopdf::{Dictionary, Document, Object, Stream};
use rag_ingestion_core::font_metrics::{FontMetrics, StandardFonts, StandardTable};
use rag_ingestion_core::pdf_document::{
    find_object, object_value, read_operations, resolve_inherited_mediabox, MediaBox,
};
use rag_ingestion_core::pdf_extract::{
    extract_document, paint_path, parse_operator, text_glyphs, text_run, Coordinate, ExtractError, Glyph, Operator,
    PageScript, PathPoint, Spacing, Step,
};
use rag_ingestion_core::pdf_object::{Number, PdfObject};
use rag_ingestion_core::types::POINT;
use std::collections::HashMap;

fn dict(entries: Vec<(&str, Object)>) -> Dictionary {
    let mut d = Dictionary::new();
    for (key, value) in entries {
        d.set(key, value);
    }
    d
}

fn name(s: &str) -> Object {
    Object::Name(s.as_bytes().to_vec())
}

fn ints(values: &[i64]) -> Object {
    Object::Array(values.iter().map(|v| Object::Integer(*v)).collect())
}

fn standard() -> StandardFonts {
    StandardFonts {
        aliases: vec![],
        tables: vec![StandardTable {
            font: b"Helvetica".to_vec(),
            encoding: b"StandardEncoding".to_vec(),
            widths: (0..256u16).map(|c| c + 1).collect(),
        }],
    }
}

/// The bytes of a file with one page for each content stream, with Helvetica as the font F1.
fn file(contents: &[&[u8]]) -> Vec<u8> {
    let mut doc = Document::new();
    let pages_id = doc.new_object_id();
    let font = dict(vec![("Type", name("Font")), ("Subtype", name("Type1")), ("BaseFont", name("Helvetica"))]);
    let font_id = doc.add_object(Object::Dictionary(font));
    let fonts = dict(vec![("F1", Object::Reference(font_id))]);
    let resources = dict(vec![("Font", Object::Dictionary(fonts))]);
    let resources_id = doc.add_object(Object::Dictionary(resources));
    let mut kids = Vec::new();
    for content in contents {
        let stream_id = doc.add_object(Object::Stream(Stream::new(Dictionary::new(), content.to_vec())));
        let page = dict(vec![
            ("Type", name("Page")),
            ("Parent", Object::Reference(pages_id)),
            ("Contents", Object::Reference(stream_id)),
            ("Resources", Object::Reference(resources_id)),
        ]);
        kids.push(Object::Reference(doc.add_object(Object::Dictionary(page))));
    }
    let count = kids.len() as i64;
    let pages = dict(vec![
        ("Type", name("Pages")),
        ("Kids", Object::Array(kids)),
        ("Count", Object::Integer(count)),
        ("MediaBox", ints(&[0, 0, 300, 400])),
    ]);
    doc.objects.insert(pages_id, Object::Dictionary(pages));
    let catalog = dict(vec![("Type", name("Catalog")), ("Pages", Object::Reference(pages_id))]);
    let catalog_id = doc.add_object(Object::Dictionary(catalog));
    doc.trailer.set("Root", Object::Reference(catalog_id));
    let mut bytes = Vec::new();
    doc.save_to(&mut bytes).unwrap();
    bytes
}

fn scripts(contents: &[&[u8]]) -> Vec<PageScript> {
    match extract_document(&file(contents), &standard()) {
        Ok(scripts) => scripts,
        Err(e) => panic!("the file should be read: {e:?}"),
    }
}

fn steps(content: &[u8]) -> Vec<Step> {
    scripts(&[content]).remove(0).steps
}

fn whole(n: i64) -> Number {
    Number::Integer(n)
}

fn at(n: i64) -> Coordinate {
    Coordinate { base: whole(n), offset: whole(0) }
}

fn p(x: i64, y: i64) -> PathPoint {
    PathPoint { x: at(x), y: at(y) }
}

#[test]
fn pages_come_in_order_with_inherited_corners() {
    let pages = scripts(&[b"q", b"BT"]);
    assert_eq!(pages.len(), 2);
    assert_eq!(pages[0].page_num, 1);
    assert_eq!(pages[1].page_num, 2);
    assert_eq!(pages[0].media_box, MediaBox { x0: whole(0), y0: whole(0), x1: whole(300), y1: whole(400) });
    assert_eq!(pages[0].steps, vec![Step::Save]);
    assert_eq!(pages[1].steps, vec![Step::BeginText]);
}

#[test]
fn texts_are_written_in_the_font_of_the_page() {
    assert_eq!(
        steps(b"BT /F1 12 Tf (A b) Tj ET"),
        vec![
            Step::BeginText,
            Step::FontSize(whole(12)),
            Step::Show {
                text: "A b".to_string(),
                glyphs: vec![
                    Glyph { width: whole(66), is_space: false },
                    Glyph { width: whole(33), is_space: true },
                    Glyph { width: whole(99), is_space: false },
                ],
            },
        ]
    );
}

#[test]
fn unknown_font_has_the_fallback_width() {
    assert_eq!(
        steps(b"/F9 12 Tf (A) Tj"),
        vec![
            Step::FontSize(whole(12)),
            Step::Show { text: "A".to_string(), glyphs: vec![Glyph { width: whole(500), is_space: false }] },
        ]
    );
}

#[test]
fn spaced_texts_keep_their_parts() {
    assert_eq!(
        steps(b"/F1 10 Tf [(A) -120 (B) /X] TJ"),
        vec![
            Step::FontSize(whole(10)),
            Step::ShowSpaced {
                text: "AB".to_string(),
                parts: vec![
                    Spacing::Glyphs(vec![Glyph { width: whole(66), is_space: false }]),
                    Spacing::Adjust(whole(-120)),
                    Spacing::Glyphs(vec![Glyph { width: whole(67), is_space: false }]),
                ],
            },
        ]
    );
}

#[test]
fn text_state_and_lines() {
    assert_eq!(
        steps(b"1 Tc 2 Tw 90 Tz 12 TL 3 Ts 4 5 Td 6 -7 TD T* 1 0 0 1 8 9 Tm 1 Td"),
        vec![
            Step::CharSpacing(whole(1)),
            Step::WordSpacing(whole(2)),
            Step::HorizontalScale(whole(90)),
            Step::Leading(whole(12)),
            Step::Rise(whole(3)),
            Step::MoveLine(whole(4), whole(5)),
            Step::MoveLineAndLead(whole(6), whole(-7)),
            Step::NextLine,
            Step::SetMatrix(rag_ingestion_core::pdf_extract::Transform {
                a: whole(1),
                b: whole(0),
                c: whole(0),
                d: whole(1),
                e: whole(8),
                f: whole(9),
            }),
        ]
    );
}

#[test]
fn quotes_start_a_line() {
    let glyph = Glyph { width: whole(500), is_space: false };
    assert_eq!(
        steps(b"(A) ' 1 2 (B) \" ET"),
        vec![
            Step::NextLine,
            Step::Show { text: "A".to_string(), glyphs: vec![glyph] },
            Step::WordSpacing(whole(1)),
            Step::CharSpacing(whole(2)),
            Step::NextLine,
            Step::Show { text: "B".to_string(), glyphs: vec![glyph] },
        ]
    );
}

#[test]
fn transformations_are_gone_back_to_only_where_kept() {
    assert_eq!(steps(b"Q q Q Q q"), vec![Step::Save, Step::Restore, Step::Save]);
    assert_eq!(steps(b"1 2 3 cm"), vec![]);
    assert_eq!(steps(b"1 2 3 4 5 6 cm").len(), 1);
}

#[test]
fn paths_are_drawn_and_used_up() {
    assert_eq!(
        steps(b"0 0 m 10 0 l 10 5 l h 1 2 3 4 5 6 c S 7 7 l n 1 1 l f*"),
        vec![
            Step::Paint {
                subpaths: vec![vec![p(0, 0), p(10, 0), p(10, 5), p(0, 0), p(5, 6)]],
                stroke: true,
                fill: false,
            },
            Step::Paint { subpaths: vec![vec![p(1, 1)]], stroke: false, fill: true },
        ]
    );
}

#[test]
fn rectangles_go_round() {
    let right = Coordinate { base: whole(1), offset: whole(10) };
    let top = Coordinate { base: whole(2), offset: whole(20) };
    assert_eq!(
        steps(b"1 2 10 20 re B"),
        vec![Step::Paint {
            subpaths: vec![vec![
                p(1, 2),
                PathPoint { x: right, y: at(2) },
                PathPoint { x: right, y: top },
                PathPoint { x: at(1), y: top },
                p(1, 2),
            ]],
            stroke: true,
            fill: true,
        }]
    );
}

#[test]
fn operators_are_told_apart() {
    assert_eq!(parse_operator("q"), Operator::Save);
    assert_eq!(parse_operator("Q"), Operator::Restore);
    assert_eq!(parse_operator("b*"), Operator::Paint { stroke: true, fill: true });
    assert_eq!(parse_operator("F"), Operator::Paint { stroke: false, fill: true });
    assert_eq!(parse_operator("s"), Operator::Paint { stroke: true, fill: false });
    assert_eq!(parse_operator("n"), Operator::EndPath);
    assert_eq!(parse_operator("T*"), Operator::NextLine);
    assert_eq!(parse_operator("\""), Operator::NextLineShowSpacing);
    assert_eq!(parse_operator("Do"), Operator::Other);
    assert_eq!(parse_operator(""), Operator::Other);
}

#[test]
fn bytes_that_are_no_file_are_refused() {
    match extract_document(b"no file at all", &standard()) {
        Err(ExtractError::Unreadable(words)) => {
            let refusal = Document::load_mem(b"no file at all").err().map(|e| e.to_string());
            assert_eq!(Some(words), refusal);
        }
        other => panic!("expected a refusal, got {other:?}"),
    }
}

#[test]
fn circular_page_tree_is_read_without_fonts() {
    let mut doc = Document::load_mem(&file(&[b"q"])).unwrap();
    let page_id = doc.page_iter().next().unwrap();
    if let Ok(Object::Dictionary(page)) = doc.get_object_mut(page_id) {
        page.set("Parent", Object::Reference(page_id));
    }
    let mut bytes = Vec::new();
    doc.save_to(&mut bytes).unwrap();
    let pages = extract_document(&bytes, &standard()).unwrap();
    assert_eq!(pages.len(), 1);
    assert_eq!(pages[0].steps, vec![Step::Save]);
}

#[test]
fn page_with_a_long_way_up_is_read() {
    let mut doc = Document::load_mem(&file(&[b"q 1 Tc"])).unwrap();
    let page_id = doc.page_iter().next().unwrap();
    if let Ok(Object::Dictionary(page)) = doc.get_object_mut(page_id) {
        page.set("Parent", Object::Reference((10_000, 0)));
    }
    for n in 10_000..11_500u32 {
        let node = dict(vec![("Type", Object::Name(b"Pages".to_vec())), ("Parent", Object::Reference((n + 1, 0)))]);
        doc.objects.insert((n, 0), Object::Dictionary(node));
    }
    doc.objects.insert((11_500, 0), Object::Dictionary(dict(vec![])));
    doc.max_id = 11_500;
    let mut bytes = Vec::new();
    doc.save_to(&mut bytes).unwrap();
    let pages = extract_document(&bytes, &standard()).unwrap();
    assert_eq!(pages.len(), 1);
    assert_eq!(pages[0].steps, vec![Step::Save, Step::CharSpacing(whole(1))]);
}

/// A file of one empty page whose trailer has one more entry.
fn file_with_trailer_entry(entry: &str) -> Vec<u8> {
    let body = "%PDF-1.4\n1 0 obj\n<< /Type /Catalog /Pages 2 0 R >>\nendobj\n";
    let pages = "2 0 obj\n<< /Type /Pages /Kids [3 0 R] /Count 1 >>\nendobj\n";
    let page = "3 0 obj\n<< /Type /Page /Parent 2 0 R >>\nendobj\n";
    let (first, second) = (body.len(), body.len() + pages.len());
    let xref = second + page.len();
    format!(
        "{body}{pages}{page}xref\n0 4\n0000000000 65535 f \n{:010} 00000 n \n{first:010} 00000 n \n{second:010} 00000 n \ntrailer\n<< /Size 4 /Root 1 0 R {} >>\nstartxref\n{xref}\n%%EOF\n",
        9,
        entry.replace("HERE", &xref.to_string()),
    )
    .into_bytes()
}

#[test]
fn file_that_only_mentions_encryption_is_read() {
    let pages = extract_document(&file(&[b"q (Encrypt) Tj"]), &standard()).unwrap();
    assert_eq!(pages.len(), 1);
    assert_eq!(pages[0].steps.len(), 2);
}

#[test]
fn sections_that_refer_to_themselves_are_read_once() {
    let plain = extract_document(&file_with_trailer_entry(""), &standard()).unwrap();
    assert_eq!(plain.len(), 1);
    let circle = extract_document(&file_with_trailer_entry("/Prev HERE"), &standard()).unwrap();
    assert_eq!(circle.len(), 1);
}

#[test]
fn operands_that_nest_too_deep_end_the_content() {
    let mut content = b"q ".to_vec();
    content.extend(std::iter::repeat(b'[').take(200_000));
    assert!(read_operations(&content).len() <= 1);
    assert_eq!(read_operations(b"[[1] [[2]]] TJ").len(), 1);
}

#[test]
fn page_count_of_a_damaged_file_is_not_believed() {
    let mut doc = Document::load_mem(&file(&[b"q", b"BT"])).unwrap();
    let ids: Vec<(u32, u16)> = doc.objects.keys().copied().collect();
    for id in ids {
        if let Ok(Object::Dictionary(d)) = doc.get_object_mut(id) {
            if d.has(b"Count") {
                d.set("Count", Object::Integer(i64::MAX));
            }
        }
    }
    let mut bytes = Vec::new();
    doc.save_to(&mut bytes).unwrap();
    match extract_document(&bytes, &standard()) {
        Ok(pages) => assert_eq!(pages.len(), 2),
        Err(e) => panic!("the file should be read: {e:?}"),
    }
}

#[test]
fn corners_are_looked_for_up_the_tree() {
    let mut doc = Document::new();
    doc.objects.insert((1, 0), Object::Dictionary(dict(vec![("Parent", Object::Reference((2, 0)))])));
    doc.objects.insert(
        (2, 0),
        Object::Dictionary(dict(vec![
            ("MediaBox", Object::Array(vec![Object::Integer(1), Object::Real(2.5), Object::Null, Object::Integer(4)])),
            ("Parent", Object::Reference((3, 0))),
        ])),
    );
    doc.objects.insert((3, 0), Object::Dictionary(dict(vec![("MediaBox", ints(&[0, 0, 9, 9]))])));
    let expected = MediaBox { x0: whole(1), y0: Number::Real(2.5f32.to_bits()), x1: whole(0), y1: whole(4) };
    assert_eq!(resolve_inherited_mediabox(&doc, (1, 0)), Some(expected));
    assert_eq!(resolve_inherited_mediabox(&doc, (4, 0)), None);
    // A tree that goes round in a circle is given up.
    doc.objects.insert((5, 0), Object::Dictionary(dict(vec![("Parent", Object::Reference((5, 0)))])));
    assert_eq!(resolve_inherited_mediabox(&doc, (5, 0)), None);
}

#[test]
fn references_are_followed_to_their_end() {
    let mut doc = Document::new();
    for n in 1..=128u32 {
        doc.objects.insert((n, 0), Object::Reference((n + 1, 0)));
    }
    doc.objects.insert((129, 0), Object::Integer(7));
    assert!(matches!(find_object(&doc, (1, 0)), Some(PdfObject::Integer(7))));
    // One step more is one too many.
    doc.objects.insert((200, 0), Object::Reference((1, 0)));
    assert!(find_object(&doc, (200, 0)).is_none());
    assert!(find_object(&doc, (500, 0)).is_none());
    doc.objects.insert((300, 0), Object::Reference((300, 0)));
    assert!(find_object(&doc, (300, 0)).is_none());
}

#[test]
fn objects_become_plain_values() {
    let stream = Stream::new(dict(vec![("K", Object::Boolean(true))]), b"xyz".to_vec());
    let object = Object::Array(vec![
        Object::Null,
        Object::Real(1.5),
        name("N"),
        Object::string_literal("text"),
        Object::Reference((3, 4)),
        Object::Stream(stream),
    ]);
    let items = match object_value(&object) {
        PdfObject::Array(items) => items,
        other => panic!("expected an array, got {other:?}"),
    };
    assert_eq!(items.len(), 6);
    assert!(matches!(items[0], PdfObject::Null));
    assert!(matches!(items[1], PdfObject::Real(bits) if bits == 1.5f32.to_bits()));
    assert!(matches!(&items[2], PdfObject::Name(n) if n == b"N"));
    assert!(matches!(&items[3], PdfObject::Text(t) if t == b"text"));
    assert!(matches!(items[4], PdfObject::Reference(3, 4)));
    match &items[5] {
        PdfObject::Stream(entries, content) => {
            assert_eq!(content, b"xyz");
            assert_eq!(entries[0].0, b"K");
            assert!(matches!(entries[0].1, PdfObject::Boolean(true)));
        }
        other => panic!("expected a stream, got {other:?}"),
    }
}

#[test]
fn operations_are_read_with_their_operands() {
    let operations = read_operations(b"1 2.5 m /F1 12 Tf");
    assert_eq!(operations.len(), 2);
    assert_eq!(operations[0].operator, "m");
    assert_eq!(operations[0].operands.len(), 2);
    assert!(matches!(operations[0].operands[0], PdfObject::Integer(1)));
    assert!(matches!(operations[0].operands[1], PdfObject::Real(bits) if bits == 2.5f32.to_bits()));
    assert_eq!(operations[1].operator, "Tf");
}

#[test]
fn several_content_streams_are_read_as_one() {
    let mut doc = Document::load_mem(&file(&[b"q"])).unwrap();
    let page_id = doc.page_iter().next().unwrap();
    let one = doc.add_object(Object::Stream(Stream::new(Dictionary::new(), b"1 0 0 1 5 ".to_vec())));
    let hex = dict(vec![("Filter", name("ASCIIHexDecode"))]);
    let two = doc.add_object(Object::Stream(Stream::new(hex, b"3620636d>".to_vec())));
    if let Ok(Object::Dictionary(page)) = doc.get_object_mut(page_id) {
        page.set("Contents", Object::Array(vec![Object::Reference(one), Object::Reference(two)]));
    }
    let mut bytes = Vec::new();
    doc.save_to(&mut bytes).unwrap();
    match extract_document(&bytes, &standard()) {
        Ok(pages) => assert!(matches!(&pages[0].steps[..], [Step::Concat(t)] if t.f == whole(6))),
        Err(e) => panic!("the file should be read: {e:?}"),
    }
}

#[test]
fn text_runs_have_boxes() {
    let run = text_run("word", 5 * POINT, 2 * POINT, 100 * POINT, 12 * POINT, 3).unwrap();
    assert_eq!((run.x_min, run.x_max), (2 * POINT, 5 * POINT));
    assert_eq!((run.y_min, run.y_max), (97 * POINT, 109 * POINT));
    assert_eq!((run.font_size, run.page_num), (12 * POINT, 3));
    // Small and negative sizes.
    let small = text_run("w", 0, POINT, 0, 0, 1).unwrap();
    assert_eq!((small.y_min, small.y_max), (-POINT / 4, POINT - POINT / 4));
    let negative = text_run("w", 0, POINT, 0, -8 * POINT, 1).unwrap();
    assert_eq!((negative.y_min, negative.y_max), (-2 * POINT, 6 * POINT));
    assert!(text_run(" \t\u{a0}", 0, POINT, 0, POINT, 1).is_none());
    let far = text_run("w", 0, POINT, i64::MIN, 8 * POINT, 1).unwrap();
    assert_eq!(far.y_min, i64::MIN);
}

#[test]
fn strokes_and_thin_fills_are_rules() {
    let thin = [(0, 0), (100 * POINT, 0), (100 * POINT, 2 * POINT), (0, 2 * POINT)];
    let thick = [(0, 0), (100 * POINT, 0), (100 * POINT, 3 * POINT), (0, 3 * POINT)];
    assert_eq!(paint_path(&thin, false, true).len(), 3);
    assert_eq!(paint_path(&thick, false, true).len(), 0);
    assert_eq!(paint_path(&thick, true, false).len(), 3);
    assert_eq!(paint_path(&thin, false, false).len(), 0);
    assert_eq!(paint_path(&thin[..1], true, true).len(), 0);
    let line = paint_path(&thick, true, true)[1];
    assert_eq!((line.x0, line.y0, line.x1, line.y1), (100 * POINT, 0, 100 * POINT, 3 * POINT));
}

#[test]
fn composite_fonts_take_two_bytes_to_a_glyph() {
    let mut widths_by_cid = HashMap::new();
    widths_by_cid.insert(0x0120, whole(300));
    widths_by_cid.insert(0x20, whole(400));
    let font = FontMetrics::Composite { widths_by_cid, default_width: whole(1000) };
    let glyphs = text_glyphs(Some(&font), &[0x01, 0x20, 0x20, 0x20, 0x20]);
    let widths: Vec<Number> = glyphs.iter().map(|g| g.width).collect();
    assert_eq!(widths, vec![whole(300), whole(1000), whole(400)]);
    assert!(glyphs.iter().all(|g| !g.is_space));
    assert_eq!(text_glyphs(None, b"a b").len(), 3);
    assert!(text_glyphs(None, b"a b")[1].is_space);
}

#[test]
fn operators_without_bearing_leave_no_steps() {
    assert_eq!(steps(b"0.5 g /Im1 Do 1 w ET 0 0 m BDC"), vec![]);
}

#[test]
fn fonts_of_the_page_tree_are_found() {
    // The resources stand on the node above the page.
    let mut doc = Document::load_mem(&file(&[b"/F1 1 Tf (A) Tj"])).unwrap();
    let page_id = doc.page_iter().next().unwrap();
    let mut resources = None;
    let mut parent = None;
    if let Ok(Object::Dictionary(page)) = doc.get_object_mut(page_id) {
        resources = page.remove(b"Resources");
        parent = page.get(b"Parent").and_then(|o| o.as_reference()).ok();
    }
    if let Ok(Object::Dictionary(node)) = doc.get_object_mut(parent.unwrap()) {
        node.set("Resources", resources.unwrap());
    }
    let mut bytes = Vec::new();
    doc.save_to(&mut bytes).unwrap();
    match extract_document(&bytes, &standard()) {
        Ok(pages) => assert!(
            matches!(&pages[0].steps[1], Step::Show { glyphs, .. } if glyphs[0].width == whole(66))
        ),
        Err(e) => panic!("the file should be read: {e:?}"),
    }
}

#[test]
fn bytes_that_are_no_utf8_are_replaced() {
    match &steps(b"<41ff42> Tj")[0] {
        Step::Show { text, glyphs } => {
            assert_eq!(text, "A\u{fffd}B");
            assert_eq!(glyphs.len(), 3);
        }
        other => panic!("expected a text, got {other:?}"),
    }
}
