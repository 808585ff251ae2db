use lopdf::Document;
use rag_ingestion_core::font_metrics::{parse_font_dict, FontMetrics, StandardFonts, StandardTable};
use rag_ingestion_core::pdf_object::{truncate_real, Number, PdfObject};

type Entries = Vec<(Vec<u8>, PdfObject)>;

fn name(s: &str) -> PdfObject {
    PdfObject::Name(s.as_bytes().to_vec())
}

fn set(d: &mut Entries, key: &str, value: PdfObject) {
    d.push((key.as_bytes().to_vec(), value));
}

fn ints(values: Vec<i64>) -> PdfObject {
    PdfObject::Array(values.into_iter().map(PdfObject::Integer).collect())
}

/// The width as a fraction of the font size.
fn fraction(metrics: &FontMetrics, code: u32) -> f64 {
    match metrics.width_fraction(code) {
        Number::Integer(n) => n as f64 / 1000.0,
        Number::Real(bits) => f32::from_bits(bits) as f64 / 1000.0,
    }
}

fn helvetica_width(code: usize) -> u16 {
    match code {
        32 => 278,
        65 => 667,
        97 => 556,
        _ => 0,
    }
}

const HELVETICA_BOLD_A: u16 = 722;

fn standard() -> StandardFonts {
    let bold: Vec<u16> = (0..256).map(|c| if c == 65 { HELVETICA_BOLD_A } else { 0 }).collect();
    StandardFonts {
        aliases: vec![
            (b"Arial".to_vec(), b"Helvetica".to_vec()),
            (b"Arial,Bold".to_vec(), b"Helvetica-Bold".to_vec()),
        ],
        tables: vec![
            StandardTable {
                font: b"Helvetica".to_vec(),
                encoding: b"WinAnsiEncoding".to_vec(),
                widths: (0..256).map(helvetica_width).collect(),
            },
            StandardTable { font: b"Helvetica-Bold".to_vec(), encoding: b"WinAnsiEncoding".to_vec(), widths: bold },
        ],
    }
}

fn simple_font_dict(first_char: i64, widths: Vec<i64>) -> Entries {
    let mut d = Entries::new();
    set(&mut d, "Subtype", name("Type1"));
    set(&mut d, "FirstChar", PdfObject::Integer(first_char));
    set(&mut d, "Widths", ints(widths));
    d
}

#[test]
fn simple_font_widths_are_read_correctly() {
    let doc = Document::new();
    let dict = simple_font_dict(65, vec![600, 700, 800]);
    let metrics = parse_font_dict(&doc, &dict, &standard());
    assert_eq!(fraction(&metrics, 65), 0.6);
    assert_eq!(fraction(&metrics, 66), 0.7);
    assert_eq!(fraction(&metrics, 67), 0.8);
}

#[test]
fn out_of_range_code_uses_missing_width_fallback() {
    let doc = Document::new();
    let dict = simple_font_dict(65, vec![600]);
    let metrics = parse_font_dict(&doc, &dict, &standard());
    assert_eq!(fraction(&metrics, 90), 0.5);
}

#[test]
fn missing_widths_array_falls_back_to_standard_helvetica_table() {
    let doc = Document::new();
    let mut d = Entries::new();
    set(&mut d, "Subtype", name("Type1"));
    set(&mut d, "BaseFont", name("Helvetica"));
    set(&mut d, "Encoding", name("WinAnsiEncoding"));
    let metrics = parse_font_dict(&doc, &d, &standard());
    assert_eq!(fraction(&metrics, 65), 0.667);
}

#[test]
fn arial_aliases_to_helvetica_metrics() {
    let doc = Document::new();
    let mut d = Entries::new();
    set(&mut d, "Subtype", name("TrueType"));
    set(&mut d, "BaseFont", name("Arial,Bold"));
    set(&mut d, "Encoding", name("WinAnsiEncoding"));
    let metrics = parse_font_dict(&doc, &d, &standard());
    assert_eq!(fraction(&metrics, 65), HELVETICA_BOLD_A as f64 / 1000.0);
}

#[test]
fn subset_prefix_is_stripped_before_matching() {
    let doc = Document::new();
    let mut d = Entries::new();
    set(&mut d, "Subtype", name("TrueType"));
    set(&mut d, "BaseFont", name("ABCDEF+Helvetica"));
    set(&mut d, "Encoding", name("WinAnsiEncoding"));
    let metrics = parse_font_dict(&doc, &d, &standard());
    assert_eq!(fraction(&metrics, 65), 0.667);
}

#[test]
fn w_array_range_form_is_parsed() {
    let doc = Document::new();
    let mut d = Entries::new();
    set(&mut d, "Subtype", name("Type0"));
    let mut desc = Entries::new();
    set(&mut desc, "W", ints(vec![10, 20, 500]));
    set(&mut desc, "DW", PdfObject::Integer(1000));
    set(&mut d, "DescendantFonts", PdfObject::Array(vec![PdfObject::Dictionary(desc)]));
    let metrics = parse_font_dict(&doc, &d, &standard());
    assert_eq!(fraction(&metrics, 15), 0.5);
    assert_eq!(fraction(&metrics, 999), 1.0);
    assert!(metrics.is_two_byte());
}

#[test]
fn w_array_list_form_is_parsed() {
    let doc = Document::new();
    let mut d = Entries::new();
    set(&mut d, "Subtype", name("Type0"));
    let mut desc = Entries::new();
    set(&mut desc, "W", PdfObject::Array(vec![PdfObject::Integer(100), ints(vec![300, 400, 500])]));
    set(&mut d, "DescendantFonts", PdfObject::Array(vec![PdfObject::Dictionary(desc)]));
    let metrics = parse_font_dict(&doc, &d, &standard());
    assert_eq!(fraction(&metrics, 100), 0.3);
    assert_eq!(fraction(&metrics, 101), 0.4);
    assert_eq!(fraction(&metrics, 102), 0.5);
}

#[test]
fn widths_behind_references_are_found() {
    let mut doc = Document::new();
    doc.objects.insert((5, 0), lopdf::Object::Array(vec![lopdf::Object::Integer(250)]));
    let mut inner = lopdf::Dictionary::new();
    inner.set("DW", lopdf::Object::Integer(900));
    inner.set("W", lopdf::Object::Reference((7, 0)));
    doc.objects.insert((6, 0), lopdf::Object::Dictionary(inner));
    doc.objects.insert(
        (7, 0),
        lopdf::Object::Array(vec![
            lopdf::Object::Integer(3),
            lopdf::Object::Reference((5, 0)),
            lopdf::Object::Integer(8),
            lopdf::Object::Real(9.9),
            lopdf::Object::Real(12.5),
        ]),
    );
    let mut d = Entries::new();
    set(&mut d, "Subtype", name("Type0"));
    set(&mut d, "DescendantFonts", PdfObject::Array(vec![PdfObject::Reference(6, 0)]));
    let metrics = parse_font_dict(&doc, &d, &standard());
    assert_eq!(fraction(&metrics, 3), 0.25);
    assert_eq!(fraction(&metrics, 8), 0.0125);
    assert_eq!(fraction(&metrics, 9), 0.0125);
    assert_eq!(fraction(&metrics, 10), 0.9);
}

#[test]
fn missing_width_comes_from_the_descriptor() {
    let mut doc = Document::new();
    let mut descriptor = lopdf::Dictionary::new();
    descriptor.set("MissingWidth", lopdf::Object::Integer(321));
    doc.objects.insert((9, 0), lopdf::Object::Dictionary(descriptor));
    doc.objects.insert((8, 0), lopdf::Object::Reference((9, 0)));
    let mut d = simple_font_dict(65, vec![600]);
    set(&mut d, "FontDescriptor", PdfObject::Reference(8, 0));
    let metrics = parse_font_dict(&doc, &d, &standard());
    assert_eq!(fraction(&metrics, 64), 0.321);
    assert_eq!(fraction(&metrics, 65), 0.6);
}

#[test]
fn unknown_fonts_fall_back() {
    let doc = Document::new();
    let mut d = Entries::new();
    set(&mut d, "Subtype", name("Type1"));
    set(&mut d, "BaseFont", name("Futura"));
    assert_eq!(fraction(&parse_font_dict(&doc, &d, &standard()), 65), 0.5);
    // The encoding of a font that names none is another one.
    let mut plain = Entries::new();
    set(&mut plain, "BaseFont", name("Helvetica"));
    assert_eq!(fraction(&parse_font_dict(&doc, &plain, &standard()), 65), 0.5);
    // A name that is no text is no name.
    let mut broken = Entries::new();
    set(&mut broken, "BaseFont", PdfObject::Name(vec![0xff, 0xfe]));
    assert_eq!(fraction(&parse_font_dict(&doc, &broken, &standard()), 65), 0.5);
    assert!(!parse_font_dict(&doc, &broken, &standard()).is_two_byte());
    let mut composite = Entries::new();
    set(&mut composite, "Subtype", name("Type0"));
    assert_eq!(fraction(&parse_font_dict(&doc, &composite, &standard()), 65), 0.5);
}

#[test]
fn real_numbers_are_truncated() {
    for v in [0.0f32, 1.0, -1.0, 0.99, 9.9, -9.9, 1e6, -1e6, 8388607.5, 16777216.0, 1e18, -1e18, 1e30, -1e30, 1e-40] {
        assert_eq!(truncate_real(v.to_bits()), v as i64, "{v}");
    }
    assert_eq!(truncate_real(f32::NAN.to_bits()), 0);
    assert_eq!(truncate_real(f32::INFINITY.to_bits()), i64::MAX);
    assert_eq!(truncate_real(f32::NEG_INFINITY.to_bits()), i64::MIN);
}

#[test]
fn own_widths_count_before_the_name() {
    let doc = Document::new();
    let mut d = simple_font_dict(65, vec![600]);
    set(&mut d, "BaseFont", name("Helvetica"));
    set(&mut d, "Encoding", name("WinAnsiEncoding"));
    let metrics = parse_font_dict(&doc, &d, &standard());
    assert_eq!(fraction(&metrics, 65), 0.6);
    assert_eq!(fraction(&metrics, 97), 0.5);
}

#[test]
fn glyph_numbers_wrap_and_broken_arrays_end() {
    let doc = Document::new();
    let composite = |w: PdfObject| {
        let mut desc = Entries::new();
        set(&mut desc, "W", w);
        let mut d = Entries::new();
        set(&mut d, "Subtype", name("Type0"));
        set(&mut d, "DescendantFonts", PdfObject::Array(vec![PdfObject::Dictionary(desc)]));
        parse_font_dict(&doc, &d, &standard())
    };
    let wrapped = composite(PdfObject::Array(vec![PdfObject::Integer(-1), ints(vec![100, 200])]));
    assert_eq!(fraction(&wrapped, u32::MAX), 0.1);
    assert_eq!(fraction(&wrapped, 0), 0.2);
    assert_eq!(fraction(&wrapped, 1), 1.0);
    let broken = composite(PdfObject::Array(vec![
        PdfObject::Integer(5),
        ints(vec![100]),
        PdfObject::Null,
        PdfObject::Integer(6),
        ints(vec![100]),
    ]));
    assert_eq!(fraction(&broken, 5), 0.1);
    assert_eq!(fraction(&broken, 6), 1.0);
    let cut_short = composite(ints(vec![5, 6]));
    assert_eq!(fraction(&cut_short, 5), 1.0);
}
