//! The widths of the glyphs of a font, as its dictionary gives them.
use crate::pdf_document::{
    as_dictionary, as_items, ascii, ascii_bytes, document_objects, find_key, find_object,
    fonts_of_page, page_fonts, resolved,
};
use crate::pdf_object::{
    as_number, copy_bytes, entry, entry_views, lemma_array_view, number_of, object_views,
    same_bytes, truncate_real, whole_part, Number, ObjectView, PdfObject,
};
use crate::text::{from_utf8_lossy, lossy_text};
use std::collections::HashMap;
use vstd::prelude::*;
use vstd::utf8::valid_utf8;

verus! {

/// The width of a glyph that a font says nothing of, in thousandths of the font size.
pub const FALLBACK_WIDTH: i64 = 500;

/// The width of a glyph of a composite font that its widths leave out, where the font gives no
/// other, in thousandths of the font size.
pub const DEFAULT_CID_WIDTH: i64 = 1000;

/// The glyph widths of a standard font in one encoding.
#[derive(Debug)]
pub struct StandardTable {
    pub font: Vec<u8>,
    pub encoding: Vec<u8>,
    /// The width for each character code, in thousandths of the font size.
    pub widths: Vec<u16>,
}

/// The standard fonts, which a PDF file may use without giving their widths.
#[derive(Debug)]
pub struct StandardFonts {
    /// Other names of fonts, each with the name of the standard font that it stands for.
    pub aliases: Vec<(Vec<u8>, Vec<u8>)>,
    pub tables: Vec<StandardTable>,
}

/// The standard fonts as a value.
pub ghost struct StandardView {
    pub aliases: Seq<(Seq<u8>, Seq<u8>)>,
    pub tables: Seq<(Seq<u8>, Seq<u8>, Seq<u16>)>,
}

impl View for StandardFonts {
    type V = StandardView;

    open spec fn view(&self) -> StandardView {
        StandardView {
            aliases: Seq::new(
                self.aliases@.len(),
                |i: int| (self.aliases@[i].0@, self.aliases@[i].1@),
            ),
            tables: Seq::new(
                self.tables@.len(),
                |i: int|
                    (self.tables@[i].font@, self.tables@[i].encoding@, self.tables@[i].widths@),
            ),
        }
    }
}

/// The standard name of a font: what the first alias with its name stands for, and its own name
/// where there is none.
pub open spec fn standard_name(aliases: Seq<(Seq<u8>, Seq<u8>)>, name: Seq<u8>) -> Seq<u8>
    decreases aliases.len(),
{
    if aliases.len() == 0 {
        name
    } else if aliases[0].0 == name {
        aliases[0].1
    } else {
        standard_name(aliases.skip(1), name)
    }
}

/// The widths of a standard font in an encoding.
pub open spec fn standard_widths(
    tables: Seq<(Seq<u8>, Seq<u8>, Seq<u16>)>,
    font: Seq<u8>,
    encoding: Seq<u8>,
) -> Option<Seq<u16>>
    decreases tables.len(),
{
    if tables.len() == 0 {
        None
    } else if tables[0].0 == font && tables[0].1 == encoding {
        Some(tables[0].2)
    } else {
        standard_widths(tables.skip(1), font, encoding)
    }
}

impl StandardFonts {
    /// The standard name of a font.
    pub fn normalize_base_font_name(&self, name: &[u8]) -> (r: Vec<u8>)
        ensures
            r@ == standard_name(self@.aliases, name@),
    {
        let ghost all = self@.aliases;
        let mut i: usize = 0;
        assert(all.skip(0) =~= all);
        while i < self.aliases.len()
            invariant
                i <= self.aliases@.len(),
                all == self@.aliases,
                standard_name(all, name@) == standard_name(all.skip(i as int), name@),
            decreases self.aliases@.len() - i,
        {
            assert(all.skip(i as int)[0] == all[i as int]);
            assert(all.skip(i as int).skip(1) =~= all.skip(i + 1));
            if same_bytes(&self.aliases[i].0, name) {
                return copy_bytes(&self.aliases[i].1);
            }
            i = i + 1;
        }
        copy_bytes(name)
    }

    /// The widths of a standard font in an encoding, where they are known.
    pub fn standard_font_table(&self, font: &[u8], encoding: &[u8]) -> (r: Option<&Vec<u16>>)
        ensures
            match r {
                Some(widths) => standard_widths(self@.tables, font@, encoding@) == Some(widths@),
                None => standard_widths(self@.tables, font@, encoding@) is None,
            },
    {
        let ghost all = self@.tables;
        let mut i: usize = 0;
        assert(all.skip(0) =~= all);
        while i < self.tables.len()
            invariant
                i <= self.tables@.len(),
                all == self@.tables,
                standard_widths(all, font@, encoding@) == standard_widths(
                    all.skip(i as int),
                    font@,
                    encoding@,
                ),
            decreases self.tables@.len() - i,
        {
            assert(all.skip(i as int)[0] == all[i as int]);
            assert(all.skip(i as int).skip(1) =~= all.skip(i + 1));
            let table: &StandardTable = &self.tables[i];
            if same_bytes(&table.font, font) && same_bytes(&table.encoding, encoding) {
                return Some(&table.widths);
            }
            i = i + 1;
        }
        None
    }
}

/// Where the widths of the glyphs of a font come from. All widths are in thousandths of the font
/// size.
pub enum FontMetrics {
    /// A font with one byte to a character and widths of its own.
    Simple { first_char: i64, widths: Vec<Number>, missing_width: Number },
    /// A standard font.
    StandardTable(Vec<u16>),
    /// A composite font, with two bytes to a character that number the glyph.
    Composite { widths_by_cid: HashMap<u32, Number>, default_width: Number },
    /// A font that says nothing of its widths.
    Fallback,
}

/// The source of glyph widths as a value.
pub ghost enum MetricsView {
    Simple { first_char: int, widths: Seq<Number>, missing_width: Number },
    StandardTable(Seq<u16>),
    Composite { widths_by_cid: Map<u32, Number>, default_width: Number },
    Fallback,
}

impl View for FontMetrics {
    type V = MetricsView;

    open spec fn view(&self) -> MetricsView {
        match self {
            FontMetrics::Simple { first_char, widths, missing_width } => MetricsView::Simple {
                first_char: *first_char as int,
                widths: widths@,
                missing_width: *missing_width,
            },
            FontMetrics::StandardTable(widths) => MetricsView::StandardTable(widths@),
            FontMetrics::Composite { widths_by_cid, default_width } => MetricsView::Composite {
                widths_by_cid: widths_by_cid@,
                default_width: *default_width,
            },
            FontMetrics::Fallback => MetricsView::Fallback,
        }
    }
}

/// The width of the glyph for a character code, in thousandths of the font size.
pub open spec fn glyph_width(metrics: MetricsView, code: u32) -> Number {
    match metrics {
        MetricsView::Simple { first_char, widths, missing_width } => if 0 <= code - first_char
            < widths.len() {
            widths[code - first_char]
        } else {
            missing_width
        },
        MetricsView::StandardTable(widths) => if code < widths.len() {
            Number::Integer(widths[code as int] as i64)
        } else {
            Number::Integer(FALLBACK_WIDTH)
        },
        MetricsView::Composite { widths_by_cid, default_width } => if widths_by_cid.contains_key(
            code,
        ) {
            widths_by_cid[code]
        } else {
            default_width
        },
        MetricsView::Fallback => Number::Integer(FALLBACK_WIDTH),
    }
}

impl FontMetrics {
    /// The width of the glyph for a character code, in thousandths of the font size.
    pub fn width_fraction(&self, code: u32) -> (r: Number)
        ensures
            r == glyph_width(self@, code),
    {
        broadcast use vstd::std_specs::hash::group_hash_axioms;

        match self {
            FontMetrics::Simple { first_char, widths, missing_width } => {
                let index: i128 = code as i128 - *first_char as i128;
                if 0 <= index && index < widths.len() as i128 {
                    widths[index as usize]
                } else {
                    *missing_width
                }
            },
            FontMetrics::StandardTable(widths) => if (code as u64) < widths.len() as u64 {
                Number::Integer(widths[code as usize] as i64)
            } else {
                Number::Integer(FALLBACK_WIDTH)
            },
            FontMetrics::Composite { widths_by_cid, default_width } => match widths_by_cid.get(
                &code,
            ) {
                Some(width) => *width,
                None => *default_width,
            },
            FontMetrics::Fallback => Number::Integer(FALLBACK_WIDTH),
        }
    }

    /// Whether a character takes two bytes.
    pub fn is_two_byte(&self) -> (r: bool)
        ensures
            r == (self@ is Composite),
    {
        match self {
            FontMetrics::Composite { .. } => true,
            _ => false,
        }
    }
}

/// A number as far as it fits into 32 bits.
pub open spec fn low_32_bits(n: int) -> u32 {
    (n % 0x1_0000_0000) as u32
}

/// The widths with those of a list from `first` on: `n` items of it.
pub open spec fn with_list(
    widths: Map<u32, Number>,
    first: int,
    list: Seq<ObjectView>,
    n: nat,
) -> Map<u32, Number>
    decreases n,
{
    if n == 0 {
        widths
    } else {
        with_list(widths, first, list, (n - 1) as nat).insert(
            low_32_bits(first + n - 1),
            number_of(list[n - 1]),
        )
    }
}

/// The widths with one and the same width for `n` glyphs from `first` on.
pub open spec fn with_range(
    widths: Map<u32, Number>,
    first: int,
    n: nat,
    width: Number,
) -> Map<u32, Number>
    decreases n,
{
    if n == 0 {
        widths
    } else {
        with_range(widths, first, (n - 1) as nat, width).insert(low_32_bits(first + n - 1), width)
    }
}

/// How many numbers there are from `first` to `last`, both included.
pub open spec fn range_size(first: int, last: int) -> nat {
    if last >= first {
        (last - first + 1) as nat
    } else {
        0
    }
}

/// The widths with those that an array of a composite font gives. It holds, over and over, the
/// number of a glyph with a list of widths from that glyph on, or the numbers of a first and a
/// last glyph with one width for all from the one to the other; it is read as far as it does.
pub open spec fn cid_widths(
    objects: Map<(u32, u16), ObjectView>,
    items: Seq<ObjectView>,
    widths: Map<u32, Number>,
) -> Map<u32, Number>
    decreases items.len(),
{
    if items.len() < 2 {
        widths
    } else {
        match items[0] {
            ObjectView::Integer(first) => match items[1] {
                ObjectView::Array(list) => cid_widths(
                    objects,
                    items.skip(2),
                    with_list(widths, first as int, list, list.len()),
                ),
                ObjectView::Reference(number, generation) => cid_widths(
                    objects,
                    items.skip(2),
                    match resolved(objects, (number, generation)) {
                        Some(ObjectView::Array(list)) => with_list(
                            widths,
                            first as int,
                            list,
                            list.len(),
                        ),
                        _ => widths,
                    },
                ),
                ObjectView::Integer(last) => if items.len() < 3 {
                    widths
                } else {
                    cid_widths(
                        objects,
                        items.skip(3),
                        with_range(
                            widths,
                            first as int,
                            range_size(first as int, last as int),
                            number_of(items[2]),
                        ),
                    )
                },
                ObjectView::Real(bits) => if items.len() < 3 {
                    widths
                } else {
                    cid_widths(
                        objects,
                        items.skip(3),
                        with_range(
                            widths,
                            first as int,
                            range_size(first as int, whole_part(bits)),
                            number_of(items[2]),
                        ),
                    )
                },
                _ => widths,
            },
            _ => widths,
        }
    }
}

fn wrap(n: i128) -> (r: u32)
    requires
        i64::MIN <= n < 0x2_0000_0000_0000_0000,
    ensures
        r == low_32_bits(n as int),
{
    let shifted: u128 = (n + 0x8000_0000_0000_0000) as u128;
    assert((n + 0x8000_0000_0000_0000) % 0x1_0000_0000 == n as int % 0x1_0000_0000);
    (shifted % 0x1_0000_0000) as u32
}

fn insert_list(widths: &mut HashMap<u32, Number>, first: i64, list: &[PdfObject])
    ensures
        final(widths)@ == with_list(
            old(widths)@,
            first as int,
            object_views(list@),
            list@.len(),
        ),
{
    broadcast use vstd::std_specs::hash::group_hash_axioms;

    let ghost start = widths@;
    let ghost all = object_views(list@);
    let mut i: usize = 0;
    while i < list.len()
        invariant
            i <= list@.len(),
            all == object_views(list@),
            widths@ == with_list(start, first as int, all, i as nat),
        decreases list@.len() - i,
    {
        broadcast use vstd::std_specs::hash::group_hash_axioms;

        let key: u32 = wrap(first as i128 + i as i128);
        widths.insert(key, as_number(&list[i]));
        assert(all[i as int] == list@[i as int]@);
        i = i + 1;
    }
}

fn insert_range(widths: &mut HashMap<u32, Number>, first: i64, last: i64, width: Number)
    ensures
        final(widths)@ == with_range(
            old(widths)@,
            first as int,
            range_size(first as int, last as int),
            width,
        ),
{
    broadcast use vstd::std_specs::hash::group_hash_axioms;

    let ghost start = widths@;
    let size: i128 = if last >= first {
        last as i128 - first as i128 + 1
    } else {
        0
    };
    let mut k: i128 = 0;
    while k < size
        invariant
            0 <= k <= size,
            size == range_size(first as int, last as int),
            widths@ == with_range(start, first as int, k as nat, width),
        decreases size - k,
    {
        broadcast use vstd::std_specs::hash::group_hash_axioms;

        let key: u32 = wrap(first as i128 + k);
        widths.insert(key, width);
        k = k + 1;
    }
}

/// Reads the widths of a composite font.
pub fn parse_w_array(doc: &lopdf::Document, w_array: &[PdfObject]) -> (r: HashMap<u32, Number>)
    ensures
        r@ == cid_widths(document_objects(*doc), object_views(w_array@), Map::empty()),
{
    broadcast use vstd::std_specs::hash::group_hash_axioms;

    let ghost objects = document_objects(*doc);
    let ghost all = object_views(w_array@);
    let ghost whole = cid_widths(objects, all, Map::empty());
    let mut widths: HashMap<u32, Number> = HashMap::new();
    let mut i: usize = 0;
    assert(all.skip(0) =~= all);
    assert(widths@ =~= Map::<u32, Number>::empty());
    while i < w_array.len()
        invariant
            i <= w_array@.len(),
            objects == document_objects(*doc),
            all == object_views(w_array@),
            whole == cid_widths(objects, all, Map::empty()),
            cid_widths(objects, all.skip(i as int), widths@) == whole,
        decreases w_array@.len() - i,
    {
        let ghost rest = all.skip(i as int);
        let n: usize = w_array.len();
        proof {
            assert(rest[0] == w_array@[i as int]@);
            assert(rest.len() >= 2 ==> rest[1] == w_array@[i + 1]@);
            assert(rest.len() >= 3 ==> rest[2] == w_array@[i + 2]@);
            assert(rest.len() >= 2 ==> rest.skip(2) =~= all.skip(i + 2));
            assert(rest.len() >= 3 ==> rest.skip(3) =~= all.skip(i + 3));
        }
        if n - i < 2 {
            return widths;
        }
        let first: i64 = match &w_array[i] {
            PdfObject::Integer(c) => *c,
            _ => {
                return widths;
            },
        };
        match &w_array[i + 1] {
            PdfObject::Array(list) => {
                proof {
                    lemma_array_view(*list);
                }
                insert_list(&mut widths, first, list);
                i = i + 2;
            },
            PdfObject::Reference(number, generation) => {
                if let Some(found) = find_object(doc, (*number, *generation)) {
                    if let Some(list) = as_items(&found) {
                        insert_list(&mut widths, first, list);
                    }
                }
                i = i + 2;
            },
            PdfObject::Integer(last) => {
                if n - i < 3 {
                    return widths;
                }
                insert_range(&mut widths, first, *last, as_number(&w_array[i + 2]));
                i = i + 3;
            },
            PdfObject::Real(bits) => {
                if n - i < 3 {
                    return widths;
                }
                insert_range(&mut widths, first, truncate_real(*bits), as_number(&w_array[i + 2]));
                i = i + 3;
            },
            _ => {
                return widths;
            },
        }
    }
    assert(all.skip(i as int).len() == 0);
    widths
}

/// `std::str::from_utf8` succeeds on bytes that are valid UTF-8, and on no other.
#[verifier::external_body]
fn is_utf8(bytes: &[u8]) -> (r: bool)
    ensures
        r == valid_utf8(bytes@),
{
    std::str::from_utf8(bytes).is_ok()
}

/// The name that an object is, where it is one and its bytes are text.
pub open spec fn name_text(o: Option<ObjectView>) -> Option<Seq<u8>> {
    match o {
        Some(ObjectView::Name(name)) => if valid_utf8(name) {
            Some(name)
        } else {
            None
        },
        _ => None,
    }
}

/// A dictionary, given directly or by a reference to it.
pub open spec fn dictionary_at(objects: Map<(u32, u16), ObjectView>, o: ObjectView) -> Option<
    Seq<(Seq<u8>, ObjectView)>,
> {
    match o {
        ObjectView::Dictionary(entries) => Some(entries),
        ObjectView::Reference(number, generation) => match resolved(objects, (number, generation)) {
            Some(ObjectView::Dictionary(entries)) => Some(entries),
            _ => None,
        },
        _ => None,
    }
}

/// The number under a key, and `default` where the key is missing.
pub open spec fn number_at(entries: Seq<(Seq<u8>, ObjectView)>, key: Seq<u8>, default: i64) -> Number {
    match entry(entries, key) {
        Some(o) => number_of(o),
        None => Number::Integer(default),
    }
}

/// The widths of a composite font whose glyphs are described by `entries`.
pub open spec fn descendant_metrics(
    objects: Map<(u32, u16), ObjectView>,
    entries: Seq<(Seq<u8>, ObjectView)>,
) -> MetricsView {
    MetricsView::Composite {
        default_width: number_at(entries, ascii("DW"@), DEFAULT_CID_WIDTH),
        widths_by_cid: match entry(entries, ascii("W"@)) {
            Some(ObjectView::Array(items)) => cid_widths(objects, items, Map::empty()),
            Some(ObjectView::Reference(number, generation)) => match resolved(
                objects,
                (number, generation),
            ) {
                Some(ObjectView::Array(items)) => cid_widths(objects, items, Map::empty()),
                _ => Map::empty(),
            },
            _ => Map::empty(),
        },
    }
}

/// The widths of a composite font: those of the first of the fonts that it is made of.
pub open spec fn composite_metrics(
    objects: Map<(u32, u16), ObjectView>,
    font: Seq<(Seq<u8>, ObjectView)>,
) -> MetricsView {
    match entry(font, ascii("DescendantFonts"@)) {
        Some(ObjectView::Array(items)) => if items.len() > 0 {
            match dictionary_at(objects, items[0]) {
                Some(entries) => descendant_metrics(objects, entries),
                None => MetricsView::Fallback,
            }
        } else {
            MetricsView::Fallback
        },
        _ => MetricsView::Fallback,
    }
}

/// The character code that the widths of a font start with.
pub open spec fn first_code(o: ObjectView) -> int {
    match o {
        ObjectView::Integer(n) => n as int,
        ObjectView::Real(bits) => whole_part(bits),
        _ => 0,
    }
}

/// The numbers that some objects are.
pub open spec fn numbers_of(items: Seq<ObjectView>) -> Seq<Number> {
    Seq::new(items.len(), |i: int| number_of(items[i]))
}

/// The width of the characters that the widths of a font leave out.
pub open spec fn missing_width(
    objects: Map<(u32, u16), ObjectView>,
    font: Seq<(Seq<u8>, ObjectView)>,
) -> Number {
    match entry(font, ascii("FontDescriptor"@)) {
        Some(o) => match dictionary_at(objects, o) {
            Some(entries) => number_at(entries, ascii("MissingWidth"@), FALLBACK_WIDTH),
            None => Number::Integer(FALLBACK_WIDTH),
        },
        None => Number::Integer(FALLBACK_WIDTH),
    }
}

/// The name of a font without the six characters and the plus sign that mark a subset of it.
pub open spec fn without_subset_mark(name: Seq<u8>) -> Seq<u8> {
    if name.len() >= 7 && name[6] == 0x2b {
        name.skip(7)
    } else {
        name
    }
}

/// The widths of a font that is known by its name.
pub open spec fn named_metrics(font: Seq<(Seq<u8>, ObjectView)>, standard: StandardView) -> MetricsView {
    match name_text(entry(font, ascii("BaseFont"@))) {
        Some(name) => {
            let encoding = match name_text(entry(font, ascii("Encoding"@))) {
                Some(encoding) => encoding,
                None => ascii("StandardEncoding"@),
            };
            match standard_widths(
                standard.tables,
                standard_name(standard.aliases, without_subset_mark(name)),
                encoding,
            ) {
                Some(widths) => MetricsView::StandardTable(widths),
                None => MetricsView::Fallback,
            }
        },
        None => MetricsView::Fallback,
    }
}

/// The widths of a font: of a composite font those that it is made of, of another font its own
/// where it gives any, and otherwise those of the standard font with its name.
pub open spec fn metrics_of(
    objects: Map<(u32, u16), ObjectView>,
    font: Seq<(Seq<u8>, ObjectView)>,
    standard: StandardView,
) -> MetricsView {
    if name_text(entry(font, ascii("Subtype"@))) == Some(ascii("Type0"@)) {
        composite_metrics(objects, font)
    } else {
        match (entry(font, ascii("FirstChar"@)), entry(font, ascii("Widths"@))) {
            (Some(first), Some(ObjectView::Array(items))) => MetricsView::Simple {
                first_char: first_code(first),
                widths: numbers_of(items),
                missing_width: missing_width(objects, font),
            },
            _ => named_metrics(font, standard),
        }
    }
}

fn dict_get_name(dict: &[(Vec<u8>, PdfObject)], key: &str) -> (r: Option<Vec<u8>>)
    ensures
        match r {
            Some(name) => name_text(entry(entry_views(dict@), ascii(key@))) == Some(name@),
            None => name_text(entry(entry_views(dict@), ascii(key@))) is None,
        },
{
    match find_key(dict, key) {
        Some(PdfObject::Name(name)) => if is_utf8(name) {
            Some(copy_bytes(name))
        } else {
            None
        },
        _ => None,
    }
}

fn number_or(dict: &[(Vec<u8>, PdfObject)], key: &str, default: i64) -> (r: Number)
    ensures
        r == number_at(entry_views(dict@), ascii(key@), default),
{
    match find_key(dict, key) {
        Some(o) => as_number(o),
        None => Number::Integer(default),
    }
}

fn descendant(doc: &lopdf::Document, dict: &[(Vec<u8>, PdfObject)]) -> (r: FontMetrics)
    ensures
        r@ == descendant_metrics(document_objects(*doc), entry_views(dict@)),
{
    broadcast use vstd::std_specs::hash::group_hash_axioms;

    let default_width: Number = number_or(dict, "DW", DEFAULT_CID_WIDTH);
    let none: HashMap<u32, Number> = HashMap::new();
    assert(none@ =~= Map::<u32, Number>::empty());
    let widths_by_cid: HashMap<u32, Number> = match find_key(dict, "W") {
        Some(PdfObject::Array(items)) => {
            proof {
                lemma_array_view(*items);
            }
            parse_w_array(doc, items)
        },
        Some(PdfObject::Reference(number, generation)) => match find_object(
            doc,
            (*number, *generation),
        ) {
            Some(found) => match as_items(&found) {
                Some(items) => parse_w_array(doc, items),
                None => none,
            },
            None => none,
        },
        _ => none,
    };
    FontMetrics::Composite { widths_by_cid, default_width }
}

fn composite_font(doc: &lopdf::Document, font_dict: &[(Vec<u8>, PdfObject)]) -> (r: FontMetrics)
    ensures
        r@ == composite_metrics(document_objects(*doc), entry_views(font_dict@)),
{
    if let Some(o) = find_key(font_dict, "DescendantFonts") {
        if let Some(items) = as_items(o) {
            assert(object_views(items@).len() == items@.len());
            if items.len() > 0 {
                assert(object_views(items@)[0] == items@[0]@);
                match &items[0] {
                    PdfObject::Reference(number, generation) => {
                        if let Some(found) = find_object(doc, (*number, *generation)) {
                            if let Some(entries) = as_dictionary(&found) {
                                return descendant(doc, entries);
                            }
                        }
                    },
                    first => {
                        if let Some(entries) = as_dictionary(first) {
                            return descendant(doc, entries);
                        }
                    },
                }
            }
        }
    }
    FontMetrics::Fallback
}

fn find_missing_width(doc: &lopdf::Document, font_dict: &[(Vec<u8>, PdfObject)]) -> (r: Number)
    ensures
        r == missing_width(document_objects(*doc), entry_views(font_dict@)),
{
    match find_key(font_dict, "FontDescriptor") {
        Some(PdfObject::Reference(number, generation)) => {
            if let Some(found) = find_object(doc, (*number, *generation)) {
                if let Some(entries) = as_dictionary(&found) {
                    return number_or(entries, "MissingWidth", FALLBACK_WIDTH);
                }
            }
        },
        Some(o) => {
            if let Some(entries) = as_dictionary(o) {
                return number_or(entries, "MissingWidth", FALLBACK_WIDTH);
            }
        },
        None => {},
    }
    Number::Integer(FALLBACK_WIDTH)
}

fn simple_font(
    doc: &lopdf::Document,
    font_dict: &[(Vec<u8>, PdfObject)],
    first: &PdfObject,
    items: &[PdfObject],
) -> (r: FontMetrics)
    ensures
        r@ == (MetricsView::Simple {
            first_char: first_code(first@),
            widths: numbers_of(object_views(items@)),
            missing_width: missing_width(document_objects(*doc), entry_views(font_dict@)),
        }),
{
    let first_char: i64 = match first {
        PdfObject::Integer(n) => *n,
        PdfObject::Real(bits) => truncate_real(*bits),
        _ => 0,
    };
    let ghost all = numbers_of(object_views(items@));
    let mut widths: Vec<Number> = Vec::new();
    let mut i: usize = 0;
    while i < items.len()
        invariant
            i <= items@.len(),
            all == numbers_of(object_views(items@)),
            widths@ == all.take(i as int),
        decreases items@.len() - i,
    {
        widths.push(as_number(&items[i]));
        assert(widths@ =~= all.take(i + 1));
        i = i + 1;
    }
    assert(widths@ =~= all);
    FontMetrics::Simple { first_char, widths, missing_width: find_missing_width(doc, font_dict) }
}

fn copy_widths(v: &[u16]) -> (r: Vec<u16>)
    ensures
        r@ == v@,
{
    let mut out: Vec<u16> = Vec::new();
    let mut i: usize = 0;
    while i < v.len()
        invariant
            i <= v@.len(),
            out@ == v@.take(i as int),
        decreases v@.len() - i,
    {
        out.push(v[i]);
        assert(out@ =~= v@.take(i + 1));
        i = i + 1;
    }
    assert(out@ =~= v@);
    out
}

fn named_font(font_dict: &[(Vec<u8>, PdfObject)], standard: &StandardFonts) -> (r: FontMetrics)
    ensures
        r@ == named_metrics(entry_views(font_dict@), standard@),
{
    if let Some(base_font) = dict_get_name(font_dict, "BaseFont") {
        let stripped: Vec<u8> = if base_font.len() >= 7 && base_font[6] == 0x2b {
            copy_bytes(vstd::slice::slice_subrange(base_font.as_slice(), 7, base_font.len()))
        } else {
            copy_bytes(&base_font)
        };
        assert(stripped@ =~= without_subset_mark(base_font@));
        let normalized: Vec<u8> = standard.normalize_base_font_name(&stripped);
        let encoding: Vec<u8> = match dict_get_name(font_dict, "Encoding") {
            Some(name) => name,
            None => ascii_bytes("StandardEncoding"),
        };
        if let Some(widths) = standard.standard_font_table(&normalized, &encoding) {
            return FontMetrics::StandardTable(copy_widths(widths));
        }
    }
    FontMetrics::Fallback
}

/// Reads where the widths of a font come from.
///
/// The characters of a composite font are taken to have two bytes each, which number the glyph.
pub fn parse_font_dict(
    doc: &lopdf::Document,
    font_dict: &[(Vec<u8>, PdfObject)],
    standard: &StandardFonts,
) -> (r: FontMetrics)
    ensures
        r@ == metrics_of(document_objects(*doc), entry_views(font_dict@), standard@),
{
    let composite: bool = match dict_get_name(font_dict, "Subtype") {
        Some(subtype) => same_bytes(&subtype, &ascii_bytes("Type0")),
        None => false,
    };
    if composite {
        return composite_font(doc, font_dict);
    }
    if let Some(first) = find_key(font_dict, "FirstChar") {
        if let Some(o) = find_key(font_dict, "Widths") {
            if let Some(items) = as_items(o) {
                return simple_font(doc, font_dict, first, items);
            }
        }
    }
    named_font(font_dict, standard)
}

/// The names and metrics of some fonts.
pub open spec fn font_views(fonts: Seq<(String, FontMetrics)>) -> Seq<(Seq<char>, MetricsView)> {
    Seq::new(fonts.len(), |i: int| (fonts[i].0@, fonts[i].1@))
}

/// The entries of a dictionary; none for any other object.
pub open spec fn entries_of(o: ObjectView) -> Seq<(Seq<u8>, ObjectView)> {
    match o {
        ObjectView::Dictionary(entries) => entries,
        _ => Seq::empty(),
    }
}

/// The names and metrics of the fonts with the given names and dictionaries.
pub open spec fn font_table(
    objects: Map<(u32, u16), ObjectView>,
    fonts: Seq<(Seq<u8>, ObjectView)>,
    standard: StandardView,
) -> Seq<(Seq<char>, MetricsView)> {
    Seq::new(
        fonts.len(),
        |i: int|
            (lossy_text(fonts[i].0), metrics_of(objects, entries_of(fonts[i].1), standard)),
    )
}

/// The metrics of every font that a page is drawn with, under the name that its content uses.
pub fn resolve_page_fonts(
    doc: &lopdf::Document,
    page: (u32, u16),
    standard: &StandardFonts,
) -> (r: Vec<(String, FontMetrics)>)
    ensures
        font_views(r@) == font_table(
            document_objects(*doc),
            fonts_of_page(document_objects(*doc), page),
            standard@,
        ),
{
    let fonts: Vec<(Vec<u8>, PdfObject)> = page_fonts(doc, page);
    let ghost objects = document_objects(*doc);
    let ghost all = font_table(objects, entry_views(fonts@), standard@);
    let mut out: Vec<(String, FontMetrics)> = Vec::new();
    let mut i: usize = 0;
    while i < fonts.len()
        invariant
            i <= fonts@.len(),
            objects == document_objects(*doc),
            all == font_table(objects, entry_views(fonts@), standard@),
            font_views(out@) == all.take(i as int),
        decreases fonts@.len() - i,
    {
        let ghost before = font_views(out@);
        let name: String = from_utf8_lossy(&fonts[i].0);
        let metrics: FontMetrics = match as_dictionary(&fonts[i].1) {
            Some(entries) => parse_font_dict(doc, entries, standard),
            None => {
                let none: Vec<(Vec<u8>, PdfObject)> = Vec::new();
                assert(entry_views(none@) =~= Seq::<(Seq<u8>, ObjectView)>::empty());
                parse_font_dict(doc, &none, standard)
            },
        };
        let ghost view = (name@, metrics@);
        assert(view == all[i as int]);
        out.push((name, metrics));
        assert(font_views(out@) =~= before.push(view));
        assert(all.take(i + 1) =~= all.take(i as int).push(all[i as int]));
        i = i + 1;
    }
    assert(all.take(i as int) =~= all);
    out
}

/// A range gives its width to every glyph in it, and leaves all other widths as they are.
pub proof fn law_range_widths(widths: Map<u32, Number>, first: int, last: int, width: Number, code: u32)
    requires
        0 <= first <= last <= u32::MAX,
    ensures
        ({
            let after = with_range(widths, first, range_size(first, last), width);
            if first <= code <= last {
                after.contains_key(code) && after[code] == width
            } else {
                after.contains_key(code) == widths.contains_key(code) && (widths.contains_key(code)
                    ==> after[code] == widths[code])
            }
        }),
{
    lemma_range_widths(widths, first, range_size(first, last), width, code);
}

proof fn lemma_range_widths(widths: Map<u32, Number>, first: int, n: nat, width: Number, code: u32)
    requires
        0 <= first,
        first + n <= 0x1_0000_0000,
    ensures
        ({
            let after = with_range(widths, first, n, width);
            if first <= code < first + n {
                after.contains_key(code) && after[code] == width
            } else {
                after.contains_key(code) == widths.contains_key(code) && (widths.contains_key(code)
                    ==> after[code] == widths[code])
            }
        }),
    decreases n,
{
    if n > 0 {
        lemma_range_widths(widths, first, (n - 1) as nat, width, code);
        assert(low_32_bits(first + n - 1) == first + n - 1);
    }
}

/// A list gives its widths to the glyphs from its first on, one each, and leaves all other
/// widths as they are.
pub proof fn law_list_widths(widths: Map<u32, Number>, first: int, list: Seq<ObjectView>, code: u32)
    requires
        0 <= first,
        first + list.len() <= 0x1_0000_0000,
    ensures
        ({
            let after = with_list(widths, first, list, list.len());
            if first <= code < first + list.len() {
                after.contains_key(code) && after[code] == number_of(list[code - first])
            } else {
                after.contains_key(code) == widths.contains_key(code) && (widths.contains_key(code)
                    ==> after[code] == widths[code])
            }
        }),
{
    lemma_list_widths(widths, first, list, list.len(), code);
}

proof fn lemma_list_widths(
    widths: Map<u32, Number>,
    first: int,
    list: Seq<ObjectView>,
    n: nat,
    code: u32,
)
    requires
        0 <= first,
        first + n <= 0x1_0000_0000,
        n <= list.len(),
    ensures
        ({
            let after = with_list(widths, first, list, n);
            if first <= code < first + n {
                after.contains_key(code) && after[code] == number_of(list[code - first])
            } else {
                after.contains_key(code) == widths.contains_key(code) && (widths.contains_key(code)
                    ==> after[code] == widths[code])
            }
        }),
    decreases n,
{
    if n > 0 {
        lemma_list_widths(widths, first, list, (n - 1) as nat, code);
        assert(low_32_bits(first + n - 1) == first + n - 1);
    }
}

/// A font that gives widths of its own is measured by them, whatever its name.
pub proof fn law_own_widths_come_first(
    objects: Map<(u32, u16), ObjectView>,
    font: Seq<(Seq<u8>, ObjectView)>,
    standard: StandardView,
    other: StandardView,
    first: ObjectView,
    items: Seq<ObjectView>,
)
    requires
        name_text(entry(font, ascii("Subtype"@))) != Some(ascii("Type0"@)),
        entry(font, ascii("FirstChar"@)) == Some(first),
        entry(font, ascii("Widths"@)) == Some(ObjectView::Array(items)),
    ensures
        metrics_of(objects, font, standard) == metrics_of(objects, font, other),
        metrics_of(objects, font, standard) is Simple,
{
}

/// Where the width of a glyph comes from: in a simple font from its list, at the place of its code
/// behind the first code, and otherwise what the font gives for the codes left out; in a standard
/// font from its table; in a composite font from what is given for its number, and otherwise the
/// default; and half the font size from none of these.
pub proof fn law_glyph_widths(
    first: int,
    widths: Seq<Number>,
    missing: Number,
    table: Seq<u16>,
    by_number: Map<u32, Number>,
    code: u32,
)
    ensures
        ({
            let simple = MetricsView::Simple { first_char: first, widths, missing_width: missing };
            let standard = MetricsView::StandardTable(table);
            let composite = MetricsView::Composite {
                widths_by_cid: by_number,
                default_width: missing,
            };
            &&& first <= code < first + widths.len() ==> glyph_width(simple, code) == widths[code
                - first]
            &&& code < first || code >= first + widths.len() ==> glyph_width(simple, code) == missing
            &&& code < table.len() ==> glyph_width(standard, code) == Number::Integer(
                table[code as int] as i64,
            )
            &&& code >= table.len() ==> glyph_width(standard, code) == Number::Integer(500)
            &&& by_number.contains_key(code) ==> glyph_width(composite, code) == by_number[code]
            &&& !by_number.contains_key(code) ==> glyph_width(composite, code) == missing
            &&& glyph_width(MetricsView::Fallback, code) == Number::Integer(500)
        }),
{
}

/// A font goes by the name that the first alias with its name stands for, and by its own name where
/// there is none; its widths in an encoding are those of the first table for both.
pub proof fn law_standard_fonts(
    a: Seq<(Seq<u8>, Seq<u8>)>,
    b: Seq<(Seq<u8>, Seq<u8>)>,
    alias: (Seq<u8>, Seq<u8>),
    name: Seq<u8>,
    c: Seq<(Seq<u8>, Seq<u8>, Seq<u16>)>,
    table: (Seq<u8>, Seq<u8>, Seq<u16>),
    encoding: Seq<u8>,
)
    ensures
        standard_name(Seq::empty(), name) == name,
        standard_name(seq![alias] + b, name) == if alias.0 == name {
            alias.1
        } else {
            standard_name(b, name)
        },
        (forall|i: int| 0 <= i < a.len() ==> (#[trigger] a[i]).0 != name) ==> standard_name(
            a + b,
            name,
        ) == standard_name(b, name),
        standard_widths(Seq::empty(), name, encoding) is None,
        standard_widths(seq![table] + c, name, encoding) == if table.0 == name && table.1
            == encoding {
            Some(table.2)
        } else {
            standard_widths(c, name, encoding)
        },
    decreases a.len(),
{
    assert((seq![alias] + b).skip(1) =~= b);
    assert((seq![table] + c).skip(1) =~= c);
    if forall|i: int| 0 <= i < a.len() ==> (#[trigger] a[i]).0 != name {
        if a.len() == 0 {
            assert(a + b =~= b);
        } else {
            assert(a[0].0 != name);
            assert forall|i: int| 0 <= i < a.skip(1).len() implies (#[trigger] a.skip(1)[i]).0
                != name by {
                assert(a.skip(1)[i] == a[i + 1]);
            }
            law_standard_fonts(a.skip(1), b, alias, name, c, table, encoding);
            assert((a + b).skip(1) =~= a.skip(1) + b);
        }
    }
}

/// The array of widths of a composite font is read from its front: a number and a list give the
/// widths of the glyphs from that number on, also where the list stands elsewhere; two numbers and
/// a width give that width to all glyphs from the one to the other; and what is neither ends it.
pub proof fn law_width_array(
    objects: Map<(u32, u16), ObjectView>,
    widths: Map<u32, Number>,
    first: i64,
    last: i64,
    bits: u32,
    list: Seq<ObjectView>,
    id: (u32, u16),
    width: ObjectView,
    other: ObjectView,
    rest: Seq<ObjectView>,
)
    requires
        !(other is Array),
        !(other is Reference),
        !(other is Integer),
        !(other is Real),
    ensures
        ({
            let from = ObjectView::Integer(first);
            &&& rest.len() < 2 ==> cid_widths(objects, rest, widths) == widths
            &&& cid_widths(objects, seq![from, ObjectView::Array(list)] + rest, widths)
                == cid_widths(objects, rest, with_list(widths, first as int, list, list.len()))
            &&& cid_widths(
                objects,
                seq![from, ObjectView::Reference(id.0, id.1)] + rest,
                widths,
            ) == cid_widths(
                objects,
                rest,
                match resolved(objects, id) {
                    Some(ObjectView::Array(items)) => with_list(
                        widths,
                        first as int,
                        items,
                        items.len(),
                    ),
                    _ => widths,
                },
            )
            &&& cid_widths(objects, seq![from, ObjectView::Integer(last), width] + rest, widths)
                == cid_widths(
                objects,
                rest,
                if last >= first {
                    with_range(
                        widths,
                        first as int,
                        (last - first + 1) as nat,
                        number_of(width),
                    )
                } else {
                    widths
                },
            )
            &&& cid_widths(objects, seq![from, ObjectView::Real(bits), width] + rest, widths)
                == cid_widths(
                objects,
                rest,
                if whole_part(bits) >= first {
                    with_range(
                        widths,
                        first as int,
                        (whole_part(bits) - first + 1) as nat,
                        number_of(width),
                    )
                } else {
                    widths
                },
            )
            &&& cid_widths(objects, seq![from, ObjectView::Integer(last)], widths) == widths
            &&& cid_widths(objects, seq![from, ObjectView::Real(bits)], widths) == widths
            &&& cid_widths(objects, seq![from, other] + rest, widths) == widths
            &&& cid_widths(objects, seq![other] + rest, widths) == widths
            &&& cid_widths(objects, seq![ObjectView::Real(bits)] + rest, widths) == widths
            &&& cid_widths(objects, seq![ObjectView::Array(list)] + rest, widths) == widths
            &&& cid_widths(objects, seq![ObjectView::Reference(id.0, id.1)] + rest, widths)
                == widths
        }),
{
    let from = ObjectView::Integer(first);
    assert((seq![from, ObjectView::Array(list)] + rest).skip(2) =~= rest);
    assert((seq![from, ObjectView::Reference(id.0, id.1)] + rest).skip(2) =~= rest);
    assert((seq![from, ObjectView::Integer(last), width] + rest).skip(3) =~= rest);
    assert((seq![from, ObjectView::Real(bits), width] + rest).skip(3) =~= rest);
    assert((seq![from, ObjectView::Array(list)] + rest)[1] == ObjectView::Array(list));
    assert((seq![from, ObjectView::Reference(id.0, id.1)] + rest)[1] == ObjectView::Reference(
        id.0,
        id.1,
    ));
    assert((seq![from, ObjectView::Integer(last), width] + rest)[1] == ObjectView::Integer(last));
    assert((seq![from, ObjectView::Integer(last), width] + rest)[2] == width);
    assert((seq![from, ObjectView::Real(bits), width] + rest)[1] == ObjectView::Real(bits));
    assert((seq![from, ObjectView::Real(bits), width] + rest)[2] == width);
    assert((seq![from, other] + rest)[1] == other);
    assert((seq![other] + rest)[0] == other);
    assert((seq![from, ObjectView::Array(list)] + rest)[0] == from);
    assert((seq![from, ObjectView::Reference(id.0, id.1)] + rest)[0] == from);
    assert((seq![from, ObjectView::Integer(last), width] + rest)[0] == from);
    assert((seq![from, ObjectView::Real(bits), width] + rest)[0] == from);
    assert((seq![from, other] + rest)[0] == from);
}

/// The numbers of glyphs are taken as far as 32 bits go.
pub proof fn law_glyph_numbers(n: int)
    ensures
        0 <= n <= u32::MAX ==> low_32_bits(n) == n,
        low_32_bits(n + 0x1_0000_0000) == low_32_bits(n),
{
}

/// Which widths a font has. A composite font has those of the first font that it is made of: by
/// its entry `W` for the glyphs that this lists, and by `DW`, or the full font size, for all others.
/// Another font has its own, from `FirstChar` on, where it has both that and `Widths`, and those of
/// its descriptor, or half the font size, for the codes left out. Any other has those of the
/// standard font of its name, without the mark of a subset, in its encoding or the standard one.
/// Where none of these are given, it has none.
pub proof fn law_widths_of_fonts(
    objects: Map<(u32, u16), ObjectView>,
    font: Seq<(Seq<u8>, ObjectView)>,
    standard: StandardView,
    part: ObjectView,
    made_of: Seq<(Seq<u8>, ObjectView)>,
    more: Seq<ObjectView>,
)
    ensures
        ({
            let subtype = entry(font, ascii("Subtype"@));
            let composite = subtype == Some(ObjectView::Name(ascii("Type0"@))) && valid_utf8(
                ascii("Type0"@),
            );
            let metrics = metrics_of(objects, font, standard);
            let parts = entry(font, ascii("DescendantFonts"@));
            let first = entry(font, ascii("FirstChar"@));
            let own = entry(font, ascii("Widths"@));
            let base = entry(font, ascii("BaseFont"@));
            let encoding = entry(font, ascii("Encoding"@));
            &&& composite && parts == Some(ObjectView::Array(seq![part] + more)) && dictionary_at(
                objects,
                part,
            ) == Some(made_of) ==> {
                &&& metrics is Composite
                &&& metrics->default_width == (if entry(made_of, ascii("DW"@)) is Some {
                    number_of(entry(made_of, ascii("DW"@))->Some_0)
                } else {
                    Number::Integer(1000)
                })
                &&& entry(made_of, ascii("W"@)) matches Some(ObjectView::Array(items))
                    ==> metrics->widths_by_cid == cid_widths(objects, items, Map::empty())
                &&& entry(made_of, ascii("W"@)) matches Some(ObjectView::Reference(number, generation))
                    ==> (resolved(objects, (number, generation)) matches Some(
                    ObjectView::Array(items),
                ) ==> metrics->widths_by_cid == cid_widths(objects, items, Map::empty()))
                &&& entry(made_of, ascii("W"@)) matches Some(o) ==> (!(o is Array) && !(
                o is Reference) ==> metrics->widths_by_cid == Map::<u32, Number>::empty())
                &&& entry(made_of, ascii("W"@)) matches Some(ObjectView::Reference(number, generation))
                    ==> (!(resolved(objects, (number, generation)) matches Some(
                    ObjectView::Array(_),
                )) ==> metrics->widths_by_cid == Map::<u32, Number>::empty())
                &&& entry(made_of, ascii("W"@)) is None ==> metrics->widths_by_cid == Map::<
                    u32,
                    Number,
                >::empty()
            }
            &&& composite && !(parts matches Some(ObjectView::Array(_))) ==> metrics is Fallback
            &&& composite && parts == Some(ObjectView::Array(Seq::empty())) ==> metrics is Fallback
            &&& composite && parts == Some(ObjectView::Array(seq![part] + more)) && dictionary_at(
                objects,
                part,
            ) is None ==> metrics is Fallback
            &&& !composite && first is Some && (own matches Some(ObjectView::Array(_))) ==> {
                &&& metrics is Simple
                &&& first matches Some(ObjectView::Integer(n)) ==> metrics->first_char == n
                &&& first matches Some(ObjectView::Real(bits)) ==> metrics->first_char == whole_part(
                    bits,
                )
                &&& first matches Some(o) ==> (!(o is Integer) && !(o is Real)
                    ==> metrics->first_char == 0)
                &&& own matches Some(ObjectView::Array(items)) ==> metrics->widths.len()
                    == items.len() && forall|i: int|
                    0 <= i < items.len() ==> #[trigger] metrics->widths[i] == number_of(items[i])
                &&& entry(font, ascii("FontDescriptor"@)) is None ==> metrics->missing_width
                    == Number::Integer(500)
                &&& entry(font, ascii("FontDescriptor"@)) matches Some(o) ==> metrics->missing_width
                    == (match dictionary_at(objects, o) {
                    Some(entries) => match entry(entries, ascii("MissingWidth"@)) {
                        Some(n) => number_of(n),
                        None => Number::Integer(500),
                    },
                    None => Number::Integer(500),
                })
            }
            &&& !composite && (first is None || !(own matches Some(ObjectView::Array(_)))) ==> {
                &&& base matches Some(ObjectView::Name(name)) ==> (!valid_utf8(name)
                    ==> metrics is Fallback)
                &&& base matches Some(ObjectView::Name(name)) ==> (valid_utf8(name) ==> {
                    let in_encoding = if encoding matches Some(ObjectView::Name(e)) && valid_utf8(
                        e,
                    ) {
                        encoding->Some_0->Name_0
                    } else {
                        ascii("StandardEncoding"@)
                    };
                    let short = if name.len() >= 7 && name[6] == 43 {
                        name.skip(7)
                    } else {
                        name
                    };
                    match standard_widths(
                        standard.tables,
                        standard_name(standard.aliases, short),
                        in_encoding,
                    ) {
                        Some(widths) => metrics == MetricsView::StandardTable(widths),
                        None => metrics is Fallback,
                    }
                })
                &&& !(base matches Some(ObjectView::Name(_))) ==> metrics is Fallback
            }
        }),
{
    assert((seq![part] + more)[0] == part);
}

/// A dictionary may stand elsewhere: a reference to it counts as the dictionary, and nothing else
/// does.
pub proof fn law_dictionaries_elsewhere(
    objects: Map<(u32, u16), ObjectView>,
    id: (u32, u16),
    entries: Seq<(Seq<u8>, ObjectView)>,
    o: ObjectView,
)
    ensures
        dictionary_at(objects, ObjectView::Dictionary(entries)) == Some(entries),
        resolved(objects, id) == Some(ObjectView::Dictionary(entries)) ==> dictionary_at(
            objects,
            ObjectView::Reference(id.0, id.1),
        ) == Some(entries),
        !(resolved(objects, id) matches Some(ObjectView::Dictionary(_))) ==> dictionary_at(
            objects,
            ObjectView::Reference(id.0, id.1),
        ) is None,
        !(o is Dictionary) && !(o is Reference) ==> dictionary_at(objects, o) is None,
{
}

/// Each font of a page has its name, read as text, and its own widths.
pub proof fn law_fonts_of_a_page(
    objects: Map<(u32, u16), ObjectView>,
    a: Seq<(Seq<u8>, ObjectView)>,
    b: Seq<(Seq<u8>, ObjectView)>,
    name: Seq<u8>,
    entries: Seq<(Seq<u8>, ObjectView)>,
    standard: StandardView,
)
    ensures
        font_table(objects, a + b, standard) == font_table(objects, a, standard) + font_table(
            objects,
            b,
            standard,
        ),
        font_table(objects, seq![(name, ObjectView::Dictionary(entries))], standard) == seq![
            (lossy_text(name), metrics_of(objects, entries, standard)),
        ],
{
    assert(font_table(objects, a + b, standard) =~= font_table(objects, a, standard) + font_table(
        objects,
        b,
        standard,
    ));
    assert(font_table(objects, seq![(name, ObjectView::Dictionary(entries))], standard) =~= seq![
        (lossy_text(name), metrics_of(objects, entries, standard)),
    ]);
}

/// Standard fonts and the widths of a font are seen as they are, part by part.
pub proof fn law_fonts_are_seen(
    standard: StandardFonts,
    i: int,
    metrics: FontMetrics,
    fonts: Seq<(String, FontMetrics)>,
)
    ensures
        standard@.aliases.len() == standard.aliases@.len(),
        0 <= i < standard.aliases@.len() ==> standard@.aliases[i].0 == standard.aliases@[i].0@
            && standard@.aliases[i].1 == standard.aliases@[i].1@,
        standard@.tables.len() == standard.tables@.len(),
        0 <= i < standard.tables@.len() ==> {
            &&& standard@.tables[i].0 == standard.tables@[i].font@
            &&& standard@.tables[i].1 == standard.tables@[i].encoding@
            &&& standard@.tables[i].2 == standard.tables@[i].widths@
        },
        match metrics {
            FontMetrics::Simple { first_char, widths, missing_width } => metrics@ is Simple
                && metrics@->first_char == first_char && metrics@->widths == widths@
                && metrics@->missing_width == missing_width,
            FontMetrics::StandardTable(widths) => metrics@ is StandardTable
                && metrics@->StandardTable_0 == widths@,
            FontMetrics::Composite { widths_by_cid, default_width } => metrics@ is Composite
                && metrics@->widths_by_cid == widths_by_cid@ && metrics@->default_width
                == default_width,
            FontMetrics::Fallback => metrics@ is Fallback,
        },
        font_views(fonts).len() == fonts.len(),
        0 <= i < fonts.len() ==> font_views(fonts)[i].0 == fonts[i].0@ && font_views(fonts)[i].1
            == fonts[i].1@,
{
}

/// Widths are given one glyph at a time: a range of glyphs gives what its first and its other part
/// give one after the other, a list likewise, and one glyph gets its width, whatever it had before.
/// Numbers of glyphs count as far as 32 bits go.
pub proof fn law_widths_one_by_one(
    widths: Map<u32, Number>,
    first: int,
    m: nat,
    n: nat,
    width: Number,
    a: Seq<ObjectView>,
    b: Seq<ObjectView>,
    o: ObjectView,
)
    ensures
        with_range(widths, first, m + n, width) == with_range(
            with_range(widths, first, m, width),
            first + m,
            n,
            width,
        ),
        with_range(widths, first, 1, width) == widths.insert((first % 4_294_967_296) as u32, width),
        with_range(widths, first, 0, width) == widths,
        with_list(widths, first, a + b, (a + b).len()) == with_list(
            with_list(widths, first, a, a.len()),
            first + a.len(),
            b,
            b.len(),
        ),
        with_list(widths, first, seq![o], 1) == widths.insert(
            (first % 4_294_967_296) as u32,
            number_of(o),
        ),
        with_list(widths, first, Seq::empty(), 0) == widths,
{
    lemma_range_parts(widths, first, m, n, width);
    assert(with_range(widths, first, 0, width) == widths);
    lemma_list_parts(widths, first, a, b, b.len());
    assert(a + b.take(b.len() as int) =~= a + b);
    assert(with_list(widths, first, seq![o], 0) == widths);
}

proof fn lemma_range_parts(widths: Map<u32, Number>, first: int, m: nat, n: nat, width: Number)
    ensures
        with_range(widths, first, m + n, width) == with_range(
            with_range(widths, first, m, width),
            first + m,
            n,
            width,
        ),
    decreases n,
{
    if n > 0 {
        lemma_range_parts(widths, first, m, (n - 1) as nat, width);
        assert((m + n - 1) as nat == m + (n - 1) as nat);
    }
}

proof fn lemma_same_list(
    widths: Map<u32, Number>,
    first: int,
    a: Seq<ObjectView>,
    b: Seq<ObjectView>,
    n: nat,
)
    requires
        n <= a.len(),
        n <= b.len(),
        forall|i: int| 0 <= i < n ==> a[i] == b[i],
    ensures
        with_list(widths, first, a, n) == with_list(widths, first, b, n),
    decreases n,
{
    if n > 0 {
        lemma_same_list(widths, first, a, b, (n - 1) as nat);
    }
}

proof fn lemma_list_parts(
    widths: Map<u32, Number>,
    first: int,
    a: Seq<ObjectView>,
    b: Seq<ObjectView>,
    n: nat,
)
    requires
        n <= b.len(),
    ensures
        with_list(widths, first, a + b, a.len() + n) == with_list(
            with_list(widths, first, a, a.len()),
            first + a.len(),
            b,
            n,
        ),
    decreases n,
{
    if n > 0 {
        let m = (n - 1) as nat;
        lemma_list_parts(widths, first, a, b, m);
        assert((a.len() + n - 1) as nat == a.len() + m);
        assert((a + b)[a.len() + n - 1] == b[n - 1]);
    } else {
        lemma_same_list(widths, first, a + b, a, a.len());
    }
}

/// A font that no dictionary describes has no widths of its own, and counts by its name all the
/// same.
pub proof fn law_fonts_without_description(
    objects: Map<(u32, u16), ObjectView>,
    name: Seq<u8>,
    o: ObjectView,
    standard: StandardView,
)
    requires
        !(o is Dictionary),
    ensures
        font_table(objects, seq![(name, o)], standard).len() == 1,
        font_table(objects, seq![(name, o)], standard)[0].0 == lossy_text(name),
        font_table(objects, seq![(name, o)], standard)[0].1 is Fallback,
        font_table(objects, Seq::empty(), standard).len() == 0,
{
}

} // verus!
