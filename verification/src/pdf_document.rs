//! A loaded PDF file: its objects, its pages, and what a page refers to.
use crate::pdf_object::{
    as_number, copy_bytes, entry, entry_views, find_entry, lemma_array_view, lemma_dictionary_view,
    lemma_stream_view, number_of, object_views, same_bytes, Number, ObjectView, PdfObject,
};
use crate::stream_filters::{decode_content, decodes_to, StreamFilter};
use crate::text::chars_of;
use vstd::prelude::*;

verus! {

/// `lopdf::Document`, a loaded PDF file.
#[verifier::external_type_specification]
#[verifier::external_body]
pub struct ExDocument(lopdf::Document);

/// `lopdf::Object`, an object of a PDF file.
#[verifier::external_type_specification]
#[verifier::external_body]
pub struct ExObject(lopdf::Object);

/// `lopdf::Error`, the reason why a PDF file was not read.
#[verifier::external_type_specification]
#[verifier::external_body]
pub struct ExError(lopdf::Error);

/// What an object holds.
pub uninterp spec fn object_contents(o: lopdf::Object) -> ObjectView;

/// The entries of the trailer of a file.
pub uninterp spec fn document_trailer(doc: lopdf::Document) -> Seq<(Seq<u8>, ObjectView)>;

/// The objects of a file, by number and generation.
pub uninterp spec fn document_objects(doc: lopdf::Document) -> Map<(u32, u16), ObjectView>;

/// The words for an error.
pub uninterp spec fn error_words(e: lopdf::Error) -> Seq<char>;

/// The trailer and the objects of the PDF file that some bytes are; for other bytes, what is
/// wrong with them in words.
pub uninterp spec fn pdf_parse(bytes: Seq<u8>) -> Result<
    (Seq<(Seq<u8>, ObjectView)>, Map<(u32, u16), ObjectView>),
    Seq<char>,
>;

/// The page objects of a file with the given trailer and objects, in page order.
pub uninterp spec fn page_tree(
    trailer: Seq<(Seq<u8>, ObjectView)>,
    objects: Map<(u32, u16), ObjectView>,
) -> Seq<(u32, u16)>;

/// The content streams of a page, in order.
pub uninterp spec fn page_streams(objects: Map<(u32, u16), ObjectView>, page: (u32, u16)) -> Seq<
    (u32, u16),
>;

/// The fonts that a page can use: the name of each and the dictionary that describes it. Nothing
/// where the way up the page tree is damaged.
pub uninterp spec fn page_font_entries(
    objects: Map<(u32, u16), ObjectView>,
    page: (u32, u16),
) -> Option<Seq<(Seq<u8>, ObjectView)>>;

/// The operations of a content stream: the operator and the operands of each.
pub uninterp spec fn content_operations(bytes: Seq<u8>) -> Option<
    Seq<(Seq<char>, Seq<ObjectView>)>,
>;

/// How many references are followed, one after another, to get to an object.
pub open spec fn deref_limit() -> nat {
    128
}

/// The object at the end of the references that start with `o`.
pub open spec fn dereferenced(
    objects: Map<(u32, u16), ObjectView>,
    o: ObjectView,
    limit: nat,
) -> Option<ObjectView>
    decreases limit,
{
    match o {
        ObjectView::Reference(number, generation) => if !objects.contains_key((number, generation))
            || limit == 0 {
            None
        } else {
            dereferenced(objects, objects[(number, generation)], (limit - 1) as nat)
        },
        _ => Some(o),
    }
}

/// The object with the given number and generation, or what it refers to.
pub open spec fn resolved(objects: Map<(u32, u16), ObjectView>, id: (u32, u16)) -> Option<
    ObjectView,
> {
    if objects.contains_key(id) {
        dereferenced(objects, objects[id], deref_limit())
    } else {
        None
    }
}

/// The number that a hexadecimal digit stands for.
pub open spec fn hex_digit_value(b: u8) -> Option<nat> {
    if 0x30 <= b <= 0x39 {
        Some((b - 0x30) as nat)
    } else if 0x41 <= b <= 0x46 {
        Some((b - 0x37) as nat)
    } else if 0x61 <= b <= 0x66 {
        Some((b - 0x57) as nat)
    } else {
        None
    }
}

/// Whether the bytes from `at` on spell out the characters of a name, each of them as it is or as
/// `#` and two hexadecimal digits.
pub open spec fn spells(bytes: Seq<u8>, at: int, name: Seq<u8>) -> bool
    decreases name.len(),
{
    if name.len() == 0 {
        true
    } else if !(0 <= at < bytes.len()) {
        false
    } else if bytes[at] == name[0] {
        spells(bytes, at + 1, name.skip(1))
    } else if bytes[at] == 0x23 && at + 2 < bytes.len() {
        match (hex_digit_value(bytes[at + 1]), hex_digit_value(bytes[at + 2])) {
            (Some(high), Some(low)) => 16 * high + low == name[0] && spells(
                bytes,
                at + 3,
                name.skip(1),
            ),
            _ => false,
        }
    } else {
        false
    }
}

/// Whether the name of the entry that encrypted files have in their trailers occurs in a file,
/// with the `/` that names begin with.
pub open spec fn names_encryption(bytes: Seq<u8>) -> bool {
    exists|at: int|
        0 < at <= bytes.len() && bytes[at - 1] == 0x2f && #[trigger] spells(
            bytes,
            at,
            ascii("Encrypt"@),
        )
}

/// `lopdf::Document::load_mem` reads a PDF file: it succeeds on the bytes of such a file, and
/// the document then holds the trailer and the objects of the file; otherwise its error says in
/// words what is wrong. It ends on every input: sections and lengths that refer to one another in
/// a circle are left alone, and objects that nest too deep are not read. Streams whose lengths are
/// held by other streams are read one inside the other, which takes as much stack as there are of
/// them: the machine is taken to have it. An encrypted file it decrypts, and takes the containers
/// of its objects in an order that differs from run to run, so nothing is claimed of what comes
/// out of a file that names encryption.
pub assume_specification[ lopdf::Document::load_mem ](buffer: &[u8]) -> (r: Result<
    lopdf::Document,
    lopdf::Error,
>)
    ensures
        !names_encryption(buffer@) ==> match r {
            Ok(doc) => pdf_parse(buffer@) == Ok::<_, Seq<char>>(
                (document_trailer(doc), document_objects(doc)),
            ),
            Err(e) => pdf_parse(buffer@) == Err::<
                (Seq<(Seq<u8>, ObjectView)>, Map<(u32, u16), ObjectView>),
                _,
            >(error_words(e)),
        },
;

/// A `lopdf::Error` in words, by `ToString::to_string`. The words are named, not described.
#[verifier::external_body]
pub(crate) fn describe(e: &lopdf::Error) -> (r: String)
    ensures
        r@ == error_words(*e),
{
    e.to_string()
}

/// `lopdf::Document::get_object` finds an object by its number and generation and follows
/// references, up to 128 of them, to an object that is none.
pub assume_specification<'a>[ lopdf::Document::get_object ](
    doc: &'a lopdf::Document,
    id: (u32, u16),
) -> (r: Result<&'a lopdf::Object, lopdf::Error>)
    ensures
        match r {
            Ok(o) => resolved(document_objects(*doc), id) == Some(object_contents(*o)),
            Err(_) => resolved(document_objects(*doc), id) is None,
        },
;

/// `lopdf::Document::page_iter` walks the page tree and gives the page objects in page order.
/// They are taken one by one: how many it announces beforehand a damaged file can set to any
/// number.
#[verifier::external_body]
fn page_ids(doc: &lopdf::Document) -> (r: Vec<(u32, u16)>)
    ensures
        r@ == page_tree(document_trailer(*doc), document_objects(*doc)),
{
    let mut ids = Vec::new();
    for id in doc.page_iter() {
        ids.push(id);
    }
    ids
}

/// `lopdf::Document::get_page_contents` gives the content streams of a page, in order.
pub assume_specification[ lopdf::Document::get_page_contents ](
    doc: &lopdf::Document,
    page_id: (u32, u16),
) -> (r: Vec<(u32, u16)>)
    ensures
        r@ == page_streams(document_objects(*doc), page_id),
;

/// The names and contents of some objects.
pub open spec fn named_contents(items: Seq<(Vec<u8>, lopdf::Object)>) -> Seq<
    (Seq<u8>, ObjectView),
> {
    Seq::new(items.len(), |i: int| (items[i].0@, object_contents(items[i].1)))
}

/// `lopdf::Document::get_page_fonts` gives the fonts that a page can use, from its own resources
/// and from those of the page tree above it. It gives nothing where the tree above the page goes
/// round in a circle, is deeper than it follows, or has a gap.
#[verifier::external_body]
fn get_page_fonts(doc: &lopdf::Document, page: (u32, u16)) -> (r: Option<
    Vec<(Vec<u8>, lopdf::Object)>,
>)
    ensures
        match r {
            Some(fonts) => page_font_entries(document_objects(*doc), page) == Some(
                named_contents(fonts@),
            ),
            None => page_font_entries(document_objects(*doc), page) is None,
        },
{
    let fonts = doc.get_page_fonts(page).ok()?;
    Some(
        fonts.into_iter().map(
            |(name, font)| (name, lopdf::Object::Dictionary(font.clone())),
        ).collect(),
    )
}

/// The contents of some objects.
pub open spec fn contents_of(items: Seq<lopdf::Object>) -> Seq<ObjectView> {
    Seq::new(items.len(), |i: int| object_contents(items[i]))
}

/// The operators and operands of some operations.
pub open spec fn operation_contents(operations: Seq<(String, Vec<lopdf::Object>)>) -> Seq<
    (Seq<char>, Seq<ObjectView>),
> {
    Seq::new(operations.len(), |i: int| (operations[i].0@, contents_of(operations[i].1@)))
}

/// `lopdf::content::Content::decode` reads the operations of a content stream.
#[verifier::external_body]
fn decode_operations(bytes: &[u8]) -> (r: Option<Vec<(String, Vec<lopdf::Object>)>>)
    ensures
        match r {
            Some(operations) => content_operations(bytes@) == Some(
                operation_contents(operations@),
            ),
            None => content_operations(bytes@) is None,
        },
{
    let content = lopdf::content::Content::decode(bytes).ok()?;
    Some(content.operations.into_iter().map(|op| (op.operator, op.operands)).collect())
}

/// A `lopdf::Object` that holds no other object, as a plain value; nothing for an array, a
/// dictionary or a stream.
#[verifier::external_body]
fn scalar_value(o: &lopdf::Object) -> (r: Option<PdfObject>)
    ensures
        match r {
            Some(v) => v@ == object_contents(*o),
            None => match object_contents(*o) {
                ObjectView::Array(_) | ObjectView::Dictionary(_) | ObjectView::Stream(_, _) => true,
                _ => false,
            },
        },
{
    match o {
        lopdf::Object::Null => Some(PdfObject::Null),
        lopdf::Object::Boolean(b) => Some(PdfObject::Boolean(*b)),
        lopdf::Object::Integer(i) => Some(PdfObject::Integer(*i)),
        lopdf::Object::Real(r) => Some(PdfObject::Real(r.to_bits())),
        lopdf::Object::Name(n) => Some(PdfObject::Name(n.clone())),
        lopdf::Object::String(s, _) => Some(PdfObject::Text(s.clone())),
        lopdf::Object::Reference(id) => Some(PdfObject::Reference(id.0, id.1)),
        _ => None,
    }
}

/// `lopdf::Object::as_array` gives the items of an array, and an error for any other object.
pub assume_specification<'a>[ lopdf::Object::as_array ](o: &'a lopdf::Object) -> (r: Result<
    &'a Vec<lopdf::Object>,
    lopdf::Error,
>)
    ensures
        match r {
            Ok(items) => object_contents(*o) == ObjectView::Array(contents_of(items@)),
            Err(_) => !(object_contents(*o) is Array),
        },
;

/// The keys and contents of the entries of a dictionary.
pub open spec fn entry_contents(entries: Seq<(&Vec<u8>, &lopdf::Object)>) -> Seq<
    (Seq<u8>, ObjectView),
> {
    Seq::new(entries.len(), |i: int| (entries[i].0@, object_contents(*entries[i].1)))
}

/// `lopdf::Object::as_dict` and `lopdf::Dictionary::iter` give the entries of a dictionary, in
/// order, and nothing for any other object.
#[verifier::external_body]
fn dictionary_entries(o: &lopdf::Object) -> (r: Option<Vec<(&Vec<u8>, &lopdf::Object)>>)
    ensures
        match r {
            Some(entries) => object_contents(*o) == ObjectView::Dictionary(
                entry_contents(entries@),
            ),
            None => !(object_contents(*o) is Dictionary),
        },
{
    o.as_dict().ok().map(|d| d.iter().collect())
}

/// `lopdf::Object::as_stream` gives the dictionary and the content of a stream, and nothing for
/// any other object.
#[verifier::external_body]
fn stream_parts(o: &lopdf::Object) -> (r: Option<(Vec<(&Vec<u8>, &lopdf::Object)>, &Vec<u8>)>)
    ensures
        match r {
            Some((entries, content)) => object_contents(*o) == ObjectView::Stream(
                entry_contents(entries@),
                content@,
            ),
            None => !(object_contents(*o) is Stream),
        },
{
    o.as_stream().ok().map(|s| (s.dict.iter().collect(), &s.content))
}

/// The bytes of a text of ASCII characters.
pub open spec fn ascii(s: Seq<char>) -> Seq<u8> {
    Seq::new(s.len(), |i: int| s[i] as u32 as u8)
}

/// The bytes of a text of ASCII characters.
pub fn ascii_bytes(s: &str) -> (r: Vec<u8>)
    ensures
        r@ == ascii(s@),
{
    let cs: Vec<char> = chars_of(s);
    let mut out: Vec<u8> = Vec::new();
    let mut i: usize = 0;
    while i < cs.len()
        invariant
            i <= cs@.len(),
            out@ == ascii(cs@).take(i as int),
        decreases cs@.len() - i,
    {
        out.push(
            #[verifier::truncate]
            (cs[i] as u32 as u8),
        );
        assert(out@ =~= ascii(cs@).take(i + 1));
        i = i + 1;
    }
    assert(out@ =~= ascii(cs@));
    out
}

fn entries_value(entries: &[(&Vec<u8>, &lopdf::Object)], Ghost(whole): Ghost<ObjectView>) -> (r: Vec<
    (Vec<u8>, PdfObject),
>)
    requires
        forall|i: int|
            0 <= i < entries@.len() ==> decreases_to!(whole => object_contents(*(#[trigger] entries@[i]).1)),
    ensures
        entry_views(r@) == entry_contents(entries@),
    decreases whole, 0nat,
{
    let mut out: Vec<(Vec<u8>, PdfObject)> = Vec::new();
    let mut i: usize = 0;
    while i < entries.len()
        invariant
            i <= entries@.len(),
            out@.len() == i,
            forall|j: int|
                0 <= j < entries@.len() ==> decreases_to!(whole => object_contents(*(#[trigger] entries@[j]).1)),
            forall|j: int| 0 <= j < i ==> entry_views(out@)[j] == entry_contents(entries@)[j],
        decreases entries@.len() - i,
    {
        let ghost before = out@;
        let key: Vec<u8> = copy_bytes(entries[i].0);
        assert(decreases_to!(whole => object_contents(*entries@[i as int].1)));
        let value: PdfObject = object_value(entries[i].1);
        out.push((key, value));
        assert forall|j: int| 0 <= j < i + 1 implies entry_views(out@)[j] == entry_contents(
            entries@,
        )[j] by {
            if j < i {
                assert(out@[j] == before[j]);
                assert(entry_views(before)[j] == entry_contents(entries@)[j]);
            }
        }
        i = i + 1;
    }
    assert(entry_views(out@) =~= entry_contents(entries@));
    out
}

/// An object as a plain value.
pub fn object_value(o: &lopdf::Object) -> (r: PdfObject)
    ensures
        r@ == object_contents(*o),
    decreases object_contents(*o), 1nat,
{
    let ghost whole = object_contents(*o);
    if let Some(v) = scalar_value(o) {
        return v;
    }
    if let Ok(items) = o.as_array() {
        let ghost parts = contents_of(items@);
        let mut out: Vec<PdfObject> = Vec::new();
        let mut i: usize = 0;
        while i < items.len()
            invariant
                i <= items@.len(),
                out@.len() == i,
                whole == object_contents(*o),
                whole == ObjectView::Array(parts),
                parts == contents_of(items@),
                forall|j: int| 0 <= j < i ==> object_views(out@)[j] == parts[j],
            decreases items@.len() - i,
        {
            let ghost before = out@;
            assert(whole->Array_0 == parts);
                assert(decreases_to!(whole => whole->Array_0));
            assert(decreases_to!(parts => parts[i as int]));
            let value: PdfObject = object_value(&items[i]);
            out.push(value);
            assert forall|j: int| 0 <= j < i + 1 implies object_views(out@)[j] == parts[j] by {
                if j < i {
                    assert(object_views(before)[j] == parts[j]);
                }
            }
            i = i + 1;
        }
        assert(object_views(out@) =~= parts);
        proof {
            lemma_array_view(out);
        }
        return PdfObject::Array(out);
    }
    if let Some(entries) = dictionary_entries(o) {
        let ghost parts = entry_contents(entries@);
        proof {
            assert forall|i: int| 0 <= i < entries@.len() implies decreases_to!(whole => object_contents(*(#[trigger] entries@[i]).1)) by {
                assert(parts[i].1 == object_contents(*entries@[i].1));
                assert(whole->Dictionary_0 == parts);
                assert(decreases_to!(whole => whole->Dictionary_0));
                assert(decreases_to!(parts => parts[i]));
                assert(decreases_to!(parts[i] => parts[i].1));
            }
        }
        let out: Vec<(Vec<u8>, PdfObject)> = entries_value(&entries, Ghost(whole));
        proof {
            lemma_dictionary_view(out);
        }
        return PdfObject::Dictionary(out);
    }
    if let Some((entries, content)) = stream_parts(o) {
        let ghost parts = entry_contents(entries@);
        proof {
            assert forall|i: int| 0 <= i < entries@.len() implies decreases_to!(whole => object_contents(*(#[trigger] entries@[i]).1)) by {
                assert(parts[i].1 == object_contents(*entries@[i].1));
                assert(whole->Stream_0 == parts);
                assert(decreases_to!(whole => whole->Stream_0));
                assert(decreases_to!(parts => parts[i]));
                assert(decreases_to!(parts[i] => parts[i].1));
            }
        }
        let out: Vec<(Vec<u8>, PdfObject)> = entries_value(&entries, Ghost(whole));
        let bytes: Vec<u8> = copy_bytes(content);
        proof {
            lemma_stream_view(out, bytes);
        }
        return PdfObject::Stream(out, bytes);
    }
    PdfObject::Null
}

/// The object that the entry `Parent` of a dictionary refers to.
pub open spec fn parent_of(entries: Seq<(Seq<u8>, ObjectView)>) -> Option<(u32, u16)> {
    match entry(entries, ascii("Parent"@)) {
        Some(ObjectView::Reference(number, generation)) => Some((number, generation)),
        _ => None,
    }
}

/// Finds an object by its number and generation, following references.
pub fn find_object(doc: &lopdf::Document, id: (u32, u16)) -> (r: Option<PdfObject>)
    ensures
        match r {
            Some(o) => resolved(document_objects(*doc), id) == Some(o@),
            None => resolved(document_objects(*doc), id) is None,
        },
{
    match doc.get_object(id) {
        Ok(o) => Some(object_value(o)),
        Err(_) => None,
    }
}

/// The dictionary that an object is.
pub fn as_dictionary(o: &PdfObject) -> (r: Option<&Vec<(Vec<u8>, PdfObject)>>)
    ensures
        match r {
            Some(entries) => o@ == ObjectView::Dictionary(entry_views(entries@)),
            None => !(o@ is Dictionary),
        },
{
    match o {
        PdfObject::Dictionary(entries) => {
            proof {
                lemma_dictionary_view(*entries);
            }
            Some(entries)
        },
        _ => None,
    }
}

/// The array that an object is.
pub fn as_items(o: &PdfObject) -> (r: Option<&Vec<PdfObject>>)
    ensures
        match r {
            Some(items) => o@ == ObjectView::Array(object_views(items@)),
            None => !(o@ is Array),
        },
{
    match o {
        PdfObject::Array(items) => {
            proof {
                lemma_array_view(*items);
            }
            Some(items)
        },
        _ => None,
    }
}

/// Finds the value of a key, given as ASCII text, in a dictionary.
pub fn find_key<'a>(entries: &'a [(Vec<u8>, PdfObject)], key: &str) -> (r: Option<&'a PdfObject>)
    ensures
        match r {
            Some(o) => entry(entry_views(entries@), ascii(key@)) == Some(o@),
            None => entry(entry_views(entries@), ascii(key@)) is None,
        },
{
    find_entry(entries, &ascii_bytes(key))
}

fn find_parent(entries: &[(Vec<u8>, PdfObject)]) -> (r: Option<(u32, u16)>)
    ensures
        r == parent_of(entry_views(entries@)),
{
    match find_key(entries, "Parent") {
        Some(PdfObject::Reference(number, generation)) => Some((*number, *generation)),
        _ => None,
    }
}

/// The fonts that a page is drawn with: none where the way up the page tree is damaged.
pub open spec fn fonts_of_page(objects: Map<(u32, u16), ObjectView>, page: (u32, u16)) -> Seq<
    (Seq<u8>, ObjectView),
> {
    match page_font_entries(objects, page) {
        Some(fonts) => fonts,
        None => Seq::empty(),
    }
}

/// The fonts that a page is drawn with; none where the way up the page tree is damaged.
pub fn page_fonts(doc: &lopdf::Document, page: (u32, u16)) -> (r: Vec<(Vec<u8>, PdfObject)>)
    ensures
        entry_views(r@) == fonts_of_page(document_objects(*doc), page),
{
    let fonts: Vec<(Vec<u8>, lopdf::Object)> = match get_page_fonts(doc, page) {
        Some(fonts) => fonts,
        None => {
            let none: Vec<(Vec<u8>, PdfObject)> = Vec::new();
            assert(entry_views(none@) =~= Seq::<(Seq<u8>, ObjectView)>::empty());
            return none;
        },
    };
    let ghost all = named_contents(fonts@);
    let mut out: Vec<(Vec<u8>, PdfObject)> = Vec::new();
    let mut i: usize = 0;
    while i < fonts.len()
        invariant
            i <= fonts@.len(),
            all == named_contents(fonts@),
            entry_views(out@) == all.take(i as int),
        decreases fonts@.len() - i,
    {
        let ghost before = entry_views(out@);
        let name: Vec<u8> = copy_bytes(&fonts[i].0);
        let font: PdfObject = object_value(&fonts[i].1);
        let ghost view = (name@, font@);
        out.push((name, font));
        assert(entry_views(out@) =~= before.push(view));
        assert(all.take(i + 1) =~= all.take(i as int).push(all[i as int]));
        i = i + 1;
    }
    assert(all.take(i as int) =~= all);
    out
}

/// The page objects of a file, in page order.
pub fn pages_of(doc: &lopdf::Document) -> (r: Vec<(u32, u16)>)
    ensures
        r@ == page_tree(document_trailer(*doc), document_objects(*doc)),
{
    page_ids(doc)
}

/// Two opposite corners of a page.
#[derive(Debug, Clone, Copy, PartialEq, Eq, Structural)]
pub struct MediaBox {
    pub x0: Number,
    pub y0: Number,
    pub x1: Number,
    pub y1: Number,
}

/// How far up the page tree the corners of a page are looked for.
pub open spec fn box_limit() -> nat {
    64
}

/// The corners that an array of four gives.
pub open spec fn box_of(items: Seq<ObjectView>) -> MediaBox {
    MediaBox {
        x0: number_of(items[0]),
        y0: number_of(items[1]),
        x1: number_of(items[2]),
        y1: number_of(items[3]),
    }
}

/// The corners of a page: its own, or those of the nearest node above it that has any.
pub open spec fn inherited_box(objects: Map<(u32, u16), ObjectView>, id: (u32, u16), limit: nat) -> Option<
    MediaBox,
>
    decreases limit,
{
    if limit == 0 {
        None
    } else {
        match resolved(objects, id) {
            Some(ObjectView::Dictionary(entries)) => {
                let up = match parent_of(entries) {
                    Some(parent) => inherited_box(objects, parent, (limit - 1) as nat),
                    None => None,
                };
                match entry(entries, ascii("MediaBox"@)) {
                    Some(ObjectView::Array(items)) => if items.len() == 4 {
                        Some(box_of(items))
                    } else {
                        up
                    },
                    _ => up,
                }
            },
            _ => None,
        }
    }
}

fn find_box(entries: &[(Vec<u8>, PdfObject)]) -> (r: Option<MediaBox>)
    ensures
        r == match entry(entry_views(entries@), ascii("MediaBox"@)) {
            Some(ObjectView::Array(items)) => if items.len() == 4 {
                Some(box_of(items))
            } else {
                None
            },
            _ => None,
        },
{
    match find_key(entries, "MediaBox") {
        Some(o) => match as_items(o) {
            Some(items) => {
                assert(object_views(items@).len() == items@.len());
                if items.len() == 4 {
                    Some(
                        MediaBox {
                            x0: as_number(&items[0]),
                            y0: as_number(&items[1]),
                            x1: as_number(&items[2]),
                            y1: as_number(&items[3]),
                        },
                    )
                } else {
                    None
                }
            },
            None => None,
        },
        None => None,
    }
}

/// The corners of a page, its own or inherited; nothing where there are none within reach.
pub fn resolve_inherited_mediabox(doc: &lopdf::Document, page: (u32, u16)) -> (r: Option<MediaBox>)
    ensures
        r == inherited_box(document_objects(*doc), page, box_limit()),
{
    let ghost objects = document_objects(*doc);
    let mut id: (u32, u16) = page;
    let mut left: u32 = 64;
    while left > 0
        invariant
            objects == document_objects(*doc),
            inherited_box(objects, id, left as nat) == inherited_box(objects, page, box_limit()),
        decreases left,
    {
        let found: Option<PdfObject> = find_object(doc, id);
        match &found {
            Some(o) => match as_dictionary(o) {
                Some(entries) => {
                    if let Some(corners) = find_box(entries) {
                        return Some(corners);
                    }
                    match find_parent(entries) {
                        Some(up) => {
                            id = up;
                        },
                        None => {
                            return None;
                        },
                    }
                },
                None => {
                    return None;
                },
            },
            None => {
                return None;
            },
        }
        left = left - 1;
    }
    None
}

/// The filter with the given name.
pub open spec fn filter_of(name: Seq<u8>) -> StreamFilter {
    if name == ascii("ASCII85Decode"@) {
        StreamFilter::Ascii85
    } else if name == ascii("ASCIIHexDecode"@) {
        StreamFilter::AsciiHex
    } else if name == ascii("FlateDecode"@) {
        StreamFilter::Flate
    } else {
        StreamFilter::Other
    }
}

/// The filters that the names among some objects name.
pub open spec fn filters_among(items: Seq<ObjectView>) -> Seq<StreamFilter>
    decreases items.len(),
{
    if items.len() == 0 {
        Seq::empty()
    } else {
        let front = filters_among(items.drop_last());
        match items.last() {
            ObjectView::Name(name) => front.push(filter_of(name)),
            _ => front,
        }
    }
}

/// The filters of a stream, in the order in which they are to be undone: one name or an array
/// of names.
pub open spec fn stream_filters(entries: Seq<(Seq<u8>, ObjectView)>) -> Seq<StreamFilter> {
    match entry(entries, ascii("Filter"@)) {
        Some(ObjectView::Name(name)) => seq![filter_of(name)],
        Some(ObjectView::Array(items)) => filters_among(items),
        _ => Seq::empty(),
    }
}

fn filter_named(name: &[u8]) -> (r: StreamFilter)
    ensures
        r == filter_of(name@),
{
    if same_bytes(name, &ascii_bytes("ASCII85Decode")) {
        StreamFilter::Ascii85
    } else if same_bytes(name, &ascii_bytes("ASCIIHexDecode")) {
        StreamFilter::AsciiHex
    } else if same_bytes(name, &ascii_bytes("FlateDecode")) {
        StreamFilter::Flate
    } else {
        StreamFilter::Other
    }
}

/// The filters of a stream, in the order in which they are to be undone.
pub fn filter_chain(entries: &[(Vec<u8>, PdfObject)]) -> (r: Vec<StreamFilter>)
    ensures
        r@ == stream_filters(entry_views(entries@)),
{
    let mut out: Vec<StreamFilter> = Vec::new();
    match find_key(entries, "Filter") {
        Some(PdfObject::Name(name)) => {
            out.push(filter_named(name));
            assert(out@ =~= seq![filter_of(name@)]);
        },
        Some(o) => {
            if let Some(items) = as_items(o) {
                let ghost all = object_views(items@);
                let mut i: usize = 0;
                assert(all.take(0) =~= Seq::<ObjectView>::empty());
                while i < items.len()
                    invariant
                        i <= items@.len(),
                        all == object_views(items@),
                        out@ == filters_among(all.take(i as int)),
                    decreases items@.len() - i,
                {
                    assert(all.take(i + 1).drop_last() =~= all.take(i as int));
                    assert(all.take(i + 1).last() == items@[i as int]@);
                    if let PdfObject::Name(name) = &items[i] {
                        out.push(filter_named(name));
                    }
                    i = i + 1;
                }
                assert(all.take(i as int) =~= all);
            }
        },
        None => {},
    }
    out
}

/// Whether `bytes` is the decoded content of a stream object; an object that is no stream has
/// no content.
pub open spec fn stream_decodes(objects: Map<(u32, u16), ObjectView>, id: (u32, u16), bytes: Seq<u8>) -> bool {
    match resolved(objects, id) {
        Some(ObjectView::Stream(entries, content)) => decodes_to(
            stream_filters(entries),
            content,
            bytes,
        ),
        _ => bytes.len() == 0,
    }
}

/// Whether `bytes` is the decoded content of some stream objects, one after another.
pub open spec fn streams_decode(
    objects: Map<(u32, u16), ObjectView>,
    ids: Seq<(u32, u16)>,
    bytes: Seq<u8>,
) -> bool
    decreases ids.len(),
{
    if ids.len() == 0 {
        bytes.len() == 0
    } else {
        exists|k: int|
            0 <= k <= bytes.len() && streams_decode(objects, ids.drop_last(), bytes.take(k))
                && #[trigger] stream_decodes(objects, ids.last(), bytes.skip(k))
    }
}

/// Decodes the content of a stream by its filters.
pub fn decode_stream(entries: &[(Vec<u8>, PdfObject)], content: &[u8]) -> (r: Vec<u8>)
    ensures
        decodes_to(stream_filters(entry_views(entries@)), content@, r@),
{
    let filters: Vec<StreamFilter> = filter_chain(entries);
    decode_content(&filters, content)
}

fn append_bytes(out: &mut Vec<u8>, bytes: &[u8])
    ensures
        final(out)@ == old(out)@ + bytes@,
{
    let ghost before = out@;
    let mut i: usize = 0;
    while i < bytes.len()
        invariant
            i <= bytes@.len(),
            out@ == before + bytes@.take(i as int),
        decreases bytes@.len() - i,
    {
        out.push(bytes[i]);
        assert(out@ =~= before + bytes@.take(i + 1));
        i = i + 1;
    }
    assert(bytes@.take(i as int) =~= bytes@);
}

/// The decoded content of a page: that of its content streams, one after another.
pub fn page_content(doc: &lopdf::Document, page: (u32, u16)) -> (r: Vec<u8>)
    ensures
        streams_decode(
            document_objects(*doc),
            page_streams(document_objects(*doc), page),
            r@,
        ),
{
    let ghost objects = document_objects(*doc);
    let ids: Vec<(u32, u16)> = doc.get_page_contents(page);
    let mut out: Vec<u8> = Vec::new();
    let mut i: usize = 0;
    while i < ids.len()
        invariant
            i <= ids@.len(),
            objects == document_objects(*doc),
            streams_decode(objects, ids@.take(i as int), out@),
        decreases ids@.len() - i,
    {
        let ghost before = out@;
        let id: (u32, u16) = ids[i];
        let found: Option<PdfObject> = find_object(doc, id);
        if let Some(PdfObject::Stream(entries, content)) = &found {
            proof {
                lemma_stream_view(*entries, *content);
            }
            let part: Vec<u8> = decode_stream(entries, content);
            append_bytes(&mut out, &part);
            assert(out@.skip(before.len() as int) =~= part@);
        }
        proof {
            let next = ids@.take(i + 1);
            let k = before.len() as int;
            assert(next.drop_last() =~= ids@.take(i as int));
            assert(next.last() == id);
            assert(out@.take(k) =~= before);
            assert(stream_decodes(objects, next.last(), out@.skip(k)));
        }
        i = i + 1;
    }
    assert(ids@.take(i as int) =~= ids@);
    out
}

/// One operation of a content stream.
pub struct Operation {
    pub operator: String,
    pub operands: Vec<PdfObject>,
}

/// The operators and operands of some operations.
pub open spec fn operation_views(operations: Seq<Operation>) -> Seq<(Seq<char>, Seq<ObjectView>)> {
    Seq::new(
        operations.len(),
        |i: int| (operations[i].operator@, object_views(operations[i].operands@)),
    )
}

/// The operations of a content stream; none where it cannot be read.
pub open spec fn operations_in(bytes: Seq<u8>) -> Seq<(Seq<char>, Seq<ObjectView>)> {
    match content_operations(bytes) {
        Some(operations) => operations,
        None => Seq::empty(),
    }
}

fn values_of(items: &[lopdf::Object]) -> (r: Vec<PdfObject>)
    ensures
        object_views(r@) == contents_of(items@),
{
    let ghost all = contents_of(items@);
    let mut out: Vec<PdfObject> = Vec::new();
    let mut i: usize = 0;
    while i < items.len()
        invariant
            i <= items@.len(),
            all == contents_of(items@),
            object_views(out@) == all.take(i as int),
        decreases items@.len() - i,
    {
        let ghost before = object_views(out@);
        let value: PdfObject = object_value(&items[i]);
        let ghost view = value@;
        out.push(value);
        assert(object_views(out@) =~= before.push(view));
        assert(all.take(i + 1) =~= all.take(i as int).push(all[i as int]));
        i = i + 1;
    }
    assert(all.take(i as int) =~= all);
    out
}

/// Reads the operations of a content stream; none where it cannot be read.
pub fn read_operations(bytes: &[u8]) -> (r: Vec<Operation>)
    ensures
        operation_views(r@) == operations_in(bytes@),
{
    let mut out: Vec<Operation> = Vec::new();
    assert(operation_views(out@) =~= Seq::<(Seq<char>, Seq<ObjectView>)>::empty());
    if let Some(operations) = decode_operations(bytes) {
        let ghost all = operation_contents(operations@);
        let mut i: usize = 0;
        while i < operations.len()
            invariant
                i <= operations@.len(),
                all == operation_contents(operations@),
                operation_views(out@) == all.take(i as int),
            decreases operations@.len() - i,
        {
            let ghost before = operation_views(out@);
            let operation = Operation {
                operator: operations[i].0.clone(),
                operands: values_of(&operations[i].1),
            };
            let ghost view = (operation.operator@, object_views(operation.operands@));
            out.push(operation);
            assert(operation_views(out@) =~= before.push(view));
            assert(all.take(i + 1) =~= all.take(i as int).push(all[i as int]));
            i = i + 1;
        }
        assert(all.take(i as int) =~= all);
    }
    out
}

/// A page that has corners of its own does not inherit any.
pub proof fn law_own_box_comes_first(
    objects: Map<(u32, u16), ObjectView>,
    page: (u32, u16),
    entries: Seq<(Seq<u8>, ObjectView)>,
    items: Seq<ObjectView>,
)
    requires
        resolved(objects, page) == Some(ObjectView::Dictionary(entries)),
        entry(entries, ascii("MediaBox"@)) == Some(ObjectView::Array(items)),
        items.len() == 4,
    ensures
        inherited_box(objects, page, box_limit()) == Some(box_of(items)),
{
}

/// An object that is found by following references is no reference itself.
pub proof fn law_resolved_is_no_reference(objects: Map<(u32, u16), ObjectView>, id: (u32, u16))
    ensures
        resolved(objects, id) matches Some(o) ==> !(o is Reference),
{
    if objects.contains_key(id) {
        lemma_dereferenced(objects, objects[id], deref_limit());
    }
}

proof fn lemma_dereferenced(objects: Map<(u32, u16), ObjectView>, o: ObjectView, limit: nat)
    ensures
        dereferenced(objects, o, limit) matches Some(end) ==> !(end is Reference),
    decreases limit,
{
    if let ObjectView::Reference(number, generation) = o {
        if objects.contains_key((number, generation)) && limit > 0 {
            lemma_dereferenced(objects, objects[(number, generation)], (limit - 1) as nat);
        }
    }
}

/// A page without corners of its own has those of the node that its entry `Parent` refers to, one
/// step less far up; one without either has none, and neither has what is no dictionary.
pub proof fn law_box_is_inherited(objects: Map<(u32, u16), ObjectView>, id: (u32, u16), limit: nat)
    ensures
        limit == 0 ==> inherited_box(objects, id, limit) is None,
        limit > 0 ==> match resolved(objects, id) {
            Some(ObjectView::Dictionary(entries)) => {
                let own = entry(entries, ascii("MediaBox"@));
                let parent = entry(entries, ascii("Parent"@));
                if own matches Some(ObjectView::Array(items)) && items.len() == 4 {
                    own matches Some(ObjectView::Array(items)) && inherited_box(
                        objects,
                        id,
                        limit,
                    ) == Some(
                        MediaBox {
                            x0: number_of(items[0]),
                            y0: number_of(items[1]),
                            x1: number_of(items[2]),
                            y1: number_of(items[3]),
                        },
                    )
                } else if parent matches Some(ObjectView::Reference(_, _)) {
                    parent matches Some(ObjectView::Reference(number, generation))
                        && inherited_box(objects, id, limit) == inherited_box(
                        objects,
                        (number, generation),
                        (limit - 1) as nat,
                    )
                } else {
                    inherited_box(objects, id, limit) is None
                }
            },
            _ => inherited_box(objects, id, limit) is None,
        },
        box_limit() == 64,
{
}

/// Finding an object follows references one after another, up to 128 of them: an object that is
/// none is found itself, a reference to an object finds what that object finds with one step less,
/// and a reference to nothing finds nothing.
pub proof fn law_references_are_followed(
    objects: Map<(u32, u16), ObjectView>,
    id: (u32, u16),
    o: ObjectView,
    limit: nat,
)
    ensures
        deref_limit() == 128,
        objects.contains_key(id) ==> resolved(objects, id) == dereferenced(objects, objects[id], 128),
        !objects.contains_key(id) ==> resolved(objects, id) is None,
        !(o is Reference) ==> dereferenced(objects, o, limit) == Some(o),
        objects.contains_key(id) ==> dereferenced(
            objects,
            ObjectView::Reference(id.0, id.1),
            limit + 1,
        ) == dereferenced(objects, objects[id], limit),
        !objects.contains_key(id) ==> dereferenced(
            objects,
            ObjectView::Reference(id.0, id.1),
            limit,
        ) is None,
        dereferenced(objects, ObjectView::Reference(id.0, id.1), 0) is None,
{
}

/// The filters of a stream are those that its entry `Filter` names, a single name or the names in
/// an array, in order: the names of two arrays one after the other, one name as the filter that it
/// names, and nothing for what is no name.
pub proof fn law_filters_are_named(a: Seq<ObjectView>, b: Seq<ObjectView>, name: Seq<u8>, o: ObjectView)
    ensures
        filters_among(a + b) == filters_among(a) + filters_among(b),
        filters_among(seq![ObjectView::Name(name)]) == seq![filter_of(name)],
        !(o is Name) ==> filters_among(seq![o]) == Seq::<StreamFilter>::empty(),
        filters_among(Seq::empty()) == Seq::<StreamFilter>::empty(),
    decreases b.len(),
{
    if b.len() == 0 {
        assert(a + b =~= a);
        assert(filters_among(a) + filters_among(b) =~= filters_among(a));
    } else {
        law_filters_are_named(a, b.drop_last(), name, o);
        assert((a + b).drop_last() =~= a + b.drop_last());
        assert(filters_among(a + b) =~= filters_among(a) + filters_among(b));
    }
    assert(seq![ObjectView::Name(name)].drop_last() =~= Seq::<ObjectView>::empty());
    assert(filters_among(seq![ObjectView::Name(name)].drop_last()) =~= Seq::<StreamFilter>::empty());
    assert(filters_among(seq![ObjectView::Name(name)]) =~= seq![filter_of(name)]);
    assert(seq![o].drop_last() =~= Seq::<ObjectView>::empty());
    assert(filters_among(seq![o].drop_last()) =~= Seq::<StreamFilter>::empty());
}

/// Three names name filters, and no other name does; a stream has the filters of its entry
/// `Filter`, and none where that is neither a name nor an array.
pub proof fn law_filter_names(name: Seq<u8>, entries: Seq<(Seq<u8>, ObjectView)>)
    ensures
        filter_of(name) == StreamFilter::Ascii85 <==> name == ascii("ASCII85Decode"@),
        filter_of(name) == StreamFilter::AsciiHex <==> name == ascii("ASCIIHexDecode"@),
        filter_of(name) == StreamFilter::Flate <==> name == ascii("FlateDecode"@),
        stream_filters(entries) == match entry(entries, ascii("Filter"@)) {
            Some(ObjectView::Name(one)) => seq![filter_of(one)],
            Some(ObjectView::Array(items)) => filters_among(items),
            _ => Seq::empty(),
        },
{
    reveal_strlit("ASCII85Decode");
    reveal_strlit("ASCIIHexDecode");
    reveal_strlit("FlateDecode");
    let (a, b, c) = (
        ascii("ASCII85Decode"@),
        ascii("ASCIIHexDecode"@),
        ascii("FlateDecode"@),
    );
    assert(a[5] == 0x38u8 && b[5] == 0x48u8);
    assert(a.len() == 13 && b.len() == 14 && c.len() == 11);
}

/// The content of streams is that of the ones and that of the others behind it, and that of one
/// stream is what its filters make of it; what is no stream has no content.
pub proof fn law_streams_follow_one_another(
    objects: Map<(u32, u16), ObjectView>,
    a: Seq<(u32, u16)>,
    b: Seq<(u32, u16)>,
    x: Seq<u8>,
    y: Seq<u8>,
    id: (u32, u16),
)
    ensures
        streams_decode(objects, a, x) && streams_decode(objects, b, y) ==> streams_decode(
            objects,
            a + b,
            x + y,
        ),
        streams_decode(objects, seq![id], x) <==> match resolved(objects, id) {
            Some(ObjectView::Stream(entries, content)) => decodes_to(
                stream_filters(entries),
                content,
                x,
            ),
            _ => x.len() == 0,
        },
        streams_decode(objects, Seq::empty(), x) <==> x.len() == 0,
    decreases b.len(),
{
    if streams_decode(objects, a, x) && streams_decode(objects, b, y) {
        if b.len() == 0 {
            assert(a + b =~= a);
            assert(x + y =~= x);
        } else {
            let k = choose|k: int|
                0 <= k <= y.len() && streams_decode(objects, b.drop_last(), y.take(k))
                    && #[trigger] stream_decodes(objects, b.last(), y.skip(k));
            law_streams_follow_one_another(objects, a, b.drop_last(), x, y.take(k), id);
            let n = x.len() + k;
            assert((a + b).drop_last() =~= a + b.drop_last());
            assert((a + b).last() == b.last());
            assert((x + y).take(n) =~= x + y.take(k));
            assert((x + y).skip(n) =~= y.skip(k));
            assert(stream_decodes(objects, (a + b).last(), (x + y).skip(n)));
        }
    }
    let one = seq![id];
    assert(one.drop_last() =~= Seq::<(u32, u16)>::empty());
    if streams_decode(objects, one, x) {
        let k = choose|k: int|
            0 <= k <= x.len() && streams_decode(objects, one.drop_last(), x.take(k))
                && #[trigger] stream_decodes(objects, one.last(), x.skip(k));
        assert(x.take(k).len() == 0);
        assert(k == 0);
        assert(x.skip(0) =~= x);
        assert(stream_decodes(objects, id, x));
    }
    if stream_decodes(objects, id, x) {
        assert(x.skip(0) =~= x);
        assert(x.take(0).len() == 0);
        assert(streams_decode(objects, one.drop_last(), x.take(0)));
        assert(stream_decodes(objects, one.last(), x.skip(0)));
        assert(streams_decode(objects, one, x));
    }
}

/// What the content of streams is comes from each of them alone: where the content of some streams
/// is given, it parts into that of all but the last and that of the last.
pub proof fn law_content_parts(
    objects: Map<(u32, u16), ObjectView>,
    ids: Seq<(u32, u16)>,
    id: (u32, u16),
    bytes: Seq<u8>,
) -> (k: int)
    requires
        streams_decode(objects, ids.push(id), bytes),
    ensures
        0 <= k <= bytes.len(),
        streams_decode(objects, ids, bytes.take(k)),
        streams_decode(objects, seq![id], bytes.skip(k)),
{
    let all = ids.push(id);
    assert(all.drop_last() =~= ids);
    let k = choose|k: int|
        0 <= k <= bytes.len() && streams_decode(objects, all.drop_last(), bytes.take(k))
            && #[trigger] stream_decodes(objects, all.last(), bytes.skip(k));
    law_streams_follow_one_another(objects, ids, ids, bytes.skip(k), bytes, id);
    k
}

/// ASCII text is written with one byte for each character, its code.
pub proof fn law_ascii(s: Seq<char>, i: int)
    requires
        0 <= i < s.len(),
        (s[i] as u32) < 256,
    ensures
        ascii(s).len() == s.len(),
        ascii(s)[i] as u32 == s[i] as u32,
{
}

/// The operations of a content stream are seen as they are, each in its place; content that cannot
/// be read has none.
pub proof fn law_operations_are_seen(operations: Seq<Operation>, i: int, k: int, bytes: Seq<u8>)
    ensures
        operation_views(operations).len() == operations.len(),
        0 <= i < operations.len() ==> {
            let seen = operation_views(operations)[i];
            &&& seen.0 == operations[i].operator@
            &&& seen.1.len() == operations[i].operands@.len()
            &&& 0 <= k < seen.1.len() ==> seen.1[k] == operations[i].operands@[k]@
        },
        content_operations(bytes) is None ==> operations_in(bytes).len() == 0,
        content_operations(bytes) matches Some(all) ==> operations_in(bytes) == all,
{
}

/// A name is spelled out character by character, each as it is or as a number sign and its number in
/// two hexadecimal digits; where no number sign stands it is spelled out as it is.
pub proof fn law_names_are_spelled(bytes: Seq<u8>, at: int, c: u8, name: Seq<u8>)
    requires
        0 <= at,
    ensures
        spells(bytes, at, Seq::empty()),
        spells(bytes, at, seq![c] + name) ==> at < bytes.len() && (bytes[at] == c || bytes[at]
            == 35),
        at < bytes.len() && bytes[at] == c ==> spells(bytes, at, seq![c] + name) == spells(
            bytes,
            at + 1,
            name,
        ),
        at + 2 < bytes.len() && bytes[at] == 35 && c != 35 && hex_digit_value(bytes[at + 1]) is Some
            && hex_digit_value(bytes[at + 2]) is Some ==> spells(bytes, at, seq![c] + name) == (16
            * hex_digit_value(bytes[at + 1])->Some_0 + hex_digit_value(bytes[at + 2])->Some_0 == c
            && spells(bytes, at + 3, name)),
        at < bytes.len() && bytes[at] == 35 && c != 35 && (at + 2 >= bytes.len() || hex_digit_value(
            bytes[at + 1],
        ) is None || hex_digit_value(bytes[at + 2]) is None) ==> !spells(
            bytes,
            at,
            seq![c] + name,
        ),
        hex_digit_value(c) is Some <==> (48 <= c <= 57 || 65 <= c <= 70 || 97 <= c <= 102),
        48 <= c <= 57 ==> hex_digit_value(c) == Some((c - 48) as nat),
        65 <= c <= 70 ==> hex_digit_value(c) == Some((c - 55) as nat),
        97 <= c <= 102 ==> hex_digit_value(c) == Some((c - 87) as nat),
        (forall|i: int| 0 <= i < bytes.len() ==> #[trigger] bytes[i] != 35) ==> (spells(
            bytes,
            at,
            name,
        ) == (at + name.len() <= bytes.len() && bytes.subrange(at, at + name.len()) == name
            || name.len() == 0)),
    decreases name.len(),
{
    let all = seq![c] + name;
    assert(all[0] == c);
    assert(all.skip(1) =~= name);
    if forall|i: int| 0 <= i < bytes.len() ==> #[trigger] bytes[i] != 35 {
        lemma_plain_spelling(bytes, at, name);
    }
}

proof fn lemma_plain_spelling(bytes: Seq<u8>, at: int, name: Seq<u8>)
    requires
        0 <= at,
        forall|i: int| 0 <= i < bytes.len() ==> #[trigger] bytes[i] != 35,
    ensures
        spells(bytes, at, name) == (at + name.len() <= bytes.len() && bytes.subrange(
            at,
            at + name.len(),
        ) == name || name.len() == 0),
    decreases name.len(),
{
    if name.len() > 0 && at < bytes.len() {
        let rest = name.skip(1);
        lemma_plain_spelling(bytes, at + 1, rest);
        if at + name.len() <= bytes.len() {
            let part = bytes.subrange(at, at + name.len());
            let later = bytes.subrange(at + 1, at + 1 + rest.len());
            assert(part.skip(1) =~= later);
            assert(part[0] == bytes[at]);
            assert(bytes[at] != 35);
            if rest.len() == 0 {
                assert(later =~= rest);
            }
            if bytes[at] == name[0] && later == rest {
                assert forall|i: int| 0 <= i < name.len() implies part[i] == name[i] by {
                    if i > 0 {
                        assert(part.skip(1)[i - 1] == rest[i - 1]);
                    }
                }
                assert(part =~= name);
            }
            if part == name {
                assert(later =~= rest);
                assert(spells(bytes, at, name));
            }
        }
    }
}

/// A file without number signs names encryption if and only if `/Encrypt` stands somewhere in it; a
/// file without the slash that names begin with never does.
pub proof fn law_encryption_is_named(bytes: Seq<u8>)
    ensures
        (forall|i: int| 0 <= i < bytes.len() ==> #[trigger] bytes[i] != 35) ==> (names_encryption(
            bytes,
        ) == exists|at: int|
            0 <= at && at + 8 <= bytes.len() && #[trigger] bytes.subrange(at, at + 8)
                == seq![47u8, 69u8, 110u8, 99u8, 114u8, 121u8, 112u8, 116u8]),
        (forall|i: int| 0 <= i < bytes.len() ==> #[trigger] bytes[i] != 47) ==> !names_encryption(
            bytes,
        ),
        names_encryption(bytes) ==> exists|i: int|
            0 <= i && i + 1 < bytes.len() && #[trigger] bytes[i] == 47 && (bytes[i + 1] == 69
                || bytes[i + 1] == 35),
{
    let name = ascii("Encrypt"@);
    let rest = seq![110u8, 99u8, 114u8, 121u8, 112u8, 116u8];
    reveal_strlit("Encrypt");
    assert(name =~= seq![69u8] + rest);
    let whole = seq![47u8, 69u8, 110u8, 99u8, 114u8, 121u8, 112u8, 116u8];
    if names_encryption(bytes) {
        let at = choose|at: int|
            0 < at <= bytes.len() && bytes[at - 1] == 0x2f && #[trigger] spells(bytes, at, name);
        law_names_are_spelled(bytes, at, 69, rest);
        assert(bytes[at - 1] == 47);
        if forall|i: int| 0 <= i < bytes.len() ==> #[trigger] bytes[i] != 35 {
            lemma_plain_spelling(bytes, at, name);
            let part = bytes.subrange(at - 1, at - 1 + 8);
            let later = bytes.subrange(at, at + 7);
            assert(part.skip(1) =~= later);
            assert forall|i: int| 0 <= i < 8 implies part[i] == whole[i] by {
                if i > 0 {
                    assert(part.skip(1)[i - 1] == name[i - 1]);
                }
            }
            assert(part =~= whole);
        }
    }
    if forall|i: int| 0 <= i < bytes.len() ==> #[trigger] bytes[i] != 35 {
        if exists|at: int| 0 <= at && at + 8 <= bytes.len() && #[trigger] bytes.subrange(at, at + 8)
            == whole {
            let at = choose|at: int|
                0 <= at && at + 8 <= bytes.len() && #[trigger] bytes.subrange(at, at + 8) == whole;
            let part = bytes.subrange(at, at + 8);
            assert(part[0] == bytes[at]);
            assert(bytes.subrange(at + 1, at + 8) =~= part.skip(1));
            assert(part.skip(1) =~= name);
            lemma_plain_spelling(bytes, at + 1, name);
            assert(spells(bytes, at + 1, name));
        }
    }
}

/// A page has the fonts that are listed for it, and none where they cannot be found.
pub proof fn law_fonts_are_listed(objects: Map<(u32, u16), ObjectView>, page: (u32, u16))
    ensures
        page_font_entries(objects, page) is None ==> fonts_of_page(objects, page).len() == 0,
        page_font_entries(objects, page) matches Some(fonts) ==> fonts_of_page(objects, page)
            == fonts,
{
}

/// What objects hold is seen as it is, each in its place.
pub proof fn law_contents_are_seen(
    items: Seq<lopdf::Object>,
    named: Seq<(Vec<u8>, lopdf::Object)>,
    entries: Seq<(&Vec<u8>, &lopdf::Object)>,
    operations: Seq<(String, Vec<lopdf::Object>)>,
    i: int,
)
    ensures
        contents_of(items).len() == items.len(),
        0 <= i < items.len() ==> contents_of(items)[i] == object_contents(items[i]),
        named_contents(named).len() == named.len(),
        0 <= i < named.len() ==> named_contents(named)[i] == (
            named[i].0@,
            object_contents(named[i].1),
        ),
        entry_contents(entries).len() == entries.len(),
        0 <= i < entries.len() ==> entry_contents(entries)[i] == (
            entries[i].0@,
            object_contents(*entries[i].1),
        ),
        operation_contents(operations).len() == operations.len(),
        0 <= i < operations.len() ==> operation_contents(operations)[i] == (
            operations[i].0@,
            contents_of(operations[i].1@),
        ),
{
}

} // verus!
