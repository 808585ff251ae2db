use rag_ingestion_core::pdf_document::{decode_stream, filter_chain};
use rag_ingestion_core::pdf_object::PdfObject;
use rag_ingestion_core::stream_filters::{
    apply_filter, ascii85_decode, asciihex_decode, decode_content, flate_decode, StreamFilter,
};

/// `BT (Hello) Tj ET`, packed by zlib.
const PACKED: [u8; 24] = [
    120, 156, 115, 10, 81, 208, 240, 72, 205, 201, 201, 215, 84, 8, 201, 82, 112, 13, 1, 0, 38, 128, 4, 147,
];

const PACKED_ASCII85: &[u8] = b"<~Garg^;:+f'c,n)Z<!^TDE\")gJ-@c5_~>";

#[test]
fn ascii85_groups_are_decoded() {
    assert_eq!(ascii85_decode(b"<~9jqo^F*2M7/c~>"), b"Man sure.".to_vec());
    assert_eq!(ascii85_decode(b"9jqo^F*2M7/c"), b"Man sure.".to_vec());
    assert_eq!(ascii85_decode(b"9jq\no^ F*2M7/\tc~>trailing"), b"Man sure.".to_vec());
    assert_eq!(ascii85_decode(b"<~z@:E^~>"), b"\0\0\0\0abc".to_vec());
    assert_eq!(ascii85_decode(b"<~9jq o^\r\nF*2M7 /c"), b"Man sure.".to_vec());
    assert_eq!(ascii85_decode(b"<~ 9jqo^F*2M7/c ~> 9jqo^"), b"Man sure.".to_vec());
    assert_eq!(ascii85_decode(b""), Vec::<u8>::new());
    assert_eq!(ascii85_decode(b"<~~>"), Vec::<u8>::new());
}

#[test]
fn ascii85_oddities() {
    // A single last digit stands for no byte, a z within a group is passed over, and a value
    // beyond four bytes keeps its lower part.
    assert_eq!(ascii85_decode(b"9"), Vec::<u8>::new());
    assert_eq!(ascii85_decode(b"9zjqo^~>"), b"Man ".to_vec());
    assert_eq!(ascii85_decode(b"uuuuu~>"), 142085828u32.to_be_bytes().to_vec());
}

#[test]
fn asciihex_pairs_are_decoded() {
    assert_eq!(asciihex_decode(b"48 65 6C6c6F>zz"), b"Hello".to_vec());
    assert_eq!(asciihex_decode(b"\n48 6 5 6C\t6c6F"), b"Hello".to_vec());
    assert_eq!(asciihex_decode(b"4"), vec![0x40]);
    assert_eq!(asciihex_decode(b"4x8>"), vec![0x48]);
    assert_eq!(asciihex_decode(b">48"), Vec::<u8>::new());
}

#[test]
fn flate_data_is_unpacked() {
    assert_eq!(flate_decode(&PACKED), b"BT (Hello) Tj ET".to_vec());
}

#[test]
fn flate_data_that_ends_early_gives_what_came_before() {
    assert_eq!(flate_decode(&PACKED[..2]), Vec::<u8>::new());
    assert_eq!(flate_decode(&PACKED[..4]), b"B".to_vec());
    assert_eq!(flate_decode(&PACKED[..12]), b"BT (Hello".to_vec());
    assert_eq!(flate_decode(&PACKED[..23]), b"BT (Hello) Tj ET".to_vec());
    assert_eq!(flate_decode(b""), Vec::<u8>::new());
    assert_eq!(decode_content(&[StreamFilter::Flate], &PACKED[..16]), b"BT (Hello) Tj".to_vec());
}

#[test]
fn damaged_flate_data_does_not_stop_the_page() {
    let text = b"BT (Hello) Tj ET".to_vec();
    let mut damaged = PACKED;
    damaged[23] ^= 0xff;
    assert!(text.starts_with(&flate_decode(&damaged)));
    assert_eq!(flate_decode(b"no zlib data"), Vec::<u8>::new());
}

#[test]
fn filters_are_undone_in_order() {
    let chain = [StreamFilter::Ascii85, StreamFilter::Flate];
    assert_eq!(decode_content(&chain, PACKED_ASCII85), b"BT (Hello) Tj ET".to_vec());
    assert_eq!(decode_content(&[], b"as it is"), b"as it is".to_vec());
    assert_eq!(decode_content(&[StreamFilter::Other, StreamFilter::AsciiHex], b"41>"), b"A".to_vec());
}

#[test]
fn one_filter_is_applied() {
    assert_eq!(apply_filter(StreamFilter::Ascii85, b"9jqo^".to_vec(), vec![1]), b"Man ".to_vec());
    assert_eq!(apply_filter(StreamFilter::AsciiHex, b"41".to_vec(), vec![1]), b"A".to_vec());
    assert_eq!(apply_filter(StreamFilter::Flate, b"41".to_vec(), vec![1]), vec![1]);
    assert_eq!(apply_filter(StreamFilter::Other, b"41".to_vec(), vec![1]), b"41".to_vec());
}

fn name(s: &str) -> PdfObject {
    PdfObject::Name(s.as_bytes().to_vec())
}

#[test]
fn filter_entries_are_names_or_arrays() {
    let of = |o: PdfObject| filter_chain(&[(b"Filter".to_vec(), o)]);
    assert_eq!(of(name("FlateDecode")), vec![StreamFilter::Flate]);
    assert_eq!(
        of(PdfObject::Array(vec![name("ASCII85Decode"), PdfObject::Integer(1), name("FlateDecode")])),
        vec![StreamFilter::Ascii85, StreamFilter::Flate]
    );
    assert_eq!(of(name("ASCIIHexDecode")), vec![StreamFilter::AsciiHex]);
    assert_eq!(of(name("LZWDecode")), vec![StreamFilter::Other]);
    assert_eq!(of(PdfObject::Null), Vec::<StreamFilter>::new());
    assert_eq!(filter_chain(&[]), Vec::<StreamFilter>::new());
}

#[test]
fn streams_are_decoded_by_their_entries() {
    let entries =
        vec![(b"Filter".to_vec(), PdfObject::Array(vec![name("ASCII85Decode"), name("FlateDecode")]))];
    assert_eq!(decode_stream(&entries, PACKED_ASCII85), b"BT (Hello) Tj ET".to_vec());
}
