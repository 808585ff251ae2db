//! Decoders for the filters of PDF streams, and chains of them.
use vstd::prelude::*;

verus! {

/// The filters that a stream may name.
#[derive(Debug, Clone, Copy, PartialEq, Eq, Structural)]
pub enum StreamFilter {
    Ascii85,
    AsciiHex,
    Flate,
    /// A filter that is not decoded: the data passes it unchanged.
    Other,
}

/// The four bytes of a number below 2^32, the most significant first.
pub open spec fn four_bytes(value: nat) -> Seq<u8> {
    seq![
        (value / 0x100_0000 % 0x100) as u8,
        (value / 0x1_0000 % 0x100) as u8,
        (value / 0x100 % 0x100) as u8,
        (value % 0x100) as u8,
    ]
}

/// The value of digits in base 85, the most significant first.
pub open spec fn base85_value(digits: Seq<u8>) -> nat
    decreases digits.len(),
{
    if digits.len() == 0 {
        0
    } else {
        base85_value(digits.drop_last()) * 85 + digits.last() as nat
    }
}

/// The bytes of a group of five digits, of which a value beyond four bytes keeps the lower part.
pub open spec fn group_bytes(digits: Seq<u8>) -> Seq<u8> {
    four_bytes(base85_value(digits) % 0x1_0000_0000)
}

/// The group filled up to five digits with the highest digit.
pub open spec fn padded_group(group: Seq<u8>) -> Seq<u8> {
    group + Seq::new((5 - group.len()) as nat, |i: int| 84u8)
}

/// The bytes of a last group of fewer than five digits: one byte fewer than it has digits.
pub open spec fn last_group_bytes(group: Seq<u8>) -> Seq<u8> {
    if group.len() == 0 {
        Seq::empty()
    } else {
        group_bytes(padded_group(group)).take(group.len() - 1)
    }
}

/// The bytes that ASCII85 data stands for, behind the digits of an unfinished group. A tilde
/// ends the data, a `z` between groups stands for four zero bytes, and any other character that
/// is no digit is passed over.
pub open spec fn base85_bytes(input: Seq<u8>, group: Seq<u8>) -> Seq<u8>
    decreases input.len(),
{
    if input.len() == 0 || input[0] == 0x7e {
        last_group_bytes(group)
    } else {
        let b = input[0];
        let rest = input.skip(1);
        if b == 0x7a && group.len() == 0 {
            seq![0u8, 0u8, 0u8, 0u8] + base85_bytes(rest, group)
        } else if !(0x21 <= b <= 0x75) {
            base85_bytes(rest, group)
        } else if group.len() == 4 {
            group_bytes(group.push((b - 0x21) as u8)) + base85_bytes(rest, Seq::empty())
        } else {
            base85_bytes(rest, group.push((b - 0x21) as u8))
        }
    }
}

/// The data without an opening `<~`.
pub open spec fn without_opening(input: Seq<u8>) -> Seq<u8> {
    if input.len() >= 2 && input[0] == 0x3c && input[1] == 0x7e {
        input.skip(2)
    } else {
        input
    }
}

/// The bytes that ASCII85 data stands for.
pub open spec fn ascii85_bytes(input: Seq<u8>) -> Seq<u8> {
    base85_bytes(without_opening(input), Seq::empty())
}

proof fn lemma_base85_push(digits: Seq<u8>, d: u8)
    ensures
        base85_value(digits.push(d)) == base85_value(digits) * 85 + d as nat,
{
    assert(digits.push(d).drop_last() =~= digits);
}

/// The value of five digits, as far as it fits into 32 bits.
fn group_value(group: &[u8]) -> (r: u32)
    requires
        group@.len() == 5,
        forall|i: int| 0 <= i < 5 ==> #[trigger] group@[i] < 85,
    ensures
        r == base85_value(group@) % 0x1_0000_0000,
{
    let mut value: u64 = 0;
    let mut i: usize = 0;
    assert(group@.take(0) =~= Seq::<u8>::empty());
    while i < 5
        invariant
            i <= 5,
            group@.len() == 5,
            forall|j: int| 0 <= j < 5 ==> #[trigger] group@[j] < 85,
            value == base85_value(group@.take(i as int)),
            i == 0 ==> value == 0,
            i == 1 ==> value < 85,
            i == 2 ==> value < 7225,
            i == 3 ==> value < 614125,
            i == 4 ==> value < 52200625,
            i == 5 ==> value < 4437053125,
        decreases 5 - i,
    {
        assert(group@.take(i + 1) =~= group@.take(i as int).push(group@[i as int]));
        proof {
            lemma_base85_push(group@.take(i as int), group@[i as int]);
        }
        value = value * 85 + group[i] as u64;
        i = i + 1;
    }
    assert(group@.take(5) =~= group@);
    (value % 0x1_0000_0000) as u32
}

fn append_value(out: &mut Vec<u8>, value: u32, count: usize)
    requires
        count <= 4,
    ensures
        final(out)@ == old(out)@ + four_bytes(value as nat).take(count as int),
{
    let ghost before = out@;
    let ghost bytes = four_bytes(value as nat);
    if count >= 1 {
        out.push((value / 0x100_0000 % 0x100) as u8);
    }
    if count >= 2 {
        out.push((value / 0x1_0000 % 0x100) as u8);
    }
    if count >= 3 {
        out.push((value / 0x100 % 0x100) as u8);
    }
    if count >= 4 {
        out.push((value % 0x100) as u8);
    }
    assert(out@ =~= before + bytes.take(count as int));
}

/// Decodes ASCII85 data, with or without its `<~` and `~>`.
pub fn ascii85_decode(input: &[u8]) -> (r: Vec<u8>)
    ensures
        r@ == ascii85_bytes(input@),
{
    let mut out: Vec<u8> = Vec::new();
    let mut group: Vec<u8> = Vec::new();
    let start: usize = if input.len() >= 2 && input[0] == 0x3c && input[1] == 0x7e {
        2
    } else {
        0
    };
    let mut i: usize = start;
    let ghost whole = ascii85_bytes(input@);
    assert(start == 0 ==> input@.skip(0) =~= input@);
    assert(out@ + base85_bytes(input@.skip(i as int), group@) =~= whole);
    while i < input.len() && input[i] != 0x7e
        invariant
            i <= input@.len(),
            group@.len() < 5,
            forall|j: int| 0 <= j < group@.len() ==> #[trigger] group@[j] < 85,
            out@ + base85_bytes(input@.skip(i as int), group@) == whole,
        decreases input@.len() - i,
    {
        let b: u8 = input[i];
        let ghost rest = input@.skip(i as int);
        assert(rest[0] == b);
        assert(rest.skip(1) =~= input@.skip(i + 1));
        if b == 0x7a && group.len() == 0 {
            let ghost before = out@;
            out.push(0);
            out.push(0);
            out.push(0);
            out.push(0);
            assert(out@ =~= before + seq![0u8, 0u8, 0u8, 0u8]);
            assert(before + (seq![0u8, 0u8, 0u8, 0u8] + base85_bytes(rest.skip(1), group@))
                =~= out@ + base85_bytes(rest.skip(1), group@));
        } else if 0x21 <= b && b <= 0x75 {
            let ghost old_group = group@;
            group.push(b - 0x21);
            if group.len() == 5 {
                let ghost before = out@;
                let value: u32 = group_value(&group);
                append_value(&mut out, value, 4);
                assert(four_bytes(value as nat).take(4) =~= four_bytes(value as nat));
                let ghost full = group@;
                group.clear();
                assert(before + (group_bytes(full) + base85_bytes(rest.skip(1), Seq::empty()))
                    =~= out@ + base85_bytes(rest.skip(1), Seq::empty()));
                assert(group@ =~= Seq::<u8>::empty());
            }
        }
        i = i + 1;
    }
    let ghost before = out@;
    let ghost rest = input@.skip(i as int);
    assert(rest.len() > 0 ==> rest[0] == input@[i as int]);
    assert(base85_bytes(rest, group@) == last_group_bytes(group@));
    let n: usize = group.len();
    if n > 0 {
        let ghost short = group@;
        while group.len() < 5
            invariant
                n <= group@.len() <= 5,
                0 < n < 5,
                short.len() == n,
                forall|j: int| 0 <= j < group@.len() ==> #[trigger] group@[j] < 85,
                group@ == short + Seq::new((group@.len() - n) as nat, |i: int| 84u8),
            decreases 5 - group@.len(),
        {
            let ghost prior = group@;
            group.push(84);
            assert(group@ =~= short + Seq::new((group@.len() - n) as nat, |i: int| 84u8));
        }
        assert(group@ =~= padded_group(short));
        let value: u32 = group_value(&group);
        append_value(&mut out, value, n - 1);
    } else {
        assert(before + Seq::<u8>::empty() =~= before);
    }
    out
}

/// The value of a hexadecimal digit.
pub open spec fn hex_value(b: u8) -> Option<u8> {
    if 0x30 <= b <= 0x39 {
        Some((b - 0x30) as u8)
    } else if 0x41 <= b <= 0x46 {
        Some((b - 0x41 + 10) as u8)
    } else if 0x61 <= b <= 0x66 {
        Some((b - 0x61 + 10) as u8)
    } else {
        None
    }
}

/// The values of the hexadecimal digits before the first `>`.
pub open spec fn hex_digits(input: Seq<u8>) -> Seq<u8>
    decreases input.len(),
{
    if input.len() == 0 || input[0] == 0x3e {
        Seq::empty()
    } else {
        match hex_value(input[0]) {
            Some(d) => seq![d] + hex_digits(input.skip(1)),
            None => hex_digits(input.skip(1)),
        }
    }
}

/// The bytes that two digits each make; a last single digit is followed by a zero.
pub open spec fn paired(digits: Seq<u8>) -> Seq<u8>
    decreases digits.len(),
{
    if digits.len() == 0 {
        Seq::empty()
    } else if digits.len() == 1 {
        seq![(16 * digits[0]) as u8]
    } else {
        seq![(16 * digits[0] + digits[1]) as u8] + paired(digits.skip(2))
    }
}

/// The bytes that ASCIIHex data stands for.
pub open spec fn asciihex_bytes(input: Seq<u8>) -> Seq<u8> {
    paired(hex_digits(input))
}

fn hex_digit(b: u8) -> (r: Option<u8>)
    ensures
        r == hex_value(b),
        r matches Some(d) ==> d < 16,
{
    if 0x30 <= b && b <= 0x39 {
        Some(b - 0x30)
    } else if 0x41 <= b && b <= 0x46 {
        Some(b - 0x41 + 10)
    } else if 0x61 <= b && b <= 0x66 {
        Some(b - 0x61 + 10)
    } else {
        None
    }
}

/// Decodes ASCIIHex data up to its `>`; characters that are no digits are passed over.
pub fn asciihex_decode(input: &[u8]) -> (r: Vec<u8>)
    ensures
        r@ == asciihex_bytes(input@),
{
    let mut digits: Vec<u8> = Vec::new();
    let mut i: usize = 0;
    let ghost all = hex_digits(input@);
    assert(input@.skip(0) =~= input@);
    assert(digits@ + hex_digits(input@.skip(0)) =~= all);
    while i < input.len() && input[i] != 0x3e
        invariant
            i <= input@.len(),
            digits@ + hex_digits(input@.skip(i as int)) == all,
            forall|j: int| 0 <= j < digits@.len() ==> #[trigger] digits@[j] < 16,
        decreases input@.len() - i,
    {
        let ghost rest = input@.skip(i as int);
        let ghost before = digits@;
        assert(rest.skip(1) =~= input@.skip(i + 1));
        if let Some(d) = hex_digit(input[i]) {
            digits.push(d);
            assert(before + (seq![d] + hex_digits(rest.skip(1))) =~= digits@ + hex_digits(
                rest.skip(1),
            ));
        }
        i = i + 1;
    }
    assert(input@.skip(i as int).len() > 0 ==> input@.skip(i as int)[0] == input@[i as int]);
    assert(digits@ + Seq::<u8>::empty() =~= digits@);
    let mut out: Vec<u8> = Vec::new();
    let mut k: usize = 0;
    assert(digits@.skip(0) =~= digits@);
    assert(out@ + paired(digits@) =~= paired(digits@));
    while k < digits.len()
        invariant
            k <= digits@.len(),
            forall|j: int| 0 <= j < digits@.len() ==> #[trigger] digits@[j] < 16,
            out@ + paired(digits@.skip(k as int)) == paired(digits@),
        decreases digits@.len() - k,
    {
        let ghost rest = digits@.skip(k as int);
        let ghost before = out@;
        let high: u8 = digits[k];
        if k + 1 < digits.len() {
            let low: u8 = digits[k + 1];
            out.push(16 * high + low);
            assert(rest.skip(2) =~= digits@.skip(k + 2));
            assert(before + (seq![(16 * high + low) as u8] + paired(rest.skip(2))) =~= out@
                + paired(rest.skip(2)));
            k = k + 2;
        } else {
            out.push(16 * high);
            assert(digits@.skip(k + 1) =~= Seq::<u8>::empty());
            assert(before + seq![(16 * high) as u8] =~= out@ + paired(digits@.skip(k + 1)));
            k = k + 1;
        }
    }
    assert(digits@.skip(k as int) =~= Seq::<u8>::empty());
    assert(out@ + Seq::<u8>::empty() =~= out@);
    out
}

/// What unpacking the zlib data at the start of some bytes comes to: whether the data is complete,
/// with nothing for data that is corrupt, and what it unpacks to as far as it goes, or up to the
/// damage.
pub uninterp spec fn zlib_unpacked(input: Seq<u8>) -> (Option<bool>, Seq<u8>);

/// What complete zlib data at the start of some bytes unpacks to.
pub open spec fn zlib_bytes(input: Seq<u8>) -> Option<Seq<u8>> {
    match zlib_unpacked(input) {
        (Some(true), bytes) => Some(bytes),
        _ => None,
    }
}

/// What zlib data unpacks to that ends before it is complete.
pub open spec fn zlib_partial(input: Seq<u8>) -> Option<Seq<u8>> {
    match zlib_unpacked(input) {
        (Some(false), bytes) => Some(bytes),
        _ => None,
    }
}

/// The bytes that the decoder unpacks before it hands them on.
pub const WINDOW: usize = 0x8000;

/// Whether `part` is what comes out of data that ends early and unpacks to `whole`: all of it,
/// but perhaps for what lies behind the last full window.
pub open spec fn is_cut_short(part: Seq<u8>, whole: Seq<u8>) -> bool {
    &&& part.is_prefix_of(whole)
    &&& part == whole || (whole.len() > WINDOW && part.len() >= whole.len() as int / WINDOW as int
        * WINDOW as int)
}

/// `flate2::read::ZlibDecoder` unpacks zlib data, here read to its end into a buffer with some
/// room: it succeeds on complete data, and gives what that data stands for. Of data that ends
/// early it reports the end of its input, and has given what the data stands for as far as it
/// goes; where the input ends within the bits of a full window, the bytes that follow the window
/// may be missing, as the buffer has room for them or not. Of data that is corrupt it has given
/// what the data stands for up to the damage, or less: how much less depends on how the buffer
/// grew, and is left open.
#[verifier::external_body]
fn inflate(input: &[u8], room: usize) -> (r: (Option<bool>, Vec<u8>))
    requires
        room <= isize::MAX,
    ensures
        r.0 == zlib_unpacked(input@).0,
        r.1@.is_prefix_of(zlib_unpacked(input@).1),
        zlib_bytes(input@) matches Some(bytes) ==> r.1@ == bytes,
        zlib_partial(input@) matches Some(bytes) ==> is_cut_short(r.1@, bytes),
{
    let mut decoder = flate2::read::ZlibDecoder::new(input);
    let mut out = Vec::with_capacity(room);
    match std::io::Read::read_to_end(&mut decoder, &mut out) {
        Ok(_) => (Some(true), out),
        Err(e) if e.kind() == std::io::ErrorKind::UnexpectedEof => (Some(false), out),
        Err(_) => (None, out),
    }
}

/// Decodes zlib data. Of data that ends early it gives what was unpacked by then, all of it where
/// that is no more than a window. Of data that is corrupt it gives what was unpacked before the
/// damage, or some of it: how much is not stated.
pub fn flate_decode(input: &[u8]) -> (r: Vec<u8>)
    ensures
        zlib_bytes(input@) matches Some(bytes) ==> r@ == bytes,
        zlib_partial(input@) matches Some(bytes) ==> is_cut_short(r@, bytes),
        zlib_partial(input@) matches Some(bytes) ==> (bytes.len() <= WINDOW ==> r@ == bytes),
        r@.is_prefix_of(zlib_unpacked(input@).1),
{
    let room: usize = if input.len() <= 0x1000_0000 {
        3 * input.len()
    } else {
        0
    };
    let (_, out): (Option<bool>, Vec<u8>) = inflate(input, room);
    out
}

/// What a filter makes of its data, given what unpacking the data gave.
pub open spec fn filtered(filter: StreamFilter, data: Seq<u8>, unpacked: Seq<u8>) -> Seq<u8> {
    match filter {
        StreamFilter::Ascii85 => ascii85_bytes(data),
        StreamFilter::AsciiHex => asciihex_bytes(data),
        StreamFilter::Flate => unpacked,
        StreamFilter::Other => data,
    }
}

/// Whether `after` is what a filter makes of `before`; of corrupt data it is the start of what the
/// data stands for up to the damage.
pub open spec fn step_decodes(filter: StreamFilter, before: Seq<u8>, after: Seq<u8>) -> bool {
    match filter {
        StreamFilter::Flate => {
            &&& zlib_bytes(before) matches Some(bytes) ==> after == bytes
            &&& zlib_partial(before) matches Some(bytes) ==> is_cut_short(after, bytes)
            &&& after.is_prefix_of(zlib_unpacked(before).1)
        },
        _ => after == filtered(filter, before, before),
    }
}

/// Whether `after` is what the filters, one after another, make of `before`.
pub open spec fn decodes_to(filters: Seq<StreamFilter>, before: Seq<u8>, after: Seq<u8>) -> bool
    decreases filters.len(),
{
    if filters.len() == 0 {
        after == before
    } else {
        exists|mid: Seq<u8>|
            decodes_to(filters.drop_last(), before, mid) && #[trigger] step_decodes(
                filters.last(),
                mid,
                after,
            )
    }
}

/// Applies one filter, given what unpacking the data gave.
pub fn apply_filter(filter: StreamFilter, data: Vec<u8>, unpacked: Vec<u8>) -> (r: Vec<u8>)
    ensures
        r@ == filtered(filter, data@, unpacked@),
{
    match filter {
        StreamFilter::Ascii85 => ascii85_decode(&data),
        StreamFilter::AsciiHex => asciihex_decode(&data),
        StreamFilter::Flate => unpacked,
        StreamFilter::Other => data,
    }
}

/// Decodes the content of a stream by its filters, one after another.
pub fn decode_content(filters: &[StreamFilter], content: &[u8]) -> (r: Vec<u8>)
    ensures
        decodes_to(filters@, content@, r@),
{
    let mut data: Vec<u8> = Vec::new();
    let mut k: usize = 0;
    while k < content.len()
        invariant
            k <= content@.len(),
            data@ == content@.take(k as int),
        decreases content@.len() - k,
    {
        data.push(content[k]);
        assert(data@ =~= content@.take(k + 1));
        k = k + 1;
    }
    assert(data@ =~= content@);
    let mut i: usize = 0;
    while i < filters.len()
        invariant
            i <= filters@.len(),
            decodes_to(filters@.take(i as int), content@, data@),
        decreases filters@.len() - i,
    {
        let ghost before = data@;
        let filter: StreamFilter = filters[i];
        let unpacked: Vec<u8> = if filter == StreamFilter::Flate {
            flate_decode(&data)
        } else {
            Vec::new()
        };
        data = apply_filter(filter, data, unpacked);
        proof {
            let next = filters@.take(i + 1);
            assert(next.drop_last() =~= filters@.take(i as int));
            assert(decodes_to(next.drop_last(), content@, before));
            assert(next.last() == filter);
            assert(step_decodes(next.last(), before, data@));
        }
        i = i + 1;
    }
    assert(filters@.take(i as int) =~= filters@);
    data
}

/// The number that four bytes make, the most significant first.
#[verifier::opaque]
pub open spec fn four_byte_value(b: Seq<u8>) -> nat {
    b[0] as nat * 0x100_0000 + b[1] as nat * 0x1_0000 + b[2] as nat * 0x100 + b[3] as nat
}

/// The five digits of a number below 2^32 in base 85, the most significant first.
#[verifier::opaque]
pub open spec fn five_digits(v: nat) -> Seq<u8> {
    seq![
        (v / 85 / 85 / 85 / 85) as u8,
        (v / 85 / 85 / 85 % 85) as u8,
        (v / 85 / 85 % 85) as u8,
        (v / 85 % 85) as u8,
        (v % 85) as u8,
    ]
}

/// The characters of digits in base 85.
pub open spec fn digit_chars(digits: Seq<u8>) -> Seq<u8> {
    Seq::new(digits.len(), |i: int| (digits[i] + 0x21) as u8)
}

/// Bytes filled up to four with zeros.
pub open spec fn padded_bytes(bytes: Seq<u8>) -> Seq<u8> {
    bytes + Seq::new((4 - bytes.len()) as nat, |i: int| 0u8)
}

/// Bytes as ASCII85 writes them: five digits for four bytes, `z` for four zero bytes, and one
/// digit more than bytes for a last group of fewer than four bytes.
pub open spec fn base85_text(bytes: Seq<u8>) -> Seq<u8>
    decreases bytes.len(),
{
    if bytes.len() == 0 {
        Seq::empty()
    } else if bytes.len() < 4 {
        digit_chars(five_digits(four_byte_value(padded_bytes(bytes))).take(bytes.len() as int + 1))
    } else {
        let v = four_byte_value(bytes.take(4));
        let first = if v == 0 {
            seq![0x7au8]
        } else {
            digit_chars(five_digits(v))
        };
        first + base85_text(bytes.skip(4))
    }
}

/// Bytes in ASCII85, with the closing `~>`.
pub open spec fn ascii85_text(bytes: Seq<u8>) -> Seq<u8> {
    base85_text(bytes) + seq![0x7eu8, 0x3eu8]
}

proof fn lemma_five_digits(v: nat)
    requires
        v < 0x1_0000_0000,
    ensures
        ({
            let d = five_digits(v);
            &&& d.len() == 5
            &&& forall|i: int| 0 <= i < 5 ==> #[trigger] d[i] < 85
            &&& base85_value(d) == v
            &&& base85_value(d.take(4)) == v / 85
            &&& base85_value(d.take(3)) == v / 85 / 85
            &&& base85_value(d.take(2)) == v / 85 / 85 / 85
        }),
{
    reveal(five_digits);
    let d = five_digits(v);
    let q1 = v / 85;
    let q2 = q1 / 85;
    let q3 = q2 / 85;
    let q4 = q3 / 85;
    assert(q4 < 85);
    assert(d.take(0) =~= Seq::<u8>::empty());
    assert(base85_value(d.take(0)) == 0);
    assert(d.take(1).drop_last() =~= d.take(0));
    assert(d.take(2).drop_last() =~= d.take(1));
    assert(d.take(3).drop_last() =~= d.take(2));
    assert(d.take(4).drop_last() =~= d.take(3));
    assert(d.take(5) =~= d);
    assert(d.drop_last() =~= d.take(4));
    assert(base85_value(d.take(1)) == q4);
    assert(base85_value(d.take(2)) == q4 * 85 + q3 % 85);
    assert(base85_value(d.take(3)) == q3 * 85 + q2 % 85);
    assert(base85_value(d.take(4)) == q2 * 85 + q1 % 85);
    assert(base85_value(d) == q1 * 85 + v % 85);
}

proof fn lemma_four_bytes(b: Seq<u8>)
    requires
        b.len() == 4,
    ensures
        four_byte_value(b) < 0x1_0000_0000,
        four_bytes(four_byte_value(b)) == b,
{
    reveal(four_byte_value);
    let v = four_byte_value(b);
    assert(v % 0x100 == b[3]);
    assert(v / 0x100 == b[0] as nat * 0x1_0000 + b[1] as nat * 0x100 + b[2] as nat);
    assert(v / 0x1_0000 == b[0] as nat * 0x100 + b[1] as nat);
    assert(v / 0x100_0000 == b[0] as nat);
    assert(four_bytes(v) =~= b);
}

/// Reading the characters of digits that leave the group unfinished.
proof fn lemma_read_digits(digits: Seq<u8>, rest: Seq<u8>, group: Seq<u8>)
    requires
        group.len() + digits.len() < 5,
        forall|i: int| 0 <= i < digits.len() ==> #[trigger] digits[i] < 85,
    ensures
        base85_bytes(digit_chars(digits) + rest, group) == base85_bytes(rest, group + digits),
    decreases digits.len(),
{
    let text = digit_chars(digits) + rest;
    if digits.len() == 0 {
        assert(text =~= rest);
        assert(group + digits =~= group);
    } else {
        let d = digits[0];
        assert(text[0] == (d + 0x21) as u8);
        assert(text.skip(1) =~= digit_chars(digits.skip(1)) + rest);
        assert((text[0] - 0x21) as u8 == d);
        assert forall|i: int| 0 <= i < digits.skip(1).len() implies #[trigger] digits.skip(1)[i]
            < 85 by {
            assert(digits.skip(1)[i] == digits[i + 1]);
        }
        lemma_read_digits(digits.skip(1), rest, group.push(d));
        assert(group.push(d) + digits.skip(1) =~= group + digits);
    }
}

proof fn lemma_read_group(digits: Seq<u8>, rest: Seq<u8>)
    requires
        digits.len() == 5,
        forall|i: int| 0 <= i < digits.len() ==> #[trigger] digits[i] < 85,
    ensures
        base85_bytes(digit_chars(digits) + rest, Seq::empty()) == group_bytes(digits)
            + base85_bytes(rest, Seq::empty()),
{
    let front = digits.take(4);
    let tail = digit_chars(digits.skip(4)) + rest;
    assert(digit_chars(digits) + rest =~= digit_chars(front) + tail);
    assert forall|i: int| 0 <= i < front.len() implies #[trigger] front[i] < 85 by {
        assert(front[i] == digits[i]);
    }
    lemma_read_digits(front, tail, Seq::empty());
    assert(Seq::<u8>::empty() + front =~= front);
    let d = digits[4];
    assert(d < 85);
    assert(tail[0] == (d + 0x21) as u8);
    assert((tail[0] - 0x21) as u8 == d);
    assert(tail.skip(1) =~= rest);
    assert(front.push(d) =~= digits);
}

proof fn lemma_padded_value(group: Seq<u8>)
    requires
        2 <= group.len() <= 4,
    ensures
        group.len() == 4 ==> base85_value(padded_group(group)) == base85_value(group) * 85 + 84,
        group.len() == 3 ==> base85_value(padded_group(group)) == base85_value(group) * 7225 + 7224,
        group.len() == 2 ==> base85_value(padded_group(group)) == base85_value(group) * 614125
            + 614124,
{
    let full = padded_group(group);
    if group.len() == 4 {
        assert(full =~= group.push(84));
        lemma_base85_push(group, 84);
    } else if group.len() == 3 {
        assert(full =~= group.push(84).push(84));
        lemma_base85_push(group, 84);
        lemma_base85_push(group.push(84), 84);
    } else {
        assert(full =~= group.push(84).push(84).push(84));
        lemma_base85_push(group, 84);
        lemma_base85_push(group.push(84), 84);
        lemma_base85_push(group.push(84).push(84), 84);
    }
}

proof fn lemma_zero_tail(b: Seq<u8>)
    requires
        b.len() == 4,
        b[3] == 0,
    ensures
        four_byte_value(b) % 0x100 == 0,
        b[2] == 0 ==> four_byte_value(b) % 0x1_0000 == 0,
        b[2] == 0 && b[1] == 0 ==> four_byte_value(b) % 0x100_0000 == 0,
{
    reveal(four_byte_value);
}

proof fn lemma_same_top(v: nat, w: nat, n: int)
    requires
        v < 0x1_0000_0000,
        n == 3 ==> v % 0x100 == 0 && v <= w < v + 0x100,
        n == 2 ==> v % 0x1_0000 == 0 && v <= w < v + 0x1_0000,
        n == 1 ==> v % 0x100_0000 == 0 && v <= w < v + 0x100_0000,
        1 <= n <= 3,
    ensures
        w < 0x1_0000_0000,
        four_bytes(w).take(n) == four_bytes(v).take(n),
{
    if n == 3 {
        assert(w < 0x1_0000_0000);
        assert(w / 0x100 == v / 0x100);
        assert(w / 0x1_0000 == w / 0x100 / 0x100);
        assert(v / 0x1_0000 == v / 0x100 / 0x100);
        assert(w / 0x100_0000 == w / 0x100 / 0x1_0000);
        assert(v / 0x100_0000 == v / 0x100 / 0x1_0000);
    } else if n == 2 {
        assert(w < 0x1_0000_0000);
        assert(w / 0x1_0000 == v / 0x1_0000);
        assert(w / 0x100_0000 == w / 0x1_0000 / 0x100);
        assert(v / 0x100_0000 == v / 0x1_0000 / 0x100);
    } else {
        assert(w < 0x1_0000_0000);
        assert(w / 0x100_0000 == v / 0x100_0000);
    }
    assert(four_bytes(w).take(n) =~= four_bytes(v).take(n));
}

proof fn lemma_filled_value(v: nat, w: nat, n: int)
    requires
        1 <= n <= 3,
        n == 3 ==> w == v / 85 * 85 + 84,
        n == 2 ==> w == v / 85 / 85 * 7225 + 7224,
        n == 1 ==> w == v / 85 / 85 / 85 * 614125 + 614124,
    ensures
        n == 3 ==> v <= w < v + 0x100,
        n == 2 ==> v <= w < v + 0x1_0000,
        n == 1 ==> v <= w < v + 0x100_0000,
{
    let a = v / 85;
    let b = a / 85;
    let c = b / 85;
    assert(85 * a <= v < 85 * a + 85);
    assert(85 * b <= a < 85 * b + 85);
    assert(85 * c <= b < 85 * c + 85);
}

proof fn lemma_last_group(bytes: Seq<u8>)
    requires
        1 <= bytes.len() <= 3,
    ensures
        ({
            let v = four_byte_value(padded_bytes(bytes));
            last_group_bytes(five_digits(v).take(bytes.len() as int + 1)) == bytes
        }),
{
    let n = bytes.len() as int;
    let full = padded_bytes(bytes);
    let v = four_byte_value(full);
    lemma_four_bytes(full);
    lemma_zero_tail(full);
    lemma_five_digits(v);
    let group = five_digits(v).take(n + 1);
    assert(group.len() == n + 1);
    lemma_padded_value(group);
    let w = base85_value(padded_group(group));
    lemma_filled_value(v, w, n);
    lemma_same_top(v, w, n);
    assert(w % 0x1_0000_0000 == w);
    assert(full.take(n) =~= bytes);
}

proof fn lemma_round_trip(bytes: Seq<u8>, end: Seq<u8>)
    requires
        end.len() == 0 || end[0] == 0x7e,
    ensures
        base85_bytes(base85_text(bytes) + end, Seq::empty()) == bytes,
    decreases bytes.len(),
{
    let text = base85_text(bytes) + end;
    if bytes.len() == 0 {
        assert(text =~= end);
        assert(base85_bytes(text, Seq::empty()) =~= bytes);
    } else if bytes.len() < 4 {
        let v = four_byte_value(padded_bytes(bytes));
        lemma_four_bytes(padded_bytes(bytes));
        lemma_five_digits(v);
        let digits = five_digits(v).take(bytes.len() as int + 1);
        assert forall|i: int| 0 <= i < digits.len() implies #[trigger] digits[i] < 85 by {
            assert(digits[i] == five_digits(v)[i]);
        }
        lemma_read_digits(digits, end, Seq::empty());
        assert(Seq::<u8>::empty() + digits =~= digits);
        lemma_last_group(bytes);
    } else {
        let head = bytes.take(4);
        let v = four_byte_value(head);
        let rest = base85_text(bytes.skip(4)) + end;
        lemma_four_bytes(head);
        lemma_five_digits(v);
        lemma_round_trip(bytes.skip(4), end);
        if v == 0 {
            assert(text =~= seq![0x7au8] + rest);
            assert(text[0] == 0x7a);
            assert(text.skip(1) =~= rest);
            assert(four_bytes(0) =~= seq![0u8, 0u8, 0u8, 0u8]);
        } else {
            let digits = five_digits(v);
            assert(text =~= digit_chars(digits) + rest);
            lemma_read_group(digits, rest);
            assert(v % 0x1_0000_0000 == v);
        }
        assert(head + bytes.skip(4) =~= bytes);
    }
}

proof fn lemma_no_opening(bytes: Seq<u8>)
    ensures
        without_opening(ascii85_text(bytes)) == ascii85_text(bytes),
{
    let text = ascii85_text(bytes);
    if bytes.len() > 0 {
        let full = if bytes.len() < 4 {
            padded_bytes(bytes)
        } else {
            bytes.take(4)
        };
        let v = four_byte_value(full);
        lemma_four_bytes(full);
        lemma_five_digits(v);
        let digits = five_digits(v);
        assert(digits[1] < 85);
        if bytes.len() >= 4 && v == 0 {
            assert(text[0] == 0x7a);
        } else {
            assert(text[1] == (digits[1] + 0x21) as u8);
        }
    }
}

/// Decoding gives back what was encoded in ASCII85.
pub proof fn law_ascii85_round_trip(bytes: Seq<u8>)
    ensures
        ascii85_bytes(ascii85_text(bytes)) == bytes,
{
    lemma_no_opening(bytes);
    lemma_round_trip(bytes, seq![0x7eu8, 0x3eu8]);
}

/// The bytes without white space and control characters.
pub open spec fn squeezed(s: Seq<u8>) -> Seq<u8>
    decreases s.len(),
{
    if s.len() == 0 {
        Seq::empty()
    } else if s[0] <= 0x20 {
        squeezed(s.skip(1))
    } else {
        seq![s[0]] + squeezed(s.skip(1))
    }
}

proof fn lemma_squeezed_base85(s: Seq<u8>, end: Seq<u8>, group: Seq<u8>)
    ensures
        base85_bytes(s + end, group) == base85_bytes(squeezed(s) + end, group),
    decreases s.len(),
{
    if s.len() == 0 {
        assert(s + end =~= squeezed(s) + end);
    } else {
        let rest = s.skip(1);
        let b = s[0];
        assert((s + end).skip(1) =~= rest + end);
        assert((s + end)[0] == b);
        if b <= 0x20 {
            lemma_squeezed_base85(rest, end, group);
        } else {
            let tight = squeezed(s) + end;
            assert(tight[0] == b);
            assert(tight.skip(1) =~= squeezed(rest) + end);
            lemma_squeezed_base85(rest, end, group);
            lemma_squeezed_base85(rest, end, Seq::empty());
            lemma_squeezed_base85(rest, end, group.push((b - 0x21) as u8));
        }
    }
}

proof fn lemma_base85_chars(bytes: Seq<u8>)
    ensures
        forall|i: int|
            0 <= i < base85_text(bytes).len() ==> #[trigger] base85_text(bytes)[i] != 0x7e,
        base85_text(bytes).len() == 1 ==> base85_text(bytes)[0] == 0x7a,
    decreases bytes.len(),
{
    let text = base85_text(bytes);
    if 0 < bytes.len() < 4 {
        let v = four_byte_value(padded_bytes(bytes));
        lemma_four_bytes(padded_bytes(bytes));
        lemma_five_digits(v);
        let digits = five_digits(v).take(bytes.len() as int + 1);
        assert forall|i: int| 0 <= i < text.len() implies #[trigger] text[i] != 0x7e by {
            assert(digits[i] == five_digits(v)[i]);
        }
    } else if bytes.len() >= 4 {
        let v = four_byte_value(bytes.take(4));
        lemma_four_bytes(bytes.take(4));
        lemma_five_digits(v);
        lemma_base85_chars(bytes.skip(4));
        let rest = base85_text(bytes.skip(4));
        let first = if v == 0 {
            seq![0x7au8]
        } else {
            digit_chars(five_digits(v))
        };
        assert(text =~= first + rest);
        assert forall|i: int| 0 <= i < text.len() implies #[trigger] text[i] != 0x7e by {
            if i < first.len() {
                if v != 0 {
                    assert(five_digits(v)[i] < 85);
                }
            } else {
                assert(text[i] == rest[i - first.len()]);
            }
        }
    }
}

/// Decoding gives back what was encoded in ASCII85, however it is laid out: with or without the
/// opening mark, with white space anywhere between the digits, with or without the end mark, and
/// whatever follows that.
pub proof fn law_ascii85_layout(bytes: Seq<u8>, text: Seq<u8>, end: Seq<u8>)
    requires
        squeezed(text) == base85_text(bytes),
        end.len() == 0 || end[0] == 0x7e,
    ensures
        ascii85_bytes(text + end) == bytes,
        ascii85_bytes(seq![0x3cu8, 0x7eu8] + text + end) == bytes,
{
    let opening = seq![0x3cu8, 0x7eu8];
    lemma_squeezed_base85(text, end, Seq::empty());
    lemma_round_trip(bytes, end);
    lemma_base85_chars(bytes);
    assert(without_opening(opening + text + end) =~= text + end);
    let whole = text + end;
    if whole.len() >= 2 && whole[0] == 0x3c && whole[1] == 0x7e {
        if text.len() == 0 {
            assert(whole[0] == end[0]);
        } else {
            let rest = text.skip(1);
            assert(text[0] == 0x3c);
            assert(squeezed(text)[0] == 0x3c);
            if text.len() == 1 {
                assert(squeezed(rest) =~= Seq::<u8>::empty());
                assert(squeezed(text).len() == 1);
            } else {
                assert(rest[0] == 0x7e);
                assert(squeezed(rest)[0] == 0x7e);
                assert(squeezed(text)[1] == 0x7e);
            }
        }
    }
}

/// The character of a hexadecimal digit.
pub open spec fn hex_char(d: int) -> u8 {
    if d < 10 {
        (0x30 + d) as u8
    } else {
        (0x61 + d - 10) as u8
    }
}

/// Bytes in ASCIIHex, two digits each.
pub open spec fn hex_text(bytes: Seq<u8>) -> Seq<u8>
    decreases bytes.len(),
{
    if bytes.len() == 0 {
        Seq::empty()
    } else {
        seq![hex_char(bytes[0] as int / 16), hex_char(bytes[0] as int % 16)] + hex_text(
            bytes.skip(1),
        )
    }
}

/// Decoding gives back what was encoded in ASCIIHex.
pub proof fn law_asciihex_round_trip(bytes: Seq<u8>)
    ensures
        asciihex_bytes(hex_text(bytes) + seq![0x3eu8]) == bytes,
    decreases bytes.len(),
{
    let end = seq![0x3eu8];
    let text = hex_text(bytes) + end;
    if bytes.len() == 0 {
        assert(text =~= end);
        assert(asciihex_bytes(text) =~= bytes);
    } else {
        let high = bytes[0] as int / 16;
        let low = bytes[0] as int % 16;
        let rest = hex_text(bytes.skip(1)) + end;
        law_asciihex_round_trip(bytes.skip(1));
        assert(hex_value(hex_char(high)) == Some(high as u8));
        assert(hex_value(hex_char(low)) == Some(low as u8));
        assert(text[0] == hex_char(high));
        assert(text.skip(1)[0] == hex_char(low));
        assert(text.skip(1).skip(1) =~= rest);
        let digits = hex_digits(text);
        assert(digits =~= seq![high as u8] + hex_digits(text.skip(1)));
        assert(digits =~= seq![high as u8, low as u8] + hex_digits(rest));
        assert(digits.skip(2) =~= hex_digits(rest));
        assert(paired(digits) =~= seq![bytes[0]] + paired(hex_digits(rest)));
        assert(seq![bytes[0]] + bytes.skip(1) =~= bytes);
    }
}

proof fn lemma_squeezed_hex(s: Seq<u8>, end: Seq<u8>)
    ensures
        hex_digits(s + end) == hex_digits(squeezed(s) + end),
    decreases s.len(),
{
    if s.len() == 0 {
        assert(s + end =~= squeezed(s) + end);
    } else {
        let rest = s.skip(1);
        lemma_squeezed_hex(rest, end);
        assert((s + end).skip(1) =~= rest + end);
        assert((s + end)[0] == s[0]);
        if s[0] > 0x20 {
            let tight = squeezed(s) + end;
            assert(tight[0] == s[0]);
            assert(tight.skip(1) =~= squeezed(rest) + end);
        }
    }
}

/// Whether characters are the hexadecimal digits of some bytes, two for each, small or capital.
pub open spec fn are_hex_digits_of(text: Seq<u8>, bytes: Seq<u8>) -> bool {
    &&& text.len() == 2 * bytes.len()
    &&& forall|i: int|
        0 <= i < bytes.len() ==> hex_value(text[2 * i]) == Some((#[trigger] bytes[i] as int / 16) as u8)
            && hex_value(text[2 * i + 1]) == Some((bytes[i] as int % 16) as u8)
}

proof fn lemma_hex_digits_of(text: Seq<u8>, end: Seq<u8>, bytes: Seq<u8>)
    requires
        are_hex_digits_of(text, bytes),
        end.len() == 0 || end[0] == 0x3e,
    ensures
        asciihex_bytes(text + end) == bytes,
    decreases bytes.len(),
{
    let whole = text + end;
    if bytes.len() == 0 {
        assert(whole =~= end);
        assert(asciihex_bytes(whole) =~= bytes);
    } else {
        let high = (bytes[0] as int / 16) as u8;
        let low = (bytes[0] as int % 16) as u8;
        let rest = text.skip(2);
        let first = 0int;
        assert(bytes[first] == bytes[0]);
        assert(hex_value(text[2 * first]) == Some(high));
        assert(hex_value(text[2 * first + 1]) == Some(low));
        assert forall|i: int| 0 <= i < bytes.skip(1).len() implies hex_value(rest[2 * i]) == Some(
            (#[trigger] bytes.skip(1)[i] as int / 16) as u8,
        ) && hex_value(rest[2 * i + 1]) == Some((bytes.skip(1)[i] as int % 16) as u8) by {
            assert(bytes.skip(1)[i] == bytes[i + 1]);
            assert(rest[2 * i] == text[2 * (i + 1)]);
            assert(rest[2 * i + 1] == text[2 * (i + 1) + 1]);
        }
        lemma_hex_digits_of(rest, end, bytes.skip(1));
        assert(whole[0] == text[0]);
        assert(whole.skip(1)[0] == text[1]);
        assert(whole.skip(1).skip(1) =~= rest + end);
        let digits = hex_digits(whole);
        assert(hex_digits(whole.skip(1)) =~= seq![low] + hex_digits(rest + end));
        assert(digits =~= seq![high] + hex_digits(whole.skip(1)));
        assert(digits =~= seq![high, low] + hex_digits(rest + end));
        assert(digits.skip(2) =~= hex_digits(rest + end));
        assert(paired(digits) =~= seq![bytes[0]] + paired(hex_digits(rest + end)));
        assert(seq![bytes[0]] + bytes.skip(1) =~= bytes);
    }
}

/// Decoding gives back what was encoded in ASCIIHex, however it is laid out: with small or capital
/// digits, with white space anywhere between them, with or without the end mark, and whatever
/// follows that.
pub proof fn law_asciihex_layout(bytes: Seq<u8>, text: Seq<u8>, end: Seq<u8>)
    requires
        are_hex_digits_of(squeezed(text), bytes),
        end.len() == 0 || end[0] == 0x3e,
    ensures
        asciihex_bytes(text + end) == bytes,
{
    lemma_squeezed_hex(text, end);
    lemma_hex_digits_of(squeezed(text), end, bytes);
}

/// Zlib data wrapped in ASCII85 is unwrapped and unpacked, as far as it goes where it ends early.
pub proof fn law_wrapped_zlib_is_unpacked(data: Seq<u8>, decoded: Seq<u8>)
    ensures
        decodes_to(
            seq![StreamFilter::Ascii85, StreamFilter::Flate],
            ascii85_text(data),
            decoded,
        ) ==> (zlib_bytes(data) matches Some(bytes) ==> decoded == bytes) && (zlib_partial(
            data,
        ) matches Some(bytes) ==> is_cut_short(decoded, bytes)),
{
    let filters = seq![StreamFilter::Ascii85, StreamFilter::Flate];
    let text = ascii85_text(data);
    if decodes_to(filters, text, decoded) {
        let first = filters.drop_last();
        assert(first =~= seq![StreamFilter::Ascii85]);
        let mid = choose|mid: Seq<u8>|
            decodes_to(first, text, mid) && #[trigger] step_decodes(filters.last(), mid, decoded);
        let start = choose|start: Seq<u8>|
            decodes_to(first.drop_last(), text, start) && #[trigger] step_decodes(
                first.last(),
                start,
                mid,
            );
        assert(first.drop_last().len() == 0);
        assert(start == text);
        law_ascii85_round_trip(data);
    }
}

/// Filters are undone one after another: those before, then those after; a single one as it is; and
/// without filters nothing is done.
pub proof fn law_filters_follow_one_another(
    a: Seq<StreamFilter>,
    b: Seq<StreamFilter>,
    filter: StreamFilter,
    x: Seq<u8>,
    y: Seq<u8>,
    z: Seq<u8>,
)
    ensures
        decodes_to(a, x, y) && decodes_to(b, y, z) ==> decodes_to(a + b, x, z),
        decodes_to(Seq::empty(), x, y) <==> x == y,
        decodes_to(seq![StreamFilter::Ascii85], x, y) <==> y == ascii85_bytes(x),
        decodes_to(seq![StreamFilter::AsciiHex], x, y) <==> y == asciihex_bytes(x),
        decodes_to(seq![StreamFilter::Other], x, y) <==> y == x,
        decodes_to(seq![StreamFilter::Flate], x, y) && zlib_unpacked(x).0 == Some(true) ==> y
            == zlib_unpacked(x).1,
        decodes_to(seq![filter], x, y) <==> step_decodes(filter, x, y),
    decreases b.len(),
{
    if decodes_to(a, x, y) && decodes_to(b, y, z) {
        if b.len() == 0 {
            assert(a + b =~= a);
        } else {
            let mid = choose|mid: Seq<u8>|
                decodes_to(b.drop_last(), y, mid) && #[trigger] step_decodes(b.last(), mid, z);
            law_filters_follow_one_another(a, b.drop_last(), filter, x, y, mid);
            assert((a + b).drop_last() =~= a + b.drop_last());
            assert((a + b).last() == b.last());
            assert(step_decodes((a + b).last(), mid, z));
        }
    }
    lemma_one_filter(filter, x, y);
    lemma_one_filter(StreamFilter::Ascii85, x, y);
    lemma_one_filter(StreamFilter::AsciiHex, x, y);
    lemma_one_filter(StreamFilter::Other, x, y);
    lemma_one_filter(StreamFilter::Flate, x, y);
}

proof fn lemma_one_filter(filter: StreamFilter, x: Seq<u8>, y: Seq<u8>)
    ensures
        decodes_to(seq![filter], x, y) <==> step_decodes(filter, x, y),
{
    let one = seq![filter];
    assert(one.drop_last() =~= Seq::<StreamFilter>::empty());
    if step_decodes(filter, x, y) {
        assert(decodes_to(one.drop_last(), x, x));
        assert(step_decodes(one.last(), x, y));
    }
    if decodes_to(one, x, y) {
        let mid = choose|mid: Seq<u8>|
            decodes_to(one.drop_last(), x, mid) && #[trigger] step_decodes(one.last(), mid, y);
        assert(mid == x);
    }
}

/// Five ASCII85 digits stand for four bytes: the number that the digits write in base 85, the most
/// significant first, is the number that the bytes write in base 256, as far as it fits into them.
/// What follows is decoded as if it stood alone.
pub proof fn law_ascii85_group(c: Seq<u8>, rest: Seq<u8>)
    requires
        c.len() == 5,
        forall|i: int| 0 <= i < 5 ==> 33 <= #[trigger] c[i] <= 117,
    ensures
        ({
            let v = ((((c[0] - 33) * 85 + (c[1] - 33)) * 85 + (c[2] - 33)) * 85 + (c[3] - 33)) * 85
                + (c[4] - 33);
            let n = v % 4_294_967_296;
            base85_bytes(c + rest, Seq::empty()) == seq![
                (n / 16_777_216) as u8,
                (n / 65_536 % 256) as u8,
                (n / 256 % 256) as u8,
                (n % 256) as u8,
            ] + base85_bytes(rest, Seq::empty())
        }),
{
    let none = Seq::<u8>::empty();
    let d = Seq::new(5, |i: int| (c[i] - 33) as u8);
    lemma_digits_taken_up(c, 5, rest, d);
    lemma_five_digits_value(d);
}

proof fn lemma_five_digits_value(d: Seq<u8>)
    requires
        d.len() == 5,
    ensures
        base85_value(d) == (((d[0] * 85 + d[1]) * 85 + d[2]) * 85 + d[3]) * 85 + d[4],
        0 <= base85_value(d) % 0x1_0000_0000 / 0x100_0000 < 0x100,
{
    assert(d.take(0) =~= Seq::<u8>::empty());
    assert(base85_value(d.take(0)) == 0);
    assert(d =~= d.take(4).push(d[4]));
    assert(d.take(4) =~= d.take(3).push(d[3]));
    assert(d.take(3) =~= d.take(2).push(d[2]));
    assert(d.take(2) =~= d.take(1).push(d[1]));
    assert(d.take(1) =~= d.take(0).push(d[0]));
    lemma_base85_push(d.take(0), d[0]);
    lemma_base85_push(d.take(1), d[1]);
    lemma_base85_push(d.take(2), d[2]);
    lemma_base85_push(d.take(3), d[3]);
    lemma_base85_push(d.take(4), d[4]);
}

proof fn lemma_digits_taken_up(c: Seq<u8>, n: nat, rest: Seq<u8>, d: Seq<u8>)
    requires
        n <= c.len() == d.len() <= 5,
        forall|i: int| 0 <= i < c.len() ==> 33 <= #[trigger] c[i] <= 117,
        forall|i: int| 0 <= i < c.len() ==> #[trigger] d[i] == c[i] - 33,
    ensures
        n < 5 ==> base85_bytes(c.take(n as int) + rest, Seq::empty()) == base85_bytes(
            rest,
            d.take(n as int),
        ),
        n == 5 ==> base85_bytes(c + rest, Seq::empty()) == group_bytes(d) + base85_bytes(
            rest,
            Seq::empty(),
        ),
    decreases n,
{
    if n == 0 {
        assert(c.take(0) + rest =~= rest);
        assert(d.take(0) =~= Seq::<u8>::empty());
    } else {
        let m = (n - 1) as nat;
        let next = seq![c[m as int]] + rest;
        lemma_digits_taken_up(c, m, next, d);
        assert(c.take(m as int) + next =~= c.take(n as int) + rest);
        assert(next[0] == c[m as int]);
        assert(next.skip(1) =~= rest);
        assert(d.take(m as int).push(d[m as int]) =~= d.take(n as int));
        if n == 5 {
            assert(c.take(5) =~= c);
            assert(d.take(5) =~= d);
        }
    }
}

/// A last group of two to four ASCII85 digits stands for one byte fewer than it has digits: the
/// first ones of the group that is filled up with the highest digit. A single digit stands for
/// nothing.
pub proof fn law_ascii85_last_group(c: Seq<u8>)
    requires
        c.len() < 5,
        forall|i: int| 0 <= i < c.len() ==> 33 <= #[trigger] c[i] <= 117,
    ensures
        c.len() <= 1 ==> base85_bytes(c, Seq::empty()).len() == 0,
        c.len() >= 2 ==> base85_bytes(c, Seq::empty()) == base85_bytes(
            c + Seq::new((5 - c.len()) as nat, |i: int| 117u8),
            Seq::empty(),
        ).take(c.len() - 1),
{
    let none = Seq::<u8>::empty();
    let d = Seq::new(c.len(), |i: int| (c[i] - 33) as u8);
    lemma_digits_taken_up(c, c.len(), none, d);
    assert(c.take(c.len() as int) + none =~= c);
    assert(d.take(c.len() as int) =~= d);
    if c.len() >= 2 {
        let whole = c + Seq::new((5 - c.len()) as nat, |i: int| 117u8);
        let digits = padded_group(d);
        assert forall|i: int| 0 <= i < 5 implies #[trigger] digits[i] == whole[i] - 33 by {}
        lemma_digits_taken_up(whole, 5, none, digits);
        assert(whole + none =~= whole);
        assert(group_bytes(digits) + base85_bytes(none, none) =~= group_bytes(digits));
    }
}

/// In ASCII85 data a tilde ends the data, a `z` between groups stands for four zero bytes and within
/// a group for nothing, and a character that is no digit stands for nothing wherever it stands.
pub proof fn law_ascii85_marks(a: Seq<u8>, b: u8, c: Seq<u8>, group: Seq<u8>)
    ensures
        base85_bytes(a + seq![126u8] + c, group) == base85_bytes(a, group),
        base85_bytes(seq![122u8] + c, Seq::empty()) == seq![0u8, 0u8, 0u8, 0u8] + base85_bytes(
            c,
            Seq::empty(),
        ),
        group.len() > 0 ==> base85_bytes(seq![122u8] + c, group) == base85_bytes(c, group),
        33 <= b <= 117 && group.len() < 4 ==> base85_bytes(seq![b] + c, group) == base85_bytes(
            c,
            group.push((b - 33) as u8),
        ),
        b < 33 || b > 117 && b != 122 && b != 126 ==> base85_bytes(a + seq![b] + c, group)
            == base85_bytes(a + c, group),
        ascii85_bytes(seq![60u8, 126u8] + c) == base85_bytes(c, Seq::empty()),
        c.len() < 2 || c[0] != 60 || c[1] != 126 ==> ascii85_bytes(c)
            == base85_bytes(c, Seq::empty()),
    decreases a.len(),
{
    let z = seq![122u8] + c;
    assert(z[0] == 122 && z.skip(1) =~= c);
    let more = seq![b] + c;
    assert(more[0] == b && more.skip(1) =~= c);
    let opened = seq![60u8, 126u8] + c;
    assert(opened.skip(2) =~= c);
    if a.len() == 0 {
        assert((a + seq![126u8] + c)[0] == 126);
        assert((a + seq![b] + c)[0] == b);
        assert((a + seq![b] + c).skip(1) =~= c);
        assert(a + c =~= c);
    } else {
        let rest = a.skip(1);
        let ended = a + seq![126u8] + c;
        let with = a + seq![b] + c;
        let without = a + c;
        assert(ended[0] == a[0] && ended.skip(1) =~= rest + seq![126u8] + c);
        assert(with[0] == a[0] && with.skip(1) =~= rest + seq![b] + c);
        assert(without[0] == a[0] && without.skip(1) =~= rest + c);
        law_ascii85_marks(rest, b, c, group);
        law_ascii85_marks(rest, b, c, Seq::empty());
        law_ascii85_marks(rest, b, c, group.push((a[0] - 0x21) as u8));
    }
}

/// In ASCIIHex data two digits stand for a byte, the higher first; a last single digit stands for
/// the byte that it makes with a zero; `>` ends the data; and what is no digit stands for nothing,
/// wherever it stands.
pub proof fn law_asciihex_marks(a: Seq<u8>, b: u8, c: Seq<u8>, high: u8, low: u8)
    ensures
        asciihex_bytes(a + seq![62u8] + c) == asciihex_bytes(a),
        hex_value(b) is None && b != 62 ==> asciihex_bytes(a + seq![b] + c) == asciihex_bytes(a + c),
        hex_value(high) is Some && hex_value(low) is Some ==> asciihex_bytes(seq![high, low] + c)
            == seq![(16 * hex_value(high)->Some_0 + hex_value(low)->Some_0) as u8]
            + asciihex_bytes(c),
        hex_value(high) is Some ==> asciihex_bytes(seq![high]) == seq![
            (16 * hex_value(high)->Some_0) as u8,
        ],
        hex_value(b) is Some <==> (48 <= b <= 57 || 65 <= b <= 70 || 97 <= b <= 102),
        48 <= b <= 57 ==> hex_value(b) == Some((b - 48) as u8),
        65 <= b <= 70 ==> hex_value(b) == Some((b - 55) as u8),
        97 <= b <= 102 ==> hex_value(b) == Some((b - 87) as u8),
        asciihex_bytes(Seq::empty()).len() == 0,
    decreases a.len(),
{
    lemma_hex_marks(a, b, c);
    let two = seq![high, low] + c;
    if hex_value(high) is Some && hex_value(low) is Some {
        assert(two[0] == high);
        assert(two.skip(1)[0] == low);
        assert(two.skip(1).skip(1) =~= c);
        let (h, l) = (hex_value(high)->Some_0, hex_value(low)->Some_0);
        assert(hex_digits(two) =~= seq![h] + hex_digits(two.skip(1)));
        assert(hex_digits(two) =~= seq![h, l] + hex_digits(c));
        assert(hex_digits(two).skip(2) =~= hex_digits(c));
    }
    if hex_value(high) is Some {
        let one = seq![high];
        assert(one.skip(1) =~= Seq::<u8>::empty());
        assert(hex_digits(one.skip(1)) =~= Seq::<u8>::empty());
        assert(hex_digits(one) =~= seq![hex_value(high)->Some_0]);
    }
}

proof fn lemma_hex_marks(a: Seq<u8>, b: u8, c: Seq<u8>)
    ensures
        hex_digits(a + seq![62u8] + c) == hex_digits(a),
        hex_value(b) is None && b != 62 ==> hex_digits(a + seq![b] + c) == hex_digits(a + c),
    decreases a.len(),
{
    let ended = a + seq![62u8] + c;
    let with = a + seq![b] + c;
    let without = a + c;
    if a.len() == 0 {
        assert(ended[0] == 62);
        assert(with[0] == b);
        assert(with.skip(1) =~= c);
        assert(without =~= c);
    } else {
        let rest = a.skip(1);
        assert(ended[0] == a[0] && ended.skip(1) =~= rest + seq![62u8] + c);
        assert(with[0] == a[0] && with.skip(1) =~= rest + seq![b] + c);
        assert(without[0] == a[0] && without.skip(1) =~= rest + c);
        lemma_hex_marks(rest, b, c);
    }
}

/// Zlib data that ends early is unpacked as far as it goes, all of it where that is no more than
/// 32768 bytes; nothing is made up in any case.
pub proof fn law_zlib_is_unpacked(x: Seq<u8>, y: Seq<u8>, data: Seq<u8>, unpacked: Seq<u8>)
    ensures
        decodes_to(seq![StreamFilter::Flate], x, y) ==> {
            &&& y.is_prefix_of(zlib_unpacked(x).1)
            &&& zlib_unpacked(x).0 == Some(true) ==> y == zlib_unpacked(x).1
            &&& zlib_unpacked(x).0 == Some(false) && zlib_unpacked(x).1.len() <= 32_768 ==> y
                == zlib_unpacked(x).1
            &&& zlib_unpacked(x).0 == Some(false) ==> zlib_unpacked(x).1.len() - y.len() < 32_768
        },
        filtered(StreamFilter::Flate, data, unpacked) == unpacked,
        filtered(StreamFilter::Other, data, unpacked) == data,
        filtered(StreamFilter::Ascii85, data, unpacked) == ascii85_bytes(data),
        filtered(StreamFilter::AsciiHex, data, unpacked) == asciihex_bytes(data),
{
    if decodes_to(seq![StreamFilter::Flate], x, y) {
        law_filters_follow_one_another(
            Seq::empty(),
            Seq::empty(),
            StreamFilter::Flate,
            x,
            y,
            y,
        );
    }
}

} // verus!
