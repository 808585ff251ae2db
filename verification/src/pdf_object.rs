//! The objects of a PDF file as plain values.
use vstd::arithmetic::power2::pow2;
use vstd::prelude::*;

verus! {

/// A PDF object.
#[derive(Debug)]
pub enum PdfObject {
    Null,
    Boolean(bool),
    Integer(i64),
    /// A real number, by the bits of its single-precision form.
    Real(u32),
    Name(Vec<u8>),
    Text(Vec<u8>),
    Array(Vec<PdfObject>),
    Dictionary(Vec<(Vec<u8>, PdfObject)>),
    /// The dictionary and the content of a stream.
    Stream(Vec<(Vec<u8>, PdfObject)>, Vec<u8>),
    /// The number and the generation of another object.
    Reference(u32, u16),
}

/// A PDF object as a value.
pub ghost enum ObjectView {
    Null,
    Boolean(bool),
    Integer(i64),
    Real(u32),
    Name(Seq<u8>),
    Text(Seq<u8>),
    Array(Seq<ObjectView>),
    Dictionary(Seq<(Seq<u8>, ObjectView)>),
    Stream(Seq<(Seq<u8>, ObjectView)>, Seq<u8>),
    Reference(u32, u16),
}

/// The value of an object.
pub open spec fn object_view(o: PdfObject) -> ObjectView
    decreases o,
{
    match o {
        PdfObject::Null => ObjectView::Null,
        PdfObject::Boolean(b) => ObjectView::Boolean(b),
        PdfObject::Integer(i) => ObjectView::Integer(i),
        PdfObject::Real(r) => ObjectView::Real(r),
        PdfObject::Name(n) => ObjectView::Name(n@),
        PdfObject::Text(t) => ObjectView::Text(t@),
        PdfObject::Array(items) => ObjectView::Array(
            Seq::new(
                items@.len(),
                |i: int|
                    if 0 <= i < items@.len() {
                        object_view(items@[i])
                    } else {
                        ObjectView::Null
                    },
            ),
        ),
        PdfObject::Dictionary(entries) => ObjectView::Dictionary(
            Seq::new(
                entries@.len(),
                |i: int|
                    if 0 <= i < entries@.len() {
                        (entries@[i].0@, object_view(entries@[i].1))
                    } else {
                        (Seq::empty(), ObjectView::Null)
                    },
            ),
        ),
        PdfObject::Stream(entries, content) => ObjectView::Stream(
            Seq::new(
                entries@.len(),
                |i: int|
                    if 0 <= i < entries@.len() {
                        (entries@[i].0@, object_view(entries@[i].1))
                    } else {
                        (Seq::empty(), ObjectView::Null)
                    },
            ),
            content@,
        ),
        PdfObject::Reference(number, generation) => ObjectView::Reference(number, generation),
    }
}

impl View for PdfObject {
    type V = ObjectView;

    open spec fn view(&self) -> ObjectView {
        object_view(*self)
    }
}

/// The values of some objects.
pub open spec fn object_views(items: Seq<PdfObject>) -> Seq<ObjectView> {
    Seq::new(items.len(), |i: int| items[i]@)
}

/// The keys and values of a dictionary.
pub open spec fn entry_views(entries: Seq<(Vec<u8>, PdfObject)>) -> Seq<(Seq<u8>, ObjectView)> {
    Seq::new(entries.len(), |i: int| (entries[i].0@, entries[i].1@))
}

pub proof fn lemma_array_view(items: Vec<PdfObject>)
    ensures
        PdfObject::Array(items)@ == ObjectView::Array(object_views(items@)),
{
    match PdfObject::Array(items)@ {
        ObjectView::Array(s) => {
            assert(s =~= object_views(items@));
        },
        _ => {},
    }
}

pub proof fn lemma_dictionary_view(entries: Vec<(Vec<u8>, PdfObject)>)
    ensures
        PdfObject::Dictionary(entries)@ == ObjectView::Dictionary(entry_views(entries@)),
{
    match PdfObject::Dictionary(entries)@ {
        ObjectView::Dictionary(s) => {
            assert(s =~= entry_views(entries@));
        },
        _ => {},
    }
}

pub proof fn lemma_stream_view(entries: Vec<(Vec<u8>, PdfObject)>, content: Vec<u8>)
    ensures
        PdfObject::Stream(entries, content)@ == ObjectView::Stream(
            entry_views(entries@),
            content@,
        ),
{
    match PdfObject::Stream(entries, content)@ {
        ObjectView::Stream(s, _) => {
            assert(s =~= entry_views(entries@));
        },
        _ => {},
    }
}

/// The value of the first entry with the given key.
pub open spec fn entry(entries: Seq<(Seq<u8>, ObjectView)>, key: Seq<u8>) -> Option<ObjectView>
    decreases entries.len(),
{
    if entries.len() == 0 {
        None
    } else if entries[0].0 == key {
        Some(entries[0].1)
    } else {
        entry(entries.skip(1), key)
    }
}

/// Whether two byte sequences are the same.
pub fn same_bytes(a: &[u8], b: &[u8]) -> (r: bool)
    ensures
        r == (a@ == b@),
{
    if a.len() != b.len() {
        return false;
    }
    let mut i: usize = 0;
    while i < a.len()
        invariant
            a@.len() == b@.len(),
            i <= a@.len(),
            forall|k: int| 0 <= k < i ==> a@[k] == b@[k],
        decreases a@.len() - i,
    {
        if a[i] != b[i] {
            return false;
        }
        i = i + 1;
    }
    assert(a@ =~= b@);
    true
}

/// A copy of a slice of bytes.
pub fn copy_bytes(v: &[u8]) -> (r: Vec<u8>)
    ensures
        r@ == v@,
{
    let mut out: Vec<u8> = Vec::new();
    let mut i: usize = 0;
    while i < v.len()
        invariant
            i <= v@.len(),
            out@ == v@.take(i as int),
        decreases v@.len() - i,
    {
        out.push(v[i]);
        assert(out@ =~= v@.take(i + 1));
        i = i + 1;
    }
    assert(out@ =~= v@);
    out
}

/// Finds the value of a key in a dictionary.
pub fn find_entry<'a>(entries: &'a [(Vec<u8>, PdfObject)], key: &[u8]) -> (r: Option<&'a PdfObject>)
    ensures
        match r {
            Some(o) => entry(entry_views(entries@), key@) == Some(o@),
            None => entry(entry_views(entries@), key@) is None,
        },
{
    let ghost all = entry_views(entries@);
    let mut i: usize = 0;
    assert(all.skip(0) =~= all);
    while i < entries.len()
        invariant
            i <= entries@.len(),
            all == entry_views(entries@),
            entry(all, key@) == entry(all.skip(i as int), key@),
        decreases entries@.len() - i,
    {
        assert(all.skip(i as int)[0] == all[i as int]);
        assert(all.skip(i as int).skip(1) =~= all.skip(i + 1));
        if same_bytes(&entries[i].0, key) {
            return Some(&entries[i].1);
        }
        i = i + 1;
    }
    None
}

/// A number of a PDF file.
#[derive(Debug, Clone, Copy, PartialEq, Eq, Structural)]
pub enum Number {
    Integer(i64),
    /// A real number, by the bits of its single-precision form.
    Real(u32),
}

/// The number that an object is; any other object counts as zero.
pub open spec fn number_of(o: ObjectView) -> Number {
    match o {
        ObjectView::Integer(i) => Number::Integer(i),
        ObjectView::Real(r) => Number::Real(r),
        _ => Number::Integer(0),
    }
}

/// The number that an object is; zero for any other object.
pub fn as_number(o: &PdfObject) -> (r: Number)
    ensures
        r == number_of(o@),
{
    match o {
        PdfObject::Integer(i) => Number::Integer(*i),
        PdfObject::Real(r) => Number::Real(*r),
        _ => Number::Integer(0),
    }
}

/// A single-precision number without its fraction, held at the ends of the range of `i64`; what
/// is not a number counts as zero. `bits` are the sign, eight bits of exponent and 23 bits of
/// fraction of the number.
pub open spec fn whole_part(bits: u32) -> int {
    let exponent = bits as int / 0x80_0000 % 0x100;
    let fraction = bits as int % 0x80_0000;
    let m = if exponent == 0 {
        fraction
    } else {
        fraction + 0x80_0000
    };
    let e = if exponent == 0 {
        1
    } else {
        exponent
    };
    let size = if e >= 150 {
        m * pow2((e - 150) as nat)
    } else {
        m / (pow2((150 - e) as nat) as int)
    };
    let signed = if bits >= 0x8000_0000 {
        -size
    } else {
        size
    };
    if exponent == 255 && fraction != 0 {
        0
    } else if signed > i64::MAX {
        i64::MAX as int
    } else if signed < i64::MIN {
        i64::MIN as int
    } else {
        signed
    }
}

proof fn lemma_pow2_step(n: nat)
    ensures
        pow2(n + 1) == 2 * pow2(n),
        pow2(n) > 0,
{
    vstd::arithmetic::power2::lemma_pow2_unfold(n + 1);
    vstd::arithmetic::power2::lemma_pow2_pos(n);
}

proof fn lemma_pow2_mono(a: nat, b: nat)
    requires
        a <= b,
    ensures
        pow2(a) <= pow2(b),
    decreases b,
{
    if a < b {
        lemma_pow2_mono(a, (b - 1) as nat);
        lemma_pow2_step((b - 1) as nat);
    }
}

/// A single-precision number without its fraction, held at the ends of the range.
pub fn truncate_real(bits: u32) -> (r: i64)
    ensures
        r == whole_part(bits),
{
    let exponent: u32 = bits / 0x80_0000 % 0x100;
    let fraction: u32 = bits % 0x80_0000;
    if exponent == 255 && fraction != 0 {
        return 0;
    }
    let m: u64 = if exponent == 0 {
        fraction as u64
    } else {
        fraction as u64 + 0x80_0000
    };
    let e: u32 = if exponent == 0 {
        1
    } else {
        exponent
    };
    let negative: bool = bits >= 0x8000_0000;
    proof {
        vstd::arithmetic::power2::lemma2_to64();
        vstd::arithmetic::power2::lemma2_to64_rest();
    }
    let mut size: u64 = m;
    if e >= 190 {
        proof {
            lemma_pow2_mono(40, (e - 150) as nat);
            assert(m * pow2((e - 150) as nat) >= 0x80_0000 * pow2(40)) by (nonlinear_arith)
                requires
                    m >= 0x80_0000,
                    pow2((e - 150) as nat) >= pow2(40),
                    pow2(40) >= 0,
            ;
            assert(0x80_0000 * pow2(40) == 0x8000_0000_0000_0000);
        }
        return if negative {
            i64::MIN
        } else {
            i64::MAX
        };
    } else if e >= 150 {
        let mut k: u32 = 0;
        assert(m * pow2(0) == m);
        while k < e - 150
            invariant
                150 <= e < 190,
                k <= e - 150,
                m < 0x100_0000,
                size == m * pow2(k as nat),
                pow2(39) == 0x80_0000_0000,
            decreases e - 150 - k,
        {
            proof {
                lemma_pow2_step(k as nat);
                lemma_pow2_mono(k as nat + 1, 39);
                assert(m * pow2(k as nat + 1) == 2 * (m * pow2(k as nat))) by (nonlinear_arith)
                    requires
                        pow2(k as nat + 1) == 2 * pow2(k as nat),
                ;
                assert(m * pow2(k as nat + 1) < 0x100_0000 * 0x80_0000_0000) by (nonlinear_arith)
                    requires
                        m < 0x100_0000,
                        0 < pow2(k as nat + 1) <= 0x80_0000_0000,
                ;
            }
            size = size * 2;
            k = k + 1;
        }
        proof {
            lemma_pow2_mono(k as nat, 39);
            assert(m * pow2(k as nat) < 0x100_0000 * 0x80_0000_0000) by (nonlinear_arith)
                requires
                    m < 0x100_0000,
                    0 < pow2(k as nat) <= 0x80_0000_0000,
            ;
        }
    } else if e < 126 {
        proof {
            lemma_pow2_mono(24, (150 - e) as nat);
            assert(m as int / (pow2((150 - e) as nat) as int) == 0) by (nonlinear_arith)
                requires
                    0 <= m < pow2((150 - e) as nat),
            ;
        }
        size = 0;
    } else {
        let mut k: u32 = 0;
        assert(m as int / (pow2(0) as int) == m);
        while k < 150 - e
            invariant
                126 <= e < 150,
                k <= 150 - e,
                m < 0x100_0000,
                size < 0x100_0000,
                size == m as int / (pow2(k as nat) as int),
            decreases 150 - e - k,
        {
            proof {
                lemma_pow2_step(k as nat);
                let p = pow2(k as nat) as int;
                vstd::arithmetic::div_mod::lemma_div_denominator(m as int, p, 2);
                assert(p * 2 == pow2(k as nat + 1));
            }
            size = size / 2;
            k = k + 1;
        }
    }
    if negative {
        (-(size as i128)) as i64
    } else {
        size as i64
    }
}

/// The first entry with a key counts, wherever it stands: one among the entries before comes before
/// one among those after, and a single entry has the value of its own key alone.
pub proof fn law_first_entry_counts(
    before: Seq<(Seq<u8>, ObjectView)>,
    after: Seq<(Seq<u8>, ObjectView)>,
    own: Seq<u8>,
    value: ObjectView,
    key: Seq<u8>,
)
    ensures
        entry(before + after, key) == match entry(before, key) {
            Some(v) => Some(v),
            None => entry(after, key),
        },
        entry(seq![(own, value)], key) == if own == key {
            Some(value)
        } else {
            None
        },
        entry(Seq::empty(), key) is None,
    decreases before.len(),
{
    if before.len() == 0 {
        assert(before + after =~= after);
    } else {
        law_first_entry_counts(before.skip(1), after, own, value, key);
        assert((before + after).skip(1) =~= before.skip(1) + after);
    }
    assert(seq![(own, value)].skip(1) =~= Seq::empty());
    assert(entry(seq![(own, value)].skip(1), key) is None);
}

/// Whole and real numbers are the numbers that they are, and nothing else is one.
pub proof fn law_numbers(i: i64, bits: u32, other: ObjectView)
    ensures
        number_of(ObjectView::Integer(i)) == Number::Integer(i),
        number_of(ObjectView::Real(bits)) == Number::Real(bits),
        !(other is Integer) && !(other is Real) ==> number_of(other) == Number::Integer(0),
{
}

/// A real number loses its fraction and nothing else: with an exponent of up to 150 its digits lie
/// between the whole part and the next one, scaled; with a greater one they are scaled up, as far
/// as the range goes; without a leading digit, or where it is no number, it is zero; and a negative
/// number is the positive one with its sign.
pub proof fn law_whole_part(exponent: u32, fraction: u32)
    requires
        exponent < 256,
        fraction < 0x80_0000,
    ensures
        ({
            let bits = (exponent * 0x80_0000 + fraction) as u32;
            let negative = (0x8000_0000 + exponent * 0x80_0000 + fraction) as u32;
            let q = whole_part(bits);
            let digits = 0x80_0000 + fraction;
            &&& exponent == 0 ==> q == 0
            &&& 1 <= exponent <= 150 ==> q * pow2((150 - exponent) as nat) <= digits < (q + 1)
                * pow2((150 - exponent) as nat)
            &&& 150 < exponent && (exponent < 255 || fraction == 0) ==> q == (if digits * pow2(
                (exponent - 150) as nat,
            ) > i64::MAX {
                i64::MAX as int
            } else {
                digits * pow2((exponent - 150) as nat)
            })
            &&& exponent == 255 && fraction != 0 ==> q == 0
            &&& q < i64::MAX ==> whole_part(negative) == -q
            &&& q == i64::MAX ==> whole_part(negative) == i64::MIN
        }),
{
    let bits = (exponent * 0x80_0000 + fraction) as u32;
    let negative = (0x8000_0000 + exponent * 0x80_0000 + fraction) as u32;
    assert(bits as int / 0x80_0000 % 0x100 == exponent);
    assert(bits as int % 0x80_0000 == fraction);
    assert(negative as int / 0x80_0000 % 0x100 == exponent);
    assert(negative as int % 0x80_0000 == fraction);
    let digits = 0x80_0000 + fraction;
    vstd::arithmetic::power2::lemma2_to64();
    if exponent == 0 {
        lemma_pow2_mono(24, 149);
        assert(fraction as int / (pow2(149) as int) == 0) by (nonlinear_arith)
            requires
                0 <= fraction < pow2(149),
        ;
    } else if exponent <= 150 {
        let p = pow2((150 - exponent) as nat) as int;
        lemma_pow2_step((150 - exponent) as nat);
        vstd::arithmetic::div_mod::lemma_fundamental_div_mod(digits as int, p);
        vstd::arithmetic::div_mod::lemma_mod_bound(digits as int, p);
        let q = digits as int / p;
        assert(q * p == p * q && (q + 1) * p == p * q + p) by (nonlinear_arith);
        assert(0 <= q <= digits) by (nonlinear_arith)
            requires
                digits == p * q + digits as int % p,
                p >= 1,
                digits >= 0,
                0 <= digits as int % p < p,
        ;
        assert(digits * pow2(0) == digits);
        if exponent == 150 {
            assert(digits as int / 1 == digits);
        }
    } else {
        lemma_pow2_step((exponent - 150) as nat);
        assert(digits * pow2((exponent - 150) as nat) >= 0) by (nonlinear_arith)
            requires
                digits >= 0,
                pow2((exponent - 150) as nat) >= 0,
        ;
        let half = pow2((exponent - 151) as nat) as int;
        vstd::arithmetic::power2::lemma_pow2_unfold((exponent - 150) as nat);
        assert(digits * pow2((exponent - 150) as nat) == 2 * (digits * half)) by (nonlinear_arith)
            requires
                pow2((exponent - 150) as nat) == 2 * half,
        ;
    }
}

/// An object is seen as it is, with all that it holds, each in its place.
pub proof fn law_objects_are_seen(o: PdfObject, i: int)
    ensures
        match o {
            PdfObject::Null => o@ is Null,
            PdfObject::Boolean(b) => o@ == ObjectView::Boolean(b),
            PdfObject::Integer(n) => o@ == ObjectView::Integer(n),
            PdfObject::Real(bits) => o@ == ObjectView::Real(bits),
            PdfObject::Name(name) => o@ == ObjectView::Name(name@),
            PdfObject::Text(text) => o@ == ObjectView::Text(text@),
            PdfObject::Array(items) => {
                &&& o@ is Array
                &&& o@->Array_0.len() == items@.len()
                &&& 0 <= i < items@.len() ==> o@->Array_0[i] == items@[i]@
            },
            PdfObject::Dictionary(entries) => {
                &&& o@ is Dictionary
                &&& o@->Dictionary_0.len() == entries@.len()
                &&& 0 <= i < entries@.len() ==> o@->Dictionary_0[i].0 == entries@[i].0@
                    && o@->Dictionary_0[i].1 == entries@[i].1@
            },
            PdfObject::Stream(entries, content) => {
                &&& o@ is Stream
                &&& o@->Stream_0.len() == entries@.len()
                &&& 0 <= i < entries@.len() ==> o@->Stream_0[i].0 == entries@[i].0@
                    && o@->Stream_0[i].1 == entries@[i].1@
                &&& o@->Stream_1 == content@
            },
            PdfObject::Reference(number, generation) => o@ == ObjectView::Reference(
                number,
                generation,
            ),
        },
{
}

} // verus!
