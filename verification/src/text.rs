//! Text primitives over character sequences: trimming, lines, words, joining.
use vstd::prelude::*;
use vstd::utf8::{decode_utf8, valid_utf8};

verus! {

/// `String::push` appends one character to the end of the string.
pub assume_specification[ String::push ](s: &mut String, c: char)
    ensures
        final(s)@ == old(s)@.push(c),
;

/// The text of some bytes, with what is no UTF-8 among them replaced.
pub uninterp spec fn lossy_text(bytes: Seq<u8>) -> Seq<char>;

/// `String::from_utf8_lossy` reads bytes as UTF-8 text and puts replacement characters where they
/// are none. Bytes that are valid UTF-8 it reads as they are.
#[verifier::external_body]
pub(crate) fn from_utf8_lossy(bytes: &[u8]) -> (r: String)
    ensures
        r@ == lossy_text(bytes@),
        valid_utf8(bytes@) ==> r@ == decode_utf8(bytes@),
{
    String::from_utf8_lossy(bytes).into_owned()
}

/// The characters with the Unicode `White_Space` property.
pub open spec fn is_space(c: char) -> bool {
    let u = c as u32;
    ||| 0x09 <= u <= 0x0d
    ||| u == 0x20
    ||| u == 0x85
    ||| u == 0xa0
    ||| u == 0x1680
    ||| 0x2000 <= u <= 0x200a
    ||| u == 0x2028
    ||| u == 0x2029
    ||| u == 0x202f
    ||| u == 0x205f
    ||| u == 0x3000
}

pub fn space_char(c: char) -> (r: bool)
    ensures
        r == is_space(c),
{
    let u: u32 = c as u32;
    (0x09 <= u && u <= 0x0d) || u == 0x20 || u == 0x85 || u == 0xa0 || u == 0x1680 || (0x2000 <= u
        && u <= 0x200a) || u == 0x2028 || u == 0x2029 || u == 0x202f || u == 0x205f || u == 0x3000
}

/// The characters of a string, in order.
pub fn chars_of(s: &str) -> (r: Vec<char>)
    ensures
        r@ == s@,
{
    let mut out: Vec<char> = Vec::new();
    for c in it: s.chars()
        invariant
            out@ == it.seq().take(it.index()),
            it.seq() == s@,
    {
        out.push(c);
        assert(out@ =~= it.seq().take(it.index() + 1));
    }
    assert(out@ =~= s@);
    out
}

/// A string with the given characters.
pub fn string_of(v: &[char]) -> (r: String)
    ensures
        r@ == v@,
{
    let mut out: String = String::new();
    let mut i: usize = 0;
    while i < v.len()
        invariant
            i <= v@.len(),
            out@ == v@.take(i as int),
        decreases v@.len() - i,
    {
        out.push(v[i]);
        assert(v@.take(i + 1) =~= v@.take(i as int).push(v@[i as int]));
        i = i + 1;
    }
    assert(v@.take(i as int) =~= v@);
    out
}


/// Appends the characters of `s` to `out`.
pub fn append_chars(out: &mut Vec<char>, s: &[char])
    ensures
        final(out)@ == old(out)@ + s@,
{
    let ghost start = out@;
    let mut i: usize = 0;
    while i < s.len()
        invariant
            i <= s@.len(),
            out@ == start + s@.take(i as int),
        decreases s@.len() - i,
    {
        out.push(s[i]);
        assert(start + s@.take(i + 1) =~= (start + s@.take(i as int)).push(s@[i as int]));
        i = i + 1;
    }
    assert(s@.take(i as int) =~= s@);
}

/// The characters of each part.
pub open spec fn views(parts: Seq<Vec<char>>) -> Seq<Seq<char>> {
    Seq::new(parts.len(), |i: int| parts[i]@)
}

/// The characters of each string.
pub open spec fn string_views(parts: Seq<String>) -> Seq<Seq<char>> {
    Seq::new(parts.len(), |i: int| parts[i]@)
}

/// `s` without its leading white space.
pub open spec fn trim_start(s: Seq<char>) -> Seq<char>
    decreases s.len(),
{
    if s.len() > 0 && is_space(s[0]) {
        trim_start(s.skip(1))
    } else {
        s
    }
}

/// `s` without its trailing white space.
pub open spec fn trim_end(s: Seq<char>) -> Seq<char>
    decreases s.len(),
{
    if s.len() > 0 && is_space(s.last()) {
        trim_end(s.drop_last())
    } else {
        s
    }
}

/// `s` without the white space at either end.
pub open spec fn trimmed(s: Seq<char>) -> Seq<char> {
    trim_end(trim_start(s))
}

/// Whether `s` holds nothing but white space.
pub open spec fn is_blank(s: Seq<char>) -> bool {
    forall|i: int| 0 <= i < s.len() ==> is_space(#[trigger] s[i])
}

pub proof fn lemma_trim_start(s: Seq<char>)
    ensures
        trim_start(s).len() <= s.len(),
        trim_start(s) == s.skip(s.len() - trim_start(s).len()),
        forall|i: int| 0 <= i < s.len() - trim_start(s).len() ==> is_space(#[trigger] s[i]),
        trim_start(s).len() > 0 ==> !is_space(trim_start(s)[0]),
    decreases s.len(),
{
    if s.len() > 0 && is_space(s[0]) {
        lemma_trim_start(s.skip(1));
        let t = trim_start(s.skip(1));
        let k = s.len() - t.len();
        assert(s.skip(1).skip(k - 1) =~= s.skip(k));
        assert forall|i: int| 0 <= i < k implies is_space(#[trigger] s[i]) by {
            if i > 0 {
                assert(s[i] == s.skip(1)[i - 1]);
            }
        }
    } else {
        assert(s.skip(0) =~= s);
    }
}

pub proof fn lemma_trim_end(s: Seq<char>)
    ensures
        trim_end(s).len() <= s.len(),
        trim_end(s) == s.take(trim_end(s).len() as int),
        forall|i: int| trim_end(s).len() <= i < s.len() ==> is_space(#[trigger] s[i]),
        trim_end(s).len() > 0 ==> !is_space(trim_end(s).last()),
    decreases s.len(),
{
    if s.len() > 0 && is_space(s.last()) {
        lemma_trim_end(s.drop_last());
        let k = trim_end(s.drop_last()).len() as int;
        assert(s.drop_last().take(k) =~= s.take(k));
        assert forall|i: int| k <= i < s.len() implies is_space(#[trigger] s[i]) by {
            if i < s.len() - 1 {
                assert(s[i] == s.drop_last()[i]);
            }
        }
    } else {
        assert(s.take(s.len() as int) =~= s);
    }
}

/// Trims white space off both ends.
pub fn trim(v: &[char]) -> (r: Vec<char>)
    ensures
        r@ == trimmed(v@),
{
    let mut i: usize = 0;
    assert(v@.skip(0) =~= v@);
    while i < v.len() && space_char(v[i])
        invariant
            i <= v@.len(),
            trim_start(v@.skip(i as int)) == trim_start(v@),
        decreases v@.len() - i,
    {
        assert(v@.skip(i as int).skip(1) =~= v@.skip(i + 1));
        i = i + 1;
    }
    let ghost t = v@.skip(i as int);
    assert(trim_start(v@) == t);
    let mut j: usize = v.len();
    assert(v@.subrange(i as int, j as int) =~= t);
    while j > i && space_char(v[j - 1])
        invariant
            i <= j <= v@.len(),
            trim_end(v@.subrange(i as int, j as int)) == trimmed(v@),
        decreases j,
    {
        assert(v@.subrange(i as int, j as int).drop_last() =~= v@.subrange(i as int, j - 1));
        j = j - 1;
    }
    let mut out: Vec<char> = Vec::new();
    append_chars(&mut out, vstd::slice::slice_subrange(v, i, j));
    assert(out@ =~= v@.subrange(i as int, j as int));
    out
}

/// How many characters stand before the first line feed of `s`, or all of them.
pub open spec fn line_length(s: Seq<char>) -> nat
    decreases s.len(),
{
    if s.len() == 0 || s[0] == '\n' {
        0
    } else {
        1 + line_length(s.skip(1))
    }
}

/// `s` without one carriage return at its end.
pub open spec fn without_return(s: Seq<char>) -> Seq<char> {
    if s.len() > 0 && s.last() == '\r' {
        s.drop_last()
    } else {
        s
    }
}

/// The lines of a text: each ends at a line feed, or at a carriage return and a line feed,
/// neither of which belongs to it; a last line needs no ending.
pub open spec fn lines_of(s: Seq<char>) -> Seq<Seq<char>>
    decreases s.len(),
{
    if s.len() == 0 {
        Seq::empty()
    } else {
        let k = line_length(s);
        if k >= s.len() {
            seq![s]
        } else {
            seq![without_return(s.take(k as int))] + lines_of(s.skip(k as int + 1))
        }
    }
}

pub proof fn lemma_line_length(s: Seq<char>, k: int)
    requires
        0 <= k <= s.len(),
        forall|i: int| 0 <= i < k ==> s[i] != '\n',
        k < s.len() ==> s[k] == '\n',
    ensures
        line_length(s) == k,
    decreases s.len(),
{
    if k > 0 {
        assert forall|i: int| 0 <= i < k - 1 implies s.skip(1)[i] != '\n' by {
            assert(s.skip(1)[i] == s[i + 1]);
        }
        lemma_line_length(s.skip(1), k - 1);
    }
}

/// Splits a text into its lines.
pub fn lines(v: &[char]) -> (r: Vec<Vec<char>>)
    ensures
        views(r@) == lines_of(v@),
{
    let mut out: Vec<Vec<char>> = Vec::new();
    let mut i: usize = 0;
    assert(v@.skip(0) =~= v@);
    assert(views(out@) + lines_of(v@) =~= lines_of(v@));
    while i < v.len()
        invariant
            i <= v@.len(),
            views(out@) + lines_of(v@.skip(i as int)) == lines_of(v@),
        decreases v@.len() - i,
    {
        let ghost rest = v@.skip(i as int);
        let mut j: usize = i;
        while j < v.len() && v[j] != '\n'
            invariant
                i <= j <= v@.len(),
                forall|k: int| i <= k < j ==> v@[k] != '\n',
            decreases v@.len() - j,
        {
            j = j + 1;
        }
        proof {
            assert forall|k: int| 0 <= k < j - i implies rest[k] != '\n' by {
                assert(rest[k] == v@[i + k]);
            }
            lemma_line_length(rest, j - i);
        }
        let ghost before = views(out@);
        if j == v.len() {
            let mut line: Vec<char> = Vec::new();
            append_chars(&mut line, vstd::slice::slice_subrange(v, i, j));
            assert(line@ =~= rest);
            out.push(line);
            assert(views(out@) =~= before.push(rest));
            assert(v@.skip(j as int) =~= Seq::<char>::empty());
            assert(views(out@) + lines_of(v@.skip(j as int)) =~= before + seq![rest]);
            i = j;
        } else {
            let end: usize = if j > i && v[j - 1] == '\r' {
                j - 1
            } else {
                j
            };
            let mut line: Vec<char> = Vec::new();
            append_chars(&mut line, vstd::slice::slice_subrange(v, i, end));
            assert(line@ =~= without_return(rest.take(j - i)));
            out.push(line);
            assert(views(out@) =~= before.push(line@));
            assert(rest.skip(j - i + 1) =~= v@.skip(j + 1));
            assert(before.push(line@) + lines_of(v@.skip(j + 1)) =~= before + (seq![line@] + lines_of(
                v@.skip(j + 1),
            )));
            i = j + 1;
        }
    }
    assert(v@.skip(i as int) =~= Seq::<char>::empty());
    assert(views(out@) + lines_of(v@.skip(i as int)) =~= views(out@));
    out
}

/// How many words stand in `s`: maximal runs of characters that are no white space.
pub open spec fn word_count(s: Seq<char>) -> nat
    decreases s.len(),
{
    if s.len() == 0 {
        0
    } else {
        word_count(s.drop_last()) + if !is_space(s.last()) && (s.len() == 1 || is_space(
            s[s.len() - 2],
        )) {
            1nat
        } else {
            0nat
        }
    }
}

/// Counts the words of a text.
pub fn words(v: &[char]) -> (n: usize)
    ensures
        n == word_count(v@),
{
    let mut n: usize = 0;
    let mut i: usize = 0;
    while i < v.len()
        invariant
            i <= v@.len(),
            n == word_count(v@.take(i as int)),
            n <= i,
        decreases v@.len() - i,
    {
        assert(v@.take(i + 1).drop_last() =~= v@.take(i as int));
        if !space_char(v[i]) && (i == 0 || space_char(v[i - 1])) {
            n = n + 1;
        }
        i = i + 1;
    }
    assert(v@.take(i as int) =~= v@);
    n
}

/// The parts in order, with `sep` between each two of them.
pub open spec fn joined(parts: Seq<Seq<char>>, sep: Seq<char>) -> Seq<char>
    decreases parts.len(),
{
    if parts.len() == 0 {
        Seq::empty()
    } else if parts.len() == 1 {
        parts[0]
    } else {
        joined(parts.drop_last(), sep) + sep + parts.last()
    }
}

/// Joins the parts with `sep` between each two of them.
pub fn join(parts: &[Vec<char>], sep: &[char]) -> (r: Vec<char>)
    ensures
        r@ == joined(views(parts@), sep@),
{
    let mut out: Vec<char> = Vec::new();
    let ghost all = views(parts@);
    let mut i: usize = 0;
    assert(all.take(0) =~= Seq::<Seq<char>>::empty());
    while i < parts.len()
        invariant
            i <= parts@.len(),
            all == views(parts@),
            out@ == joined(all.take(i as int), sep@),
        decreases parts@.len() - i,
    {
        if i > 0 {
            append_chars(&mut out, sep);
        }
        append_chars(&mut out, parts[i].as_slice());
        assert(all.take(i + 1).drop_last() =~= all.take(i as int));
        assert(all.take(i + 1).last() == parts@[i as int]@);
        assert(i == 0 ==> out@ =~= parts@[0]@);
        i = i + 1;
    }
    assert(all.take(i as int) =~= all);
    out
}

/// Whether `s` starts with `c`.
pub open spec fn begins_with(s: Seq<char>, c: char) -> bool {
    s.len() > 0 && s[0] == c
}

/// How many characters of `s` have the property `p`.
pub open spec fn count_where(s: Seq<char>, p: spec_fn(char) -> bool) -> nat
    decreases s.len(),
{
    if s.len() == 0 {
        0
    } else {
        count_where(s.drop_last(), p) + if p(s.last()) {
            1nat
        } else {
            0
        }
    }
}

pub proof fn lemma_count_add(a: Seq<char>, b: Seq<char>, p: spec_fn(char) -> bool)
    ensures
        count_where(a + b, p) == count_where(a, p) + count_where(b, p),
    decreases b.len(),
{
    if b.len() == 0 {
        assert(a + b =~= a);
    } else {
        lemma_count_add(a, b.drop_last(), p);
        assert((a + b).drop_last() =~= a + b.drop_last());
    }
}

pub proof fn lemma_count_none(s: Seq<char>, p: spec_fn(char) -> bool)
    requires
        forall|i: int| 0 <= i < s.len() ==> !p(#[trigger] s[i]),
    ensures
        count_where(s, p) == 0,
    decreases s.len(),
{
    if s.len() > 0 {
        assert(!p(s[s.len() - 1]));
        lemma_count_none(s.drop_last(), p);
    }
}

/// Trimming keeps the characters that are no white space.
pub proof fn lemma_count_trimmed(s: Seq<char>, p: spec_fn(char) -> bool)
    requires
        forall|c: char| is_space(c) ==> !#[trigger] p(c),
    ensures
        count_where(trimmed(s), p) == count_where(s, p),
{
    lemma_trim_start(s);
    let t = trim_start(s);
    lemma_trim_end(t);
    let e = trimmed(s);
    let front = s.take(s.len() - t.len());
    let back = t.skip(e.len() as int);
    assert(s =~= front + t);
    assert(t =~= e + back);
    assert forall|i: int| 0 <= i < front.len() implies !p(#[trigger] front[i]) by {
        assert(is_space(s[i]));
    }
    assert forall|i: int| 0 <= i < back.len() implies !p(#[trigger] back[i]) by {
        assert(is_space(t[e.len() + i]));
    }
    lemma_count_none(front, p);
    lemma_count_none(back, p);
    lemma_count_add(front, t, p);
    lemma_count_add(e, back, p);
}

/// How many characters stand before the first `sep` of `s`, or all of them.
pub open spec fn part_length(s: Seq<char>, sep: char) -> nat
    decreases s.len(),
{
    if s.len() == 0 || s[0] == sep {
        0
    } else {
        1 + part_length(s.skip(1), sep)
    }
}

pub proof fn lemma_part_length_bound(s: Seq<char>, sep: char)
    ensures
        part_length(s, sep) <= s.len(),
    decreases s.len(),
{
    if s.len() > 0 && s[0] != sep {
        lemma_part_length_bound(s.skip(1), sep);
    }
}

/// How many of the parts of `s` between the separators hold more than white space.
pub open spec fn filled_parts(s: Seq<char>, sep: char) -> nat
    decreases s.len(),
{
    let k = part_length(s, sep) as int;
    let first = if is_blank(s.take(k)) {
        0nat
    } else {
        1
    };
    if k >= s.len() {
        first
    } else {
        first + filled_parts(s.skip(k + 1), sep)
    }
}

pub proof fn lemma_part_length_is(s: Seq<char>, sep: char, k: int)
    requires
        0 <= k <= s.len(),
        forall|j: int| 0 <= j < k ==> #[trigger] s[j] != sep,
        k == s.len() || s[k] == sep,
    ensures
        part_length(s, sep) == k,
    decreases s.len(),
{
    if k > 0 {
        assert(s[0] != sep);
        assert forall|j: int| 0 <= j < k - 1 implies #[trigger] s.skip(1)[j] != sep by {
            assert(s[j + 1] != sep);
        }
        lemma_part_length_is(s.skip(1), sep, k - 1);
    }
}

proof fn lemma_filled_parts_bound(s: Seq<char>, sep: char)
    ensures
        filled_parts(s, sep) <= s.len(),
    decreases s.len(),
{
    lemma_part_length_bound(s, sep);
    let k = part_length(s, sep) as int;
    if k < s.len() {
        lemma_filled_parts_bound(s.skip(k + 1), sep);
    }
}

/// Counts the parts between the separators that hold more than white space.
pub fn count_filled_parts(v: &[char], sep: char) -> (n: usize)
    ensures
        n == filled_parts(v@, sep),
{
    proof {
        lemma_filled_parts_bound(v@, sep);
    }
    let mut n: usize = 0;
    let mut start: usize = 0;
    let mut filled: bool = false;
    let mut i: usize = 0;
    assert(v@.skip(0) =~= v@);
    while i < v.len()
        invariant
            start <= i <= v@.len(),
            n + filled_parts(v@.skip(start as int), sep) == filled_parts(v@, sep),
            filled_parts(v@, sep) <= v@.len(),
            forall|j: int| start <= j < i ==> #[trigger] v@[j] != sep,
            filled == exists|j: int| start <= j < i && !is_space(#[trigger] v@[j]),
        decreases v@.len() - i,
    {
        if v[i] == sep {
            proof {
                let rest = v@.skip(start as int);
                let k = i - start;
                assert forall|j: int| 0 <= j < k implies #[trigger] rest[j] != sep by {
                    assert(v@[start + j] != sep);
                }
                assert(rest[k] == v@[i as int]);
                lemma_part_length_is(rest, sep, k);
                assert(rest.skip(k + 1) =~= v@.skip(i + 1));
                if filled {
                    let j = choose|j: int| start <= j < i && !is_space(#[trigger] v@[j]);
                    assert(rest.take(k)[j - start] == v@[j]);
                } else {
                    assert forall|j: int| 0 <= j < k implies is_space(#[trigger] rest.take(k)[j]) by {
                        assert(rest.take(k)[j] == v@[start + j]);
                    }
                }
            }
            if filled {
                n = n + 1;
            }
            filled = false;
            start = i + 1;
        } else if !space_char(v[i]) {
            assert(!is_space(v@[i as int]));
            filled = true;
        }
        i = i + 1;
    }
    proof {
        let rest = v@.skip(start as int);
        let k = i - start;
        assert forall|j: int| 0 <= j < k implies #[trigger] rest[j] != sep by {
            assert(v@[start + j] != sep);
        }
        lemma_part_length_is(rest, sep, k);
        assert(rest.take(k) =~= rest);
        if filled {
            let j = choose|j: int| start <= j < i && !is_space(#[trigger] v@[j]);
            assert(rest[j - start] == v@[j]);
        } else {
            assert forall|j: int| 0 <= j < k implies is_space(#[trigger] rest[j]) by {
                assert(rest[j] == v@[start + j]);
            }
        }
    }
    if filled {
        n = n + 1;
    }
    n
}

/// White space is the tab and the control characters up to the carriage return, the space, and the
/// spaces and separators of Unicode beyond ASCII; nothing else is.
pub proof fn law_white_space(c: char)
    ensures
        is_space(c) <==> c == '\t' || c == '\n' || c == '\u{b}' || c == '\u{c}' || c == '\r' || c
            == ' ' || c == '\u{85}' || c == '\u{a0}' || c == '\u{1680}' || ('\u{2000}' <= c && c
            <= '\u{200a}') || c == '\u{2028}' || c == '\u{2029}' || c == '\u{202f}' || c
            == '\u{205f}' || c == '\u{3000}',
{
}

/// Trimming takes white space off both ends and nothing else: what is left stands together in the
/// text, has no white space at either end, and nothing but white space stands before and after it.
pub proof fn law_trimming(s: Seq<char>) -> (k: int)
    ensures
        0 <= k <= k + trimmed(s).len() <= s.len(),
        trimmed(s) == s.subrange(k, k + trimmed(s).len()),
        forall|i: int| 0 <= i < k ==> is_space(#[trigger] s[i]),
        forall|i: int| k + trimmed(s).len() <= i < s.len() ==> is_space(#[trigger] s[i]),
        trimmed(s).len() > 0 ==> !is_space(trimmed(s)[0]) && !is_space(trimmed(s).last()),
{
    let t = trim_start(s);
    let e = trimmed(s);
    lemma_trim_start(s);
    lemma_trim_end(t);
    let k = s.len() - t.len();
    assert(e =~= s.subrange(k, k + e.len()));
    assert forall|i: int| k + e.len() <= i < s.len() implies is_space(#[trigger] s[i]) by {
        assert(t[i - k] == s[i]);
    }
    if e.len() > 0 {
        assert(e[0] == t[0]);
    }
    k
}

proof fn lemma_line_end(s: Seq<char>)
    requires
        s.len() > 0,
        s.last() == '\n',
    ensures
        line_length(s) < s.len(),
        s[line_length(s) as int] == '\n',
        forall|i: int| 0 <= i < line_length(s) ==> #[trigger] s[i] != '\n',
    decreases s.len(),
{
    if s[0] != '\n' {
        let rest = s.skip(1);
        assert(rest.last() == s.last());
        lemma_line_end(rest);
        let k = line_length(rest) as int;
        assert(rest[k] == s[k + 1]);
        assert forall|i: int| 0 <= i < line_length(s) implies #[trigger] s[i] != '\n' by {
            if i > 0 {
                assert(rest[i - 1] == s[i]);
            }
        }
    }
}

proof fn lemma_part_end(s: Seq<char>, sep: char)
    ensures
        part_length(s, sep) < s.len() ==> s[part_length(s, sep) as int] == sep,
        forall|i: int| 0 <= i < part_length(s, sep) ==> #[trigger] s[i] != sep,
    decreases s.len(),
{
    if s.len() > 0 && s[0] != sep {
        let rest = s.skip(1);
        lemma_part_end(rest, sep);
        lemma_part_length_bound(rest, sep);
        let k = part_length(rest, sep) as int;
        if k < rest.len() {
            assert(rest[k] == s[k + 1]);
        }
        assert forall|i: int| 0 <= i < part_length(s, sep) implies #[trigger] s[i] != sep by {
            if i > 0 {
                assert(rest[i - 1] == s[i]);
            }
        }
    }
}

/// A line ends at a line feed, which takes one carriage return before it along, and what follows
/// is lines of its own.
pub proof fn law_line_then_lines(a: Seq<char>, b: Seq<char>)
    requires
        forall|i: int| 0 <= i < a.len() ==> #[trigger] a[i] != '\n',
    ensures
        lines_of(a.push('\n') + b) == seq![
            if a.len() > 0 && a.last() == '\r' {
                a.drop_last()
            } else {
                a
            },
        ] + lines_of(b),
{
    let s = a.push('\n') + b;
    let k = a.len() as int;
    assert forall|i: int| 0 <= i < k implies s[i] != '\n' by {
        assert(s[i] == a[i]);
    }
    assert(s[k] == '\n');
    lemma_line_length(s, k);
    assert(s.take(k) =~= a);
    assert(s.skip(k + 1) =~= b);
}

/// Text without a line feed is one line, and nothing is none.
pub proof fn law_one_line(a: Seq<char>)
    requires
        forall|i: int| 0 <= i < a.len() ==> #[trigger] a[i] != '\n',
    ensures
        a.len() > 0 ==> lines_of(a) == seq![a],
        a.len() == 0 ==> lines_of(a) == Seq::<Seq<char>>::empty(),
{
    lemma_line_length(a, a.len() as int);
}

/// The lines of whole lines and of what follows them come one after the other.
pub proof fn law_lines_append(x: Seq<char>, y: Seq<char>)
    requires
        x.len() == 0 || x.last() == '\n',
    ensures
        lines_of(x + y) == lines_of(x) + lines_of(y),
    decreases x.len(),
{
    if x.len() == 0 {
        assert(x + y =~= y);
        assert(lines_of(x) + lines_of(y) =~= lines_of(y));
    } else {
        lemma_line_end(x);
        let k = line_length(x) as int;
        let a = x.take(k);
        let rest = x.skip(k + 1);
        assert(x =~= a.push('\n') + rest);
        assert(x + y =~= a.push('\n') + (rest + y));
        if rest.len() > 0 {
            assert(rest.last() == x.last());
        }
        law_lines_append(rest, y);
        law_line_then_lines(a, rest);
        law_line_then_lines(a, rest + y);
        assert(lines_of(x + y) =~= lines_of(x) + lines_of(y));
    }
}

/// White space parts words, and nothing else does: texts on both sides of it have their words, a
/// text without white space is one word, and nothing has none.
pub proof fn law_words(a: Seq<char>, c: char, b: Seq<char>)
    ensures
        is_space(c) ==> word_count(a.push(c) + b) == word_count(a) + word_count(b),
        a.len() > 0 && (forall|i: int| 0 <= i < a.len() ==> !is_space(#[trigger] a[i]))
            ==> word_count(a) == 1,
        a.len() == 0 ==> word_count(a) == 0,
    decreases a.len() + b.len(),
{
    if is_space(c) {
        let s = a.push(c) + b;
        if b.len() == 0 {
            assert(s =~= a.push(c));
            assert(s.drop_last() =~= a);
        } else {
            law_words(a, c, b.drop_last());
            assert(s.drop_last() =~= a.push(c) + b.drop_last());
            assert(s.last() == b.last());
            if b.len() == 1 {
                assert(s[s.len() - 2] == c);
            } else {
                assert(s[s.len() - 2] == b[b.len() - 2]);
            }
        }
    }
    if a.len() > 0 && forall|i: int| 0 <= i < a.len() ==> !is_space(#[trigger] a[i]) {
        lemma_one_word(a);
    }
}

proof fn lemma_one_word(a: Seq<char>)
    requires
        a.len() > 0,
        forall|i: int| 0 <= i < a.len() ==> !is_space(#[trigger] a[i]),
    ensures
        word_count(a) == 1,
    decreases a.len(),
{
    assert(!is_space(a[a.len() - 1]));
    if a.len() > 1 {
        assert forall|i: int| 0 <= i < a.drop_last().len() implies !is_space(
            #[trigger] a.drop_last()[i],
        ) by {
            assert(a.drop_last()[i] == a[i]);
        }
        lemma_one_word(a.drop_last());
        assert(!is_space(a[a.len() - 2]));
    } else {
        assert(word_count(a.drop_last()) == 0);
    }
}

/// Joining puts the separator between parts and nowhere else: once between what joins the parts
/// before and what joins the parts after, and one part is joined as it is.
pub proof fn law_joining(a: Seq<Seq<char>>, b: Seq<Seq<char>>, part: Seq<char>, sep: Seq<char>)
    ensures
        a.len() > 0 && b.len() > 0 ==> joined(a + b, sep) == joined(a, sep) + sep + joined(b, sep),
        joined(seq![part], sep) == part,
        joined(Seq::<Seq<char>>::empty(), sep) == Seq::<char>::empty(),
    decreases b.len(),
{
    if a.len() > 0 && b.len() == 1 {
        assert((a + b).drop_last() =~= a);
        assert((a + b).last() == b[0]);
    } else if a.len() > 0 && b.len() > 1 {
        law_joining(a, b.drop_last(), part, sep);
        assert((a + b).drop_last() =~= a + b.drop_last());
        assert(joined(a + b, sep) =~= joined(a, sep) + sep + joined(b, sep));
    }
}

/// Counting is counting one by one: the counts of two texts add up, and one character counts
/// where it has the property.
pub proof fn law_counting(a: Seq<char>, b: Seq<char>, c: char, p: spec_fn(char) -> bool)
    ensures
        count_where(a + b, p) == count_where(a, p) + count_where(b, p),
        count_where(seq![c], p) == if p(c) {
            1nat
        } else {
            0
        },
        count_where(Seq::<char>::empty(), p) == 0,
{
    lemma_count_add(a, b, p);
    assert(seq![c].drop_last() =~= Seq::<char>::empty());
    assert(count_where(seq![c].drop_last(), p) == 0);
}

/// A separator parts: the filled parts on both sides of it add up.
pub proof fn law_parts_split(a: Seq<char>, b: Seq<char>, sep: char)
    ensures
        filled_parts(a.push(sep) + b, sep) == filled_parts(a, sep) + filled_parts(b, sep),
    decreases a.len(),
{
    let s = a.push(sep) + b;
    lemma_part_length_bound(a, sep);
    lemma_part_end(a, sep);
    let k = part_length(a, sep) as int;
    assert forall|j: int| 0 <= j < k implies #[trigger] s[j] != sep by {
        assert(s[j] == a[j]);
    }
    if k < a.len() {
        assert(s[k] == a[k]);
        lemma_part_length_is(s, sep, k);
        let rest = a.skip(k + 1);
        assert(s.take(k) =~= a.take(k));
        assert(s.skip(k + 1) =~= rest.push(sep) + b);
        law_parts_split(rest, b, sep);
    } else {
        assert(s[k] == sep);
        lemma_part_length_is(s, sep, k);
        assert(s.take(k) =~= a.take(k));
        assert(s.skip(k + 1) =~= b);
    }
}

/// A part is filled where it holds anything but white space.
pub proof fn law_one_part(a: Seq<char>, sep: char)
    requires
        forall|i: int| 0 <= i < a.len() ==> #[trigger] a[i] != sep,
    ensures
        filled_parts(a, sep) == if exists|i: int| 0 <= i < a.len() && !is_space(#[trigger] a[i]) {
            1nat
        } else {
            0
        },
{
    lemma_part_length_is(a, sep, a.len() as int);
    assert(a.take(a.len() as int) =~= a);
}

/// Each of several texts is seen as it is, in its place.
pub proof fn law_texts_are_seen(parts: Seq<Vec<char>>, strings: Seq<String>, i: int)
    ensures
        views(parts).len() == parts.len(),
        0 <= i < parts.len() ==> views(parts)[i] == parts[i]@,
        string_views(strings).len() == strings.len(),
        0 <= i < strings.len() ==> string_views(strings)[i] == strings[i]@,
{
}

/// A text is blank where each of its characters is white space: both parts of it are, and one
/// character is where it is white space.
pub proof fn law_blank_texts(a: Seq<char>, b: Seq<char>, c: char)
    ensures
        is_blank(a + b) == (is_blank(a) && is_blank(b)),
        is_blank(seq![c]) == is_space(c),
        is_blank(Seq::<char>::empty()),
        is_blank(a) == (trimmed(a).len() == 0),
{
    let all = a + b;
    if is_blank(all) {
        assert forall|i: int| 0 <= i < a.len() implies is_space(#[trigger] a[i]) by {
            assert(all[i] == a[i]);
        }
        assert forall|i: int| 0 <= i < b.len() implies is_space(#[trigger] b[i]) by {
            assert(all[i + a.len()] == b[i]);
        }
    }
    assert(seq![c][0] == c);
    let k = law_trimming(a);
    if trimmed(a).len() > 0 {
        assert(trimmed(a)[0] == a[k]);
    }
}

} // verus!
