//! Columns of a page, found as gutters that nearly all of its lines leave empty.
use crate::markdown_render::{group_into_lines, line_views, page_lines, Line, LineView};
use crate::order::concatenated;
use crate::text::{chars_of, word_count, words};
use crate::types::{TextElement, POINT};
use vstd::prelude::*;

verus! {

/// The width of the buckets that the x axis is swept in.
pub const BUCKET_WIDTH: i64 = 3_000_000;

/// How wide a gutter is at least. A space between words is far narrower.
pub const MIN_GUTTER_WIDTH: i64 = 20_000_000;

/// How many lines a column has at least.
pub const MIN_LINES_PER_COLUMN: usize = 3;

/// How many words the lines of a column have at least on average. The columns of a table hold
/// shorter values.
pub const MIN_AVG_WORDS_PER_LINE: usize = 3;

/// The least left edge of some runs.
pub open spec fn least_left(elements: Seq<&TextElement>) -> int
    decreases elements.len(),
{
    if elements.len() <= 1 {
        elements[0].x_min as int
    } else {
        let front = least_left(elements.drop_last());
        if elements.last().x_min < front {
            elements.last().x_min as int
        } else {
            front
        }
    }
}

/// The greatest right edge of some runs.
pub open spec fn greatest_right(elements: Seq<&TextElement>) -> int
    decreases elements.len(),
{
    if elements.len() <= 1 {
        elements[0].x_max as int
    } else {
        let front = greatest_right(elements.drop_last());
        if elements.last().x_max > front {
            elements.last().x_max as int
        } else {
            front
        }
    }
}

/// How many buckets cover a span.
pub open spec fn bucket_count(span: int) -> int {
    (span + BUCKET_WIDTH - 1) / (BUCKET_WIDTH as int)
}

/// Whether a run reaches into bucket `b`, the first bucket starting at `min_x`.
pub open spec fn run_covers(e: &TextElement, min_x: int, b: int) -> bool {
    e.x_min - min_x < (b + 1) * BUCKET_WIDTH && e.x_max - min_x > b * BUCKET_WIDTH
}

/// Whether any run of a line reaches into bucket `b`.
pub open spec fn line_covers(line: LineView, min_x: int, b: int) -> bool {
    exists|i: int| 0 <= i < line.elements.len() && run_covers(#[trigger] line.elements[i], min_x, b)
}

/// How many of the lines reach into bucket `b`.
pub open spec fn coverage(lines: Seq<LineView>, min_x: int, b: int) -> nat
    decreases lines.len(),
{
    if lines.len() == 0 {
        0
    } else {
        coverage(lines.drop_last(), min_x, b) + if line_covers(lines.last(), min_x, b) {
            1nat
        } else {
            0
        }
    }
}

/// Which buckets belong to a gutter: those that at most a fifth of the lines reach into.
pub open spec fn gutters(lines: Seq<LineView>, min_x: int, count: int) -> Seq<bool> {
    Seq::new(count as nat, |b: int| 5 * coverage(lines, min_x, b) <= lines.len())
}

/// Where the run of gutter buckets that ends before bucket `i` starts.
pub open spec fn run_start(gutters: Seq<bool>, i: int) -> int
    decreases i,
{
    if i <= 0 || !gutters[i - 1] {
        i
    } else {
        run_start(gutters, i - 1)
    }
}

/// Whether a run of gutter buckets ends before bucket `i`.
pub open spec fn run_ends(gutters: Seq<bool>, i: int) -> bool {
    0 < i && gutters[i - 1] && (i == gutters.len() || !gutters[i])
}

/// Whether a run of gutter buckets parts two columns: it is wide enough and stands clear of
/// both edges of the page's text.
pub open spec fn is_cut(start: int, end: int, span: int) -> bool {
    &&& (end - start) * BUCKET_WIDTH >= MIN_GUTTER_WIDTH
    &&& start * BUCKET_WIDTH > POINT
    &&& end * BUCKET_WIDTH < span - POINT
}

/// The cuts that end at bucket `n` or before, from left to right.
pub open spec fn cuts_before(gutters: Seq<bool>, span: int, n: nat) -> Seq<(int, int)>
    decreases n,
{
    if n == 0 {
        Seq::empty()
    } else {
        let front = cuts_before(gutters, span, (n - 1) as nat);
        let start = run_start(gutters, n as int);
        if run_ends(gutters, n as int) && is_cut(start, n as int, span) {
            front.push((start, n as int))
        } else {
            front
        }
    }
}

/// The cuts of a page, from left to right.
pub open spec fn page_cuts(elements: Seq<&TextElement>) -> Seq<(int, int)> {
    let min_x = least_left(elements);
    let span = greatest_right(elements) - min_x;
    let count = bucket_count(span);
    cuts_before(gutters(page_lines(elements), min_x, count), span, count as nat)
}

/// How many of the cuts have their middle to the left of the middle of a run.
pub open spec fn column_of(e: &TextElement, min_x: int, cuts: Seq<(int, int)>) -> nat
    decreases cuts.len(),
{
    if cuts.len() == 0 {
        0
    } else {
        let (start, end) = cuts.last();
        column_of(e, min_x, cuts.drop_last()) + if e.x_min + e.x_max > 2 * min_x + (start + end)
            * BUCKET_WIDTH {
            1nat
        } else {
            0
        }
    }
}

/// The runs of one column, in order.
pub open spec fn column_runs<'a>(
    elements: Seq<&'a TextElement>,
    min_x: int,
    cuts: Seq<(int, int)>,
    column: nat,
) -> Seq<&'a TextElement>
    decreases elements.len(),
{
    if elements.len() == 0 {
        Seq::empty()
    } else {
        let front = column_runs(elements.drop_last(), min_x, cuts, column);
        if column_of(elements.last(), min_x, cuts) == column {
            front.push(elements.last())
        } else {
            front
        }
    }
}

/// The runs on either side of the cuts, from left to right.
pub open spec fn split_at_cuts<'a>(
    elements: Seq<&'a TextElement>,
    min_x: int,
    cuts: Seq<(int, int)>,
) -> Seq<Seq<&'a TextElement>> {
    Seq::new(cuts.len() + 1, |c: int| column_runs(elements, min_x, cuts, c as nat))
}

/// How many words some runs hold.
pub open spec fn total_words(elements: Seq<&TextElement>) -> nat
    decreases elements.len(),
{
    if elements.len() == 0 {
        0
    } else {
        total_words(elements.drop_last()) + word_count(elements.last().text@)
    }
}

/// Whether a column reads as prose: it has enough lines, with enough words on average.
pub open spec fn is_prose(column: Seq<&TextElement>) -> bool {
    let lines = page_lines(column).len();
    lines >= MIN_LINES_PER_COLUMN && total_words(column) >= MIN_AVG_WORDS_PER_LINE * lines
}

/// The columns of a page, from left to right. A page is split where it has lines enough for two
/// columns and a cut, and every part reads as prose; any other page with text is one column.
pub open spec fn page_columns<'a>(elements: Seq<&'a TextElement>) -> Seq<Seq<&'a TextElement>> {
    let min_x = least_left(elements);
    let cuts = page_cuts(elements);
    let columns = split_at_cuts(elements, min_x, cuts);
    if elements.len() == 0 {
        Seq::empty()
    } else if page_lines(elements).len() < 2 * MIN_LINES_PER_COLUMN || greatest_right(elements)
        <= min_x || cuts.len() == 0 || exists|c: int|
        0 <= c < columns.len() && !is_prose(#[trigger] columns[c]) {
        seq![elements]
    } else {
        columns
    }
}

pub open spec fn cut_values(cuts: Seq<(u64, u64)>) -> Seq<(int, int)> {
    Seq::new(cuts.len(), |i: int| (cuts[i].0 as int, cuts[i].1 as int))
}

pub open spec fn column_views<'a>(columns: Seq<Vec<&'a TextElement>>) -> Seq<Seq<&'a TextElement>> {
    Seq::new(columns.len(), |i: int| columns[i]@)
}

/// The least left and the greatest right edge of some runs.
pub fn edges(elements: &[&TextElement]) -> (r: (i64, i64))
    requires
        elements@.len() > 0,
    ensures
        r.0 == least_left(elements@),
        r.1 == greatest_right(elements@),
{
    let mut left: i64 = elements[0].x_min;
    let mut right: i64 = elements[0].x_max;
    let mut i: usize = 1;
    while i < elements.len()
        invariant
            1 <= i <= elements@.len(),
            left == least_left(elements@.take(i as int)),
            right == greatest_right(elements@.take(i as int)),
        decreases elements@.len() - i,
    {
        assert(elements@.take(i + 1).drop_last() =~= elements@.take(i as int));
        assert(elements@.take(i + 1).last() == elements@[i as int]);
        if elements[i].x_min < left {
            left = elements[i].x_min;
        }
        if elements[i].x_max > right {
            right = elements[i].x_max;
        }
        i = i + 1;
    }
    assert(elements@.take(i as int) =~= elements@);
    (left, right)
}

/// Whether a line reaches into bucket `b`.
fn covers(line: &Line, min_x: i64, b: u64) -> (r: bool)
    ensures
        r == line_covers(line@, min_x as int, b as int),
{
    assert(0 <= b * BUCKET_WIDTH <= 0xffff_ffff_ffff_ffff * 3_000_000) by (nonlinear_arith)
        requires
            b <= 0xffff_ffff_ffff_ffff,
            BUCKET_WIDTH == 3_000_000,
    ;
    let from: i128 = min_x as i128 + b as i128 * BUCKET_WIDTH as i128;
    let to: i128 = from + BUCKET_WIDTH as i128;
    let mut i: usize = 0;
    while i < line.elements.len()
        invariant
            i <= line.elements@.len(),
            from == min_x + b * BUCKET_WIDTH,
            to == min_x + (b + 1) * BUCKET_WIDTH,
            forall|j: int|
                0 <= j < i ==> !run_covers(
                    #[trigger] line.elements@[j],
                    min_x as int,
                    b as int,
                ),
        decreases line.elements@.len() - i,
    {
        let e: &TextElement = line.elements[i];
        if (e.x_min as i128) < to && (e.x_max as i128) > from {
            assert(run_covers(line.elements@[i as int], min_x as int, b as int));
            assert(line@.elements[i as int] == line.elements@[i as int]);
            return true;
        }
        i = i + 1;
    }
    false
}

fn covering_lines(lines: &[Line], min_x: i64, b: u64) -> (r: usize)
    ensures
        r == coverage(line_views(lines@), min_x as int, b as int),
        r <= lines@.len(),
{
    let ghost all = line_views(lines@);
    let mut count: usize = 0;
    let mut i: usize = 0;
    assert(all.take(0) =~= Seq::<LineView>::empty());
    while i < lines.len()
        invariant
            i <= lines@.len(),
            all == line_views(lines@),
            count == coverage(all.take(i as int), min_x as int, b as int),
            count <= i,
        decreases lines@.len() - i,
    {
        assert(all.take(i + 1).drop_last() =~= all.take(i as int));
        assert(all.take(i + 1).last() == lines@[i as int]@);
        if covers(&lines[i], min_x, b) {
            count = count + 1;
        }
        i = i + 1;
    }
    assert(all.take(i as int) =~= all);
    count
}

/// Records the run of gutter buckets from `start` to `end` where it parts two columns.
fn record_cut_if_wide_enough(start: u64, end: u64, span: i128, cuts: &mut Vec<(u64, u64)>)
    requires
        start <= end,
        0 <= span < 0x1_0000_0000_0000_0000,
    ensures
        is_cut(start as int, end as int, span as int) ==> final(cuts)@ == old(cuts)@.push(
            (start, end),
        ),
        !is_cut(start as int, end as int, span as int) ==> final(cuts)@ == old(cuts)@,
{
    let width: i128 = BUCKET_WIDTH as i128;
    let point: i128 = POINT as i128;
    if (end - start) as i128 * width >= MIN_GUTTER_WIDTH as i128 && start as i128 * width > point
        && (end as i128) * width < span - point {
        cuts.push((start, end));
    }
}

fn find_cuts(lines: &[Line], min_x: i64, max_x: i64) -> (r: Vec<(u64, u64)>)
    requires
        min_x < max_x,
    ensures
        cut_values(r@) == cuts_before(
            gutters(
                line_views(lines@),
                min_x as int,
                bucket_count(max_x - min_x),
            ),
            max_x - min_x,
            bucket_count(max_x - min_x) as nat,
        ),
{
    let span: i128 = max_x as i128 - min_x as i128;
    let count: u64 = ((span as u128 + BUCKET_WIDTH as u128 - 1) / (BUCKET_WIDTH as u128)) as u64;
    let ghost views = line_views(lines@);
    let ghost gs = gutters(views, min_x as int, count as int);
    assert(count == bucket_count(max_x - min_x));
    let mut cuts: Vec<(u64, u64)> = Vec::new();
    let mut run: Option<u64> = None;
    let mut b: u64 = 0;
    assert(cut_values(cuts@) =~= cuts_before(gs, span as int, 0));
    while b < count
        invariant
            b <= count,
            0 < span < 0x1_0000_0000_0000_0000,
            views == line_views(lines@),
            gs == gutters(views, min_x as int, count as int),
            b == 0 ==> run is None && cut_values(cuts@) == cuts_before(gs, span as int, 0),
            b > 0 ==> run is Some == gs[b - 1],
            b > 0 ==> cut_values(cuts@) == cuts_before(gs, span as int, (b - 1) as nat),
            run matches Some(s) ==> s == run_start(gs, b as int) && s < b,
        decreases count - b,
    {
        let covering: usize = covering_lines(lines, min_x, b);
        let gutter: bool = 5 * (covering as u128) <= lines.len() as u128;
        assert(gs[b as int] == gutter);
        let ghost before = cuts@;
        match run {
            None => {
                if gutter {
                    run = Some(b);
                    assert(run_start(gs, b as int) == b);
                    assert(run_start(gs, b + 1) == b);
                }
            },
            Some(s) => {
                if !gutter {
                    record_cut_if_wide_enough(s, b, span, &mut cuts);
                    run = None;
                    assert(cut_values(before.push((s, b))) =~= cut_values(before).push(
                        (s as int, b as int),
                    ));
                } else {
                    assert(run_start(gs, b + 1) == run_start(gs, b as int));
                }
            },
        }
        b = b + 1;
    }
    assert(count > 0);
    let ghost before = cuts@;
    if let Some(s) = run {
        record_cut_if_wide_enough(s, count, span, &mut cuts);
        assert(cut_values(before.push((s, count))) =~= cut_values(before).push(
            (s as int, count as int),
        ));
    }
    cuts
}

fn column_index(e: &TextElement, min_x: i64, cuts: &[(u64, u64)]) -> (r: usize)
    ensures
        r == column_of(e, min_x as int, cut_values(cuts@)),
        r <= cuts@.len(),
{
    let ghost all = cut_values(cuts@);
    let mut count: usize = 0;
    let mut i: usize = 0;
    assert(all.take(0) =~= Seq::<(int, int)>::empty());
    while i < cuts.len()
        invariant
            i <= cuts@.len(),
            all == cut_values(cuts@),
            count == column_of(e, min_x as int, all.take(i as int)),
            count <= i,
        decreases cuts@.len() - i,
    {
        assert(all.take(i + 1).drop_last() =~= all.take(i as int));
        assert(all.take(i + 1).last() == (cuts@[i as int].0 as int, cuts@[i as int].1 as int));
        let (start, end): (u64, u64) = cuts[i];
        let boundary: i128 = 2 * (min_x as i128) + (start as i128 + end as i128)
            * BUCKET_WIDTH as i128;
        if e.x_min as i128 + e.x_max as i128 > boundary {
            count = count + 1;
        }
        i = i + 1;
    }
    assert(all.take(i as int) =~= all);
    count
}

fn runs_of_column<'a>(
    elements: &[&'a TextElement],
    min_x: i64,
    cuts: &[(u64, u64)],
    column: usize,
) -> (r: Vec<&'a TextElement>)
    ensures
        r@ == column_runs(elements@, min_x as int, cut_values(cuts@), column as nat),
{
    let mut out: Vec<&'a TextElement> = Vec::new();
    let mut i: usize = 0;
    assert(elements@.take(0) =~= Seq::<&TextElement>::empty());
    while i < elements.len()
        invariant
            i <= elements@.len(),
            out@ == column_runs(
                elements@.take(i as int),
                min_x as int,
                cut_values(cuts@),
                column as nat,
            ),
        decreases elements@.len() - i,
    {
        assert(elements@.take(i + 1).drop_last() =~= elements@.take(i as int));
        if column_index(elements[i], min_x, cuts) == column {
            out.push(elements[i]);
        }
        i = i + 1;
    }
    assert(elements@.take(i as int) =~= elements@);
    out
}

fn count_words(elements: &[&TextElement]) -> (r: u128)
    ensures
        r == total_words(elements@),
{
    let mut total: u128 = 0;
    let mut i: usize = 0;
    assert(elements@.take(0) =~= Seq::<&TextElement>::empty());
    while i < elements.len()
        invariant
            i <= elements@.len(),
            total == total_words(elements@.take(i as int)),
            total <= i * 0xffff_ffff_ffff_ffff,
        decreases elements@.len() - i,
    {
        assert(elements@.take(i + 1).drop_last() =~= elements@.take(i as int));
        let cs: Vec<char> = chars_of(elements[i].text.as_str());
        let n: usize = words(&cs);
        assert(i * 0xffff_ffff_ffff_ffff + 0xffff_ffff_ffff_ffff == (i + 1) * 0xffff_ffff_ffff_ffff)
            by (nonlinear_arith);
        assert((i + 1) * 0xffff_ffff_ffff_ffff <= 0xffff_ffff_ffff_ffff_ffff_ffff_ffff_ffff)
            by (nonlinear_arith)
            requires
                i < 0xffff_ffff_ffff_ffff,
        ;
        total = total + n as u128;
        i = i + 1;
    }
    assert(elements@.take(i as int) =~= elements@);
    total
}

fn reads_as_prose(column: &[&TextElement]) -> (r: bool)
    ensures
        r == is_prose(column@),
{
    let lines: Vec<Line> = group_into_lines(column);
    assert(lines@.len() == page_lines(column@).len()) by {
        assert(line_views(lines@).len() == lines@.len());
    }
    if lines.len() < MIN_LINES_PER_COLUMN {
        return false;
    }
    count_words(column) >= MIN_AVG_WORDS_PER_LINE as u128 * lines.len() as u128
}

fn one_column<'a>(elements: &[&'a TextElement]) -> (r: Vec<Vec<&'a TextElement>>)
    ensures
        column_views(r@) == seq![elements@],
{
    let mut column: Vec<&'a TextElement> = Vec::new();
    let mut i: usize = 0;
    while i < elements.len()
        invariant
            i <= elements@.len(),
            column@ == elements@.take(i as int),
        decreases elements@.len() - i,
    {
        column.push(elements[i]);
        assert(elements@.take(i as int).push(elements@[i as int]) =~= elements@.take(i + 1));
        i = i + 1;
    }
    assert(column@ =~= elements@);
    let mut out: Vec<Vec<&'a TextElement>> = Vec::new();
    out.push(column);
    assert(column_views(out@) =~= seq![elements@]);
    out
}

/// Parts the runs of a page into its columns, from left to right.
///
/// The whole page is taken to follow one column structure: lines across the whole width among
/// the lines of two columns can hide the gutter, and the page is then one column.
pub fn partition_into_columns<'a>(elements: &[&'a TextElement]) -> (r: Vec<Vec<&'a TextElement>>)
    ensures
        column_views(r@) == page_columns(elements@),
{
    if elements.len() == 0 {
        let none: Vec<Vec<&'a TextElement>> = Vec::new();
        assert(column_views(none@) =~= page_columns(elements@));
        return none;
    }
    let lines: Vec<Line> = group_into_lines(elements);
    assert(lines@.len() == page_lines(elements@).len()) by {
        assert(line_views(lines@).len() == lines@.len());
    }
    if lines.len() < 2 * MIN_LINES_PER_COLUMN {
        return one_column(elements);
    }
    let (min_x, max_x): (i64, i64) = edges(elements);
    if max_x <= min_x {
        return one_column(elements);
    }
    let cuts: Vec<(u64, u64)> = find_cuts(&lines, min_x, max_x);
    assert(cut_values(cuts@) == page_cuts(elements@));
    if cuts.len() == 0 {
        return one_column(elements);
    }
    let ghost split = split_at_cuts(elements@, min_x as int, cut_values(cuts@));
    let mut columns: Vec<Vec<&'a TextElement>> = Vec::new();
    let mut c: usize = 0;
    while c < cuts.len()
        invariant
            c <= cuts@.len(),
            columns@.len() == c,
            elements@.len() > 0,
            split == split_at_cuts(elements@, min_x as int, cut_values(cuts@)),
            min_x == least_left(elements@),
            cut_values(cuts@) == page_cuts(elements@),
            forall|k: int| 0 <= k < c ==> (#[trigger] columns@[k])@ == split[k],
            forall|k: int| 0 <= k < c ==> is_prose(#[trigger] split[k]),
        decreases cuts@.len() - c,
    {
        let column: Vec<&'a TextElement> = runs_of_column(elements, min_x, &cuts, c);
        assert(column@ == split[c as int]);
        if !reads_as_prose(&column) {
            return one_column(elements);
        }
        columns.push(column);
        c = c + 1;
    }
    let column: Vec<&'a TextElement> = runs_of_column(elements, min_x, &cuts, c);
    assert(column@ == split[c as int]);
    if !reads_as_prose(&column) {
        return one_column(elements);
    }
    columns.push(column);
    assert(column_views(columns@) =~= split);
    columns
}

proof fn lemma_column_bound(e: &TextElement, min_x: int, cuts: Seq<(int, int)>)
    ensures
        column_of(e, min_x, cuts) <= cuts.len(),
    decreases cuts.len(),
{
    if cuts.len() > 0 {
        lemma_column_bound(e, min_x, cuts.drop_last());
    }
}

spec fn first_columns<'a>(
    elements: Seq<&'a TextElement>,
    min_x: int,
    cuts: Seq<(int, int)>,
    k: nat,
) -> Seq<Seq<&'a TextElement>> {
    Seq::new(k, |c: int| column_runs(elements, min_x, cuts, c as nat))
}

proof fn lemma_one_more_run(elements: Seq<&TextElement>, min_x: int, cuts: Seq<(int, int)>, k: nat)
    requires
        elements.len() > 0,
    ensures
        ({
            let e = elements.last();
            let before = concatenated(
                first_columns(elements.drop_last(), min_x, cuts, k),
            ).to_multiset();
            let after = concatenated(first_columns(elements, min_x, cuts, k)).to_multiset();
            after == if column_of(e, min_x, cuts) < k {
                before.insert(e)
            } else {
                before
            }
        }),
    decreases k,
{
    broadcast use vstd::seq_lib::group_to_multiset_ensures;

    let front = elements.drop_last();
    let e = elements.last();
    let a = first_columns(front, min_x, cuts, k);
    let b = first_columns(elements, min_x, cuts, k);
    if k == 0 {
        assert(concatenated(a) =~= concatenated(b));
    } else {
        let j = (k - 1) as nat;
        lemma_one_more_run(elements, min_x, cuts, j);
        assert(a.drop_last() =~= first_columns(front, min_x, cuts, j));
        assert(b.drop_last() =~= first_columns(elements, min_x, cuts, j));
        vstd::seq_lib::lemma_multiset_commutative(concatenated(a.drop_last()), a.last());
        vstd::seq_lib::lemma_multiset_commutative(concatenated(b.drop_last()), b.last());
        let before = concatenated(a).to_multiset();
        let after = concatenated(b).to_multiset();
        if column_of(e, min_x, cuts) < k {
            assert(after =~= before.insert(e));
        } else {
            assert(after =~= before);
        }
    }
}

proof fn lemma_split_keeps_runs(elements: Seq<&TextElement>, min_x: int, cuts: Seq<(int, int)>)
    ensures
        concatenated(split_at_cuts(elements, min_x, cuts)).to_multiset() == elements.to_multiset(),
    decreases elements.len(),
{
    broadcast use vstd::seq_lib::group_to_multiset_ensures;

    let k = cuts.len() + 1;
    let columns = split_at_cuts(elements, min_x, cuts);
    assert(columns =~= first_columns(elements, min_x, cuts, k));
    if elements.len() == 0 {
        lemma_empty_columns(elements, min_x, cuts, k);
        assert(concatenated(columns) =~= elements);
    } else {
        let front = elements.drop_last();
        lemma_split_keeps_runs(front, min_x, cuts);
        assert(split_at_cuts(front, min_x, cuts) =~= first_columns(front, min_x, cuts, k));
        lemma_one_more_run(elements, min_x, cuts, k);
        lemma_column_bound(elements.last(), min_x, cuts);
        assert(front.push(elements.last()) =~= elements);
    }
}

proof fn lemma_empty_columns(elements: Seq<&TextElement>, min_x: int, cuts: Seq<(int, int)>, k: nat)
    requires
        elements.len() == 0,
    ensures
        concatenated(first_columns(elements, min_x, cuts, k)).len() == 0,
    decreases k,
{
    if k > 0 {
        let columns = first_columns(elements, min_x, cuts, k);
        lemma_empty_columns(elements, min_x, cuts, (k - 1) as nat);
        assert(columns.drop_last() =~= first_columns(elements, min_x, cuts, (k - 1) as nat));
    }
}

/// The columns of a page hold each of its runs once.
pub proof fn law_columns_keep_runs(elements: Seq<&TextElement>)
    ensures
        concatenated(page_columns(elements)).to_multiset() == elements.to_multiset(),
{
    let columns = page_columns(elements);
    if elements.len() == 0 {
        assert(concatenated(columns) =~= elements);
    } else if columns == seq![elements] {
        assert(columns.drop_last() =~= Seq::<Seq<&TextElement>>::empty());
        assert(concatenated(columns.drop_last()) =~= Seq::<&TextElement>::empty());
        assert(concatenated(columns) =~= elements);
    } else {
        lemma_split_keeps_runs(elements, least_left(elements), page_cuts(elements));
    }
}

/// A page is split only into columns that read as prose, and two of them at least.
pub proof fn law_split_columns_are_prose(elements: Seq<&TextElement>)
    requires
        elements.len() > 0,
        page_columns(elements) != seq![elements],
    ensures
        page_columns(elements).len() >= 2,
        forall|c: int|
            0 <= c < page_columns(elements).len() ==> is_prose(#[trigger] page_columns(elements)[c]),
{
}

/// A page with too few lines for two columns is one column.
pub proof fn law_short_page_is_one_column(elements: Seq<&TextElement>)
    requires
        elements.len() > 0,
        page_lines(elements).len() < 2 * MIN_LINES_PER_COLUMN,
    ensures
        page_columns(elements) == seq![elements],
{
}

proof fn lemma_column_order(elements: Seq<&TextElement>, min_x: int, cuts: Seq<(int, int)>, column: nat)
    ensures
        forall|i: int|
            0 <= i < column_runs(elements, min_x, cuts, column).len() ==> column_of(
                #[trigger] column_runs(elements, min_x, cuts, column)[i],
                min_x,
                cuts,
            ) == column,
    decreases elements.len(),
{
    if elements.len() > 0 {
        let front = column_runs(elements.drop_last(), min_x, cuts, column);
        let all = column_runs(elements, min_x, cuts, column);
        lemma_column_order(elements.drop_last(), min_x, cuts, column);
        assert forall|i: int| 0 <= i < all.len() implies column_of(
            #[trigger] all[i],
            min_x,
            cuts,
        ) == column by {
            if i < front.len() {
                assert(all[i] == front[i]);
            }
        }
    }
}

/// Where a page is split, each run stands in the column that its middle falls in.
pub proof fn law_runs_stand_in_their_column(elements: Seq<&TextElement>, c: int, i: int)
    requires
        elements.len() > 0,
        page_columns(elements) != seq![elements],
        0 <= c < page_columns(elements).len(),
        0 <= i < page_columns(elements)[c].len(),
    ensures
        column_of(page_columns(elements)[c][i], least_left(elements), page_cuts(elements)) == c,
{
    lemma_column_order(elements, least_left(elements), page_cuts(elements), c as nat);
}

/// Whether the buckets from `start` to `end` are a run of gutter buckets that cannot be made
/// longer.
pub open spec fn is_gutter_run(gutters: Seq<bool>, start: int, end: int) -> bool {
    &&& 0 <= start < end <= gutters.len()
    &&& forall|b: int| start <= b < end ==> #[trigger] gutters[b]
    &&& start == 0 || !gutters[start - 1]
    &&& end == gutters.len() || !gutters[end]
}

proof fn lemma_run_start(gutters: Seq<bool>, i: int)
    requires
        0 <= i <= gutters.len(),
    ensures
        0 <= run_start(gutters, i) <= i,
        forall|b: int| run_start(gutters, i) <= b < i ==> #[trigger] gutters[b],
        run_start(gutters, i) == 0 || !gutters[run_start(gutters, i) - 1],
    decreases i,
{
    if i > 0 && gutters[i - 1] {
        lemma_run_start(gutters, i - 1);
    }
}

proof fn lemma_cuts(gutters: Seq<bool>, span: int, n: nat)
    requires
        n <= gutters.len(),
    ensures
        forall|k: int|
            0 <= k < cuts_before(gutters, span, n).len() ==> {
                let (start, end) = #[trigger] cuts_before(gutters, span, n)[k];
                is_gutter_run(gutters, start, end) && is_cut(start, end, span) && end <= n
            },
        forall|j: int, k: int|
            0 <= j < k < cuts_before(gutters, span, n).len() ==> (#[trigger] cuts_before(
                gutters,
                span,
                n,
            )[j]).1 < (#[trigger] cuts_before(gutters, span, n)[k]).0,
        forall|start: int, end: int| #[trigger]
            is_gutter_run(gutters, start, end) && is_cut(start, end, span) && end <= n
                ==> cuts_before(gutters, span, n).contains((start, end)),
    decreases n,
{
    if n > 0 {
        let m = (n - 1) as nat;
        let front = cuts_before(gutters, span, m);
        let all = cuts_before(gutters, span, n);
        let s = run_start(gutters, n as int);
        lemma_cuts(gutters, span, m);
        lemma_run_start(gutters, n as int);
        let added = run_ends(gutters, n as int) && is_cut(s, n as int, span);
        assert forall|k: int| 0 <= k < all.len() implies {
            let (start, end) = #[trigger] all[k];
            is_gutter_run(gutters, start, end) && is_cut(start, end, span) && end <= n
        } by {
            if k < front.len() {
                assert(all[k] == front[k]);
            }
        }
        assert forall|j: int, k: int| 0 <= j < k < all.len() implies (#[trigger] all[j]).1 < (
        #[trigger] all[k]).0 by {
            assert(all[j] == front[j]);
            if k < front.len() {
                assert(all[k] == front[k]);
            } else {
                let (start, end) = front[j];
                if end >= s {
                    assert(gutters[end - 1]);
                    assert(end < n ==> gutters[end]);
                }
            }
        }
        assert forall|start: int, end: int| #[trigger]
            is_gutter_run(gutters, start, end) && is_cut(start, end, span) && end <= n implies all.contains(
            (start, end),
        ) by {
            if end <= m {
                let k = choose|k: int| 0 <= k < front.len() && front[k] == (start, end);
                assert(all[k] == (start, end));
            } else {
                assert(gutters[end - 1]);
                if s < start {
                    assert(gutters[start - 1]);
                }
                if start < s {
                    assert(gutters[s - 1]);
                }
                assert(all[front.len() as int] == (start, end));
            }
        }
    }
}

/// The cuts of a page are its gutters: the runs of buckets, as long as they come, that at most a
/// fifth of its lines reach into, where they are wide enough and clear of both edges. They are
/// all listed, from left to right and apart from each other.
pub proof fn law_cuts_are_gutters(elements: Seq<&TextElement>)
    requires
        elements.len() > 0,
        least_left(elements) < greatest_right(elements),
    ensures
        ({
            let min_x = least_left(elements);
            let span = greatest_right(elements) - min_x;
            let marks = gutters(page_lines(elements), min_x, bucket_count(span));
            let cuts = page_cuts(elements);
            &&& forall|k: int|
                0 <= k < cuts.len() ==> {
                    let (start, end) = #[trigger] cuts[k];
                    is_gutter_run(marks, start, end) && is_cut(start, end, span)
                }
            &&& forall|j: int, k: int|
                0 <= j < k < cuts.len() ==> (#[trigger] cuts[j]).1 < (#[trigger] cuts[k]).0
            &&& forall|start: int, end: int| #[trigger]
                is_gutter_run(marks, start, end) && is_cut(start, end, span) ==> cuts.contains(
                    (start, end),
                )
        }),
{
    let min_x = least_left(elements);
    let span = greatest_right(elements) - min_x;
    let count = bucket_count(span);
    let marks = gutters(page_lines(elements), min_x, count);
    assert(count >= 0);
    lemma_cuts(marks, span, count as nat);
}

/// The left edge of runs is that of one of them, and none lies further left; the right edge is that
/// of one of them, and none lies further right.
pub proof fn law_edges(elements: Seq<&TextElement>)
    requires
        elements.len() > 0,
    ensures
        exists|i: int|
            0 <= i < elements.len() && (#[trigger] elements[i]).x_min == least_left(elements),
        exists|i: int|
            0 <= i < elements.len() && (#[trigger] elements[i]).x_max == greatest_right(elements),
        forall|i: int|
            0 <= i < elements.len() ==> least_left(elements) <= (#[trigger] elements[i]).x_min
                && elements[i].x_max <= greatest_right(elements),
    decreases elements.len(),
{
    let last = elements.len() - 1;
    assert(elements[last] == elements.last());
    if elements.len() > 1 {
        let front = elements.drop_last();
        law_edges(front);
        let a = choose|a: int|
            0 <= a < front.len() && (#[trigger] front[a]).x_min == least_left(front);
        let b = choose|b: int|
            0 <= b < front.len() && (#[trigger] front[b]).x_max == greatest_right(front);
        assert(elements[a] == front[a] && elements[b] == front[b]);
        assert forall|i: int| 0 <= i < elements.len() implies least_left(elements) <= (
        #[trigger] elements[i]).x_min && elements[i].x_max <= greatest_right(elements) by {
            if i < front.len() {
                assert(front[i] == elements[i]);
            }
        }
    } else {
        assert(elements[0].x_min == least_left(elements));
    }
}

/// The x axis is swept in steps of three points, as many as it takes: a run reaches into a step
/// where it starts before its end and ends behind its start, a line where one of its runs does, and
/// lines are counted one by one. A step belongs to a gutter where no more than one line in five
/// reaches into it.
pub proof fn law_sweep(
    e: &TextElement,
    a: Seq<LineView>,
    b: Seq<LineView>,
    line: LineView,
    min_x: int,
    step: int,
    span: int,
)
    ensures
        run_covers(e, min_x, step) <==> e.x_min < min_x + 3_000_000 * step + 3_000_000 && e.x_max
            > min_x + 3_000_000 * step,
        coverage(a + b, min_x, step) == coverage(a, min_x, step) + coverage(b, min_x, step),
        coverage(seq![line], min_x, step) == if exists|i: int|
            0 <= i < line.elements.len() && run_covers(#[trigger] line.elements[i], min_x, step) {
            1nat
        } else {
            0
        },
        coverage(Seq::empty(), min_x, step) == 0,
        3_000_000 * bucket_count(span) - 3_000_000 < span <= 3_000_000 * bucket_count(span),
        0 <= step < span ==> gutters(a, min_x, span).len() == span && (gutters(a, min_x, span)[step]
            <==> 5 * coverage(a, min_x, step) <= a.len()),
    decreases b.len(),
{
    if b.len() == 0 {
        assert(a + b =~= a);
    } else {
        law_sweep(e, a, b.drop_last(), line, min_x, step, span);
        assert((a + b).drop_last() =~= a + b.drop_last());
    }
    assert(seq![line].drop_last() =~= Seq::<LineView>::empty());
    assert(coverage(seq![line].drop_last(), min_x, step) == 0);
}

/// A gutter parts columns where it is twenty points wide at least and begins and ends more than a
/// point away from the edges of the text.
pub proof fn law_gutters_that_part(start: int, end: int, span: int)
    ensures
        is_cut(start, end, span) <==> 3_000_000 * (end - start) >= 20_000_000 && 3_000_000 * start
            > 1_000_000 && 3_000_000 * end < span - 1_000_000,
{
}

/// A run stands in the column that follows as many cuts as have their middle to the left of its
/// own: the cuts are counted one by one.
pub proof fn law_column_of_a_run(
    e: &TextElement,
    min_x: int,
    a: Seq<(int, int)>,
    b: Seq<(int, int)>,
    cut: (int, int),
)
    ensures
        column_of(e, min_x, a + b) == column_of(e, min_x, a) + column_of(e, min_x, b),
        column_of(e, min_x, seq![cut]) == if e.x_min + e.x_max > 2 * min_x + 3_000_000 * cut.0
            + 3_000_000 * cut.1 {
            1nat
        } else {
            0
        },
        column_of(e, min_x, Seq::empty()) == 0,
    decreases b.len(),
{
    if b.len() == 0 {
        assert(a + b =~= a);
    } else {
        law_column_of_a_run(e, min_x, a, b.drop_last(), cut);
        assert((a + b).drop_last() =~= a + b.drop_last());
    }
    let one = seq![cut];
    assert(one.drop_last() =~= Seq::<(int, int)>::empty());
    assert(column_of(e, min_x, one.drop_last()) == 0);
    assert((cut.0 + cut.1) * BUCKET_WIDTH == 3_000_000 * cut.0 + 3_000_000 * cut.1);
}

/// The runs of a column are those of the ones and those of the others, in order, and a single run
/// is in its own column and in no other.
pub proof fn law_runs_of_a_column<'a>(
    a: Seq<&'a TextElement>,
    b: Seq<&'a TextElement>,
    e: &'a TextElement,
    min_x: int,
    cuts: Seq<(int, int)>,
    column: nat,
)
    ensures
        column_runs(a + b, min_x, cuts, column) == column_runs(a, min_x, cuts, column)
            + column_runs(b, min_x, cuts, column),
        column_runs(seq![e], min_x, cuts, column) == if column_of(e, min_x, cuts) == column {
            seq![e]
        } else {
            Seq::empty()
        },
        column_runs(Seq::empty(), min_x, cuts, column) == Seq::<&'a TextElement>::empty(),
    decreases b.len(),
{
    if b.len() == 0 {
        assert(a + b =~= a);
        assert(column_runs(a, min_x, cuts, column) + column_runs(b, min_x, cuts, column)
            =~= column_runs(a, min_x, cuts, column));
    } else {
        law_runs_of_a_column(a, b.drop_last(), e, min_x, cuts, column);
        assert((a + b).drop_last() =~= a + b.drop_last());
        assert(column_runs(a + b, min_x, cuts, column) =~= column_runs(a, min_x, cuts, column)
            + column_runs(b, min_x, cuts, column));
    }
    assert(seq![e].drop_last() =~= Seq::<&TextElement>::empty());
    assert(column_runs(seq![e].drop_last(), min_x, cuts, column) =~= Seq::<&TextElement>::empty());
    assert(Seq::<&TextElement>::empty().push(e) =~= seq![e]);
}

/// The words of runs add up.
pub proof fn law_words_of_runs(a: Seq<&TextElement>, b: Seq<&TextElement>, e: &TextElement)
    ensures
        total_words(a + b) == total_words(a) + total_words(b),
        total_words(seq![e]) == word_count(e.text@),
        total_words(Seq::empty()) == 0,
    decreases b.len(),
{
    if b.len() == 0 {
        assert(a + b =~= a);
    } else {
        law_words_of_runs(a, b.drop_last(), e);
        assert((a + b).drop_last() =~= a + b.drop_last());
    }
    assert(seq![e].drop_last() =~= Seq::<&TextElement>::empty());
    assert(total_words(seq![e].drop_last()) == 0);
}

/// A page is split exactly where it has six lines at least and a gutter that parts, and every part
/// has three lines at least, with three words or more on average; each part is then a column, from
/// left to right. Any other page is one column, and one without text is none.
pub proof fn law_page_is_split(elements: Seq<&TextElement>)
    requires
        elements.len() > 0,
    ensures
        ({
            let min_x = least_left(elements);
            let cuts = page_cuts(elements);
            let parts = Seq::new(
                cuts.len() + 1,
                |c: int| column_runs(elements, min_x, cuts, c as nat),
            );
            let readable = |c: int|
                {
                    let lines = page_lines(parts[c]).len();
                    lines >= 3 && total_words(parts[c]) >= 3 * lines
                };
            let split = page_lines(elements).len() >= 6 && greatest_right(elements) > min_x
                && cuts.len() > 0 && forall|c: int| 0 <= c <= cuts.len() ==> #[trigger] readable(c);
            page_columns(elements) == if split {
                parts
            } else {
                seq![elements]
            }
        }),
        page_columns(Seq::empty()) == Seq::<Seq<&TextElement>>::empty(),
{
    let min_x = least_left(elements);
    let cuts = page_cuts(elements);
    let columns = split_at_cuts(elements, min_x, cuts);
    let parts = Seq::new(cuts.len() + 1, |c: int| column_runs(elements, min_x, cuts, c as nat));
    assert(columns =~= parts);
    let readable = |c: int|
        {
            let lines = page_lines(parts[c]).len();
            lines >= 3 && total_words(parts[c]) >= 3 * lines
        };
    assert forall|c: int| 0 <= c <= cuts.len() implies #[trigger] readable(c) == is_prose(
        columns[c],
    ) by {}
    if exists|c: int| 0 <= c < columns.len() && !is_prose(#[trigger] columns[c]) {
        let c = choose|c: int| 0 <= c < columns.len() && !is_prose(#[trigger] columns[c]);
        assert(!readable(c));
    }
}

/// Each column is seen as it is, in its place.
pub proof fn law_columns_are_seen<'a>(columns: Seq<Vec<&'a TextElement>>, i: int)
    ensures
        column_views(columns).len() == columns.len(),
        0 <= i < columns.len() ==> column_views(columns)[i] == columns[i]@,
{
}

/// Cuts are seen as the numbers that they are.
pub proof fn law_cuts_are_seen(cuts: Seq<(u64, u64)>, i: int)
    ensures
        cut_values(cuts).len() == cuts.len(),
        0 <= i < cuts.len() ==> cut_values(cuts)[i].0 == cuts[i].0 && cut_values(cuts)[i].1
            == cuts[i].1,
{
}

} // verus!
