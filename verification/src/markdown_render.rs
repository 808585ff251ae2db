//! Renders the text runs of a page as Markdown: lines, headings, tables and paragraphs.
use crate::order::{
    arranged, concatenated, index_values, key_values, law_arranging_keeps_items, law_next_item,
    law_stable_order, law_what_is_in_order_stays, lemma_total_add, lemma_total_same,
    order_by_keys, ordered, precedes, stable_order, total,
};
use crate::column_layout::{
    column_views, law_columns_keep_runs, page_columns, partition_into_columns,
};
use crate::text::{
    append_chars, chars_of, count_where, is_space, join, joined, lemma_count_add, lemma_count_none,
    lemma_count_trimmed, string_of, trim, trimmed, views,
};
use crate::types::TextElement;
use std::collections::HashMap;
use vstd::prelude::*;

verus! {

/// How far apart two runs may stand in height and still share a line.
pub const ROW_TOLERANCE: i64 = 3_000_000;

/// Font sizes are counted in steps of half a point to find the commonest.
pub const SIZE_STEP: i64 = 500_000;

/// Half of [`SIZE_STEP`].
pub const HALF_SIZE_STEP: i64 = 250_000;

/// The body size of a document without text.
pub const DEFAULT_BODY_SIZE: i64 = 11_000_000;

/// Two font sizes closer than this count as one heading size.
pub const SIZE_TOLERANCE: i64 = 600_000;

/// The deepest heading that a font size gives.
pub const MAX_HEADING_DEPTH: usize = 4;

/// The runs of one line of a page, from left to right.
pub struct Line<'a> {
    pub elements: Vec<&'a TextElement>,
    /// The height of the run that started the line.
    pub y: i64,
    /// The sum of the font sizes of the runs; their average is this over their number.
    pub font_total: i128,
}

/// A line as a value.
#[verifier::ext_equal]
pub ghost struct LineView<'a> {
    pub elements: Seq<&'a TextElement>,
    pub y: int,
}

impl<'a> View for Line<'a> {
    type V = LineView<'a>;

    open spec fn view(&self) -> LineView<'a> {
        LineView { elements: self.elements@, y: self.y as int }
    }
}

impl<'a> Line<'a> {
    /// A line holds a run at least, and the sum of the font sizes of all of them.
    pub open spec fn wf(&self) -> bool {
        &&& self.elements@.len() > 0
        &&& self.font_total == font_sum(self.elements@)
    }
}

pub open spec fn line_views<'a>(lines: Seq<Line<'a>>) -> Seq<LineView<'a>> {
    Seq::new(lines.len(), |i: int| lines[i]@)
}

/// The sum of the font sizes of some runs.
pub open spec fn font_sum(elements: Seq<&TextElement>) -> int
    decreases elements.len(),
{
    if elements.len() == 0 {
        0
    } else {
        font_sum(elements.drop_last()) + elements.last().font_size
    }
}

/// The heights of some runs, negated: from the top of the page downwards they ascend.
pub open spec fn depths(elements: Seq<&TextElement>) -> Seq<int> {
    Seq::new(elements.len(), |i: int| -(elements[i].y_min as int))
}

/// Takes up one more run: it joins the last group where it stands about as high as the first run
/// of that group, and starts a group of its own otherwise.
pub open spec fn with_index(groups: Seq<Seq<int>>, depths: Seq<int>, x: int) -> Seq<Seq<int>> {
    if groups.len() > 0 && -ROW_TOLERANCE <= depths[groups.last()[0]] - depths[x] <= ROW_TOLERANCE {
        groups.drop_last().push(groups.last().push(x))
    } else {
        groups.push(seq![x])
    }
}

/// Takes up the runs in the given order.
pub open spec fn grouped(depths: Seq<int>, order: Seq<int>) -> Seq<Seq<int>>
    decreases order.len(),
{
    if order.len() == 0 {
        Seq::empty()
    } else {
        with_index(grouped(depths, order.drop_last()), depths, order.last())
    }
}

/// The indices of the runs of each line, from the top of the page downwards.
pub open spec fn line_groups(elements: Seq<&TextElement>) -> Seq<Seq<int>> {
    grouped(depths(elements), stable_order(depths(elements)))
}

/// The left edges of some runs.
pub open spec fn left_edges(elements: Seq<&TextElement>) -> Seq<int> {
    Seq::new(elements.len(), |i: int| elements[i].x_min as int)
}

/// The runs from left to right.
pub open spec fn left_to_right<'a>(elements: Seq<&'a TextElement>) -> Seq<&'a TextElement> {
    arranged(elements, stable_order(left_edges(elements)))
}

/// The lines of a page: from the top downwards each run joins the line above where it stands
/// about as high as the run that started it, and each line then reads from left to right.
pub open spec fn page_lines<'a>(elements: Seq<&'a TextElement>) -> Seq<LineView<'a>> {
    let groups = line_groups(elements);
    Seq::new(
        groups.len(),
        |k: int|
            LineView {
                elements: left_to_right(arranged(elements, groups[k])),
                y: elements[groups[k][0]].y_min as int,
            },
    )
}

/// Groups of indices, none empty, each index below `n`.
pub open spec fn groups_in_range(groups: Seq<Seq<int>>, n: nat) -> bool {
    &&& forall|k: int| 0 <= k < groups.len() ==> (#[trigger] groups[k]).len() > 0
    &&& forall|k: int, i: int|
        0 <= k < groups.len() && 0 <= i < groups[k].len() ==> 0 <= #[trigger] groups[k][i] < n
}

pub proof fn lemma_grouped_in_range(depths: Seq<int>, order: Seq<int>, n: nat)
    requires
        forall|i: int| 0 <= i < order.len() ==> 0 <= #[trigger] order[i] < n,
    ensures
        groups_in_range(grouped(depths, order), n),
    decreases order.len(),
{
    if order.len() > 0 {
        let front = grouped(depths, order.drop_last());
        lemma_grouped_in_range(depths, order.drop_last(), n);
        let all = grouped(depths, order);
        let x = order.last();
        assert(order[order.len() - 1] == x);
        assert forall|k: int| 0 <= k < all.len() implies (#[trigger] all[k]).len() > 0 by {
            if k < front.len() {
                assert(front[k].len() > 0);
            }
        }
        assert forall|k: int, i: int| 0 <= k < all.len() && 0 <= i < all[k].len() implies 0
            <= #[trigger] all[k][i] < n by {
            if k < front.len() && i < front[k].len() {
                assert(0 <= front[k][i] < n);
                assert(all[k][i] == front[k][i]);
            }
        }
    }
}

spec fn nested_values(groups: Seq<Vec<usize>>) -> Seq<Seq<int>> {
    Seq::new(groups.len(), |k: int| index_values(groups[k]@))
}

/// Groups the runs of a page by height.
fn group_by_height(elements: &[&TextElement]) -> (r: Vec<Vec<usize>>)
    ensures
        nested_values(r@) == line_groups(elements@),
        groups_in_range(nested_values(r@), elements@.len()),
{
    let ghost ds = depths(elements@);
    let mut keys: Vec<i128> = Vec::new();
    let mut k: usize = 0;
    while k < elements.len()
        invariant
            k <= elements@.len(),
            keys@.len() == k,
            forall|i: int| 0 <= i < k ==> keys@[i] == -((#[trigger] elements@[i]).y_min as int),
        decreases elements@.len() - k,
    {
        keys.push(-(elements[k].y_min as i128));
        k = k + 1;
    }
    assert(key_values(keys@) =~= ds);
    let order: Vec<usize> = order_by_keys(&keys);
    let ghost ord = index_values(order@);
    assert(ord.len() == order@.len());
    let mut groups: Vec<Vec<usize>> = Vec::new();
    let mut i: usize = 0;
    assert(ord.take(0) =~= Seq::<int>::empty());
    assert(nested_values(groups@) =~= Seq::<Seq<int>>::empty());
    while i < order.len()
        invariant
            i <= order@.len(),
            ord == index_values(order@),
            order@.len() == elements@.len(),
            keys@.len() == elements@.len(),
            ds == key_values(keys@),
            ds == depths(elements@),
            forall|j: int| 0 <= j < ord.len() ==> 0 <= #[trigger] ord[j] < elements@.len(),
            nested_values(groups@) == grouped(ds, ord.take(i as int)),
            groups_in_range(nested_values(groups@), elements@.len()),
        decreases order@.len() - i,
    {
        assert(ord[i as int] == order@[i as int]);
        let x: usize = order[i];
        let ghost before = nested_values(groups@);
        proof {
            assert(ord.take(i + 1).drop_last() =~= ord.take(i as int));
            assert(ord.take(i + 1).last() == x);
            lemma_grouped_in_range(ds, ord.take(i + 1), elements@.len());
        }
        let n: usize = groups.len();
        let mut joins: bool = false;
        if n > 0 {
            assert(before[n - 1].len() > 0);
            assert(before[n - 1] == index_values(groups@[n - 1]@));
            let first: usize = groups[n - 1][0];
            assert(before[n - 1][0] == first);
            assert(keys@[first as int] == ds[first as int] && keys@[x as int] == ds[x as int]);
            let d: i128 = keys[first] - keys[x];
            joins = -(ROW_TOLERANCE as i128) <= d && d <= ROW_TOLERANCE as i128;
        }
        if joins {
            match groups.pop() {
                Some(mut last) => {
                    let ghost line = index_values(last@);
                    last.push(x);
                    assert(index_values(last@) =~= line.push(x as int));
                    groups.push(last);
                    assert(nested_values(groups@) =~= before.drop_last().push(line.push(x as int)));
                },
                None => {},
            }
        } else {
            let mut line: Vec<usize> = Vec::new();
            line.push(x);
            assert(index_values(line@) =~= seq![x as int]);
            groups.push(line);
            assert(nested_values(groups@) =~= before.push(seq![x as int]));
        }
        i = i + 1;
    }
    assert(ord.take(i as int) =~= ord);
    groups
}

/// Puts the runs of a line in order, from left to right.
fn line_from<'a>(elements: &[&'a TextElement], group: &[usize]) -> (r: Vec<&'a TextElement>)
    requires
        forall|i: int| 0 <= i < group@.len() ==> #[trigger] group@[i] < elements@.len(),
    ensures
        r@ == left_to_right(arranged(elements@, index_values(group@))),
{
    let ghost runs = arranged(elements@, index_values(group@));
    let mut keys: Vec<i128> = Vec::new();
    let mut k: usize = 0;
    while k < group.len()
        invariant
            k <= group@.len(),
            keys@.len() == k,
            forall|i: int| 0 <= i < group@.len() ==> #[trigger] group@[i] < elements@.len(),
            forall|i: int| 0 <= i < k ==> keys@[i] == elements@[#[trigger] group@[i] as int].x_min,
        decreases group@.len() - k,
    {
        keys.push(elements[group[k]].x_min as i128);
        k = k + 1;
    }
    assert(key_values(keys@) =~= left_edges(runs));
    let order: Vec<usize> = order_by_keys(&keys);
    let ghost ord = index_values(order@);
    assert(ord.len() == order@.len());
    let mut out: Vec<&'a TextElement> = Vec::new();
    let mut i: usize = 0;
    while i < order.len()
        invariant
            i <= order@.len(),
            ord == index_values(order@),
            order@.len() == group@.len(),
            runs == arranged(elements@, index_values(group@)),
            forall|j: int| 0 <= j < ord.len() ==> 0 <= #[trigger] ord[j] < group@.len(),
            forall|j: int| 0 <= j < group@.len() ==> #[trigger] group@[j] < elements@.len(),
            out@ == arranged(runs, ord).take(i as int),
        decreases order@.len() - i,
    {
        assert(ord[i as int] == order@[i as int]);
        let e: &'a TextElement = elements[group[order[i]]];
        assert(e == arranged(runs, ord)[i as int]);
        out.push(e);
        assert(out@ =~= arranged(runs, ord).take(i + 1));
        i = i + 1;
    }
    assert(out@ =~= arranged(runs, ord));
    out
}

proof fn lemma_font_sum_bound(elements: Seq<&TextElement>)
    ensures
        i64::MIN * elements.len() <= font_sum(elements) <= i64::MAX * elements.len(),
    decreases elements.len(),
{
    if elements.len() > 0 {
        lemma_font_sum_bound(elements.drop_last());
        let n = elements.len() as int;
        assert(i64::MIN * n == i64::MIN * (n - 1) + i64::MIN) by (nonlinear_arith);
        assert(i64::MAX * n == i64::MAX * (n - 1) + i64::MAX) by (nonlinear_arith);
    }
}

fn total_font_size(elements: &[&TextElement]) -> (r: i128)
    ensures
        r == font_sum(elements@),
{
    let mut sum: i128 = 0;
    let mut i: usize = 0;
    assert(elements@.take(0) =~= Seq::<&TextElement>::empty());
    while i < elements.len()
        invariant
            i <= elements@.len(),
            sum == font_sum(elements@.take(i as int)),
        decreases elements@.len() - i,
    {
        proof {
            let next = elements@.take(i + 1);
            assert(next.drop_last() =~= elements@.take(i as int));
            lemma_font_sum_bound(next);
            let n = next.len() as int;
            assert(-0x8000_0000_0000_0000_0000_0000_0000_0000 <= i64::MIN * n && i64::MAX * n
                <= 0x7fff_ffff_ffff_ffff_ffff_ffff_ffff_ffff) by (nonlinear_arith)
                requires
                    0 <= n <= 0xffff_ffff_ffff_ffff,
            ;
        }
        sum = sum + elements[i].font_size as i128;
        i = i + 1;
    }
    assert(elements@.take(i as int) =~= elements@);
    sum
}

/// Groups the runs of a page into lines, from the top downwards, each from left to right.
pub fn group_into_lines<'a>(elements: &[&'a TextElement]) -> (r: Vec<Line<'a>>)
    ensures
        line_views(r@) == page_lines(elements@),
        forall|i: int| 0 <= i < r@.len() ==> (#[trigger] r@[i]).wf(),
{
    let groups: Vec<Vec<usize>> = group_by_height(elements);
    let ghost gs = nested_values(groups@);
    let mut lines: Vec<Line<'a>> = Vec::new();
    let mut k: usize = 0;
    while k < groups.len()
        invariant
            k <= groups@.len(),
            gs == nested_values(groups@),
            gs == line_groups(elements@),
            groups_in_range(gs, elements@.len()),
            lines@.len() == k,
            forall|i: int| 0 <= i < k ==> (#[trigger] lines@[i])@ == page_lines(elements@)[i],
            forall|i: int| 0 <= i < k ==> (#[trigger] lines@[i]).wf(),
        decreases groups@.len() - k,
    {
        let group: &Vec<usize> = &groups[k];
        proof {
            assert(gs[k as int] == index_values(group@));
            assert forall|i: int| 0 <= i < group@.len() implies #[trigger] group@[i]
                < elements@.len() by {
                assert(gs[k as int][i] == group@[i]);
            }
            assert(gs[k as int].len() > 0);
            assert(gs[k as int][0] == group@[0]);
        }
        let y: i64 = elements[group[0]].y_min;
        let line: Vec<&'a TextElement> = line_from(elements, group);
        proof {
            law_stable_order(left_edges(arranged(elements@, index_values(group@))));
        }
        let font_total: i128 = total_font_size(&line);
        lines.push(Line { elements: line, y, font_total });
        k = k + 1;
    }
    assert(line_views(lines@) =~= page_lines(elements@));
    lines
}

/// A font size in half points, rounded to the nearest, halves away from zero.
pub open spec fn half_points(size: int) -> int {
    if size >= 0 {
        (size + HALF_SIZE_STEP) / (SIZE_STEP as int)
    } else {
        -((-size + HALF_SIZE_STEP) / (SIZE_STEP as int))
    }
}

/// The font sizes of some runs, in half points.
pub open spec fn size_steps(elements: Seq<&TextElement>) -> Seq<int> {
    Seq::new(elements.len(), |i: int| half_points(elements[i].font_size as int))
}

/// How often `x` occurs in `s`.
pub open spec fn occurrences(s: Seq<int>, x: int) -> nat
    decreases s.len(),
{
    if s.len() == 0 {
        0
    } else {
        occurrences(s.drop_last(), x) + if s.last() == x {
            1nat
        } else {
            0
        }
    }
}

/// Whether the item at `k` is the commonest of `s`, and of equally common ones the first.
pub open spec fn is_commonest(s: Seq<int>, k: int) -> bool {
    &&& 0 <= k < s.len()
    &&& forall|j: int|
        0 <= j < s.len() ==> occurrences(s, #[trigger] s[j]) <= occurrences(s, s[k])
    &&& forall|j: int| 0 <= j < k ==> occurrences(s, #[trigger] s[j]) < occurrences(s, s[k])
}

/// A number of half points as a size, held at the ends of the range of sizes.
pub open spec fn size_of_steps(steps: int) -> int {
    let size = steps * SIZE_STEP;
    if size > i64::MAX {
        i64::MAX as int
    } else if size < i64::MIN {
        i64::MIN as int
    } else {
        size
    }
}

fn steps_of(size: i64) -> (r: i64)
    ensures
        r == half_points(size as int),
{
    let up: u128 = if size >= 0 {
        size as u128 + HALF_SIZE_STEP as u128
    } else {
        (-(size as i128) + HALF_SIZE_STEP as i128) as u128
    };
    let steps: u128 = up / (SIZE_STEP as u128);
    assert(steps <= 0x7fff_ffff_ffff_ffff) by (nonlinear_arith)
        requires
            steps == up / 500_000,
            up <= 0x8000_0000_0003_d090,
    ;
    if size >= 0 {
        steps as i64
    } else {
        -(steps as i64)
    }
}

proof fn lemma_occurrences_bound(s: Seq<int>, x: int)
    ensures
        occurrences(s, x) <= s.len(),
    decreases s.len(),
{
    if s.len() > 0 {
        lemma_occurrences_bound(s.drop_last(), x);
    }
}

/// How often each size occurs among the runs.
fn count_sizes(elements: &[&TextElement]) -> (r: HashMap<i64, usize>)
    ensures
        forall|i: int|
            0 <= i < elements@.len() ==> r@.contains_key(
                half_points((#[trigger] elements@[i]).font_size as int) as i64,
            ),
        forall|b: i64| #[trigger]
            r@.contains_key(b) ==> r@[b] == occurrences(size_steps(elements@), b as int),
{
    broadcast use vstd::std_specs::hash::group_hash_axioms;

    let ghost steps = size_steps(elements@);
    let mut counts: HashMap<i64, usize> = HashMap::new();
    let mut i: usize = 0;
    while i < elements.len()
        invariant
            i <= elements@.len(),
            steps == size_steps(elements@),
            forall|j: int|
                0 <= j < i ==> counts@.contains_key(
                    half_points((#[trigger] elements@[j]).font_size as int) as i64,
                ),
            forall|b: i64|
                counts@.contains_key(b) == (#[trigger] occurrences(steps.take(i as int), b as int)
                    > 0),
            forall|b: i64| #[trigger]
                counts@.contains_key(b) ==> counts@[b] == occurrences(
                    steps.take(i as int),
                    b as int,
                ),
        decreases elements@.len() - i,
    {
        broadcast use vstd::std_specs::hash::group_hash_axioms;

        let b: i64 = steps_of(elements[i].font_size);
        let ghost before = steps.take(i as int);
        let ghost after = steps.take(i + 1);
        proof {
            assert(after.drop_last() =~= before);
            assert(after.last() == b);
            lemma_occurrences_bound(before, b as int);
        }
        let seen: usize = match counts.get(&b) {
            Some(c) => *c,
            None => 0,
        };
        assert(occurrences(before, b as int) >= 0);
        counts.insert(b, seen + 1);
        assert forall|c: i64| counts@.contains_key(c) == (#[trigger] occurrences(after, c as int)
            > 0) by {
            assert(occurrences(before, c as int) >= 0);
        }
        i = i + 1;
    }
    assert(steps.take(i as int) =~= steps);
    counts
}

/// The size of the body text of a document: the commonest font size, in steps of half a point,
/// and of equally common ones the one that comes first. Without text it is
/// [`DEFAULT_BODY_SIZE`].
pub open spec fn body_font_size(elements: Seq<&TextElement>) -> int {
    let steps = size_steps(elements);
    if elements.len() == 0 {
        DEFAULT_BODY_SIZE as int
    } else {
        size_of_steps(steps[choose|k: int| is_commonest(steps, k)])
    }
}

/// The commonest font size of a document, in steps of half a point: the size of its body text.
///
/// Of sizes that occur equally often it is the one that comes first. Without text it is
/// [`DEFAULT_BODY_SIZE`].
pub fn estimate_body_font_size(all_elements: &[&TextElement]) -> (r: i64)
    ensures
        r == body_font_size(all_elements@),
        all_elements@.len() > 0 ==> exists|k: int| #[trigger]
            is_commonest(size_steps(all_elements@), k) && r == size_of_steps(
                size_steps(all_elements@)[k],
            ),
{
    broadcast use vstd::std_specs::hash::group_hash_axioms;

    let ghost steps = size_steps(all_elements@);
    if all_elements.len() == 0 {
        return DEFAULT_BODY_SIZE;
    }
    let counts: HashMap<i64, usize> = count_sizes(all_elements);
    let mut best: i64 = 0;
    let mut most: usize = 0;
    let mut at: usize = 0;
    let mut i: usize = 0;
    while i < all_elements.len()
        invariant
            i <= all_elements@.len(),
            steps == size_steps(all_elements@),
            forall|j: int|
                0 <= j < all_elements@.len() ==> counts@.contains_key(
                    half_points((#[trigger] all_elements@[j]).font_size as int) as i64,
                ),
            forall|b: i64| #[trigger]
                counts@.contains_key(b) ==> counts@[b] == occurrences(steps, b as int),
            i == 0 ==> most == 0,
            i > 0 ==> at < i && best == steps[at as int] && most == occurrences(steps, steps[at as int]),
            forall|j: int| 0 <= j < i ==> occurrences(steps, #[trigger] steps[j]) <= most,
            i > 0 ==> forall|j: int| 0 <= j < at ==> occurrences(steps, #[trigger] steps[j]) < most,
        decreases all_elements@.len() - i,
    {
        broadcast use vstd::std_specs::hash::group_hash_axioms;

        let b: i64 = steps_of(all_elements[i].font_size);
        assert(b == steps[i as int]);
        assert(counts@.contains_key(half_points(all_elements@[i as int].font_size as int) as i64));
        let seen: usize = match counts.get(&b) {
            Some(c) => *c,
            None => 0,
        };
        if i == 0 || seen > most {
            best = b;
            most = seen;
            at = i;
        }
        i = i + 1;
    }
    assert(is_commonest(steps, at as int));
    proof {
        law_commonest_is_unique(steps, at as int, choose|k: int| is_commonest(steps, k));
    }
    let size: i128 = best as i128 * SIZE_STEP as i128;
    if size > i64::MAX as i128 {
        i64::MAX
    } else if size < i64::MIN as i128 {
        i64::MIN
    } else {
        size as i64
    }
}

/// No more than one item is the commonest and comes first among equally common ones.
pub proof fn law_commonest_is_unique(s: Seq<int>, a: int, b: int)
    requires
        is_commonest(s, a),
        is_commonest(s, b),
    ensures
        a == b,
{
    if a < b {
        assert(occurrences(s, s[a]) < occurrences(s, s[b]));
    }
    if b < a {
        assert(occurrences(s, s[b]) < occurrences(s, s[a]));
    }
}

/// The font sizes of the runs that are larger than the body text, in order.
pub open spec fn larger_sizes(elements: Seq<&TextElement>, body_size: int) -> Seq<i64>
    decreases elements.len(),
{
    if elements.len() == 0 {
        Seq::empty()
    } else {
        let front = larger_sizes(elements.drop_last(), body_size);
        if elements.last().font_size > body_size {
            front.push(elements.last().font_size)
        } else {
            front
        }
    }
}

/// The sizes from the largest downwards.
pub open spec fn descending(sizes: Seq<i64>) -> Seq<i64> {
    arranged(sizes, stable_order(Seq::new(sizes.len(), |i: int| -(sizes[i] as int))))
}

/// The sizes without each that comes close to the last one kept before it.
pub open spec fn distinct_sizes(sizes: Seq<i64>) -> Seq<i64>
    decreases sizes.len(),
{
    if sizes.len() == 0 {
        Seq::empty()
    } else {
        let front = distinct_sizes(sizes.drop_last());
        if front.len() > 0 && -SIZE_TOLERANCE < sizes.last() - front.last() < SIZE_TOLERANCE {
            front
        } else {
            front.push(sizes.last())
        }
    }
}

/// The distinct font sizes of a document that are larger than the body text, from the largest
/// downwards.
pub fn rank_larger_sizes(all_elements: &[&TextElement], body_size: i64) -> (r: Vec<i64>)
    ensures
        r@ == distinct_sizes(descending(larger_sizes(all_elements@, body_size as int))),
{
    let mut sizes: Vec<i64> = Vec::new();
    let mut keys: Vec<i128> = Vec::new();
    let mut i: usize = 0;
    assert(all_elements@.take(0) =~= Seq::<&TextElement>::empty());
    while i < all_elements.len()
        invariant
            i <= all_elements@.len(),
            sizes@ == larger_sizes(all_elements@.take(i as int), body_size as int),
            keys@.len() == sizes@.len(),
            forall|j: int| 0 <= j < keys@.len() ==> #[trigger] keys@[j] == -(sizes@[j] as int),
        decreases all_elements@.len() - i,
    {
        assert(all_elements@.take(i + 1).drop_last() =~= all_elements@.take(i as int));
        let size: i64 = all_elements[i].font_size;
        if size > body_size {
            sizes.push(size);
            keys.push(-(size as i128));
        }
        i = i + 1;
    }
    assert(all_elements@.take(i as int) =~= all_elements@);
    let ghost ks = Seq::new(sizes@.len(), |i: int| -(sizes@[i] as int));
    assert(key_values(keys@) =~= ks);
    let order: Vec<usize> = order_by_keys(&keys);
    let ghost ord = index_values(order@);
    assert(ord.len() == order@.len());
    let ghost sorted = descending(sizes@);
    let mut out: Vec<i64> = Vec::new();
    let mut k: usize = 0;
    assert(sorted.take(0) =~= Seq::<i64>::empty());
    while k < order.len()
        invariant
            k <= order@.len(),
            ord == index_values(order@),
            ord == stable_order(ks),
            ks == Seq::new(sizes@.len(), |i: int| -(sizes@[i] as int)),
            order@.len() == sizes@.len(),
            forall|j: int| 0 <= j < ord.len() ==> 0 <= #[trigger] ord[j] < sizes@.len(),
            sorted == descending(sizes@),
            out@ == distinct_sizes(sorted.take(k as int)),
        decreases order@.len() - k,
    {
        assert(ord[k as int] == order@[k as int]);
        assert(sorted.take(k + 1).drop_last() =~= sorted.take(k as int));
        let size: i64 = sizes[order[k]];
        assert(sorted.take(k + 1).last() == size);
        let n: usize = out.len();
        if n > 0 {
            let d: i128 = size as i128 - out[n - 1] as i128;
            if !(-(SIZE_TOLERANCE as i128) < d && d < SIZE_TOLERANCE as i128) {
                out.push(size);
            }
        } else {
            out.push(size);
        }
        k = k + 1;
    }
    assert(sorted.take(k as int) =~= sorted);
    out
}

/// Whether `size` comes close to the average `total / count`.
pub open spec fn is_near(size: int, total: int, count: int) -> bool {
    -SIZE_TOLERANCE * count < size * count - total < SIZE_TOLERANCE * count
}

/// The place of the first size that comes close to the average `total / count`; the number of
/// sizes where none does.
pub open spec fn near_rank(sizes: Seq<i64>, total: int, count: int) -> nat
    decreases sizes.len(),
{
    if sizes.len() == 0 || is_near(sizes[0] as int, total, count) {
        0
    } else {
        1 + near_rank(sizes.skip(1), total, count)
    }
}

/// The depth of a heading whose runs have `total / count` as their average font size: the place
/// of that size among the heading sizes, the last of them where it comes close to none, and at
/// most [`MAX_HEADING_DEPTH`]. No heading where the average is not large enough.
pub open spec fn heading_depth_of(total: int, count: int, body_size: int, sizes: Seq<i64>) -> Option<int> {
    if 20 * total <= 23 * body_size * count {
        None
    } else {
        let found = near_rank(sizes, total, count) as int;
        let rank = if found < sizes.len() {
            found
        } else if sizes.len() > 0 {
            sizes.len() - 1
        } else {
            0
        };
        Some(
            if rank + 1 > MAX_HEADING_DEPTH {
                MAX_HEADING_DEPTH as int
            } else {
                rank + 1
            },
        )
    }
}

/// The floor of `x / n` and what is left over.
fn divide(x: i128, n: usize) -> (r: (i128, i128))
    requires
        n > 0,
        i64::MIN * n <= x <= i64::MAX * n,
    ensures
        x == r.0 * n + r.1,
        0 <= r.1 < n,
        i64::MIN <= r.0 <= i64::MAX,
{
    let m: u128 = n as u128;
    let q: i128;
    if x >= 0 {
        let up: u128 = x as u128;
        proof {
            vstd::arithmetic::div_mod::lemma_fundamental_div_mod(up as int, m as int);
            assert(up / m <= up) by (nonlinear_arith)
                requires
                    m >= 1,
            ;
        }
        q = (up / m) as i128;
        assert(x == q * n + up % m) by (nonlinear_arith)
            requires
                x == m * q + up % m,
                m == n,
        ;
    } else {
        let up: u128 = (-(x + 1)) as u128;
        proof {
            vstd::arithmetic::div_mod::lemma_fundamental_div_mod(up as int, m as int);
            assert(up / m <= up) by (nonlinear_arith)
                requires
                    m >= 1,
            ;
        }
        let down: i128 = (up / m) as i128;
        q = -1 - down;
        assert(x == q * n + (m - 1 - up % m)) by (nonlinear_arith)
            requires
                up == m * down + up % m,
                up == -(x + 1),
                q == -1 - down,
                m == n,
        ;
    }
    let ghost rest: int = x - q * n;
    assert(0 <= rest < n);
    assert(i64::MIN <= q <= i64::MAX) by (nonlinear_arith)
        requires
            x == q * n + rest,
            0 <= rest < n,
            i64::MIN * n <= x <= i64::MAX * n,
            n > 0,
    ;
    assert(-0x8000_0000_0000_0000 * 0xffff_ffff_ffff_ffff <= q * n <= 0x7fff_ffff_ffff_ffff
        * 0xffff_ffff_ffff_ffff) by (nonlinear_arith)
        requires
            -0x8000_0000_0000_0000 <= q <= 0x7fff_ffff_ffff_ffff,
            0 < n <= 0xffff_ffff_ffff_ffff,
    ;
    (q, x - q * (n as i128))
}

/// The depth of the heading that a line with the average font size `font_total / count` is, if
/// it is one.
pub fn heading_depth(
    font_total: i128,
    count: usize,
    body_size: i64,
    distinct_larger_sizes: &[i64],
) -> (r: Option<usize>)
    requires
        count > 0,
        i64::MIN * count <= font_total <= i64::MAX * count,
    ensures
        r is Some == heading_depth_of(
            font_total as int,
            count as int,
            body_size as int,
            distinct_larger_sizes@,
        ) is Some,
        r matches Some(d) ==> heading_depth_of(
            font_total as int,
            count as int,
            body_size as int,
            distinct_larger_sizes@,
        ) == Some(d as int),
{
    let (q, rest): (i128, i128) = divide(font_total, count);
    let k: i128 = 23 * (body_size as i128) - 20 * q;
    assert((20 * font_total <= 23 * body_size * count) == (20 * rest <= k * count)) by (nonlinear_arith)
        requires
            font_total == q * count + rest,
            k == 23 * body_size - 20 * q,
    ;
    assert(k >= 20 ==> 20 * rest <= k * count) by (nonlinear_arith)
        requires
            0 <= rest < count,
    ;
    assert(k < 0 ==> 20 * rest > k * count) by (nonlinear_arith)
        requires
            0 <= rest < count,
    ;
    assert(0 <= k < 20 ==> 0 <= k * count <= 20 * 0xffff_ffff_ffff_ffff) by (nonlinear_arith)
        requires
            0 <= count <= 0xffff_ffff_ffff_ffff,
    ;
    if k >= 20 || (k >= 0 && 20 * rest <= k * (count as i128)) {
        return None;
    }
    let sizes: &[i64] = distinct_larger_sizes;
    let mut i: usize = 0;
    assert(sizes@.skip(0) =~= sizes@);
    let mut found: bool = false;
    while i < sizes.len() && !found
        invariant
            i <= sizes@.len(),
            count > 0,
            font_total == q * count + rest,
            0 <= rest < count,
            i64::MIN <= q <= i64::MAX,
            near_rank(sizes@, font_total as int, count as int) == i + near_rank(
                sizes@.skip(i as int),
                font_total as int,
                count as int,
            ),
            found ==> i < sizes@.len() && is_near(
                sizes@[i as int] as int,
                font_total as int,
                count as int,
            ),
        decreases
            sizes@.len() - i + if found {
                0int
            } else {
                1int
            },
    {
        let d: i128 = sizes[i] as i128 - q;
        let ghost size = sizes@[i as int] as int;
        let ghost tol = SIZE_TOLERANCE as int;
        proof {
            assert(size * count - font_total == d * count - rest) by (nonlinear_arith)
                requires
                    font_total == q * count + rest,
                    d == size - q,
            ;
            assert((d * count - rest < tol * count) == (d - tol < 0 || (d - tol == 0 && rest > 0)))
                by (nonlinear_arith)
                requires
                    0 <= rest < count,
            ;
            assert((-tol * count < d * count - rest) == (d + tol >= 1)) by (nonlinear_arith)
                requires
                    0 <= rest < count,
            ;
            assert(sizes@.skip(i as int)[0] == size);
            assert(sizes@.skip(i as int).skip(1) =~= sizes@.skip(i + 1));
        }
        let t: i128 = SIZE_TOLERANCE as i128;
        if (d < t || (d == t && rest > 0)) && d + t >= 1 {
            found = true;
        } else {
            i = i + 1;
        }
    }
    proof {
        if found {
            assert(sizes@.skip(i as int)[0] == sizes@[i as int]);
        }
    }
    let rank: usize = if found {
        i
    } else if sizes.len() > 0 {
        sizes.len() - 1
    } else {
        0
    };
    if rank >= MAX_HEADING_DEPTH {
        Some(MAX_HEADING_DEPTH)
    } else {
        Some(rank + 1)
    }
}

/// `s`, `n` times over.
pub open spec fn repeated(s: Seq<char>, n: nat) -> Seq<char>
    decreases n,
{
    if n == 0 {
        Seq::empty()
    } else {
        repeated(s, (n - 1) as nat) + s
    }
}

/// The texts of some runs, each without the white space at either end.
pub open spec fn cells(elements: Seq<&TextElement>) -> Seq<Seq<char>> {
    Seq::new(elements.len(), |i: int| trimmed(elements[i].text@))
}

/// One row of a Markdown table.
pub open spec fn table_row(line: LineView) -> Seq<char> {
    seq!['|', ' '] + joined(cells(line.elements), seq![' ', '|', ' ']) + seq![' ', '|', '\n']
}

/// The line below the first row of a Markdown table with `n` columns.
pub open spec fn table_separator(n: nat) -> Seq<char> {
    seq!['|'] + repeated(seq![' ', '-', '-', '-', ' ', '|'], n) + seq!['\n']
}

/// The rows of a table, with the separator below the first.
pub open spec fn table_rows(lines: Seq<LineView>) -> Seq<char>
    decreases lines.len(),
{
    if lines.len() == 0 {
        Seq::empty()
    } else {
        table_rows(lines.drop_last()) + table_row(lines.last()) + if lines.len() == 1 {
            table_separator(lines.last().elements.len())
        } else {
            Seq::empty()
        }
    }
}

/// A table, with a blank line before and after it.
pub open spec fn table_text(lines: Seq<LineView>) -> Seq<char> {
    seq!['\n'] + table_rows(lines) + seq!['\n']
}

/// How many lines from the first on have `width` runs each.
pub open spec fn same_width(lines: Seq<LineView>, width: nat) -> nat
    decreases lines.len(),
{
    if lines.len() == 0 || lines[0].elements.len() != width {
        0
    } else {
        1 + same_width(lines.skip(1), width)
    }
}

pub proof fn lemma_same_width_bound(lines: Seq<LineView>, width: nat)
    ensures
        same_width(lines, width) <= lines.len(),
    decreases lines.len(),
{
    if lines.len() > 0 && lines[0].elements.len() == width {
        lemma_same_width_bound(lines.skip(1), width);
    }
}

/// The text of one line that belongs to no table.
pub open spec fn plain_text(line: LineView) -> Seq<char> {
    trimmed(joined(cells(line.elements), seq![' ']))
}

/// What sets a line of a paragraph off from what stands before it: a line feed behind a gap of
/// more than 1.6 times the body size, and otherwise a space within a line.
pub open spec fn line_break(out: Seq<char>, prev_y: Option<int>, y: int, body_size: int) -> Seq<char> {
    match prev_y {
        None => Seq::empty(),
        Some(py) => if 5 * (py - y) > 8 * body_size {
            seq!['\n']
        } else if out.len() > 0 && out.last() != '\n' {
            seq![' ']
        } else {
            Seq::empty()
        },
    }
}

/// What one line that belongs to no table adds to `out`.
pub open spec fn line_markdown(
    out: Seq<char>,
    line: LineView,
    prev_y: Option<int>,
    body_size: int,
    sizes: Seq<i64>,
) -> Seq<char> {
    let text = plain_text(line);
    if text.len() == 0 {
        Seq::empty()
    } else {
        match heading_depth_of(
            font_sum(line.elements),
            line.elements.len() as int,
            body_size,
            sizes,
        ) {
            Some(depth) => seq!['\n'] + repeated(seq!['#'], depth as nat) + seq![' '] + text
                + seq!['\n'],
            None => line_break(out, prev_y, line.y, body_size) + text,
        }
    }
}

/// The Markdown of the lines, behind `out`: two lines or more with the same number of runs, two
/// at least, make a table; every other line is a heading or belongs to a paragraph.
pub open spec fn lines_markdown(
    out: Seq<char>,
    lines: Seq<LineView>,
    prev_y: Option<int>,
    body_size: int,
    sizes: Seq<i64>,
) -> Seq<char>
    decreases lines.len(),
{
    if lines.len() == 0 {
        out
    } else {
        let width = lines[0].elements.len();
        let run = same_width(lines, width) as int;
        if width >= 2 && run >= 2 {
            proof {
                lemma_same_width_bound(lines, width);
            }
            lines_markdown(
                out + table_text(lines.take(run)),
                lines.skip(run),
                Some(lines[run - 1].y),
                body_size,
                sizes,
            )
        } else {
            lines_markdown(
                out + line_markdown(out, lines[0], prev_y, body_size, sizes),
                lines.skip(1),
                Some(lines[0].y),
                body_size,
                sizes,
            )
        }
    }
}

/// The Markdown of the runs of one column.
pub open spec fn column_markdown(elements: Seq<&TextElement>, body_size: int, sizes: Seq<i64>) -> Seq<char> {
    trimmed(lines_markdown(Seq::empty(), page_lines(elements), None, body_size, sizes))
}

fn append_repeated(out: &mut Vec<char>, s: &[char], n: usize)
    ensures
        final(out)@ == old(out)@ + repeated(s@, n as nat),
{
    let ghost start = out@;
    let mut i: usize = 0;
    assert(start + repeated(s@, 0) =~= start);
    while i < n
        invariant
            i <= n,
            out@ == start + repeated(s@, i as nat),
        decreases n - i,
    {
        append_chars(out, s);
        i = i + 1;
        assert(start + (repeated(s@, (i - 1) as nat) + s@) =~= start + repeated(s@, (i - 1) as nat) + s@);
    }
}

fn trimmed_cells(elements: &[&TextElement]) -> (r: Vec<Vec<char>>)
    ensures
        views(r@) == cells(elements@),
{
    let mut out: Vec<Vec<char>> = Vec::new();
    let mut i: usize = 0;
    while i < elements.len()
        invariant
            i <= elements@.len(),
            out@.len() == i,
            forall|j: int| 0 <= j < i ==> (#[trigger] out@[j])@ == trimmed(elements@[j].text@),
        decreases elements@.len() - i,
    {
        let cs: Vec<char> = chars_of(elements[i].text.as_str());
        out.push(trim(&cs));
        i = i + 1;
    }
    assert(views(out@) =~= cells(elements@));
    out
}

fn append_table(out: &mut Vec<char>, lines: &[Line], start: usize, end: usize)
    requires
        start < end <= lines@.len(),
    ensures
        final(out)@ == old(out)@ + table_text(line_views(lines@.subrange(start as int, end as int))),
{
    let ghost before = out@;
    let ghost block = line_views(lines@.subrange(start as int, end as int));
    out.push('\n');
    let ghost head = before.push('\n');
    let mut k: usize = start;
    assert(block.take(0) =~= Seq::<LineView>::empty());
    assert(head + table_rows(block.take(0)) =~= head);
    while k < end
        invariant
            start <= k <= end,
            end <= lines@.len(),
            block == line_views(lines@.subrange(start as int, end as int)),
            out@ == head + table_rows(block.take(k - start)),
        decreases end - k,
    {
        let ghost done = table_rows(block.take(k - start));
        let parts: Vec<Vec<char>> = trimmed_cells(&lines[k].elements);
        let sep: [char; 3] = [' ', '|', ' '];
        let row: Vec<char> = join(&parts, &sep);
        proof {
            assert(sep@ =~= seq![' ', '|', ' ']);
            assert(block.take(k - start + 1).drop_last() =~= block.take(k - start));
            assert(block.take(k - start + 1).last() == lines@[k as int]@);
        }
        out.push('|');
        out.push(' ');
        append_chars(out, &row);
        out.push(' ');
        out.push('|');
        out.push('\n');
        assert(out@ =~= head + done + table_row(lines@[k as int]@));
        if k == start {
            out.push('|');
            let rule: [char; 6] = [' ', '-', '-', '-', ' ', '|'];
            assert(rule@ =~= seq![' ', '-', '-', '-', ' ', '|']);
            append_repeated(out, &rule, lines[k].elements.len());
            out.push('\n');
            assert(out@ =~= head + done + table_row(lines@[k as int]@) + table_separator(
                lines@[k as int]@.elements.len(),
            ));
            assert(out@ =~= head + (done + table_row(lines@[k as int]@) + table_separator(
                lines@[k as int]@.elements.len(),
            )));
        } else {
            assert(out@ =~= head + (done + table_row(lines@[k as int]@) + Seq::<char>::empty()));
        }
        k = k + 1;
    }
    assert(block.take(k - start) =~= block);
    out.push('\n');
    assert(out@ =~= before + table_text(block));
}

fn append_line(
    out: &mut Vec<char>,
    line: &Line,
    prev_y: Option<i64>,
    body_size: i64,
    larger_sizes: &[i64],
)
    requires
        line.wf(),
    ensures
        final(out)@ == old(out)@ + line_markdown(
            old(out)@,
            line@,
            match prev_y {
                Some(y) => Some(y as int),
                None => None,
            },
            body_size as int,
            larger_sizes@,
        ),
{
    let ghost before = out@;
    let parts: Vec<Vec<char>> = trimmed_cells(&line.elements);
    let sep: [char; 1] = [' '];
    assert(sep@ =~= seq![' ']);
    let whole: Vec<char> = join(&parts, &sep);
    let text: Vec<char> = trim(&whole);
    if text.len() == 0 {
        assert(out@ =~= before + Seq::<char>::empty());
        return;
    }
    proof {
        lemma_font_sum_bound(line.elements@);
    }
    match heading_depth(line.font_total, line.elements.len(), body_size, larger_sizes) {
        Some(depth) => {
            out.push('\n');
            let mark: [char; 1] = ['#'];
            assert(mark@ =~= seq!['#']);
            append_repeated(out, &mark, depth);
            out.push(' ');
            append_chars(out, &text);
            out.push('\n');
            assert(out@ =~= before + (seq!['\n'] + repeated(seq!['#'], depth as nat) + seq![' ']
                + text@ + seq!['\n']));
        },
        None => {
            if let Some(py) = prev_y {
                let gap: i128 = py as i128 - line.y as i128;
                if 5 * gap > 8 * (body_size as i128) {
                    out.push('\n');
                } else if out.len() > 0 && out[out.len() - 1] != '\n' {
                    out.push(' ');
                }
            }
            let ghost broken = out@;
            append_chars(out, &text);
            assert(out@ =~= before + (broken.skip(before.len() as int) + text@));
            assert(broken.skip(before.len() as int) =~= line_break(
                before,
                match prev_y {
                    Some(y) => Some(y as int),
                    None => None,
                },
                line.y as int,
                body_size as int,
            ));
        },
    }
}

/// Renders the runs of one column.
pub fn render_column_markdown(
    elements: &[&TextElement],
    body_font_size: i64,
    larger_sizes: &[i64],
) -> (r: Vec<char>)
    ensures
        r@ == column_markdown(elements@, body_font_size as int, larger_sizes@),
{
    let lines: Vec<Line> = group_into_lines(elements);
    let ghost all = line_views(lines@);
    let ghost whole = lines_markdown(
        Seq::empty(),
        all,
        None,
        body_font_size as int,
        larger_sizes@,
    );
    let mut out: Vec<char> = Vec::new();
    let mut prev_y: Option<i64> = None;
    let mut i: usize = 0;
    assert(all.skip(0) =~= all);
    while i < lines.len()
        invariant
            i <= lines@.len(),
            all == line_views(lines@),
            forall|j: int| 0 <= j < lines@.len() ==> (#[trigger] lines@[j]).wf(),
            lines_markdown(
                out@,
                all.skip(i as int),
                match prev_y {
                    Some(y) => Some(y as int),
                    None => None,
                },
                body_font_size as int,
                larger_sizes@,
            ) == whole,
        decreases lines@.len() - i,
    {
        let ghost rest = all.skip(i as int);
        let width: usize = lines[i].elements.len();
        assert(rest[0] == lines@[i as int]@);
        let mut end: usize = i;
        while end < lines.len() && lines[end].elements.len() == width
            invariant
                i <= end <= lines@.len(),
                all == line_views(lines@),
                rest == all.skip(i as int),
                same_width(rest, width as nat) == end - i + same_width(
                    all.skip(end as int),
                    width as nat,
                ),
            decreases lines@.len() - end,
        {
            assert(all.skip(end as int)[0] == lines@[end as int]@);
            assert(all.skip(end as int).skip(1) =~= all.skip(end + 1));
            end = end + 1;
        }
        proof {
            if end < lines@.len() {
                assert(all.skip(end as int)[0] == lines@[end as int]@);
            }
            assert(same_width(rest, width as nat) == end - i);
        }
        if width >= 2 && end - i >= 2 {
            append_table(&mut out, &lines, i, end);
            proof {
                assert(line_views(lines@.subrange(i as int, end as int)) =~= rest.take(end - i));
                assert(rest.skip(end - i) =~= all.skip(end as int));
                assert(rest[end - i - 1] == lines@[end - 1]@);
            }
            prev_y = Some(lines[end - 1].y);
            i = end;
        } else {
            append_line(&mut out, &lines[i], prev_y, body_font_size, larger_sizes);
            assert(rest.skip(1) =~= all.skip(i + 1));
            prev_y = Some(lines[i].y);
            i = i + 1;
        }
    }
    trim(&out)
}

/// The Markdown of each column that has any.
pub open spec fn columns_markdown(
    columns: Seq<Seq<&TextElement>>,
    body_size: int,
    sizes: Seq<i64>,
) -> Seq<Seq<char>>
    decreases columns.len(),
{
    if columns.len() == 0 {
        Seq::empty()
    } else {
        let front = columns_markdown(columns.drop_last(), body_size, sizes);
        let last = column_markdown(columns.last(), body_size, sizes);
        if last.len() > 0 {
            front.push(last)
        } else {
            front
        }
    }
}

/// The Markdown of a page: its columns one after another, from left to right.
pub open spec fn page_markdown(elements: Seq<&TextElement>, body_size: int, sizes: Seq<i64>) -> Seq<char> {
    joined(columns_markdown(page_columns(elements), body_size, sizes), seq!['\n', '\n'])
}

/// Renders the runs of a page, each of its columns on its own.
pub fn render_page_markdown(
    elements: &[&TextElement],
    body_font_size: i64,
    larger_sizes: &[i64],
) -> (r: String)
    ensures
        r@ == page_markdown(elements@, body_font_size as int, larger_sizes@),
{
    let columns: Vec<Vec<&TextElement>> = partition_into_columns(elements);
    let ghost all = column_views(columns@);
    let mut parts: Vec<Vec<char>> = Vec::new();
    let mut i: usize = 0;
    assert(all.take(0) =~= Seq::<Seq<&TextElement>>::empty());
    assert(views(parts@) =~= Seq::<Seq<char>>::empty());
    while i < columns.len()
        invariant
            i <= columns@.len(),
            all == column_views(columns@),
            views(parts@) == columns_markdown(
                all.take(i as int),
                body_font_size as int,
                larger_sizes@,
            ),
        decreases columns@.len() - i,
    {
        assert(all.take(i + 1).drop_last() =~= all.take(i as int));
        assert(all.take(i + 1).last() == columns@[i as int]@);
        let md: Vec<char> = render_column_markdown(&columns[i], body_font_size, larger_sizes);
        if md.len() > 0 {
            let ghost before = views(parts@);
            let ghost text = md@;
            parts.push(md);
            assert(views(parts@) =~= before.push(text));
        }
        i = i + 1;
    }
    assert(all.take(i as int) =~= all);
    let sep: [char; 2] = ['\n', '\n'];
    assert(sep@ =~= seq!['\n', '\n']);
    let whole: Vec<char> = join(&parts, &sep);
    string_of(&whole)
}

proof fn lemma_grouped_concatenated(depths: Seq<int>, order: Seq<int>)
    ensures
        concatenated(grouped(depths, order)) == order,
    decreases order.len(),
{
    if order.len() > 0 {
        let front = grouped(depths, order.drop_last());
        let x = order.last();
        lemma_grouped_concatenated(depths, order.drop_last());
        let all = grouped(depths, order);
        if all.len() == front.len() + 1 {
            assert(all.drop_last() =~= front);
            assert(concatenated(front) + seq![x] =~= order);
        } else {
            assert(all.drop_last() =~= front.drop_last());
            assert(all.last() == front.last().push(x));
            assert(concatenated(front.drop_last()) + front.last().push(x) =~= concatenated(front).push(x));
            assert(concatenated(front).push(x) =~= order);
        }
    } else {
        assert(concatenated(grouped(depths, order)) =~= order);
    }
}

/// The runs of each line.
pub open spec fn runs_of_lines<'a>(lines: Seq<LineView<'a>>) -> Seq<Seq<&'a TextElement>> {
    Seq::new(lines.len(), |i: int| lines[i].elements)
}

proof fn lemma_lines_keep_runs(elements: Seq<&TextElement>, k: int)
    requires
        0 <= k <= page_lines(elements).len(),
    ensures
        concatenated(runs_of_lines(page_lines(elements).take(k))).to_multiset() == arranged(
            elements,
            concatenated(line_groups(elements).take(k)),
        ).to_multiset(),
    decreases k,
{
    let lines = page_lines(elements);
    let groups = line_groups(elements);
    if k == 0 {
        assert(concatenated(runs_of_lines(lines.take(0))) =~= arranged(
            elements,
            concatenated(groups.take(0)),
        ));
    } else {
        lemma_lines_keep_runs(elements, k - 1);
        let before = runs_of_lines(lines.take(k - 1));
        let after = runs_of_lines(lines.take(k));
        let run = arranged(elements, groups[k - 1]);
        assert(after.drop_last() =~= before);
        assert(after.last() == left_to_right(run));
        assert(groups.take(k).drop_last() =~= groups.take(k - 1));
        law_arranging_keeps_items(run, left_edges(run));
        let indices = concatenated(groups.take(k - 1));
        assert(arranged(elements, indices + groups[k - 1]) =~= arranged(elements, indices) + run);
        vstd::seq_lib::lemma_multiset_commutative(concatenated(before), left_to_right(run));
        vstd::seq_lib::lemma_multiset_commutative(arranged(elements, indices), run);
    }
}

/// The lines of a page hold each of its runs once.
pub proof fn law_lines_keep_runs(elements: Seq<&TextElement>)
    ensures
        concatenated(runs_of_lines(page_lines(elements))).to_multiset() == elements.to_multiset(),
{
    let lines = page_lines(elements);
    lemma_lines_keep_runs(elements, lines.len() as int);
    assert(lines.take(lines.len() as int) =~= lines);
    let groups = line_groups(elements);
    assert(groups.take(groups.len() as int) =~= groups);
    lemma_grouped_concatenated(depths(elements), stable_order(depths(elements)));
    law_arranging_keeps_items(elements, depths(elements));
}

/// How many characters of a run have the property `p`.
pub open spec fn run_weight<'a>(p: spec_fn(char) -> bool) -> spec_fn(&'a TextElement) -> nat {
    |e: &'a TextElement| count_where(e.text@, p)
}

/// Whether neither white space nor a character that the Markdown adds has the property `p`.
pub open spec fn is_content(p: spec_fn(char) -> bool) -> bool {
    &&& forall|c: char| is_space(c) ==> !#[trigger] p(c)
    &&& !p('|')
    &&& !p('-')
    &&& !p('#')
}

pub proof fn lemma_count_joined(parts: Seq<Seq<char>>, sep: Seq<char>, p: spec_fn(char) -> bool)
    requires
        count_where(sep, p) == 0,
    ensures
        count_where(joined(parts, sep), p) == total(parts, |part: Seq<char>| count_where(part, p)),
    decreases parts.len(),
{
    let f = |part: Seq<char>| count_where(part, p);
    if parts.len() == 1 {
        assert(parts.drop_last() =~= Seq::<Seq<char>>::empty());
        assert(total(parts.drop_last(), f) == 0);
        assert(parts.last() == parts[0]);
    } else if parts.len() > 1 {
        let front = joined(parts.drop_last(), sep);
        lemma_count_joined(parts.drop_last(), sep, p);
        lemma_count_add(front, sep, p);
        lemma_count_add(front + sep, parts.last(), p);
    }
}

proof fn lemma_count_cells(elements: Seq<&TextElement>, p: spec_fn(char) -> bool)
    requires
        is_content(p),
    ensures
        total(cells(elements), |part: Seq<char>| count_where(part, p)) == total(
            elements,
            run_weight(p),
        ),
    decreases elements.len(),
{
    if elements.len() > 0 {
        lemma_count_cells(elements.drop_last(), p);
        assert(cells(elements).drop_last() =~= cells(elements.drop_last()));
        lemma_count_trimmed(elements.last().text@, p);
    }
}

proof fn lemma_count_repeated(s: Seq<char>, n: nat, p: spec_fn(char) -> bool)
    requires
        count_where(s, p) == 0,
    ensures
        count_where(repeated(s, n), p) == 0,
    decreases n,
{
    if n > 0 {
        lemma_count_repeated(s, (n - 1) as nat, p);
        lemma_count_add(repeated(s, (n - 1) as nat), s, p);
    }
}

proof fn lemma_count_row(line: LineView, p: spec_fn(char) -> bool)
    requires
        is_content(p),
    ensures
        count_where(table_row(line), p) == total(line.elements, run_weight(p)),
        count_where(table_separator(line.elements.len()), p) == 0,
{
    let open = seq!['|', ' '];
    let sep = seq![' ', '|', ' '];
    let close = seq![' ', '|', '\n'];
    let rule = seq![' ', '-', '-', '-', ' ', '|'];
    assert(is_space(' ') && is_space('\n'));
    lemma_count_none(open, p);
    lemma_count_none(sep, p);
    lemma_count_none(close, p);
    lemma_count_none(rule, p);
    lemma_count_none(seq!['|'], p);
    lemma_count_none(seq!['\n'], p);
    let row = joined(cells(line.elements), sep);
    lemma_count_joined(cells(line.elements), sep, p);
    lemma_count_cells(line.elements, p);
    lemma_count_add(open, row, p);
    lemma_count_add(open + row, close, p);
    let n = line.elements.len();
    lemma_count_repeated(rule, n, p);
    lemma_count_add(seq!['|'], repeated(rule, n), p);
    lemma_count_add(seq!['|'] + repeated(rule, n), seq!['\n'], p);
}

proof fn lemma_count_rows(lines: Seq<LineView>, p: spec_fn(char) -> bool)
    requires
        is_content(p),
    ensures
        count_where(table_rows(lines), p) == total(
            concatenated(runs_of_lines(lines)),
            run_weight(p),
        ),
    decreases lines.len(),
{
    let runs = runs_of_lines(lines);
    if lines.len() > 0 {
        let front = lines.drop_last();
        let last = lines.last();
        lemma_count_rows(front, p);
        assert(runs.drop_last() =~= runs_of_lines(front));
        lemma_total_add(concatenated(runs.drop_last()), runs.last(), run_weight(p));
        lemma_count_row(last, p);
        lemma_count_add(table_rows(front), table_row(last), p);
        let end = if lines.len() == 1 {
            table_separator(last.elements.len())
        } else {
            Seq::empty()
        };
        lemma_count_add(table_rows(front) + table_row(last), end, p);
    }
}

proof fn lemma_count_line(
    out: Seq<char>,
    line: LineView,
    prev_y: Option<int>,
    body_size: int,
    sizes: Seq<i64>,
    p: spec_fn(char) -> bool,
)
    requires
        is_content(p),
    ensures
        count_where(line_markdown(out, line, prev_y, body_size, sizes), p) == total(
            line.elements,
            run_weight(p),
        ),
{
    assert(is_space(' ') && is_space('\n'));
    let feed = seq!['\n'];
    let space = seq![' '];
    lemma_count_none(feed, p);
    lemma_count_none(space, p);
    lemma_count_none(seq!['#'], p);
    lemma_count_none(Seq::<char>::empty(), p);
    let whole = joined(cells(line.elements), space);
    lemma_count_joined(cells(line.elements), space, p);
    lemma_count_cells(line.elements, p);
    lemma_count_trimmed(whole, p);
    let text = plain_text(line);
    match heading_depth_of(font_sum(line.elements), line.elements.len() as int, body_size, sizes) {
        Some(depth) => {
            let marks = repeated(seq!['#'], depth as nat);
            lemma_count_repeated(seq!['#'], depth as nat, p);
            lemma_count_add(feed, marks, p);
            lemma_count_add(feed + marks, space, p);
            lemma_count_add(feed + marks + space, text, p);
            lemma_count_add(feed + marks + space + text, feed, p);
        },
        None => {
            let cut = line_break(out, prev_y, line.y, body_size);
            assert(count_where(cut, p) == 0);
            lemma_count_add(cut, text, p);
        },
    }
}

proof fn lemma_runs_split(lines: Seq<LineView>, k: int, p: spec_fn(char) -> bool)
    requires
        0 <= k <= lines.len(),
    ensures
        total(concatenated(runs_of_lines(lines)), run_weight(p)) == total(
            concatenated(runs_of_lines(lines.take(k))),
            run_weight(p),
        ) + total(concatenated(runs_of_lines(lines.skip(k))), run_weight(p)),
    decreases lines.len(),
{
    let runs = runs_of_lines(lines);
    if k == lines.len() {
        assert(lines.take(k) =~= lines);
        assert(lines.skip(k) =~= Seq::<LineView>::empty());
        assert(concatenated(runs_of_lines(lines.skip(k))) =~= Seq::<&TextElement>::empty());
    } else {
        let front = lines.drop_last();
        lemma_runs_split(front, k, p);
        assert(front.take(k) =~= lines.take(k));
        assert(lines.skip(k).drop_last() =~= front.skip(k));
        assert(runs.drop_last() =~= runs_of_lines(front));
        let tail = runs_of_lines(lines.skip(k));
        assert(tail.drop_last() =~= runs_of_lines(front.skip(k)));
        assert(tail.last() == runs.last());
        lemma_total_add(concatenated(runs.drop_last()), runs.last(), run_weight(p));
        lemma_total_add(concatenated(tail.drop_last()), tail.last(), run_weight(p));
    }
}

proof fn lemma_count_lines(
    out: Seq<char>,
    lines: Seq<LineView>,
    prev_y: Option<int>,
    body_size: int,
    sizes: Seq<i64>,
    p: spec_fn(char) -> bool,
)
    requires
        is_content(p),
    ensures
        count_where(lines_markdown(out, lines, prev_y, body_size, sizes), p) == count_where(out, p)
            + total(concatenated(runs_of_lines(lines)), run_weight(p)),
    decreases lines.len(),
{
    if lines.len() == 0 {
        assert(concatenated(runs_of_lines(lines)) =~= Seq::<&TextElement>::empty());
    } else {
        let width = lines[0].elements.len();
        let run = same_width(lines, width) as int;
        lemma_same_width_bound(lines, width);
        if width >= 2 && run >= 2 {
            let rows = table_rows(lines.take(run));
            let feed = seq!['\n'];
            assert(is_space('\n'));
            lemma_count_none(feed, p);
            lemma_count_rows(lines.take(run), p);
            lemma_count_add(feed, rows, p);
            lemma_count_add(feed + rows, feed, p);
            let block = table_text(lines.take(run));
            lemma_count_add(out, block, p);
            lemma_runs_split(lines, run, p);
            lemma_count_lines(
                out + block,
                lines.skip(run),
                Some(lines[run - 1].y),
                body_size,
                sizes,
                p,
            );
        } else {
            let text = line_markdown(out, lines[0], prev_y, body_size, sizes);
            lemma_count_line(out, lines[0], prev_y, body_size, sizes, p);
            lemma_count_add(out, text, p);
            lemma_runs_split(lines, 1, p);
            let one = runs_of_lines(lines.take(1));
            assert(one.drop_last() =~= Seq::<Seq<&TextElement>>::empty());
            assert(concatenated(one.drop_last()) =~= Seq::<&TextElement>::empty());
            assert(one.last() == lines[0].elements);
            assert(concatenated(one) =~= lines[0].elements);
            lemma_count_lines(out + text, lines.skip(1), Some(lines[0].y), body_size, sizes, p);
        }
    }
}

proof fn lemma_count_column(
    elements: Seq<&TextElement>,
    body_size: int,
    sizes: Seq<i64>,
    p: spec_fn(char) -> bool,
)
    requires
        is_content(p),
    ensures
        count_where(column_markdown(elements, body_size, sizes), p) == total(
            elements,
            run_weight(p),
        ),
{
    let lines = page_lines(elements);
    lemma_count_lines(Seq::empty(), lines, None, body_size, sizes, p);
    lemma_count_trimmed(lines_markdown(Seq::empty(), lines, None, body_size, sizes), p);
    law_lines_keep_runs(elements);
    lemma_total_same(concatenated(runs_of_lines(lines)), elements, run_weight(p));
}

proof fn lemma_count_columns(
    columns: Seq<Seq<&TextElement>>,
    body_size: int,
    sizes: Seq<i64>,
    p: spec_fn(char) -> bool,
)
    requires
        is_content(p),
    ensures
        total(
            columns_markdown(columns, body_size, sizes),
            |part: Seq<char>| count_where(part, p),
        ) == total(concatenated(columns), run_weight(p)),
    decreases columns.len(),
{
    let f = |part: Seq<char>| count_where(part, p);
    if columns.len() > 0 {
        let front = columns_markdown(columns.drop_last(), body_size, sizes);
        let last = column_markdown(columns.last(), body_size, sizes);
        lemma_count_columns(columns.drop_last(), body_size, sizes, p);
        lemma_count_column(columns.last(), body_size, sizes, p);
        lemma_total_add(concatenated(columns.drop_last()), columns.last(), run_weight(p));
        if last.len() > 0 {
            assert(front.push(last).drop_last() =~= front);
        }
    }
}

/// Rendering loses no content and invents none: as many characters with a property come out as
/// went in, for any property that neither white space nor the Markdown's own marks have.
pub proof fn law_rendering_keeps_content(
    elements: Seq<&TextElement>,
    body_size: int,
    sizes: Seq<i64>,
    p: spec_fn(char) -> bool,
)
    requires
        is_content(p),
    ensures
        count_where(page_markdown(elements, body_size, sizes), p) == total(elements, run_weight(p)),
{
    let columns = page_columns(elements);
    let sep = seq!['\n', '\n'];
    assert(is_space('\n'));
    lemma_count_none(sep, p);
    lemma_count_joined(columns_markdown(columns, body_size, sizes), sep, p);
    lemma_count_columns(columns, body_size, sizes, p);
    law_columns_keep_runs(elements);
    lemma_total_same(concatenated(columns), elements, run_weight(p));
}

proof fn lemma_groups_apart(depths: Seq<int>, order: Seq<int>)
    requires
        forall|i: int, j: int|
            0 <= i < j < order.len() ==> depths[#[trigger] order[i]] <= depths[#[trigger] order[j]],
    ensures
        ({
            let groups = grouped(depths, order);
            &&& forall|k: int| 0 <= k < groups.len() ==> (#[trigger] groups[k]).len() > 0
            &&& forall|k: int, i: int|
                0 <= k < groups.len() && 0 <= i < groups[k].len() ==> 0
                    <= depths[#[trigger] groups[k][i]] - depths[groups[k][0]] <= ROW_TOLERANCE
            &&& forall|j: int, k: int|
                0 <= j < k < groups.len() ==> depths[(#[trigger] groups[k])[0]]
                    > depths[(#[trigger] groups[j])[0]] + ROW_TOLERANCE
            &&& forall|k: int, i: int|
                0 <= k < groups.len() && 0 <= i < groups[k].len() ==> order.contains(
                    #[trigger] groups[k][i],
                )
        }),
    decreases order.len(),
{
    if order.len() > 0 {
        let front = order.drop_last();
        let x = order.last();
        let before = grouped(depths, front);
        let groups = grouped(depths, order);
        assert forall|i: int, j: int| 0 <= i < j < front.len() implies depths[#[trigger] front[i]]
            <= depths[#[trigger] front[j]] by {
            assert(front[i] == order[i] && front[j] == order[j]);
        }
        lemma_groups_apart(depths, front);
        assert(order[order.len() - 1] == x);
        assert forall|y: int| front.contains(y) implies depths[y] <= depths[x] && order.contains(
            y,
        ) by {
            let m = choose|m: int| 0 <= m < front.len() && front[m] == y;
            assert(order[m] == y);
        }
        if before.len() > 0 {
            let last = before.last();
            assert(before[before.len() - 1] == last);
            assert(last.len() > 0);
            assert(front.contains(before[before.len() - 1][0]));
        }
        assert forall|k: int| 0 <= k < groups.len() implies (#[trigger] groups[k]).len() > 0 by {
            if k < before.len() {
                assert(before[k].len() > 0);
            }
        }
        assert forall|k: int, i: int|
            0 <= k < groups.len() && 0 <= i < groups[k].len() implies order.contains(
            #[trigger] groups[k][i],
        ) && 0 <= depths[groups[k][i]] - depths[groups[k][0]] <= ROW_TOLERANCE by {
            if k < before.len() {
                assert(groups[k][0] == before[k][0]);
                if i < before[k].len() {
                    assert(groups[k][i] == before[k][i]);
                    assert(front.contains(before[k][i]));
                } else {
                    assert(groups[k][i] == x);
                }
            } else {
                assert(groups[k] =~= seq![x]);
            }
        }
        assert forall|j: int, k: int| 0 <= j < k < groups.len() implies depths[(
        #[trigger] groups[k])[0]] > depths[(#[trigger] groups[j])[0]] + ROW_TOLERANCE by {
            assert(groups[j][0] == before[j][0]);
            if k < before.len() {
                assert(groups[k][0] == before[k][0]);
            } else {
                let last = before.len() - 1;
                assert(groups[k] =~= seq![x]);
                if j < last {
                    assert(depths[before[last][0]] > depths[before[j][0]] + ROW_TOLERANCE);
                }
            }
        }
    }
}

/// The lines of a page come from the top downwards and stand apart from each other, the runs of
/// a line stand at its height or a little below, and they read from left to right.
pub proof fn law_lines_stand_apart(elements: Seq<&TextElement>)
    ensures
        ({
            let lines = page_lines(elements);
            &&& forall|j: int, k: int|
                0 <= j < k < lines.len() ==> (#[trigger] lines[j]).y - (#[trigger] lines[k]).y
                    > ROW_TOLERANCE
            &&& forall|k: int, i: int|
                0 <= k < lines.len() && 0 <= i < lines[k].elements.len() ==> 0 <= lines[k].y - (
                #[trigger] lines[k].elements[i]).y_min <= ROW_TOLERANCE
            &&& forall|k: int, i: int, j: int|
                0 <= k < lines.len() && 0 <= i < j < lines[k].elements.len() ==> (
                #[trigger] lines[k].elements[i]).x_min <= (#[trigger] lines[k].elements[j]).x_min
        }),
{
    let ds = depths(elements);
    let order = stable_order(ds);
    law_stable_order(ds);
    assert forall|i: int, j: int| 0 <= i < j < order.len() implies ds[#[trigger] order[i]]
        <= ds[#[trigger] order[j]] by {
        assert(precedes(ds, order[i], order[j]));
    }
    lemma_groups_apart(ds, order);
    lemma_grouped_in_range(ds, order, elements.len());
    let groups = line_groups(elements);
    let lines = page_lines(elements);
    assert forall|j: int, k: int| 0 <= j < k < lines.len() implies (#[trigger] lines[j]).y - (
    #[trigger] lines[k]).y > ROW_TOLERANCE by {
        assert(ds[groups[k][0]] > ds[groups[j][0]] + ROW_TOLERANCE);
        assert(groups[k].len() > 0 && groups[j].len() > 0);
        assert(0 <= groups[k][0] < elements.len() && 0 <= groups[j][0] < elements.len());
    }
    assert forall|k: int, i: int|
        0 <= k < lines.len() && 0 <= i < lines[k].elements.len() implies 0 <= lines[k].y - (
    #[trigger] lines[k].elements[i]).y_min <= ROW_TOLERANCE by {
        let run = arranged(elements, groups[k]);
        let xs = left_edges(run);
        let inner = stable_order(xs);
        law_stable_order(xs);
        let m = inner[i];
        assert(0 <= m < groups[k].len());
        assert(lines[k].elements[i] == elements[groups[k][m]]);
        assert(0 <= groups[k][m] < elements.len());
        assert(0 <= groups[k][0] < elements.len());
        assert(0 <= ds[groups[k][m]] - ds[groups[k][0]] <= ROW_TOLERANCE);
    }
    assert forall|k: int, i: int, j: int|
        0 <= k < lines.len() && 0 <= i < j < lines[k].elements.len() implies (
    #[trigger] lines[k].elements[i]).x_min <= (#[trigger] lines[k].elements[j]).x_min by {
        let run = arranged(elements, groups[k]);
        let xs = left_edges(run);
        let inner = stable_order(xs);
        law_stable_order(xs);
        assert(precedes(xs, inner[i], inner[j]));
        assert(0 <= inner[i] < run.len() && 0 <= inner[j] < run.len());
    }
}

/// Whether one of some sizes stands for a size: it is the size itself, or larger by less than the
/// tolerance.
pub open spec fn stands_for_size(sizes: Seq<i64>, size: i64) -> bool {
    exists|k: int| 0 <= k < sizes.len() && 0 <= #[trigger] sizes[k] - size < SIZE_TOLERANCE
}

proof fn lemma_distinct_sizes(sizes: Seq<i64>)
    requires
        forall|i: int, j: int| 0 <= i < j < sizes.len() ==> sizes[i] >= sizes[j],
    ensures
        ({
            let kept = distinct_sizes(sizes);
            &&& forall|i: int, j: int|
                0 <= i < j < kept.len() ==> kept[i] - kept[j] >= SIZE_TOLERANCE
            &&& forall|i: int| 0 <= i < kept.len() ==> sizes.contains(#[trigger] kept[i])
            &&& forall|i: int|
                0 <= i < sizes.len() ==> stands_for_size(kept, #[trigger] sizes[i])
        }),
    decreases sizes.len(),
{
    if sizes.len() > 0 {
        let front = sizes.drop_last();
        let before = distinct_sizes(front);
        let kept = distinct_sizes(sizes);
        assert forall|i: int, j: int| 0 <= i < j < front.len() implies front[i] >= front[j] by {
            assert(front[i] == sizes[i] && front[j] == sizes[j]);
        }
        lemma_distinct_sizes(front);
        assert(sizes[sizes.len() - 1] == sizes.last());
        assert forall|v: i64| front.contains(v) implies sizes.contains(v) && v >= sizes.last() by {
            let m = choose|m: int| 0 <= m < front.len() && front[m] == v;
            assert(sizes[m] == v);
        }
        assert forall|i: int| 0 <= i < kept.len() implies sizes.contains(#[trigger] kept[i]) by {
            if i < before.len() {
                assert(kept[i] == before[i]);
                assert(front.contains(before[i]));
            }
        }
        assert forall|i: int, j: int| 0 <= i < j < kept.len() implies kept[i] - kept[j]
            >= SIZE_TOLERANCE by {
            assert(kept[i] == before[i]);
            if j < before.len() {
                assert(kept[j] == before[j]);
            } else {
                let last = before.len() - 1;
                assert(front.contains(before[last]));
                if i < last {
                    assert(before[i] - before[last] >= SIZE_TOLERANCE);
                }
            }
        }
        assert forall|i: int| 0 <= i < sizes.len() implies stands_for_size(
            kept,
            #[trigger] sizes[i],
        ) by {
            if i < front.len() {
                assert(stands_for_size(before, front[i]));
                let k = choose|k: int|
                    0 <= k < before.len() && 0 <= #[trigger] before[k] - front[i] < SIZE_TOLERANCE;
                assert(kept[k] == before[k]);
                assert(0 <= kept[k] - sizes[i] < SIZE_TOLERANCE);
            } else {
                let last = kept.len() - 1;
                assert(kept[last] == kept.last());
                if kept.len() == before.len() {
                    assert(front.contains(before[last]));
                }
                assert(0 <= kept[last] - sizes[i] < SIZE_TOLERANCE);
            }
        }
    }
}

proof fn lemma_larger_sizes(elements: Seq<&TextElement>, body_size: int)
    ensures
        forall|i: int|
            0 <= i < larger_sizes(elements, body_size).len() ==> is_larger_size(
                elements,
                body_size,
                #[trigger] larger_sizes(elements, body_size)[i],
            ),
        forall|e: int|
            0 <= e < elements.len() && (#[trigger] elements[e]).font_size > body_size
                ==> larger_sizes(elements, body_size).contains(elements[e].font_size),
    decreases elements.len(),
{
    if elements.len() > 0 {
        let short = elements.drop_last();
        let front = larger_sizes(short, body_size);
        let all = larger_sizes(elements, body_size);
        lemma_larger_sizes(short, body_size);
        assert forall|i: int| 0 <= i < all.len() implies is_larger_size(
            elements,
            body_size,
            #[trigger] all[i],
        ) by {
            if i < front.len() {
                assert(all[i] == front[i]);
                let e = choose|e: int|
                    0 <= e < short.len() && (#[trigger] short[e]).font_size == front[i];
                assert(elements[e].font_size == all[i]);
            } else {
                assert(elements[elements.len() - 1].font_size == all[i]);
            }
        }
        assert forall|e: int|
            0 <= e < elements.len() && (#[trigger] elements[e]).font_size > body_size implies all.contains(
            elements[e].font_size,
        ) by {
            if e < short.len() {
                assert(short[e] == elements[e]);
                let k = choose|k: int| 0 <= k < front.len() && front[k] == short[e].font_size;
                assert(all[k] == front[k]);
            } else {
                assert(all[all.len() - 1] == elements[e].font_size);
            }
        }
    }
}

/// Whether a size is larger than the body text and that of some run.
pub open spec fn is_larger_size(elements: Seq<&TextElement>, body_size: int, size: i64) -> bool {
    &&& size > body_size
    &&& exists|e: int| 0 <= e < elements.len() && (#[trigger] elements[e]).font_size == size
}

/// The larger sizes of a document come from the largest downwards and stand apart from each other;
/// each is larger than the body text and that of some run; and each run that is larger than the
/// body text has one that stands for its size.
pub proof fn law_larger_sizes_are_ranked(elements: Seq<&TextElement>, body_size: int)
    ensures
        ({
            let ranked = distinct_sizes(descending(larger_sizes(elements, body_size)));
            &&& forall|i: int, j: int|
                0 <= i < j < ranked.len() ==> ranked[i] - ranked[j] >= SIZE_TOLERANCE
            &&& forall|i: int|
                0 <= i < ranked.len() ==> is_larger_size(elements, body_size, #[trigger] ranked[i])
            &&& forall|e: int|
                0 <= e < elements.len() && (#[trigger] elements[e]).font_size > body_size
                    ==> stands_for_size(ranked, elements[e].font_size)
        }),
{
    let sizes = larger_sizes(elements, body_size);
    let keys = Seq::new(sizes.len(), |i: int| -(sizes[i] as int));
    let order = stable_order(keys);
    let sorted = descending(sizes);
    law_stable_order(keys);
    lemma_larger_sizes(elements, body_size);
    assert forall|i: int, j: int| 0 <= i < j < sorted.len() implies sorted[i] >= sorted[j] by {
        assert(precedes(keys, order[i], order[j]));
        assert(0 <= order[i] < sizes.len() && 0 <= order[j] < sizes.len());
    }
    lemma_distinct_sizes(sorted);
    let ranked = distinct_sizes(sorted);
    assert forall|i: int| 0 <= i < ranked.len() implies is_larger_size(
        elements,
        body_size,
        #[trigger] ranked[i],
    ) by {
        assert(sorted.contains(ranked[i]));
        let m = choose|m: int| 0 <= m < sorted.len() && sorted[m] == ranked[i];
        assert(0 <= order[m] < sizes.len());
        assert(sorted[m] == sizes[order[m]]);
    }
    assert forall|e: int|
        0 <= e < elements.len() && (#[trigger] elements[e]).font_size
            > body_size implies stands_for_size(ranked, elements[e].font_size) by {
        assert(sizes.contains(elements[e].font_size));
        let k = choose|k: int| 0 <= k < sizes.len() && sizes[k] == elements[e].font_size;
        assert(order.contains(k));
        let m = choose|m: int| 0 <= m < order.len() && order[m] == k;
        assert(sorted[m] == elements[e].font_size);
    }
}

/// A heading is one to four deep, and a line is a heading exactly where its runs are on average
/// more than 1.15 times as large as the body text.
pub proof fn law_heading_depth_range(total: int, count: int, body_size: int, sizes: Seq<i64>)
    requires
        count > 0,
    ensures
        heading_depth_of(total, count, body_size, sizes) is Some == (20 * total > 23 * body_size
            * count),
        heading_depth_of(total, count, body_size, sizes) matches Some(d) ==> 1 <= d
            <= MAX_HEADING_DEPTH,
{
}

/// A line has the height of one of its runs, and its other runs stand no more than three points
/// below; the lines stand more than three points apart, from the top downwards.
pub proof fn law_lines_of_a_page(elements: Seq<&TextElement>, j: int, k: int)
    requires
        0 <= k < page_lines(elements).len(),
    ensures
        ({
            let lines = page_lines(elements);
            &&& exists|i: int|
                0 <= i < lines[k].elements.len() && (#[trigger] lines[k].elements[i]).y_min
                    == lines[k].y
            &&& forall|i: int|
                0 <= i < lines[k].elements.len() ==> lines[k].y - 3_000_000 <= (
                #[trigger] lines[k].elements[i]).y_min <= lines[k].y
            &&& 0 <= j < k ==> lines[j].y - lines[k].y > 3_000_000
        }),
{
    law_lines_stand_apart(elements);
    let ds = depths(elements);
    law_stable_order(ds);
    lemma_grouped_in_range(ds, stable_order(ds), elements.len());
    let groups = line_groups(elements);
    let lines = page_lines(elements);
    let run = arranged(elements, groups[k]);
    let xs = left_edges(run);
    let inner = stable_order(xs);
    law_stable_order(xs);
    assert(groups[k].len() > 0);
    assert(inner.contains(0));
    let i = choose|i: int| 0 <= i < inner.len() && inner[i] == 0;
    assert(lines[k].elements[i] == elements[groups[k][0]]);
    assert(lines[k].elements[i].y_min == lines[k].y);
}

/// A font size counts as the nearest half point, and of two as near the one further from zero; the
/// runs with one such size are counted one by one.
pub proof fn law_sizes_are_counted(size: int, a: Seq<int>, b: Seq<int>, x: int, y: int)
    ensures
        -500_000 <= 2 * (size - 500_000 * half_points(size)) <= 500_000,
        size >= 0 ==> half_points(size) >= 0 && 2 * (size - 500_000 * half_points(size)) < 500_000,
        size <= 0 ==> half_points(size) <= 0 && 2 * (size - 500_000 * half_points(size)) > -500_000,
        occurrences(a + b, x) == occurrences(a, x) + occurrences(b, x),
        occurrences(seq![y], x) == if y == x {
            1nat
        } else {
            0
        },
        occurrences(Seq::empty(), x) == 0,
    decreases b.len(),
{
    if b.len() == 0 {
        assert(a + b =~= a);
    } else {
        law_sizes_are_counted(size, a, b.drop_last(), x, y);
        assert((a + b).drop_last() =~= a + b.drop_last());
    }
    assert(seq![y].drop_last() =~= Seq::<int>::empty());
    assert(occurrences(seq![y].drop_last(), x) == 0);
}

/// The body text has the commonest size of all runs, in half points, and of equally common sizes
/// the one that comes first; without runs it has eleven points.
pub proof fn law_body_size(elements: Seq<&TextElement>) -> (k: int)
    ensures
        elements.len() == 0 ==> body_font_size(elements) == 11_000_000,
        elements.len() > 0 ==> {
            let steps = Seq::new(
                elements.len(),
                |i: int| half_points(elements[i].font_size as int),
            );
            let size = 500_000 * steps[k];
            &&& 0 <= k < elements.len()
            &&& forall|j: int|
                0 <= j < elements.len() ==> occurrences(steps, #[trigger] steps[j]) <= occurrences(
                    steps,
                    steps[k],
                )
            &&& forall|j: int|
                0 <= j < k ==> occurrences(steps, #[trigger] steps[j]) < occurrences(
                    steps,
                    steps[k],
                )
            &&& i64::MIN <= size <= i64::MAX ==> body_font_size(elements) == size
            &&& size > i64::MAX ==> body_font_size(elements) == i64::MAX
            &&& size < i64::MIN ==> body_font_size(elements) == i64::MIN
        },
{
    let steps = size_steps(elements);
    if elements.len() > 0 {
        assert(Seq::new(elements.len(), |i: int| half_points(elements[i].font_size as int))
            =~= steps);
        lemma_some_commonest(steps);
        let k = choose|k: int| is_commonest(steps, k);
        assert(is_commonest(steps, k));
        k
    } else {
        0
    }
}

proof fn lemma_commonest_before(s: Seq<int>, n: nat) -> (k: int)
    requires
        0 < n <= s.len(),
    ensures
        0 <= k < n,
        forall|j: int| 0 <= j < n ==> occurrences(s, #[trigger] s[j]) <= occurrences(s, s[k]),
        forall|j: int| 0 <= j < k ==> occurrences(s, #[trigger] s[j]) < occurrences(s, s[k]),
    decreases n,
{
    if n == 1 {
        0
    } else {
        let k = lemma_commonest_before(s, (n - 1) as nat);
        if occurrences(s, s[n - 1]) > occurrences(s, s[k]) {
            n - 1
        } else {
            k
        }
    }
}

proof fn lemma_some_commonest(s: Seq<int>)
    requires
        s.len() > 0,
    ensures
        exists|k: int| is_commonest(s, k),
{
    let k = lemma_commonest_before(s, s.len());
    assert(is_commonest(s, k));
}

/// The larger sizes of runs are those of the ones and those of the others, and a single run has one
/// where it is larger than the body text. They are ranked from the largest downwards, and sizes no
/// less than six tenths of a point apart are told apart.
pub proof fn law_larger_sizes(
    a: Seq<&TextElement>,
    b: Seq<&TextElement>,
    e: &TextElement,
    body_size: int,
    sizes: Seq<i64>,
)
    ensures
        larger_sizes(a + b, body_size) == larger_sizes(a, body_size) + larger_sizes(b, body_size),
        larger_sizes(seq![e], body_size) == if e.font_size > body_size {
            seq![e.font_size]
        } else {
            Seq::empty()
        },
        larger_sizes(Seq::empty(), body_size) == Seq::<i64>::empty(),
        descending(sizes).to_multiset() == sizes.to_multiset(),
        forall|i: int, j: int|
            0 <= i < j < descending(sizes).len() ==> descending(sizes)[i] >= descending(sizes)[j],
        SIZE_TOLERANCE == 600_000,
    decreases b.len(),
{
    if b.len() == 0 {
        assert(a + b =~= a);
        assert(larger_sizes(a, body_size) + larger_sizes(b, body_size) =~= larger_sizes(
            a,
            body_size,
        ));
    } else {
        law_larger_sizes(a, b.drop_last(), e, body_size, sizes);
        assert((a + b).drop_last() =~= a + b.drop_last());
        assert(larger_sizes(a + b, body_size) =~= larger_sizes(a, body_size) + larger_sizes(
            b,
            body_size,
        ));
    }
    assert(seq![e].drop_last() =~= Seq::<&TextElement>::empty());
    assert(larger_sizes(seq![e].drop_last(), body_size) =~= Seq::<i64>::empty());
    assert(Seq::<i64>::empty().push(e.font_size) =~= seq![e.font_size]);
    let keys = Seq::new(sizes.len(), |i: int| -(sizes[i] as int));
    let order = stable_order(keys);
    let sorted = descending(sizes);
    law_stable_order(keys);
    law_arranging_keeps_items(sizes, keys);
    assert forall|i: int, j: int| 0 <= i < j < sorted.len() implies sorted[i] >= sorted[j] by {
        assert(precedes(keys, order[i], order[j]));
        assert(0 <= order[i] < sizes.len() && 0 <= order[j] < sizes.len());
    }
}

proof fn lemma_near_rank(sizes: Seq<i64>, total: int, count: int)
    ensures
        near_rank(sizes, total, count) <= sizes.len(),
        forall|i: int| 0 <= i < near_rank(sizes, total, count) ==> !is_near(
            #[trigger] sizes[i] as int,
            total,
            count,
        ),
        near_rank(sizes, total, count) < sizes.len() ==> is_near(
            sizes[near_rank(sizes, total, count) as int] as int,
            total,
            count,
        ),
    decreases sizes.len(),
{
    if sizes.len() > 0 && !is_near(sizes[0] as int, total, count) {
        let rest = sizes.skip(1);
        lemma_near_rank(rest, total, count);
        assert forall|i: int| 0 <= i < near_rank(sizes, total, count) implies !is_near(
            #[trigger] sizes[i] as int,
            total,
            count,
        ) by {
            if i > 0 {
                assert(rest[i - 1] == sizes[i]);
            }
        }
    }
}

/// A line is a heading where its runs are on average more than 1.15 times as large as the body
/// text. It is as deep as the place of its size among the larger sizes: of the first that comes
/// within six tenths of a point of it, and of the last where none does; but never deeper than four.
pub proof fn law_heading_depth(total: int, count: int, body_size: int, sizes: Seq<i64>, place: int)
    requires
        count > 0,
        0 <= place < sizes.len(),
        forall|i: int|
            0 <= i < place ==> !(-600_000 * count < #[trigger] sizes[i] * count - total < 600_000
                * count),
    ensures
        20 * total <= 23 * body_size * count ==> heading_depth_of(total, count, body_size, sizes)
            is None,
        20 * total > 23 * body_size * count && (-600_000 * count < sizes[place] * count - total
            < 600_000 * count || place == sizes.len() - 1) ==> heading_depth_of(
            total,
            count,
            body_size,
            sizes,
        ) == Some(
            if place < 4 {
                place + 1
            } else {
                4
            },
        ),
        20 * total > 23 * body_size * count ==> heading_depth_of(total, count, body_size, Seq::empty())
            == Some(1int),
{
    lemma_near_rank(sizes, total, count);
    let r = near_rank(sizes, total, count) as int;
    if r < place {
        assert(is_near(sizes[r] as int, total, count));
    }
    if place < r {
        assert(!is_near(sizes[place] as int, total, count));
    }
}

/// Repeating writes a text again and again: as often as the one number and as the other together.
pub proof fn law_repeating(s: Seq<char>, m: nat, n: nat)
    ensures
        repeated(s, m + n) == repeated(s, m) + repeated(s, n),
        repeated(s, 1) == s,
        repeated(s, 0) == Seq::<char>::empty(),
    decreases n,
{
    if n == 0 {
        assert(repeated(s, m) + repeated(s, 0) =~= repeated(s, m));
    } else {
        law_repeating(s, m, (n - 1) as nat);
        assert(repeated(s, m + n) =~= repeated(s, m) + repeated(s, n));
    }
    assert(repeated(s, 0) + s =~= s);
    assert(repeated(s, 1) =~= s);
}

/// The rows of a table stand one below the other, the separator below the first of them, with a
/// blank line before and after. A row has its cells between bars, each with a space on both sides
/// and without other white space at its ends, and the separator has three dashes for each.
pub proof fn law_table_layout(lines: Seq<LineView>, line: LineView)
    ensures
        lines.len() > 0 ==> table_rows(lines.push(line)) == table_rows(lines) + table_row(line),
        table_rows(seq![line]) == table_row(line) + "|"@ + repeated(
            " --- |"@,
            line.elements.len(),
        ) + "\n"@,
        table_rows(Seq::empty()) == Seq::<char>::empty(),
        table_text(lines) == "\n"@ + table_rows(lines) + "\n"@,
        table_row(line) == "| "@ + joined(
            Seq::new(line.elements.len(), |i: int| trimmed(line.elements[i].text@)),
            " | "@,
        ) + " |\n"@,
{
    reveal_strlit("\n");
    reveal_strlit("|");
    reveal_strlit("| ");
    reveal_strlit(" | ");
    reveal_strlit(" |\n");
    reveal_strlit(" --- |");
    assert("\n"@ =~= seq!['\n']);
    assert("|"@ =~= seq!['|']);
    assert("| "@ =~= seq!['|', ' ']);
    assert(" | "@ =~= seq![' ', '|', ' ']);
    assert(" |\n"@ =~= seq![' ', '|', '\n']);
    assert(" --- |"@ =~= seq![' ', '-', '-', '-', ' ', '|']);
    let one = seq![line];
    assert(lines.push(line).drop_last() =~= lines);
    assert(one.drop_last() =~= Seq::<LineView>::empty());
    assert(table_rows(one.drop_last()) =~= Seq::<char>::empty());
    assert(cells(line.elements) =~= Seq::new(
        line.elements.len(),
        |i: int| trimmed(line.elements[i].text@),
    ));
    if lines.len() > 0 {
        assert(table_rows(lines.push(line)) =~= table_rows(lines) + table_row(line));
    }
    assert(table_rows(one) =~= table_row(line) + "|"@ + repeated(
        " --- |"@,
        line.elements.len(),
    ) + "\n"@);
}

/// Lines have one width up to the first that has another.
pub proof fn law_lines_of_one_width(lines: Seq<LineView>, width: nat)
    ensures
        same_width(lines, width) <= lines.len(),
        forall|i: int|
            0 <= i < same_width(lines, width) ==> (#[trigger] lines[i]).elements.len() == width,
        same_width(lines, width) < lines.len() ==> lines[same_width(
            lines,
            width,
        ) as int].elements.len() != width,
    decreases lines.len(),
{
    if lines.len() > 0 && lines[0].elements.len() == width {
        let rest = lines.skip(1);
        law_lines_of_one_width(rest, width);
        assert forall|i: int| 0 <= i < same_width(lines, width) implies (
        #[trigger] lines[i]).elements.len() == width by {
            if i > 0 {
                assert(rest[i - 1] == lines[i]);
            }
        }
    }
}

/// Lines are written in order: two or more that follow one another with the same number of runs,
/// two at least, as a table; a line without text not at all; a heading behind as many `#` as it is
/// deep, on a line of its own; and any other line on a new line where it stands more than 1.6 times
/// the body size below the one before, behind a space where the text before has not ended its line,
/// and at once otherwise.
pub proof fn law_lines_are_written(
    out: Seq<char>,
    lines: Seq<LineView>,
    prev_y: Option<int>,
    body_size: int,
    sizes: Seq<i64>,
)
    requires
        lines.len() > 0,
    ensures
        lines_markdown(out, Seq::empty(), prev_y, body_size, sizes) == out,
        ({
            let line = lines[0];
            let width = line.elements.len();
            let many = same_width(lines, width) as int;
            let text = trimmed(
                joined(
                    Seq::new(line.elements.len(), |i: int| trimmed(line.elements[i].text@)),
                    " "@,
                ),
            );
            let depth = heading_depth_of(
                font_sum(line.elements),
                line.elements.len() as int,
                body_size,
                sizes,
            );
            let break_before = match prev_y {
                None => Seq::empty(),
                Some(y) => if 10 * (y - line.y) > 16 * body_size {
                    "\n"@
                } else if out.len() > 0 && out.last() != '\n' {
                    " "@
                } else {
                    Seq::empty()
                },
            };
            let added = if text.len() == 0 {
                Seq::empty()
            } else if depth is Some {
                "\n"@ + repeated("#"@, depth->Some_0 as nat) + " "@ + text + "\n"@
            } else {
                break_before + text
            };
            lines_markdown(out, lines, prev_y, body_size, sizes) == if width >= 2 && many >= 2 {
                lines_markdown(
                    out + table_text(lines.take(many)),
                    lines.skip(many),
                    Some(lines[many - 1].y),
                    body_size,
                    sizes,
                )
            } else {
                lines_markdown(out + added, lines.skip(1), Some(line.y), body_size, sizes)
            }
        }),
{
    reveal_strlit("\n");
    reveal_strlit(" ");
    reveal_strlit("#");
    assert("\n"@ =~= seq!['\n']);
    assert(" "@ =~= seq![' ']);
    assert("#"@ =~= seq!['#']);
    let line = lines[0];
    assert(cells(line.elements) =~= Seq::new(
        line.elements.len(),
        |i: int| trimmed(line.elements[i].text@),
    ));
    law_lines_of_one_width(lines, line.elements.len());
}

/// The font sizes of runs add up.
pub proof fn law_font_sizes_add_up(a: Seq<&TextElement>, b: Seq<&TextElement>, e: &TextElement)
    ensures
        font_sum(a + b) == font_sum(a) + font_sum(b),
        font_sum(seq![e]) == e.font_size,
        font_sum(Seq::empty()) == 0,
    decreases b.len(),
{
    if b.len() == 0 {
        assert(a + b =~= a);
    } else {
        law_font_sizes_add_up(a, b.drop_last(), e);
        assert((a + b).drop_last() =~= a + b.drop_last());
    }
    assert(seq![e].drop_last() =~= Seq::<&TextElement>::empty());
    assert(font_sum(seq![e].drop_last()) == 0);
}

/// The Markdown of a column is that of its lines, without white space at the ends, and that of a
/// page is that of its columns that have any, from left to right with a blank line between.
pub proof fn law_columns_are_written(
    a: Seq<Seq<&TextElement>>,
    b: Seq<Seq<&TextElement>>,
    column: Seq<&TextElement>,
    body_size: int,
    sizes: Seq<i64>,
)
    ensures
        column_markdown(column, body_size, sizes) == trimmed(
            lines_markdown(Seq::empty(), page_lines(column), None, body_size, sizes),
        ),
        columns_markdown(a + b, body_size, sizes) == columns_markdown(a, body_size, sizes)
            + columns_markdown(b, body_size, sizes),
        columns_markdown(seq![column], body_size, sizes) == if column_markdown(
            column,
            body_size,
            sizes,
        ).len() > 0 {
            seq![column_markdown(column, body_size, sizes)]
        } else {
            Seq::empty()
        },
        columns_markdown(Seq::empty(), body_size, sizes) == Seq::<Seq<char>>::empty(),
        page_markdown(column, body_size, sizes) == joined(
            columns_markdown(page_columns(column), body_size, sizes),
            "\n\n"@,
        ),
    decreases b.len(),
{
    reveal_strlit("\n\n");
    assert("\n\n"@ =~= seq!['\n', '\n']);
    if b.len() == 0 {
        assert(a + b =~= a);
        assert(columns_markdown(a, body_size, sizes) + columns_markdown(b, body_size, sizes)
            =~= columns_markdown(a, body_size, sizes));
    } else {
        law_columns_are_written(a, b.drop_last(), column, body_size, sizes);
        assert((a + b).drop_last() =~= a + b.drop_last());
        assert(columns_markdown(a + b, body_size, sizes) =~= columns_markdown(a, body_size, sizes)
            + columns_markdown(b, body_size, sizes));
    }
    let one = seq![column];
    let text = column_markdown(column, body_size, sizes);
    assert(one.drop_last() =~= Seq::<Seq<&TextElement>>::empty());
    assert(columns_markdown(one.drop_last(), body_size, sizes) =~= Seq::<Seq<char>>::empty());
    assert(Seq::<Seq<char>>::empty().push(text) =~= seq![text]);
}

/// A line is seen as it is, and knows the sum of the font sizes of its runs.
pub proof fn law_lines_are_seen<'a>(lines: Seq<Line<'a>>, i: int)
    requires
        0 <= i < lines.len(),
    ensures
        line_views(lines).len() == lines.len(),
        line_views(lines)[i].elements == lines[i].elements@,
        line_views(lines)[i].y == lines[i].y,
        lines[i].wf() ==> lines[i].elements@.len() > 0 && lines[i].font_total == font_sum(
            lines[i].elements@,
        ),
{
}

/// How far up a run stands, from the top downwards.
pub open spec fn from_the_top<'a>() -> spec_fn(&'a TextElement) -> int {
    |e: &'a TextElement| -(e.y_min as int)
}

/// How far left a run starts, from the left on.
pub open spec fn from_the_left<'a>() -> spec_fn(&'a TextElement) -> int {
    |e: &'a TextElement| e.x_min as int
}

proof fn lemma_same_groups(before: Seq<int>, after: Seq<int>, order: Seq<int>, n: nat)
    requires
        forall|i: int| 0 <= i < n ==> before[i] == after[i],
        forall|i: int| 0 <= i < order.len() ==> 0 <= #[trigger] order[i] < n,
    ensures
        grouped(before, order) == grouped(after, order),
    decreases order.len(),
{
    if order.len() > 0 {
        let front = order.drop_last();
        assert forall|i: int| 0 <= i < front.len() implies 0 <= #[trigger] front[i] < n by {
            assert(front[i] == order[i]);
        }
        lemma_same_groups(before, after, front, n);
        lemma_grouped_in_range(before, front, n);
        let groups = grouped(before, front);
        assert(0 <= order[order.len() - 1] < n);
        if groups.len() > 0 {
            assert(groups.last() == groups[groups.len() - 1]);
            assert(0 <= groups[groups.len() - 1][0] < n);
        }
    }
}

proof fn lemma_top_down_stays(elements: Seq<&TextElement>)
    requires
        forall|i: int, j: int| 0 <= i < j < elements.len() ==> elements[i].y_min >= elements[j].y_min,
    ensures
        stable_order(depths(elements)) == Seq::new(elements.len(), |i: int| i),
{
    law_what_is_in_order_stays(depths(elements));
    assert(stable_order(depths(elements)) =~= Seq::new(elements.len(), |i: int| i));
}

proof fn lemma_ordered_left_to_right<'a>(elements: Seq<&'a TextElement>)
    ensures
        left_to_right(elements) == ordered(elements, from_the_left()),
{
    assert(left_edges(elements) =~= Seq::new(
        elements.len(),
        |i: int| from_the_left()(elements[i]),
    ));
}

/// Runs that come from the top downwards are put into lines one by one: the next run joins the last
/// line where it stands no more than three points below it, in its place from left to right and
/// behind runs that start where it does; otherwise it is a line of its own. The other lines stay as
/// they are.
pub proof fn law_next_run<'a>(elements: Seq<&'a TextElement>, next: &'a TextElement) -> (p: int)
    requires
        forall|i: int, j: int| 0 <= i < j < elements.len() ==> elements[i].y_min >= elements[j].y_min,
        forall|i: int| 0 <= i < elements.len() ==> (#[trigger] elements[i]).y_min >= next.y_min,
    ensures
        ({
            let before = page_lines(elements);
            let after = page_lines(elements.push(next));
            let line = before.last();
            let joins = before.len() > 0 && line.y - next.y_min <= 3_000_000;
            &&& !joins ==> after.len() == before.len() + 1 && after.drop_last() == before
                && after.last().elements == seq![next] && after.last().y == next.y_min
            &&& joins ==> {
                &&& after.len() == before.len()
                &&& after.drop_last() == before.drop_last()
                &&& after.last().y == line.y
                &&& 0 <= p <= line.elements.len()
                &&& after.last().elements == line.elements.insert(p, next)
                &&& forall|i: int|
                    0 <= i < p ==> (#[trigger] line.elements[i]).x_min <= next.x_min
                &&& forall|i: int|
                    p <= i < line.elements.len() ==> (#[trigger] line.elements[i]).x_min > next.x_min
            }
        }),
{
    let n = elements.len();
    let all = elements.push(next);
    assert forall|i: int, j: int| 0 <= i < j < all.len() implies all[i].y_min >= all[j].y_min by {
        assert(all[i] == elements[i]);
    }
    lemma_top_down_stays(elements);
    lemma_top_down_stays(all);
    let order = Seq::new(n, |i: int| i);
    let longer = Seq::new((n + 1) as nat, |i: int| i);
    assert(longer.drop_last() =~= order);
    let (ds, more) = (depths(elements), depths(all));
    lemma_same_groups(ds, more, order, n);
    lemma_grouped_in_range(ds, order, n);
    let groups = grouped(ds, order);
    let after_groups = grouped(more, longer);
    assert(after_groups == with_index(groups, more, n as int));
    let before = page_lines(elements);
    let after = page_lines(all);
    assert forall|k: int| 0 <= k < groups.len() implies arranged(elements, #[trigger] groups[k])
        == arranged(all, groups[k]) by {
        assert forall|i: int| 0 <= i < groups[k].len() implies elements[groups[k][i]]
            == all[groups[k][i]] by {
            assert(0 <= groups[k][i] < n);
        }
        assert(arranged(elements, groups[k]) =~= arranged(all, groups[k]));
    }
    assert forall|k: int| 0 <= k < groups.len() implies elements[#[trigger] groups[k][0]]
        == all[groups[k][0]] by {
        assert(groups[k].len() > 0);
        assert(0 <= groups[k][0] < n);
    }
    let joins = before.len() > 0 && before.last().y - next.y_min <= 3_000_000;
    if groups.len() > 0 {
        let g = groups.last();
        assert(g == groups[groups.len() - 1]);
        assert(g.len() > 0 && 0 <= g[0] < n);
        assert(before.last().y == elements[g[0]].y_min);
        assert(more[g[0]] == -(elements[g[0]].y_min as int));
        assert(more[n as int] == -(next.y_min as int));
    }
    if joins {
        let g = groups.last();
        let runs = arranged(elements, g);
        assert(arranged(all, g.push(n as int)) =~= runs.push(next));
        lemma_ordered_left_to_right(runs);
        lemma_ordered_left_to_right(runs.push(next));
        let p = law_next_item(runs, next, from_the_left());
        let line = before.last();
        assert(line.elements == ordered(runs, from_the_left()));
        assert(after_groups == groups.drop_last().push(g.push(n as int)));
        assert(g.push(n as int)[0] == g[0]);
        assert(after.drop_last() =~= before.drop_last());
        assert forall|i: int| 0 <= i < p implies (#[trigger] line.elements[i]).x_min
            <= next.x_min by {
            assert(from_the_left()(line.elements[i]) <= from_the_left()(next));
        }
        assert forall|i: int| p <= i < line.elements.len() implies (
        #[trigger] line.elements[i]).x_min > next.x_min by {
            assert(from_the_left()(line.elements[i]) > from_the_left()(next));
        }
        p
    } else {
        let g = seq![n as int];
        assert(after_groups == groups.push(g));
        let runs = arranged(all, g);
        assert(runs =~= seq![next]);
        law_what_is_in_order_stays(left_edges(runs));
        assert(left_to_right(runs) =~= seq![next]);
        assert(after.drop_last() =~= before);
        0
    }
}

proof fn lemma_groups_of_ordered(
    ds: Seq<int>,
    order: Seq<int>,
    sorted: Seq<int>,
    n: nat,
)
    requires
        n <= order.len() == sorted.len(),
        forall|i: int| 0 <= i < order.len() ==> #[trigger] sorted[i] == ds[order[i]],
    ensures
        ({
            let groups = grouped(ds, order.take(n as int));
            let places = grouped(sorted, Seq::new(n, |i: int| i));
            &&& groups.len() == places.len()
            &&& forall|k: int| 0 <= k < groups.len() ==> (#[trigger] groups[k]).len() > 0
            &&& forall|k: int|
                0 <= k < groups.len() ==> (#[trigger] groups[k]).len() == places[k].len()
            &&& forall|k: int, i: int|
                0 <= k < groups.len() && 0 <= i < groups[k].len() ==> 0 <= #[trigger] places[k][i]
                    < n && groups[k][i] == order[places[k][i]]
        }),
    decreases n,
{
    let ids = Seq::new(n, |i: int| i);
    if n > 0 {
        let m = (n - 1) as nat;
        lemma_groups_of_ordered(ds, order, sorted, m);
        let front = grouped(ds, order.take(m as int));
        let front_places = grouped(sorted, Seq::new(m, |i: int| i));
        assert(order.take(n as int).drop_last() =~= order.take(m as int));
        assert(order.take(n as int).last() == order[m as int]);
        assert(ids.drop_last() =~= Seq::new(m, |i: int| i));
        assert(ids.last() == m);
        let groups = grouped(ds, order.take(n as int));
        let places = grouped(sorted, ids);
        assert(groups == with_index(front, ds, order[m as int]));
        assert(places == with_index(front_places, sorted, m as int));
        if front.len() > 0 {
            let last = front.len() - 1;
            assert(front[last].len() > 0);
            assert(0 <= front_places[last][0] < m);
            assert(front.last()[0] == order[front_places.last()[0]]);
            assert(sorted[front_places.last()[0]] == ds[front.last()[0]]);
            assert(sorted[m as int] == ds[order[m as int]]);
        }
        assert forall|k: int, i: int| 0 <= k < groups.len() && 0 <= i < groups[k].len() implies 0
            <= #[trigger] places[k][i] < n && groups[k][i] == order[places[k][i]] by {
            if k < front.len() && i < front[k].len() {
                assert(places[k][i] == front_places[k][i]);
                assert(groups[k][i] == front[k][i]);
            }
        }
    } else {
        assert(order.take(0) =~= Seq::<int>::empty());
        assert(ids =~= Seq::<int>::empty());
    }
}

/// The lines of a page do not depend on the order in which its runs come, but for runs at the same
/// height, which keep theirs: they are the lines of the runs put in order from the top downwards.
pub proof fn law_runs_are_put_in_order<'a>(elements: Seq<&'a TextElement>)
    ensures
        page_lines(elements) == page_lines(ordered(elements, from_the_top())),
        ordered(elements, from_the_top()).to_multiset() == elements.to_multiset(),
        forall|i: int, j: int|
            0 <= i < j < elements.len() ==> (#[trigger] ordered(elements, from_the_top())[i]).y_min
                >= (#[trigger] ordered(elements, from_the_top())[j]).y_min,
{
    let n = elements.len();
    let ds = depths(elements);
    assert(ds =~= Seq::new(n, |i: int| from_the_top()(elements[i])));
    let order = stable_order(ds);
    let sorted = ordered(elements, from_the_top());
    law_stable_order(ds);
    law_arranging_keeps_items(elements, ds);
    assert forall|i: int, j: int| 0 <= i < j < sorted.len() implies (#[trigger] sorted[i]).y_min
        >= (#[trigger] sorted[j]).y_min by {
        assert(precedes(ds, order[i], order[j]));
        assert(0 <= order[i] < n && 0 <= order[j] < n);
    }
    lemma_top_down_stays(sorted);
    let ids = Seq::new(n, |i: int| i);
    let sorted_depths = depths(sorted);
    assert forall|i: int| 0 <= i < order.len() implies #[trigger] sorted_depths[i]
        == ds[order[i]] by {
        if order.len() == 1 {
            assert(order.contains(0));
        }
        assert(0 <= order[i] < n);
    }
    lemma_groups_of_ordered(ds, order, sorted_depths, n);
    assert(order.take(n as int) =~= order);
    let groups = grouped(ds, order);
    let places = grouped(sorted_depths, ids);
    let a = page_lines(elements);
    let b = page_lines(sorted);
    assert forall|k: int| 0 <= k < a.len() implies a[k] == b[k] by {
        let (g, h) = (groups[k], places[k]);
        assert(g.len() == h.len() && g.len() > 0);
        assert forall|i: int| 0 <= i < g.len() implies arranged(elements, g)[i] == arranged(
            sorted,
            h,
        )[i] by {
            assert(0 <= places[k][i] < n && groups[k][i] == order[places[k][i]]);
            assert(sorted[h[i]] == elements[order[h[i]]]);
        }
        assert(arranged(elements, g) =~= arranged(sorted, h));
        assert(0 <= places[k][0] < n && groups[k][0] == order[places[k][0]]);
        assert(elements[g[0]] == sorted[h[0]]);
    }
    assert(a =~= b);
}

} // verus!
