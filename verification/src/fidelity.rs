//! How well a page survived its rendering: the text that was kept, and the tables.
use crate::column_layout::{
    column_views, edges, greatest_right, law_edges, least_left, page_columns,
    partition_into_columns,
};
use crate::markdown_render::{is_content, law_rendering_keeps_content, page_markdown, run_weight};
use crate::order::total;
use crate::spatial_filter::{
    build_page_rtree, run_meets, runs_in_box, spatial_element, spatial_elements, tree_elements,
    PageTree,
};
use crate::table_grid::{detect_ruled_grid, ruled_grid};
use crate::text::{
    chars_of, count_filled_parts, count_where, filled_parts, is_space, lines, lines_of, space_char,
    trim_start, views,
};
use crate::types::{IngestionQuality, LineSegment, PageFidelityReport, Ratio, TextElement, POINT};
use vstd::prelude::*;

verus! {

/// The weight of the text that was kept, in hundredths of the score.
pub const W1_CHAR_RETENTION: i32 = 40;

/// The weight of the tables, in hundredths of the score.
pub const W2_TABLE_MATRIX: i32 = 60;

/// A page with this score or a higher one passes, in hundredths.
pub const PASS_THRESHOLD: i32 = 90;

/// A page with this score or a higher one is let through with a warning, in hundredths.
pub const WARNING_THRESHOLD: i32 = 70;

/// How far from the height of a run its row reaches, up and down.
pub const GRID_ROW_TOLERANCE: i64 = 3_000_000;

/// Rows and columns of a table.
pub type Grid = (usize, usize);

/// Whether Unicode counts a character among letters and numbers.
pub uninterp spec fn alphanumeric(c: char) -> bool;

/// `char::is_alphanumeric` tells letters and numbers from other characters. Among the ASCII
/// characters these are the letters from a to z, small and capital, and the digits.
pub assume_specification[ char::is_alphanumeric ](c: char) -> (r: bool)
    ensures
        r == alphanumeric(c),
        (c as u32) < 128 ==> r == (('a' <= c && c <= 'z') || ('A' <= c && c <= 'Z') || ('0' <= c
            && c <= '9')),
;

/// Whether a character is a letter or number: no white space, among the ASCII characters a letter
/// from a to z or a digit, and beyond them what Unicode counts as one.
pub open spec fn is_alnum(c: char) -> bool {
    &&& !is_space(c)
    &&& if (c as u32) < 128 {
        ('a' <= c && c <= 'z') || ('A' <= c && c <= 'Z') || ('0' <= c && c <= '9')
    } else {
        alphanumeric(c)
    }
}

/// The property of being a letter or number.
pub open spec fn alnum() -> spec_fn(char) -> bool {
    |c: char| is_alnum(c)
}

/// Counts the letters and numbers of a text.
pub fn alnum_count(s: &str) -> (n: usize)
    ensures
        n == count_where(s@, alnum()),
{
    let cs: Vec<char> = chars_of(s);
    let mut n: usize = 0;
    let mut i: usize = 0;
    while i < cs.len()
        invariant
            i <= cs@.len(),
            n == count_where(cs@.take(i as int), alnum()),
            n <= i,
        decreases cs@.len() - i,
    {
        assert(cs@.take(i + 1).drop_last() =~= cs@.take(i as int));
        assert(cs@.take(i + 1).last() == cs@[i as int]);
        if !space_char(cs[i]) && cs[i].is_alphanumeric() {
            n = n + 1;
        }
        i = i + 1;
    }
    assert(cs@.take(i as int) =~= cs@);
    n
}

/// How many characters some runs hold.
pub open spec fn text_length(elements: Seq<&TextElement>) -> nat
    decreases elements.len(),
{
    if elements.len() == 0 {
        0
    } else {
        text_length(elements.drop_last()) + elements.last().text@.len()
    }
}

/// Whether the characters of some runs can be counted in a `usize`.
pub fn text_fits(elements: &[&TextElement]) -> (r: bool)
    ensures
        r == (text_length(elements@) <= usize::MAX),
{
    let mut sum: usize = 0;
    let mut i: usize = 0;
    assert(elements@.take(0) =~= Seq::<&TextElement>::empty());
    while i < elements.len()
        invariant
            i <= elements@.len(),
            sum == text_length(elements@.take(i as int)),
        decreases elements@.len() - i,
    {
        assert(elements@.take(i + 1).drop_last() =~= elements@.take(i as int));
        let n: usize = chars_of(elements[i].text.as_str()).len();
        match sum.checked_add(n) {
            Some(more) => {
                sum = more;
            },
            None => {
                proof {
                    lemma_text_length_grows(elements@, i + 1);
                }
                return false;
            },
        }
        i = i + 1;
    }
    assert(elements@.take(i as int) =~= elements@);
    true
}

proof fn lemma_text_length_grows(elements: Seq<&TextElement>, k: int)
    requires
        0 <= k <= elements.len(),
    ensures
        text_length(elements.take(k)) <= text_length(elements),
    decreases elements.len(),
{
    if k == elements.len() {
        assert(elements.take(k) =~= elements);
    } else {
        lemma_text_length_grows(elements.drop_last(), k);
        assert(elements.drop_last().take(k) =~= elements.take(k));
    }
}

proof fn lemma_count_bound(s: Seq<char>, p: spec_fn(char) -> bool)
    ensures
        count_where(s, p) <= s.len(),
    decreases s.len(),
{
    if s.len() > 0 {
        lemma_count_bound(s.drop_last(), p);
    }
}

proof fn lemma_weight_bound(elements: Seq<&TextElement>, p: spec_fn(char) -> bool)
    ensures
        total(elements, run_weight(p)) <= text_length(elements),
    decreases elements.len(),
{
    if elements.len() > 0 {
        lemma_weight_bound(elements.drop_last(), p);
        lemma_count_bound(elements.last().text@, p);
    }
}

/// The part of `expected` characters that `found` characters stand for, as a fraction: 1 less
/// the part that is missing or too many, and no less than 0. Nothing is lost of nothing.
pub open spec fn retention(expected: nat, found: nat) -> (int, int) {
    if expected == 0 {
        (1, 1)
    } else if found <= expected {
        (found as int, expected as int)
    } else if found <= 2 * expected {
        (2 * expected - found, expected as int)
    } else {
        (0, expected as int)
    }
}

/// The part of the letters and numbers of the kept runs that the Markdown holds.
pub fn char_retention(kept_elements: &[&TextElement], markdown_text: &str) -> (r: Ratio)
    requires
        text_length(kept_elements@) <= usize::MAX,
    ensures
        (r.num as int, r.den as int) == retention(
            total(kept_elements@, run_weight(alnum())),
            count_where(markdown_text@, alnum()),
        ),
        r.valid(),
        0 <= r.num <= r.den <= usize::MAX,
{
    let mut raw: usize = 0;
    let mut i: usize = 0;
    assert(kept_elements@.take(0) =~= Seq::<&TextElement>::empty());
    while i < kept_elements.len()
        invariant
            i <= kept_elements@.len(),
            text_length(kept_elements@) <= usize::MAX,
            raw == total(kept_elements@.take(i as int), run_weight(alnum())),
        decreases kept_elements@.len() - i,
    {
        proof {
            assert(kept_elements@.take(i + 1).drop_last() =~= kept_elements@.take(i as int));
            lemma_weight_bound(kept_elements@.take(i + 1), alnum());
            lemma_text_length_grows(kept_elements@, i + 1);
        }
        raw = raw + alnum_count(kept_elements[i].text.as_str());
        i = i + 1;
    }
    assert(kept_elements@.take(i as int) =~= kept_elements@);
    let found: usize = alnum_count(markdown_text);
    if raw == 0 {
        return Ratio { num: 1, den: 1 };
    }
    let den: i128 = raw as i128;
    let num: i128 = if found <= raw {
        found as i128
    } else if found as i128 <= 2 * den {
        2 * den - found as i128
    } else {
        0
    };
    Ratio { num, den }
}

/// Whether run `k` shares the row of run `i`: its box meets the strip across the page that
/// reaches as far up and down from the foot of run `i` as the tolerance.
pub open spec fn in_row(elements: Seq<&TextElement>, i: int, k: int) -> bool {
    run_meets(
        elements,
        k,
        least_left(elements) - POINT,
        elements[i].y_min - GRID_ROW_TOLERANCE,
        greatest_right(elements) + POINT,
        elements[i].y_min + GRID_ROW_TOLERANCE,
    )
}

/// How many of the first `n` runs share the row of run `i`.
pub open spec fn row_size(elements: Seq<&TextElement>, i: int, n: nat) -> nat
    decreases n,
{
    if n == 0 {
        0
    } else {
        row_size(elements, i, (n - 1) as nat) + if in_row(elements, i, n - 1) {
            1nat
        } else {
            0
        }
    }
}

/// Whether run `k` shares the row of one of the first `n` runs that started a row: run `i`
/// starts a row where it shares that of no run before it.
pub open spec fn is_visited(elements: Seq<&TextElement>, n: nat, k: int) -> bool
    decreases n,
{
    if n == 0 {
        false
    } else {
        let before = (n - 1) as nat;
        is_visited(elements, before, k) || (!is_visited(elements, before, n - 1) && in_row(
            elements,
            n - 1,
            k,
        ))
    }
}

/// The sizes of the rows that the first `n` runs start, without the rows of a single run.
pub open spec fn row_sizes(elements: Seq<&TextElement>, n: nat) -> Seq<nat>
    decreases n,
{
    if n == 0 {
        Seq::empty()
    } else {
        let front = row_sizes(elements, (n - 1) as nat);
        let size = row_size(elements, n - 1, elements.len());
        if !is_visited(elements, (n - 1) as nat, n - 1) && size >= 2 {
            front.push(size)
        } else {
            front
        }
    }
}

/// The least of some sizes.
pub open spec fn least(sizes: Seq<nat>) -> nat
    decreases sizes.len(),
{
    if sizes.len() <= 1 {
        sizes[0]
    } else {
        let front = least(sizes.drop_last());
        if sizes.last() < front {
            sizes.last()
        } else {
            front
        }
    }
}

/// The table that the alignment of the runs shows: two rows at least of two runs at least, and
/// as many columns as the shortest row has runs. It takes four runs.
pub open spec fn spatial_grid(elements: Seq<&TextElement>) -> Option<(nat, nat)> {
    let sizes = row_sizes(elements, elements.len());
    if elements.len() < 4 || sizes.len() < 2 {
        None
    } else {
        Some((sizes.len(), least(sizes)))
    }
}

proof fn lemma_row_size(found: Seq<usize>, elements: Seq<&TextElement>, i: int, n: nat)
    requires
        n <= elements.len() <= usize::MAX,
        found.no_duplicates(),
        forall|j: usize| #[trigger]
            found.contains(j) <==> j < n && in_row(elements, i, j as int),
    ensures
        found.len() == row_size(elements, i, n),
    decreases n,
{
    if n == 0 {
        if found.len() > 0 {
            assert(found.contains(found[0]));
        }
    } else {
        let m = (n - 1) as nat;
        let last = m as usize;
        if in_row(elements, i, m as int) {
            assert(found.contains(last));
            let at = choose|at: int| 0 <= at < found.len() && found[at] == last;
            let rest = found.remove(at);
            assert(rest.no_duplicates());
            assert forall|j: usize| #[trigger] rest.contains(j) <==> j < m && in_row(
                elements,
                i,
                j as int,
            ) by {
                if rest.contains(j) {
                    let x = choose|x: int| 0 <= x < rest.len() && rest[x] == j;
                    let y = if x < at {
                        x
                    } else {
                        x + 1
                    };
                    assert(found[y] == j);
                    assert(found.contains(j));
                    assert(j != last);
                }
                if j < m && in_row(elements, i, j as int) {
                    assert(found.contains(j));
                    let y = choose|y: int| 0 <= y < found.len() && found[y] == j;
                    assert(rest[if y < at {
                        y
                    } else {
                        y - 1
                    }] == j);
                }
            }
            lemma_row_size(rest, elements, i, m);
        } else {
            assert forall|j: usize| #[trigger] found.contains(j) <==> j < m && in_row(
                elements,
                i,
                j as int,
            ) by {}
            lemma_row_size(found, elements, i, m);
        }
    }
}

/// The table that the alignment of the runs shows, where there is one.
pub fn detect_spatial_grid(kept_elements: &[&TextElement]) -> (r: Option<Grid>)
    ensures
        r is Some == spatial_grid(kept_elements@) is Some,
        r matches Some((rows, cols)) ==> spatial_grid(kept_elements@) == Some(
            (rows as nat, cols as nat),
        ),
{
    if kept_elements.len() < 4 {
        return None;
    }
    let ghost elements = kept_elements@;
    let count: usize = kept_elements.len();
    let tree: PageTree = build_page_rtree(kept_elements);
    let (left, right): (i64, i64) = edges(kept_elements);
    let x0: i128 = left as i128 - POINT as i128;
    let x1: i128 = right as i128 + POINT as i128;
    let mut visited: Vec<bool> = Vec::new();
    let mut v: usize = 0;
    while v < count
        invariant
            v <= count,
            visited@.len() == v,
            forall|k: int| 0 <= k < v ==> !#[trigger] visited@[k],
        decreases count - v,
    {
        visited.push(false);
        v = v + 1;
    }
    let mut rows: usize = 0;
    let mut cols: usize = 0;
    let mut i: usize = 0;
    while i < count
        invariant
            i <= count,
            count == elements.len(),
            elements == kept_elements@,
            elements.len() > 0,
            tree_elements(tree) == spatial_elements(elements).to_multiset(),
            x0 == least_left(elements) - POINT,
            x1 == greatest_right(elements) + POINT,
            visited@.len() == count,
            forall|k: int|
                0 <= k < count ==> #[trigger] visited@[k] == is_visited(elements, i as nat, k),
            rows == row_sizes(elements, i as nat).len(),
            rows > 0 ==> cols == least(row_sizes(elements, i as nat)),
            rows <= i,
        decreases count - i,
    {
        let ghost before = visited@;
        if !visited[i] {
            let y: i128 = kept_elements[i].y_min as i128;
            let members: Vec<usize> = runs_in_box(
                &tree,
                Ghost(elements),
                x0,
                y - GRID_ROW_TOLERANCE as i128,
                x1,
                y + GRID_ROW_TOLERANCE as i128,
            );
            proof {
                assert forall|j: usize| #[trigger]
                    members@.contains(j) <==> j < elements.len() && in_row(
                        elements,
                        i as int,
                        j as int,
                    ) by {}
                lemma_row_size(members@, elements, i as int, elements.len());
            }
            let mut m: usize = 0;
            while m < members.len()
                invariant
                    m <= members@.len(),
                    visited@.len() == count,
                    before.len() == count,
                    count == elements.len(),
                    forall|j: usize| #[trigger] members@.contains(j) ==> j < elements.len(),
                    forall|k: int|
                        0 <= k < count ==> #[trigger] visited@[k] == (before[k] || members@.take(
                            m as int,
                        ).contains(k as usize)),
                decreases members@.len() - m,
            {
                let at: usize = members[m];
                assert(members@.contains(at));
                let ghost earlier = visited@;
                visited.set(at, true);
                proof {
                    let head = members@.take(m as int);
                    let next = members@.take(m + 1);
                    assert(next =~= head.push(at));
                    assert forall|k: int| 0 <= k < count implies #[trigger] visited@[k] == (
                    before[k] || next.contains(k as usize)) by {
                        if k == at {
                            assert(next[m as int] == at);
                        } else {
                            assert(visited@[k] == earlier[k]);
                            if head.contains(k as usize) {
                                let z = choose|z: int| 0 <= z < head.len() && head[z] == k as usize;
                                assert(next[z] == k as usize);
                            }
                            if next.contains(k as usize) {
                                let z = choose|z: int| 0 <= z < next.len() && next[z] == k as usize;
                                assert(head[z] == k as usize);
                            }
                        }
                    }
                }
                m = m + 1;
            }
            proof {
                assert(members@.take(m as int) =~= members@);
                assert forall|k: int| 0 <= k < count implies #[trigger] visited@[k] == is_visited(
                    elements,
                    (i + 1) as nat,
                    k,
                ) by {
                    assert(before[k] == is_visited(elements, i as nat, k));
                    assert(members@.contains(k as usize) <==> in_row(elements, i as int, k));
                }
            }
            let size: usize = members.len();
            if size >= 2 {
                let ghost sizes = row_sizes(elements, i as nat);
                assert(sizes.push(size as nat).drop_last() =~= sizes);
                if rows == 0 || size < cols {
                    cols = size;
                }
                rows = rows + 1;
            }
        }
        i = i + 1;
    }
    if rows < 2 {
        return None;
    }
    Some((rows, cols))
}

/// The table of a page: the one that its lines draw, and otherwise the first that the alignment
/// in one of its columns shows.
pub open spec fn pdf_grid(elements: Seq<&TextElement>, lines: Seq<LineSegment>) -> Option<(int, int)> {
    match ruled_grid(lines) {
        Some(grid) => Some(grid),
        None => first_spatial_grid(page_columns(elements)),
    }
}

/// The first table that the alignment in one of the columns shows.
pub open spec fn first_spatial_grid(columns: Seq<Seq<&TextElement>>) -> Option<(int, int)>
    decreases columns.len(),
{
    if columns.len() == 0 {
        None
    } else {
        match spatial_grid(columns[0]) {
            Some((rows, cols)) => Some((rows as int, cols as int)),
            None => first_spatial_grid(columns.skip(1)),
        }
    }
}

pub open spec fn grid_value(grid: Option<Grid>) -> Option<(int, int)> {
    match grid {
        Some((rows, cols)) => Some((rows as int, cols as int)),
        None => None,
    }
}

/// The table of a page, where there is one: drawn rules count before alignment, and alignment
/// counts within each column only.
pub fn detect_pdf_grid(kept_elements: &[&TextElement], vector_lines: &[LineSegment]) -> (r: Option<Grid>)
    ensures
        grid_value(r) == pdf_grid(kept_elements@, vector_lines@),
{
    if let Some(grid) = detect_ruled_grid(vector_lines) {
        return Some(grid);
    }
    let columns: Vec<Vec<&TextElement>> = partition_into_columns(kept_elements);
    let ghost all = column_views(columns@);
    let mut i: usize = 0;
    assert(all.skip(0) =~= all);
    while i < columns.len()
        invariant
            i <= columns@.len(),
            ruled_grid(vector_lines@) is None,
            all == column_views(columns@),
            all == page_columns(kept_elements@),
            first_spatial_grid(all) == first_spatial_grid(all.skip(i as int)),
        decreases columns@.len() - i,
    {
        assert(all.skip(i as int)[0] == columns@[i as int]@);
        assert(all.skip(i as int).skip(1) =~= all.skip(i + 1));
        if let Some(grid) = detect_spatial_grid(&columns[i]) {
            return Some(grid);
        }
        i = i + 1;
    }
    None
}

/// Whether a character may stand in the line below the first row of a Markdown table.
pub open spec fn is_rule_char(c: char) -> bool {
    c == '|' || c == '-' || c == ':' || is_space(c)
}

/// Whether a line is a row of a Markdown table, and not the line below its first row.
pub open spec fn is_table_row(line: Seq<char>) -> bool {
    let start = trim_start(line);
    &&& start.len() > 0 && start[0] == '|'
    &&& exists|i: int| 0 <= i < line.len() && !is_rule_char(#[trigger] line[i])
}

/// The rows of Markdown tables among some lines.
pub open spec fn table_rows_among(lines: Seq<Seq<char>>) -> Seq<Seq<char>>
    decreases lines.len(),
{
    if lines.len() == 0 {
        Seq::empty()
    } else {
        let front = table_rows_among(lines.drop_last());
        if is_table_row(lines.last()) {
            front.push(lines.last())
        } else {
            front
        }
    }
}

/// The table of a Markdown text: two rows at least, and as many columns as the first row has
/// filled cells, two at least.
pub open spec fn md_grid(text: Seq<char>) -> Option<(int, int)> {
    let rows = table_rows_among(lines_of(text));
    if rows.len() < 2 || filled_parts(rows[0], '|') < 2 {
        None
    } else {
        Some((rows.len() as int, filled_parts(rows[0], '|') as int))
    }
}

fn table_row(line: &[char]) -> (r: bool)
    ensures
        r == is_table_row(line@),
{
    let mut start: usize = 0;
    assert(line@.skip(0) =~= line@);
    while start < line.len() && space_char(line[start])
        invariant
            start <= line@.len(),
            trim_start(line@.skip(start as int)) == trim_start(line@),
        decreases line@.len() - start,
    {
        assert(line@.skip(start as int).skip(1) =~= line@.skip(start + 1));
        start = start + 1;
    }
    assert(trim_start(line@) == line@.skip(start as int));
    if start == line.len() || line[start] != '|' {
        return false;
    }
    let mut i: usize = 0;
    while i < line.len()
        invariant
            i <= line@.len(),
            start < line@.len(),
            trim_start(line@) == line@.skip(start as int),
            line@[start as int] == '|',
            forall|j: int| 0 <= j < i ==> is_rule_char(#[trigger] line@[j]),
        decreases line@.len() - i,
    {
        let c: char = line[i];
        if !(c == '|' || c == '-' || c == ':' || space_char(c)) {
            assert(!is_rule_char(line@[i as int]));
            return true;
        }
        i = i + 1;
    }
    false
}

/// The table of a Markdown text, where there is one.
pub fn detect_md_grid(markdown_text: &str) -> (r: Option<Grid>)
    ensures
        grid_value(r) == md_grid(markdown_text@),
{
    let cs: Vec<char> = chars_of(markdown_text);
    let all: Vec<Vec<char>> = lines(&cs);
    let ghost texts = views(all@);
    let mut rows: usize = 0;
    let mut cols: usize = 0;
    let mut i: usize = 0;
    assert(texts.take(0) =~= Seq::<Seq<char>>::empty());
    while i < all.len()
        invariant
            i <= all@.len(),
            texts == views(all@),
            rows == table_rows_among(texts.take(i as int)).len(),
            rows > 0 ==> cols == filled_parts(table_rows_among(texts.take(i as int))[0], '|'),
            rows <= i,
        decreases all@.len() - i,
    {
        assert(texts.take(i + 1).drop_last() =~= texts.take(i as int));
        assert(texts.take(i + 1).last() == all@[i as int]@);
        if table_row(&all[i]) {
            if rows == 0 {
                cols = count_filled_parts(&all[i], '|');
            }
            rows = rows + 1;
        }
        i = i + 1;
    }
    assert(texts.take(i as int) =~= texts);
    if rows < 2 || cols < 2 {
        return None;
    }
    Some((rows, cols))
}

/// How the tables of a page and of its Markdown agree: the score, and where a table was found.
/// Without a table on the page there is nothing to preserve.
pub open spec fn matrix_score(pdf: Option<(int, int)>, md: Option<(int, int)>) -> (int, bool, bool) {
    (
        if pdf is None || pdf == md {
            1int
        } else {
            0
        },
        pdf is Some,
        md is Some,
    )
}

/// Compares the tables of a page and of its Markdown.
pub fn table_matrix_score(pdf_grid: Option<Grid>, md_grid: Option<Grid>) -> (r: (u8, bool, bool))
    ensures
        (r.0 as int, r.1, r.2) == matrix_score(grid_value(pdf_grid), grid_value(md_grid)),
{
    match (pdf_grid, md_grid) {
        (None, None) => (1, false, false),
        (None, Some(_)) => (1, false, true),
        (Some(p), Some(m)) => if p.0 == m.0 && p.1 == m.1 {
            (1, true, true)
        } else {
            (0, true, true)
        },
        (Some(_), None) => (0, true, false),
    }
}

/// The score of a page, as a fraction: the text that was kept and the tables, weighted.
pub open spec fn fidelity_score(kept: (int, int), t_matrix: int) -> (int, int) {
    (W1_CHAR_RETENTION * kept.0 + W2_TABLE_MATRIX * t_matrix * kept.1, 100 * kept.1)
}

/// The verdict on a score.
pub open spec fn quality_of(score: (int, int)) -> IngestionQuality {
    if 100 * score.0 >= PASS_THRESHOLD * score.1 {
        IngestionQuality::Pass
    } else if 100 * score.0 >= WARNING_THRESHOLD * score.1 {
        IngestionQuality::Warning
    } else {
        IngestionQuality::Quarantined
    }
}

/// A report as a value.
#[verifier::ext_equal]
pub ghost struct ReportView {
    pub page_num: usize,
    pub c_retention: (int, int),
    pub t_matrix: int,
    pub s_fidelity: (int, int),
    pub quality: IngestionQuality,
    pub table_detected_in_pdf: bool,
    pub table_detected_in_md: bool,
}

impl View for PageFidelityReport {
    type V = ReportView;

    open spec fn view(&self) -> ReportView {
        ReportView {
            page_num: self.page_num,
            c_retention: (self.c_retention.num as int, self.c_retention.den as int),
            t_matrix: self.t_matrix as int,
            s_fidelity: (self.s_fidelity.num as int, self.s_fidelity.den as int),
            quality: self.quality,
            table_detected_in_pdf: self.table_detected_in_pdf,
            table_detected_in_md: self.table_detected_in_md,
        }
    }
}

/// The report on a page, from the text that was kept and the tables.
pub open spec fn report_of(
    page_num: usize,
    kept: (int, int),
    pdf: Option<(int, int)>,
    md: Option<(int, int)>,
) -> ReportView {
    let (t_matrix, in_pdf, in_md) = matrix_score(pdf, md);
    let score = fidelity_score(kept, t_matrix);
    ReportView {
        page_num,
        c_retention: kept,
        t_matrix,
        s_fidelity: score,
        quality: quality_of(score),
        table_detected_in_pdf: in_pdf,
        table_detected_in_md: in_md,
    }
}

/// The report on a page with the given runs, Markdown and lines.
pub open spec fn page_report(
    page_num: usize,
    kept: Seq<&TextElement>,
    markdown: Seq<char>,
    lines: Seq<LineSegment>,
) -> ReportView {
    report_of(
        page_num,
        retention(total(kept, run_weight(alnum())), count_where(markdown, alnum())),
        pdf_grid(kept, lines),
        md_grid(markdown),
    )
}

/// The report on a page, from the text that was kept and the tables.
pub fn report_from(page_num: usize, kept: Ratio, pdf: Option<Grid>, md: Option<Grid>) -> (r: PageFidelityReport)
    requires
        0 <= kept.num <= kept.den <= usize::MAX,
        0 < kept.den,
    ensures
        r@ == report_of(
            page_num,
            (kept.num as int, kept.den as int),
            grid_value(pdf),
            grid_value(md),
        ),
        r.s_fidelity.valid(),
{
    let (t_matrix, in_pdf, in_md): (u8, bool, bool) = table_matrix_score(pdf, md);
    let tables: i128 = if t_matrix == 1 {
        W2_TABLE_MATRIX as i128 * kept.den
    } else {
        0
    };
    assert(tables == W2_TABLE_MATRIX * (t_matrix as int) * kept.den) by {
        if t_matrix == 1 {
            assert(W2_TABLE_MATRIX * 1 * kept.den == W2_TABLE_MATRIX * kept.den);
        } else {
            assert(t_matrix == 0);
            assert(W2_TABLE_MATRIX * 0 * kept.den == 0) by (nonlinear_arith);
        }
    }
    let s_fidelity = Ratio {
        num: W1_CHAR_RETENTION as i128 * kept.num + tables,
        den: 100 * kept.den,
    };
    let quality: IngestionQuality = if s_fidelity.at_least_percent(PASS_THRESHOLD) {
        IngestionQuality::Pass
    } else if s_fidelity.at_least_percent(WARNING_THRESHOLD) {
        IngestionQuality::Warning
    } else {
        IngestionQuality::Quarantined
    };
    PageFidelityReport {
        page_num,
        c_retention: kept,
        t_matrix,
        s_fidelity,
        quality,
        table_detected_in_pdf: in_pdf,
        table_detected_in_md: in_md,
    }
}

/// Scores a page: the runs that were kept against their Markdown.
pub fn score_page(
    page_num: usize,
    kept_elements: &[&TextElement],
    markdown_text: &str,
    vector_lines: &[LineSegment],
) -> (r: PageFidelityReport)
    requires
        text_length(kept_elements@) <= usize::MAX,
    ensures
        r@ == page_report(page_num, kept_elements@, markdown_text@, vector_lines@),
        r.s_fidelity.valid(),
{
    let kept: Ratio = char_retention(kept_elements, markdown_text);
    let pdf: Option<Grid> = detect_pdf_grid(kept_elements, vector_lines);
    let md: Option<Grid> = detect_md_grid(markdown_text);
    report_from(page_num, kept, pdf, md)
}

/// What is kept of a text lies between nothing and all of it. All is kept exactly where there is
/// nothing to keep or as many characters are found as expected, and nothing exactly where none is
/// found of some that are expected, or twice as many as expected or more.
pub proof fn law_retention_range(expected: nat, found: nat)
    ensures
        0 <= retention(expected, found).0 <= retention(expected, found).1,
        retention(expected, found).1 > 0,
        retention(expected, found).0 == retention(expected, found).1 <==> expected == 0 || found
            == expected,
        retention(expected, found).0 == 0 <==> expected > 0 && (found == 0 || found >= 2
            * expected),
{
}

/// Characters too many count as much as characters that are missing.
pub proof fn law_surplus_counts_as_loss(expected: nat, difference: nat)
    requires
        difference <= expected,
    ensures
        retention(expected, (expected - difference) as nat) == retention(
            expected,
            expected + difference,
        ),
{
}

/// The report on a page holds the number of the page, the part of its letters and numbers that
/// the Markdown holds, how the tables of both agree, and their weighted sum; the verdict is that
/// of the sum, and a page with a table lost or changed is quarantined.
pub proof fn law_page_report(
    page_num: usize,
    kept: Seq<&TextElement>,
    markdown: Seq<char>,
    lines: Seq<LineSegment>,
)
    ensures
        ({
            let report = page_report(page_num, kept, markdown, lines);
            let (t_matrix, in_pdf, in_md) = matrix_score(pdf_grid(kept, lines), md_grid(markdown));
            let part = retention(
                total(kept, run_weight(alnum())),
                count_where(markdown, alnum()),
            );
            let score = report.s_fidelity;
            &&& report.page_num == page_num
            &&& report.c_retention == part
            &&& (report.t_matrix, report.table_detected_in_pdf, report.table_detected_in_md) == (
                t_matrix,
                in_pdf,
                in_md,
            )
            &&& t_matrix == 0 || t_matrix == 1
            &&& 0 <= score.0 <= score.1 && score.1 == 100 * part.1 && score.1 > 0
            &&& score.0 == 40 * part.0 + 60 * t_matrix * part.1
            &&& report.quality == IngestionQuality::Pass <==> 100 * score.0 >= 90 * score.1
            &&& report.quality == IngestionQuality::Warning <==> 70 * score.1 <= 100 * score.0 < 90
                * score.1
            &&& report.quality == IngestionQuality::Quarantined <==> 100 * score.0 < 70 * score.1
            &&& t_matrix == 0 ==> report.quality == IngestionQuality::Quarantined
        }),
{
    let part = retention(total(kept, run_weight(alnum())), count_where(markdown, alnum()));
    law_retention_range(total(kept, run_weight(alnum())), count_where(markdown, alnum()));
    law_score_range(part, pdf_grid(kept, lines), md_grid(markdown));
    law_quality_verdict(page_num, part, pdf_grid(kept, lines), md_grid(markdown));
}

/// The library's own rendering of a page keeps all of its content: whatever counts as content,
/// the rendered page is not scored down for it.
pub proof fn law_rendered_page_is_retained(
    elements: Seq<&TextElement>,
    body_size: int,
    sizes: Seq<i64>,
    p: spec_fn(char) -> bool,
)
    requires
        is_content(p),
    ensures
        ({
            let kept = retention(
                total(elements, run_weight(p)),
                count_where(page_markdown(elements, body_size, sizes), p),
            );
            kept.0 == kept.1
        }),
{
    law_rendering_keeps_content(elements, body_size, sizes, p);
}

/// Letters and numbers are content: neither white space nor marks of Markdown are among them.
pub proof fn law_letters_are_content()
    ensures
        is_content(alnum()),
{
}

/// The library's own rendering of a page keeps all of its letters and numbers.
pub proof fn law_rendered_page_is_kept(elements: Seq<&TextElement>, body_size: int, sizes: Seq<i64>)
    ensures
        ({
            let kept = retention(
                total(elements, run_weight(alnum())),
                count_where(page_markdown(elements, body_size, sizes), alnum()),
            );
            kept.0 == kept.1
        }),
{
    law_letters_are_content();
    law_rendered_page_is_retained(elements, body_size, sizes, alnum());
}

/// With the tables in order a page passes where three quarters of its text were kept,
/// and is let through with a warning where a quarter was; with a table lost or changed it is
/// quarantined whatever was kept.
pub proof fn law_quality_verdict(
    page_num: usize,
    kept: (int, int),
    pdf: Option<(int, int)>,
    md: Option<(int, int)>,
)
    requires
        0 <= kept.0 <= kept.1,
        kept.1 > 0,
    ensures
        ({
            let quality = report_of(page_num, kept, pdf, md).quality;
            let in_order = pdf is None || pdf == md;
            &&& quality == IngestionQuality::Pass <==> in_order && 4 * kept.0 >= 3 * kept.1
            &&& quality == IngestionQuality::Warning <==> in_order && kept.1 <= 4 * kept.0 < 3
                * kept.1
            &&& quality == IngestionQuality::Quarantined <==> !in_order || 4 * kept.0 < kept.1
        }),
{
    let t = matrix_score(pdf, md).0;
    if t == 1 {
        assert(W2_TABLE_MATRIX * t * kept.1 == 60 * kept.1);
    } else {
        assert(t == 0);
        assert(W2_TABLE_MATRIX * t * kept.1 == 0) by (nonlinear_arith)
            requires
                t == 0,
        ;
    }
}

/// A score lies between 0 and 1.
pub proof fn law_score_range(kept: (int, int), pdf: Option<(int, int)>, md: Option<(int, int)>)
    requires
        0 <= kept.0 <= kept.1,
        kept.1 > 0,
    ensures
        ({
            let score = fidelity_score(kept, matrix_score(pdf, md).0);
            0 <= score.0 <= score.1 && score.1 > 0
        }),
{
    let t = matrix_score(pdf, md).0;
    if t == 1 {
        assert(W2_TABLE_MATRIX * t * kept.1 == 60 * kept.1);
    } else {
        assert(t == 0);
        assert(W2_TABLE_MATRIX * t * kept.1 == 0) by (nonlinear_arith)
            requires
                t == 0,
        ;
    }
}

/// Drawn rules decide before alignment does.
pub proof fn law_ruled_grid_comes_first(elements: Seq<&TextElement>, lines: Seq<LineSegment>)
    requires
        ruled_grid(lines) is Some,
    ensures
        pdf_grid(elements, lines) == ruled_grid(lines),
{
}

proof fn lemma_row_sizes(elements: Seq<&TextElement>, n: nat)
    ensures
        forall|i: int|
            0 <= i < row_sizes(elements, n).len() ==> #[trigger] row_sizes(elements, n)[i] >= 2,
        row_sizes(elements, n).len() <= n,
    decreases n,
{
    if n > 0 {
        let front = row_sizes(elements, (n - 1) as nat);
        let all = row_sizes(elements, n);
        lemma_row_sizes(elements, (n - 1) as nat);
        assert forall|i: int| 0 <= i < all.len() implies #[trigger] all[i] >= 2 by {
            if i < front.len() {
                assert(all[i] == front[i]);
            }
        }
    }
}

proof fn lemma_least(sizes: Seq<nat>)
    requires
        sizes.len() > 0,
        forall|i: int| 0 <= i < sizes.len() ==> #[trigger] sizes[i] >= 2,
    ensures
        least(sizes) >= 2,
    decreases sizes.len(),
{
    if sizes.len() > 1 {
        assert forall|i: int| 0 <= i < sizes.drop_last().len() implies #[trigger] sizes.drop_last()[i]
            >= 2 by {
            assert(sizes.drop_last()[i] == sizes[i]);
        }
        lemma_least(sizes.drop_last());
    }
}

/// A table that alignment or Markdown shows has two rows and two columns at least.
pub proof fn law_grids_are_tables(elements: Seq<&TextElement>, text: Seq<char>)
    ensures
        spatial_grid(elements) matches Some((rows, cols)) ==> rows >= 2 && cols >= 2,
        md_grid(text) matches Some((rows, cols)) ==> rows >= 2 && cols >= 2,
{
    let sizes = row_sizes(elements, elements.len());
    lemma_row_sizes(elements, elements.len());
    if sizes.len() > 0 {
        lemma_least(sizes);
    }
}

/// What is kept of some characters is the part of them that is neither missing nor too many: as a
/// value, what is expected less the difference, over what is expected, and no less than nothing.
pub proof fn law_retention_value(expected: nat, found: nat)
    ensures
        ({
            let (num, den) = retention(expected, found);
            let difference = if found <= expected {
                expected - found
            } else {
                found - expected
            };
            let left = if difference <= expected {
                expected - difference
            } else {
                0
            };
            &&& den > 0
            &&& expected > 0 ==> num * expected == den * left
            &&& expected == 0 ==> num == den
        }),
{
    let left = retention(expected, found).0;
    if expected > 0 {
        assert(left * expected == expected * left) by (nonlinear_arith);
    }
}

/// Losing more lowers what is kept.
pub proof fn law_losing_more_is_worse(expected: nat, found: nat, fewer: nat)
    requires
        fewer < found <= expected,
    ensures
        retention(expected, fewer).0 * retention(expected, found).1 < retention(expected, found).0
            * retention(expected, fewer).1,
{
    assert(fewer * expected < found * expected) by (nonlinear_arith)
        requires
            fewer < found <= expected,
    ;
}

/// Letters and numbers are, among the ASCII characters, the letters from a to z, small and capital,
/// and the digits; beyond them, what Unicode counts as one and no white space.
pub proof fn law_letters_and_numbers(c: char)
    ensures
        (c as u32) < 128 ==> (is_alnum(c) <==> ('a' <= c && c <= 'z') || ('A' <= c && c <= 'Z') || (
        '0' <= c && c <= '9')),
        (c as u32) >= 128 ==> (is_alnum(c) <==> alphanumeric(c) && !is_space(c)),
        alnum()(c) == is_alnum(c),
{
}

/// Where a page has no table, and where its Markdown has the same one, the tables agree; where a
/// table is missing or has other rows or columns, they do not.
pub proof fn law_tables_are_compared(rows: int, cols: int, md: Option<(int, int)>)
    ensures
        matrix_score(None, md) == (1int, false, md is Some),
        matrix_score(Some((rows, cols)), Some((rows, cols))) == (1int, true, true),
        matrix_score(Some((rows, cols)), None) == (0int, true, false),
        md != Some((rows, cols)) ==> matrix_score(Some((rows, cols)), md) == (0int, true, md is Some),
{
}

/// A line is a row of a Markdown table where its first character but for white space is a `|`, and
/// it holds a character besides `|`, `-`, `:` and white space.
pub proof fn law_table_lines(line: Seq<char>, k: int, i: int)
    requires
        0 <= k < line.len(),
        forall|j: int| 0 <= j < k ==> is_space(#[trigger] line[j]),
        !is_space(line[k]),
    ensures
        line[k] != '|' ==> !is_table_row(line),
        line[k] == '|' && 0 <= i < line.len() && !is_space(line[i]) && line[i] != '|' && line[i]
            != '-' && line[i] != ':' ==> is_table_row(line),
        (forall|j: int|
            0 <= j < line.len() ==> is_space(#[trigger] line[j]) || line[j] == '|' || line[j] == '-'
                || line[j] == ':') ==> !is_table_row(line),
{
    lemma_trimmed_front(line, k);
    if line[k] == '|' && 0 <= i < line.len() && !is_space(line[i]) && line[i] != '|' && line[i]
        != '-' && line[i] != ':' {
        assert(!is_rule_char(line[i]));
    }
}

proof fn lemma_trimmed_front(line: Seq<char>, k: int)
    requires
        0 <= k < line.len(),
        forall|j: int| 0 <= j < k ==> is_space(#[trigger] line[j]),
        !is_space(line[k]),
    ensures
        trim_start(line) == line.skip(k),
    decreases k,
{
    if k > 0 {
        assert(is_space(line[0]));
        let rest = line.skip(1);
        assert forall|j: int| 0 <= j < k - 1 implies is_space(#[trigger] rest[j]) by {
            assert(rest[j] == line[j + 1]);
        }
        lemma_trimmed_front(rest, k - 1);
        assert(rest.skip(k - 1) =~= line.skip(k));
    } else {
        assert(line.skip(0) =~= line);
    }
}

/// The rows of tables among lines are those among the ones and those among the others, and a single
/// line is one where it is one. A Markdown text has the table of all such rows, where there are two
/// at least and the first of them has two filled cells at least, and as many columns as these are.
pub proof fn law_markdown_table(a: Seq<Seq<char>>, b: Seq<Seq<char>>, line: Seq<char>, text: Seq<char>)
    ensures
        table_rows_among(a + b) == table_rows_among(a) + table_rows_among(b),
        table_rows_among(seq![line]) == if is_table_row(line) {
            seq![line]
        } else {
            Seq::empty()
        },
        table_rows_among(Seq::empty()) == Seq::<Seq<char>>::empty(),
        ({
            let rows = table_rows_among(lines_of(text));
            let cells = filled_parts(rows[0], '|');
            &&& rows.len() >= 2 && cells >= 2 ==> md_grid(text) == Some(
                (rows.len() as int, cells as int),
            )
            &&& rows.len() < 2 || cells < 2 ==> md_grid(text) is None
        }),
    decreases b.len(),
{
    if b.len() == 0 {
        assert(a + b =~= a);
        assert(table_rows_among(a) + table_rows_among(b) =~= table_rows_among(a));
    } else {
        law_markdown_table(a, b.drop_last(), line, text);
        assert((a + b).drop_last() =~= a + b.drop_last());
        assert(table_rows_among(a + b) =~= table_rows_among(a) + table_rows_among(b));
    }
    assert(seq![line].drop_last() =~= Seq::<Seq<char>>::empty());
    assert(table_rows_among(seq![line].drop_last()) =~= Seq::<Seq<char>>::empty());
    assert(Seq::<Seq<char>>::empty().push(line) =~= seq![line]);
}

/// The table of a page is the one that its lines draw, and otherwise that of the first of its
/// columns that has one.
pub proof fn law_table_of_a_page(
    elements: Seq<&TextElement>,
    lines: Seq<LineSegment>,
    a: Seq<Seq<&TextElement>>,
    b: Seq<Seq<&TextElement>>,
    column: Seq<&TextElement>,
)
    ensures
        ruled_grid(lines) is Some ==> pdf_grid(elements, lines) == ruled_grid(lines),
        ruled_grid(lines) is None ==> pdf_grid(elements, lines) == first_spatial_grid(
            page_columns(elements),
        ),
        first_spatial_grid(a + b) == match first_spatial_grid(a) {
            Some(grid) => Some(grid),
            None => first_spatial_grid(b),
        },
        first_spatial_grid(seq![column]) == match spatial_grid(column) {
            Some((rows, cols)) => Some((rows as int, cols as int)),
            None => None,
        },
        first_spatial_grid(Seq::empty()) is None,
    decreases a.len(),
{
    if a.len() == 0 {
        assert(a + b =~= b);
    } else {
        law_table_of_a_page(elements, lines, a.skip(1), b, column);
        assert((a + b).skip(1) =~= a.skip(1) + b);
    }
    assert(seq![column].skip(1) =~= Seq::<Seq<&TextElement>>::empty());
    assert(first_spatial_grid(seq![column].skip(1)) is None);
}

/// A run shares the row of another where its box comes within three points of the foot of the
/// other, above or below.
pub proof fn law_rows_of_runs(elements: Seq<&TextElement>, i: int, k: int)
    requires
        0 <= i < elements.len(),
        0 <= k < elements.len(),
        elements[k].x_min <= elements[k].x_max,
        elements[k].y_min <= elements[k].y_max,
    ensures
        in_row(elements, i, k) <==> elements[k].y_min <= elements[i].y_min + 3_000_000
            && elements[k].y_max >= elements[i].y_min - 3_000_000,
{
    law_edges(elements);
}

/// Whether runs stand in rows as `rows` tells for each: the box of one comes within three points of
/// the foot of another where both are of one row, and nowhere else.
pub open spec fn stand_in_rows(elements: Seq<&TextElement>, rows: Seq<int>) -> bool {
    &&& rows.len() == elements.len()
    &&& forall|k: int|
        0 <= k < elements.len() ==> (#[trigger] elements[k]).x_min <= elements[k].x_max
            && elements[k].y_min <= elements[k].y_max
    &&& forall|i: int, k: int|
        0 <= i < elements.len() && 0 <= k < elements.len() ==> ((#[trigger] rows[i]
            == #[trigger] rows[k]) <==> (elements[k].y_min <= elements[i].y_min + 3_000_000
            && elements[k].y_max >= elements[i].y_min - 3_000_000))
}

proof fn lemma_visited_rows(elements: Seq<&TextElement>, rows: Seq<int>, n: nat, k: int)
    requires
        stand_in_rows(elements, rows),
        n <= elements.len(),
        0 <= k < elements.len(),
    ensures
        is_visited(elements, n, k) == rows.take(n as int).contains(rows[k]),
    decreases n,
{
    if n > 0 {
        let m = (n - 1) as nat;
        let before = rows.take(m as int);
        let after = rows.take(n as int);
        lemma_visited_rows(elements, rows, m, k);
        lemma_visited_rows(elements, rows, m, m as int);
        law_rows_of_runs(elements, m as int, k);
        assert(after[m as int] == rows[m as int]);
        assert forall|x: int| before.contains(x) implies after.contains(x) by {
            let j = choose|j: int| 0 <= j < before.len() && before[j] == x;
            assert(after[j] == x);
        }
        if after.contains(rows[k]) && !before.contains(rows[k]) {
            let j = choose|j: int| 0 <= j < after.len() && after[j] == rows[k];
            if j < m {
                assert(before[j] == rows[k]);
            }
        }
    } else {
        assert(!rows.take(0).contains(rows[k]));
    }
}

proof fn lemma_row_size_is(elements: Seq<&TextElement>, rows: Seq<int>, i: int, n: nat)
    requires
        stand_in_rows(elements, rows),
        n <= elements.len(),
        0 <= i < elements.len(),
    ensures
        row_size(elements, i, n) == total(
            rows.take(n as int),
            |r: int|
                if r == rows[i] {
                    1nat
                } else {
                    0
                },
        ),
    decreases n,
{
    if n > 0 {
        let m = (n - 1) as nat;
        lemma_row_size_is(elements, rows, i, m);
        law_rows_of_runs(elements, i, m as int);
        assert(rows.take(n as int).drop_last() =~= rows.take(m as int));
        assert(rows.take(n as int).last() == rows[m as int]);
        assert((rows[i] == rows[m as int]) == in_row(elements, i, m as int));
    }
}

proof fn lemma_rows_are_listed(elements: Seq<&TextElement>, rows: Seq<int>, width: nat, n: nat)
    requires
        stand_in_rows(elements, rows),
        n <= elements.len(),
        width >= 2,
        forall|i: int|
            0 <= i < rows.len() ==> total(
                rows,
                |r: int|
                    if r == #[trigger] rows[i] {
                        1nat
                    } else {
                        0
                    },
            ) == width,
    ensures
        row_sizes(elements, n).len() == rows.take(n as int).to_set().len(),
        forall|i: int|
            0 <= i < row_sizes(elements, n).len() ==> #[trigger] row_sizes(elements, n)[i] == width,
    decreases n,
{
    let after = rows.take(n as int);
    if n == 0 {
        assert(after.to_set() =~= Set::<int>::empty());
    } else {
        let m = (n - 1) as nat;
        let before = rows.take(m as int);
        lemma_rows_are_listed(elements, rows, width, m);
        lemma_visited_rows(elements, rows, m, m as int);
        lemma_row_size_is(elements, rows, m as int, elements.len());
        assert(rows.take(elements.len() as int) =~= rows);
        assert(after =~= before.push(rows[m as int]));
        assert(after.to_set() =~= before.to_set().insert(rows[m as int])) by {
            assert forall|x: int| after.to_set().contains(x) <==> before.to_set().insert(
                rows[m as int],
            ).contains(x) by {
                if before.contains(x) {
                    let j = choose|j: int| 0 <= j < before.len() && before[j] == x;
                    assert(after[j] == x);
                }
                if after.contains(x) {
                    let j = choose|j: int| 0 <= j < after.len() && after[j] == x;
                    if j < m {
                        assert(before[j] == x);
                    }
                }
                assert(after[m as int] == rows[m as int]);
            }
        }
        vstd::seq_lib::seq_to_set_is_finite(before);
        let all = row_sizes(elements, n);
        let front = row_sizes(elements, m);
        assert forall|i: int| 0 <= i < all.len() implies #[trigger] all[i] == width by {
            if i < front.len() {
                assert(all[i] == front[i]);
            }
        }
    }
}

proof fn lemma_least_of_same(sizes: Seq<nat>, width: nat)
    requires
        sizes.len() > 0,
        forall|i: int| 0 <= i < sizes.len() ==> #[trigger] sizes[i] == width,
    ensures
        least(sizes) == width,
    decreases sizes.len(),
{
    if sizes.len() > 1 {
        let front = sizes.drop_last();
        assert(sizes[sizes.len() - 1] == width);
        assert forall|i: int| 0 <= i < front.len() implies #[trigger] front[i] == width by {
            assert(front[i] == sizes[i]);
        }
        lemma_least_of_same(front, width);
    }
}

/// The least of some sizes is one of them, and none is less.
pub proof fn law_least(sizes: Seq<nat>)
    requires
        sizes.len() > 0,
    ensures
        sizes.contains(least(sizes)),
        forall|i: int| 0 <= i < sizes.len() ==> least(sizes) <= #[trigger] sizes[i],
    decreases sizes.len(),
{
    assert(sizes[sizes.len() - 1] == sizes.last());
    if sizes.len() > 1 {
        let front = sizes.drop_last();
        law_least(front);
        let j = choose|j: int| 0 <= j < front.len() && front[j] == least(front);
        assert(sizes[j] == front[j]);
        assert forall|i: int| 0 <= i < sizes.len() implies least(sizes) <= #[trigger] sizes[i] by {
            if i < front.len() {
                assert(front[i] == sizes[i]);
            }
        }
    }
}

/// Runs that are aligned in rows of the same number of cells, two at least, are found to be a table
/// of as many rows and columns, whatever order they come in.
pub proof fn law_aligned_runs_are_a_table(elements: Seq<&TextElement>, rows: Seq<int>, width: nat)
    requires
        stand_in_rows(elements, rows),
        width >= 2,
        rows.to_set().len() >= 2,
        elements.len() >= 4,
        forall|i: int|
            0 <= i < rows.len() ==> total(
                rows,
                |r: int|
                    if r == #[trigger] rows[i] {
                        1nat
                    } else {
                        0
                    },
            ) == width,
    ensures
        spatial_grid(elements) == Some((rows.to_set().len(), width)),
{
    lemma_rows_are_listed(elements, rows, width, elements.len());
    assert(rows.take(elements.len() as int) =~= rows);
    lemma_least_of_same(row_sizes(elements, elements.len()), width);
}

/// Fewer than four runs are no table, and neither are runs of which no two share a row.
pub proof fn law_few_runs_are_no_table(elements: Seq<&TextElement>)
    requires
        elements.len() < 4 || forall|i: int, k: int|
            0 <= i < elements.len() && 0 <= k < elements.len() && i != k ==> !in_row(elements, i, k),
    ensures
        spatial_grid(elements) is None,
{
    if elements.len() >= 4 {
        lemma_no_rows(elements, elements.len());
    }
}

proof fn lemma_no_rows(elements: Seq<&TextElement>, n: nat)
    requires
        n <= elements.len(),
        forall|i: int, k: int|
            0 <= i < elements.len() && 0 <= k < elements.len() && i != k ==> !in_row(elements, i, k),
    ensures
        row_sizes(elements, n).len() == 0,
    decreases n,
{
    if n > 0 {
        lemma_no_rows(elements, (n - 1) as nat);
        lemma_row_of_one(elements, n - 1, elements.len());
    }
}

proof fn lemma_row_of_one(elements: Seq<&TextElement>, i: int, n: nat)
    requires
        n <= elements.len(),
        0 <= i < elements.len(),
        forall|k: int| 0 <= k < elements.len() && i != k ==> !in_row(elements, i, k),
    ensures
        row_size(elements, i, n) <= if i < n {
            1nat
        } else {
            0
        },
    decreases n,
{
    if n > 0 {
        lemma_row_of_one(elements, i, (n - 1) as nat);
    }
}

/// A report is seen as it is, part by part.
pub proof fn law_reports_are_seen(report: PageFidelityReport)
    ensures
        report@.page_num == report.page_num,
        report@.c_retention.0 == report.c_retention.num,
        report@.c_retention.1 == report.c_retention.den,
        report@.t_matrix == report.t_matrix,
        report@.s_fidelity.0 == report.s_fidelity.num,
        report@.s_fidelity.1 == report.s_fidelity.den,
        report@.quality == report.quality,
        report@.table_detected_in_pdf == report.table_detected_in_pdf,
        report@.table_detected_in_md == report.table_detected_in_md,
{
}

/// A run shares the row of another where some of its height lies within three points of the foot of
/// the other, wherever it stands from left to right and whichever of its edges is given first.
pub proof fn law_rows_reach_across_the_page(elements: Seq<&TextElement>, i: int, k: int)
    requires
        0 <= i < elements.len(),
        0 <= k < elements.len(),
    ensures
        ({
            let foot = elements[i].y_min;
            let e = elements[k];
            in_row(elements, i, k) <==> (e.y_min <= foot + 3_000_000 || e.y_max <= foot + 3_000_000)
                && (e.y_min >= foot - 3_000_000 || e.y_max >= foot - 3_000_000)
        }),
{
    law_edges(elements);
    let item = spatial_element(elements[k], k as usize);
    assert(item.bbox[0] == elements[k].x_min);
    assert(item.bbox[1] == elements[k].y_min);
    assert(item.bbox[2] == elements[k].x_max);
    assert(item.bbox[3] == elements[k].y_max);
}

/// The rows of a table are found from the first run on: a run starts a row where no run before it
/// started one that it shares, and a row counts where two runs at least share it, with as many
/// cells as runs share it.
pub proof fn law_rows_are_started(elements: Seq<&TextElement>, n: nat, k: int)
    requires
        n < elements.len(),
    ensures
        is_visited(elements, n, k) <==> exists|i: int|
            0 <= i < n && !is_visited(elements, i as nat, i) && #[trigger] in_row(elements, i, k),
        row_sizes(elements, 0).len() == 0,
        ({
            let sharing = Set::new(|j: int| 0 <= j < elements.len() && in_row(elements, n as int, j));
            &&& sharing.finite()
            &&& is_visited(elements, n, n as int) || sharing.len() < 2 ==> row_sizes(elements, n + 1)
                == row_sizes(elements, n)
            &&& !is_visited(elements, n, n as int) && sharing.len() >= 2 ==> row_sizes(
                elements,
                n + 1,
            ) == row_sizes(elements, n).push(sharing.len())
        }),
        ({
            let sizes = row_sizes(elements, elements.len());
            &&& elements.len() >= 4 && sizes.len() >= 2 ==> spatial_grid(elements) == Some(
                (sizes.len(), least(sizes)),
            )
            &&& elements.len() < 4 || sizes.len() < 2 ==> spatial_grid(elements) is None
        }),
{
    lemma_visited(elements, n, k);
    lemma_sharing(elements, n as int, elements.len());
}

proof fn lemma_visited(elements: Seq<&TextElement>, n: nat, k: int)
    ensures
        is_visited(elements, n, k) <==> exists|i: int|
            0 <= i < n && !is_visited(elements, i as nat, i) && #[trigger] in_row(elements, i, k),
    decreases n,
{
    if n > 0 {
        let before = (n - 1) as nat;
        lemma_visited(elements, before, k);
        if is_visited(elements, n, k) {
            if is_visited(elements, before, k) {
                let i = choose|i: int|
                    0 <= i < before && !is_visited(elements, i as nat, i) && #[trigger] in_row(
                        elements,
                        i,
                        k,
                    );
                assert(0 <= i < n && !is_visited(elements, i as nat, i) && in_row(elements, i, k));
            } else {
                let i = n - 1;
                assert(0 <= i < n && !is_visited(elements, i as nat, i) && in_row(elements, i, k));
            }
        }
        if exists|i: int|
            0 <= i < n && !is_visited(elements, i as nat, i) && #[trigger] in_row(elements, i, k) {
            let i = choose|i: int|
                0 <= i < n && !is_visited(elements, i as nat, i) && #[trigger] in_row(elements, i, k);
            if i < before {
                assert(is_visited(elements, before, k));
            } else {
                assert(i == n - 1);
                assert(i as nat == before);
            }
        }
    }
}

proof fn lemma_sharing(elements: Seq<&TextElement>, i: int, n: nat)
    ensures
        Set::new(|j: int| 0 <= j < n && in_row(elements, i, j)).finite(),
        Set::new(|j: int| 0 <= j < n && in_row(elements, i, j)).len() == row_size(elements, i, n),
    decreases n,
{
    let all = Set::new(|j: int| 0 <= j < n && in_row(elements, i, j));
    if n == 0 {
        assert(all =~= Set::empty());
    } else {
        let m = n - 1;
        let front = Set::new(|j: int| 0 <= j < m && in_row(elements, i, j));
        lemma_sharing(elements, i, m as nat);
        if in_row(elements, i, m) {
            assert(all =~= front.insert(m));
        } else {
            assert(all =~= front);
        }
    }
}

/// The characters of runs add up.
pub proof fn law_length_of_runs(a: Seq<&TextElement>, b: Seq<&TextElement>, e: &TextElement)
    ensures
        text_length(a + b) == text_length(a) + text_length(b),
        text_length(seq![e]) == e.text@.len(),
        text_length(Seq::empty()) == 0,
    decreases b.len(),
{
    assert(seq![e].drop_last() =~= Seq::<&TextElement>::empty());
    assert(text_length(seq![e].drop_last()) == 0);
    if b.len() == 0 {
        assert(a + b =~= a);
    } else {
        law_length_of_runs(a, b.drop_last(), e);
        assert((a + b).drop_last() =~= a + b.drop_last());
    }
}

/// A report is made of what it is given: what was kept counts forty hundredths, tables that agree
/// sixty, and of whole numbers of rows and columns nothing is lost.
pub proof fn law_report_parts(
    page_num: usize,
    kept: (int, int),
    pdf: Option<(int, int)>,
    md: Option<(int, int)>,
    grid: Grid,
)
    ensures
        ({
            let report = report_of(page_num, kept, pdf, md);
            &&& report.page_num == page_num
            &&& report.c_retention == kept
            &&& report.t_matrix == (if pdf is None || pdf == md {
                1int
            } else {
                0
            })
            &&& report.s_fidelity.0 == 40 * kept.0 + 60 * report.t_matrix * kept.1
            &&& report.s_fidelity.1 == 100 * kept.1
            &&& report.table_detected_in_pdf == (pdf is Some)
            &&& report.table_detected_in_md == (md is Some)
        }),
        grid_value(None) is None,
        grid_value(Some(grid)) == Some((grid.0 as int, grid.1 as int)),
{
}

/// A line of nothing but white space is no row of a table.
pub proof fn law_blank_lines_are_no_rows(line: Seq<char>)
    requires
        forall|i: int| 0 <= i < line.len() ==> is_space(#[trigger] line[i]),
    ensures
        !is_table_row(line),
{
}

} // verus!
