//! A table of runs comes out of its own Markdown with as many rows and columns as it has.
use crate::column_layout::page_columns;
use crate::fidelity::{
    is_alnum, is_rule_char, is_table_row, matrix_score, md_grid, pdf_grid, table_rows_among,
};
use crate::markdown_render::{
    cells, column_markdown, columns_markdown, depths, law_lines_keep_runs, law_lines_stand_apart, left_edges,
    lemma_grouped_in_range, line_groups, lines_markdown, page_lines, page_markdown, repeated, runs_of_lines,
    same_width, table_row, table_rows, table_separator, table_text, LineView, ROW_TOLERANCE,
};
use crate::order::{
    arranged, concatenated, law_stable_order, lemma_total_add, lemma_total_same, stable_order, total,
};
use crate::text::{
    filled_parts, is_blank, is_space, joined, lemma_line_length, lemma_part_length_bound, lemma_part_length_is,
    lemma_trim_end, lemma_trim_start, line_length, lines_of, part_length, trim_start, trimmed,
    without_return,
};
use crate::types::{LineSegment, TextElement};
use vstd::prelude::*;

verus! {

/// Whether a text can stand in a cell of a Markdown table as it is: it holds a character that no
/// line below a first row holds, such as a letter or a digit, and neither a `|` nor a line feed.
pub open spec fn is_cell_text(s: Seq<char>) -> bool {
    &&& exists|i: int| 0 <= i < s.len() && !is_rule_char(#[trigger] s[i])
    &&& forall|i: int| 0 <= i < s.len() ==> #[trigger] s[i] != '|' && s[i] != '\n'
}

/// A text with a letter or number in it, and neither a `|` nor a line feed, can stand in a cell.
pub proof fn law_letters_fill_a_cell(s: Seq<char>, at: int)
    requires
        0 <= at < s.len(),
        is_alnum(s[at]),
        forall|i: int| 0 <= i < s.len() ==> #[trigger] s[i] != '|' && s[i] != '\n',
    ensures
        is_cell_text(s),
{
    assert(!is_rule_char(s[at]));
}

proof fn lemma_trimmed_part(s: Seq<char>)
    ensures
        forall|i: int| 0 <= i < trimmed(s).len() ==> s.contains(#[trigger] trimmed(s)[i]),
        forall|i: int| 0 <= i < s.len() && !is_space(#[trigger] s[i]) ==> trimmed(s).contains(s[i]),
{
    let t = trim_start(s);
    let e = trimmed(s);
    lemma_trim_start(s);
    lemma_trim_end(t);
    let k = s.len() - t.len();
    assert forall|i: int| 0 <= i < e.len() implies s.contains(#[trigger] e[i]) by {
        assert(e[i] == t[i]);
        assert(t[i] == s[i + k]);
    }
    assert forall|i: int| 0 <= i < s.len() && !is_space(#[trigger] s[i]) implies e.contains(s[i]) by {
        assert(i >= k);
        assert(t[i - k] == s[i]);
        assert(i - k < e.len());
        assert(e[i - k] == s[i]);
    }
}

proof fn lemma_trimmed_of(front: Seq<char>, middle: Seq<char>, back: Seq<char>)
    requires
        is_blank(front),
        is_blank(back),
        middle.len() > 0,
        !is_space(middle[0]),
        !is_space(middle.last()),
    ensures
        trimmed(front + middle + back) == middle,
{
    let s = front + middle + back;
    let t = trim_start(s);
    let e = trimmed(s);
    let f = front.len() as int;
    let m = middle.len() as int;
    lemma_trim_start(s);
    lemma_trim_end(t);
    let k = s.len() - t.len();
    assert(s[f] == middle[0]);
    assert(k <= f);
    if k < f {
        assert(t[0] == s[k]);
        assert(s[k] == front[k]);
    }
    assert(k == f);
    assert(t =~= middle + back);
    assert(t[m - 1] == middle[m - 1]);
    assert(e.len() >= m);
    if e.len() > m {
        let last = e.len() - 1;
        assert(e.last() == t[last]);
        assert(t[last] == back[last - m]);
    }
    assert(e =~= middle);
}

proof fn lemma_line_then(a: Seq<char>, b: Seq<char>)
    requires
        forall|i: int| 0 <= i < a.len() ==> #[trigger] a[i] != '\n',
    ensures
        lines_of(a.push('\n') + b) == seq![without_return(a)] + lines_of(b),
{
    let s = a.push('\n') + b;
    let k = a.len() as int;
    assert forall|i: int| 0 <= i < k implies s[i] != '\n' by {
        assert(s[i] == a[i]);
    }
    assert(s[k] == '\n');
    lemma_line_length(s, k);
    assert(s.take(k) =~= a);
    assert(s.skip(k + 1) =~= b);
}

proof fn lemma_one_line(a: Seq<char>)
    requires
        a.len() > 0,
        forall|i: int| 0 <= i < a.len() ==> #[trigger] a[i] != '\n',
    ensures
        lines_of(a) == seq![a],
{
    lemma_line_length(a, a.len() as int);
}

proof fn lemma_line_end(s: Seq<char>)
    requires
        s.len() > 0,
        s.last() == '\n',
    ensures
        line_length(s) < s.len(),
        s[line_length(s) as int] == '\n',
        forall|i: int| 0 <= i < line_length(s) ==> #[trigger] s[i] != '\n',
    decreases s.len(),
{
    if s[0] != '\n' {
        let rest = s.skip(1);
        assert(rest.last() == s.last());
        lemma_line_end(rest);
        let k = line_length(rest) as int;
        assert(rest[k] == s[k + 1]);
        assert forall|i: int| 0 <= i < line_length(s) implies #[trigger] s[i] != '\n' by {
            if i > 0 {
                assert(rest[i - 1] == s[i]);
            }
        }
    }
}

proof fn lemma_lines_append(x: Seq<char>, y: Seq<char>)
    requires
        x.len() == 0 || x.last() == '\n',
    ensures
        lines_of(x + y) == lines_of(x) + lines_of(y),
    decreases x.len(),
{
    if x.len() == 0 {
        assert(x + y =~= y);
        assert(lines_of(x) + lines_of(y) =~= lines_of(y));
    } else {
        lemma_line_end(x);
        let k = line_length(x) as int;
        let a = x.take(k);
        let rest = x.skip(k + 1);
        assert(x =~= a.push('\n') + rest);
        assert(x + y =~= a.push('\n') + (rest + y));
        if rest.len() > 0 {
            assert(rest.last() == x.last());
        }
        lemma_lines_append(rest, y);
        lemma_line_then(a, rest);
        lemma_line_then(a, rest + y);
        assert(lines_of(x + y) =~= lines_of(x) + lines_of(y));
    }
}

proof fn lemma_rows_append(a: Seq<Seq<char>>, b: Seq<Seq<char>>)
    ensures
        table_rows_among(a + b) == table_rows_among(a) + table_rows_among(b),
    decreases b.len(),
{
    if b.len() == 0 {
        assert(a + b =~= a);
        assert(table_rows_among(a) + table_rows_among(b) =~= table_rows_among(a));
    } else {
        lemma_rows_append(a, b.drop_last());
        assert((a + b).drop_last() =~= a + b.drop_last());
        assert(table_rows_among(a + b) =~= table_rows_among(a) + table_rows_among(b));
    }
}

proof fn lemma_rows_of_one(line: Seq<char>)
    ensures
        table_rows_among(seq![line]) == if is_table_row(line) {
            seq![line]
        } else {
            Seq::<Seq<char>>::empty()
        },
{
    let one = seq![line];
    assert(one.drop_last() =~= Seq::<Seq<char>>::empty());
    assert(table_rows_among(one.drop_last()) =~= Seq::<Seq<char>>::empty());
    assert(Seq::<Seq<char>>::empty().push(line) =~= one);
}

proof fn lemma_parts_split(a: Seq<char>, b: Seq<char>, sep: char)
    ensures
        filled_parts(a.push(sep) + b, sep) == filled_parts(a, sep) + filled_parts(b, sep),
    decreases a.len(),
{
    let s = a.push(sep) + b;
    lemma_part_length_bound(a, sep);
    lemma_part_end(a, sep);
    let k = part_length(a, sep) as int;
    assert forall|j: int| 0 <= j < k implies #[trigger] s[j] != sep by {
        assert(s[j] == a[j]);
    }
    if k < a.len() {
        assert(s[k] == a[k]);
        lemma_part_length_is(s, sep, k);
        let rest = a.skip(k + 1);
        assert(s.take(k) =~= a.take(k));
        assert(s.skip(k + 1) =~= rest.push(sep) + b);
        lemma_parts_split(rest, b, sep);
    } else {
        assert(s[k] == sep);
        lemma_part_length_is(s, sep, k);
        assert(s.take(k) =~= a.take(k));
        assert(s.skip(k + 1) =~= b);
    }
}

proof fn lemma_part_end(s: Seq<char>, sep: char)
    ensures
        part_length(s, sep) < s.len() ==> s[part_length(s, sep) as int] == sep,
        forall|i: int| 0 <= i < part_length(s, sep) ==> #[trigger] s[i] != sep,
    decreases s.len(),
{
    if s.len() > 0 && s[0] != sep {
        let rest = s.skip(1);
        lemma_part_end(rest, sep);
        lemma_part_length_bound(rest, sep);
        let k = part_length(rest, sep) as int;
        if k < rest.len() {
            assert(rest[k] == s[k + 1]);
        }
        assert forall|i: int| 0 <= i < part_length(s, sep) implies #[trigger] s[i] != sep by {
            if i > 0 {
                assert(rest[i - 1] == s[i]);
            }
        }
    }
}

proof fn lemma_one_part(a: Seq<char>, sep: char, at: int)
    requires
        forall|i: int| 0 <= i < a.len() ==> #[trigger] a[i] != sep,
        0 <= at < a.len(),
        !is_space(a[at]),
    ensures
        filled_parts(a, sep) == 1,
{
    lemma_part_length_is(a, sep, a.len() as int);
    assert(a.take(a.len() as int) =~= a);
}

proof fn lemma_cells(elements: Seq<&TextElement>)
    requires
        forall|i: int| 0 <= i < elements.len() ==> is_cell_text((#[trigger] elements[i]).text@),
    ensures
        forall|i: int| 0 <= i < elements.len() ==> is_cell_text(#[trigger] cells(elements)[i]),
{
    let parts = cells(elements);
    assert forall|i: int| 0 <= i < elements.len() implies is_cell_text(#[trigger] parts[i]) by {
        let text = elements[i].text@;
        assert(is_cell_text(text));
        lemma_trimmed_part(text);
        let j = choose|j: int| 0 <= j < text.len() && !is_rule_char(#[trigger] text[j]);
        assert(parts[i].contains(text[j]));
        let x = choose|x: int| 0 <= x < parts[i].len() && parts[i][x] == text[j];
        assert(!is_rule_char(parts[i][x]));
        assert forall|y: int| 0 <= y < parts[i].len() implies #[trigger] parts[i][y] != '|'
            && parts[i][y] != '\n' by {
            assert(text.contains(parts[i][y]));
            let z = choose|z: int| 0 <= z < text.len() && text[z] == parts[i][y];
            assert(text[z] != '|');
        }
    }
}

/// A row of a table without its line feed.
spec fn row_body(line: LineView) -> Seq<char> {
    seq!['|', ' '] + joined(cells(line.elements), seq![' ', '|', ' ']) + seq![' ', '|']
}

proof fn lemma_joined_cells(parts: Seq<Seq<char>>)
    requires
        parts.len() > 0,
        forall|i: int| 0 <= i < parts.len() ==> is_cell_text(#[trigger] parts[i]),
    ensures
        ({
            let sep = seq![' ', '|', ' '];
            let text = joined(parts, sep);
            &&& forall|i: int| 0 <= i < text.len() ==> #[trigger] text[i] != '\n'
            &&& exists|i: int| 0 <= i < text.len() && !is_rule_char(#[trigger] text[i])
            &&& filled_parts(seq![' '] + text + seq![' '], '|') == parts.len()
        }),
    decreases parts.len(),
{
    let sep = seq![' ', '|', ' '];
    let text = joined(parts, sep);
    let last = parts.last();
    assert(parts[parts.len() - 1] == last);
    assert(is_cell_text(last));
    let at = choose|i: int| 0 <= i < last.len() && !is_rule_char(#[trigger] last[i]);
    let cell = seq![' '] + last + seq![' '];
    assert(cell[at + 1] == last[at]);
    assert forall|i: int| 0 <= i < cell.len() implies #[trigger] cell[i] != '|' by {
        if 0 < i < cell.len() - 1 {
            assert(cell[i] == last[i - 1]);
        }
    }
    lemma_one_part(cell, '|', at + 1);
    if parts.len() == 1 {
        assert(text == last);
        assert(!is_rule_char(text[at]));
    } else {
        let front = parts.drop_last();
        assert forall|i: int| 0 <= i < front.len() implies is_cell_text(#[trigger] front[i]) by {
            assert(front[i] == parts[i]);
        }
        lemma_joined_cells(front);
        let before = joined(front, sep);
        assert(text == before + sep + last);
        let j = choose|i: int| 0 <= i < before.len() && !is_rule_char(#[trigger] before[i]);
        assert(text[j] == before[j]);
        assert forall|i: int| 0 <= i < text.len() implies #[trigger] text[i] != '\n' by {
            if i < before.len() {
                assert(text[i] == before[i]);
            } else if i >= before.len() + 3 {
                assert(text[i] == last[i - before.len() - 3]);
            }
        }
        let head = seq![' '] + before + seq![' '];
        assert(seq![' '] + text + seq![' '] =~= head.push('|') + cell);
        lemma_parts_split(head, cell, '|');
    }
}

proof fn lemma_row_body(line: LineView)
    requires
        line.elements.len() > 0,
        forall|i: int|
            0 <= i < line.elements.len() ==> is_cell_text((#[trigger] line.elements[i]).text@),
    ensures
        ({
            let body = row_body(line);
            &&& table_row(line) == body.push('\n')
            &&& body.len() > 0 && body[0] == '|' && body.last() == '|'
            &&& forall|i: int| 0 <= i < body.len() ==> #[trigger] body[i] != '\n'
            &&& is_table_row(body)
            &&& filled_parts(body, '|') == line.elements.len()
        }),
{
    let parts = cells(line.elements);
    let sep = seq![' ', '|', ' '];
    let text = joined(parts, sep);
    let body = row_body(line);
    lemma_cells(line.elements);
    lemma_joined_cells(parts);
    assert(table_row(line) =~= body.push('\n'));
    assert forall|i: int| 0 <= i < body.len() implies #[trigger] body[i] != '\n' by {
        if 2 <= i < text.len() + 2 {
            assert(body[i] == text[i - 2]);
        }
    }
    let j = choose|i: int| 0 <= i < text.len() && !is_rule_char(#[trigger] text[i]);
    assert(body[j + 2] == text[j]);
    assert(!is_rule_char(body[j + 2]));
    assert(trim_start(body) == body);
    let none = Seq::<char>::empty();
    let inner = seq![' '] + text + seq![' '];
    assert(body =~= none.push('|') + (inner.push('|') + none));
    lemma_parts_split(none, inner.push('|') + none, '|');
    lemma_parts_split(inner, none, '|');
    lemma_part_length_is(none, '|', 0);
    assert(filled_parts(none, '|') == 0);
}

proof fn lemma_repeated_rule(n: nat)
    ensures
        ({
            let s = repeated(seq![' ', '-', '-', '-', ' ', '|'], n);
            forall|i: int| 0 <= i < s.len() ==> is_rule_char(#[trigger] s[i]) && s[i] != '\n'
        }),
    decreases n,
{
    if n > 0 {
        let unit = seq![' ', '-', '-', '-', ' ', '|'];
        let front = repeated(unit, (n - 1) as nat);
        let s = repeated(unit, n);
        lemma_repeated_rule((n - 1) as nat);
        assert forall|i: int| 0 <= i < s.len() implies is_rule_char(#[trigger] s[i]) && s[i]
            != '\n' by {
            if i < front.len() {
                assert(s[i] == front[i]);
            } else {
                assert(s[i] == unit[i - front.len()]);
            }
        }
    }
}

proof fn lemma_separator(n: nat)
    ensures
        table_rows_among(lines_of(table_separator(n))) == Seq::<Seq<char>>::empty(),
        table_separator(n).last() == '\n',
{
    let rule = seq!['|'] + repeated(seq![' ', '-', '-', '-', ' ', '|'], n);
    let none = Seq::<char>::empty();
    lemma_repeated_rule(n);
    assert forall|i: int| 0 <= i < rule.len() implies is_rule_char(#[trigger] rule[i]) && rule[i]
        != '\n' by {
        if i > 0 {
            assert(rule[i] == repeated(seq![' ', '-', '-', '-', ' ', '|'], n)[i - 1]);
        }
    }
    assert(table_separator(n) =~= rule.push('\n') + none);
    lemma_line_then(rule, none);
    let line = without_return(rule);
    assert(lines_of(table_separator(n)) =~= seq![line]);
    assert forall|i: int| 0 <= i < line.len() implies is_rule_char(#[trigger] line[i]) by {
        assert(line[i] == rule[i]);
    }
    lemma_rows_of_one(line);
}

/// Rows of a table without their line feeds.
spec fn row_bodies(lines: Seq<LineView>) -> Seq<Seq<char>> {
    Seq::new(lines.len(), |i: int| row_body(lines[i]))
}

/// Whether lines hold `width` runs each, all of them texts for cells.
spec fn are_table_lines(lines: Seq<LineView>, width: nat) -> bool {
    &&& forall|k: int| 0 <= k < lines.len() ==> (#[trigger] lines[k]).elements.len() == width
    &&& forall|k: int, i: int|
        0 <= k < lines.len() && 0 <= i < lines[k].elements.len() ==> is_cell_text(
            (#[trigger] lines[k].elements[i]).text@,
        )
}

proof fn lemma_table_rows(lines: Seq<LineView>, width: nat)
    requires
        are_table_lines(lines, width),
        width > 0,
        lines.len() > 0,
    ensures
        table_rows(lines).len() > 0,
        table_rows(lines)[0] == '|',
        table_rows(lines).last() == '\n',
        table_rows_among(lines_of(table_rows(lines))) == row_bodies(lines),
    decreases lines.len(),
{
    let front = lines.drop_last();
    let last = lines.last();
    assert(lines[lines.len() - 1] == last);
    assert forall|i: int| 0 <= i < last.elements.len() implies is_cell_text(
        (#[trigger] last.elements[i]).text@,
    ) by {
        assert(is_cell_text(lines[lines.len() - 1].elements[i].text@));
    }
    lemma_row_body(last);
    let body = row_body(last);
    let none = Seq::<char>::empty();
    let row = table_row(last);
    assert(row =~= body.push('\n') + none);
    lemma_line_then(body, none);
    assert(without_return(body) == body);
    assert(lines_of(row) =~= seq![body]);
    lemma_rows_of_one(body);
    let before = table_rows(front);
    if lines.len() == 1 {
        let rule = table_separator(last.elements.len());
        lemma_separator(last.elements.len());
        assert(before =~= none);
        assert(table_rows(lines) =~= row + rule);
        lemma_lines_append(row, rule);
        lemma_rows_append(lines_of(row), lines_of(rule));
        assert(seq![body] + Seq::<Seq<char>>::empty() =~= row_bodies(lines));
        assert(table_rows(lines).last() == rule.last());
        assert(table_rows(lines)[0] == row[0]);
    } else {
        assert(are_table_lines(front, width)) by {
            assert forall|k: int| 0 <= k < front.len() implies (#[trigger] front[k]).elements.len()
                == width by {
                assert(front[k] == lines[k]);
            }
            assert forall|k: int, i: int|
                0 <= k < front.len() && 0 <= i < front[k].elements.len() implies is_cell_text(
                (#[trigger] front[k].elements[i]).text@,
            ) by {
                assert(is_cell_text(lines[k].elements[i].text@));
            }
        }
        lemma_table_rows(front, width);
        assert(table_rows(lines) =~= before + row);
        lemma_lines_append(before, row);
        lemma_rows_append(lines_of(before), lines_of(row));
        assert(row_bodies(front) + seq![body] =~= row_bodies(lines));
        assert(table_rows(lines).last() == row.last());
        assert(table_rows(lines)[0] == before[0]);
    }
}

proof fn lemma_table_is_found(lines: Seq<LineView>, width: nat)
    requires
        are_table_lines(lines, width),
        width >= 2,
        lines.len() >= 2,
    ensures
        md_grid(trimmed(table_text(lines))) == Some((lines.len() as int, width as int)),
{
    let front = lines.drop_last();
    let last = lines.last();
    assert(are_table_lines(front, width)) by {
        assert forall|k: int| 0 <= k < front.len() implies (#[trigger] front[k]).elements.len()
            == width by {
            assert(front[k] == lines[k]);
        }
        assert forall|k: int, i: int|
            0 <= k < front.len() && 0 <= i < front[k].elements.len() implies is_cell_text(
            (#[trigger] front[k].elements[i]).text@,
        ) by {
            assert(is_cell_text(lines[k].elements[i].text@));
        }
    }
    lemma_table_rows(front, width);
    assert(lines[lines.len() - 1] == last);
    assert forall|i: int| 0 <= i < last.elements.len() implies is_cell_text(
        (#[trigger] last.elements[i]).text@,
    ) by {
        assert(is_cell_text(lines[lines.len() - 1].elements[i].text@));
    }
    lemma_row_body(last);
    let before = table_rows(front);
    let body = row_body(last);
    let feed = seq!['\n'];
    let text = before + body;
    assert(table_text(lines) =~= feed + text + (feed + feed));
    assert(text[0] == before[0]);
    assert(text.last() == body.last());
    lemma_trimmed_of(feed, text, feed + feed);
    lemma_lines_append(before, body);
    lemma_one_line(body);
    lemma_rows_append(lines_of(before), seq![body]);
    lemma_rows_of_one(body);
    let rows = table_rows_among(lines_of(text));
    assert(rows =~= row_bodies(lines));
    assert(rows[0] == row_body(lines[0]));
    assert forall|i: int| 0 <= i < lines[0].elements.len() implies is_cell_text(
        (#[trigger] lines[0].elements[i]).text@,
    ) by {}
    lemma_row_body(lines[0]);
}

proof fn lemma_all_same_width(lines: Seq<LineView>, width: nat)
    requires
        forall|k: int| 0 <= k < lines.len() ==> (#[trigger] lines[k]).elements.len() == width,
    ensures
        same_width(lines, width) == lines.len(),
    decreases lines.len(),
{
    if lines.len() > 0 {
        assert(lines[0].elements.len() == width);
        let rest = lines.skip(1);
        assert forall|k: int| 0 <= k < rest.len() implies (#[trigger] rest[k]).elements.len()
            == width by {
            assert(rest[k] == lines[k + 1]);
        }
        lemma_all_same_width(rest, width);
    }
}

/// Whether a run stands at a height, as a number.
spec fn stands_at<'a>(y: int) -> spec_fn(&'a TextElement) -> nat {
    |e: &'a TextElement|
        if e.y_min == y {
            1nat
        } else {
            0
        }
}

/// Whether all runs of each block stand at the height of the block, and no two blocks at the same
/// height.
spec fn are_blocks(blocks: Seq<Seq<&TextElement>>, ys: Seq<int>) -> bool {
    &&& blocks.len() == ys.len()
    &&& forall|k: int, i: int|
        0 <= k < blocks.len() && 0 <= i < blocks[k].len() ==> (#[trigger] blocks[k][i]).y_min
            == ys[k]
    &&& forall|j: int, k: int| 0 <= j < k < ys.len() ==> #[trigger] ys[j] != #[trigger] ys[k]
}

proof fn lemma_block_total(block: Seq<&TextElement>, y: int, h: int)
    requires
        forall|i: int| 0 <= i < block.len() ==> (#[trigger] block[i]).y_min == y,
    ensures
        total(block, stands_at(h)) == if y == h {
            block.len()
        } else {
            0
        },
    decreases block.len(),
{
    if block.len() > 0 {
        let front = block.drop_last();
        assert(block[block.len() - 1].y_min == y);
        assert forall|i: int| 0 <= i < front.len() implies (#[trigger] front[i]).y_min == y by {
            assert(front[i] == block[i]);
        }
        lemma_block_total(front, y, h);
    }
}

proof fn lemma_blocks_total(blocks: Seq<Seq<&TextElement>>, ys: Seq<int>, h: int)
    requires
        are_blocks(blocks, ys),
    ensures
        forall|k: int|
            0 <= k < blocks.len() && #[trigger] ys[k] == h ==> total(
                concatenated(blocks),
                stands_at(h),
            ) == blocks[k].len(),
        (forall|k: int| 0 <= k < blocks.len() ==> #[trigger] ys[k] != h) ==> total(
            concatenated(blocks),
            stands_at(h),
        ) == 0,
    decreases blocks.len(),
{
    if blocks.len() > 0 {
        let front = blocks.drop_last();
        let fys = ys.drop_last();
        let n = blocks.len() - 1;
        assert(are_blocks(front, fys)) by {
            assert forall|k: int, i: int| 0 <= k < front.len() && 0 <= i < front[k].len() implies (
            #[trigger] front[k][i]).y_min == fys[k] by {
                assert(blocks[k][i].y_min == ys[k]);
            }
            assert forall|j: int, k: int| 0 <= j < k < fys.len() implies #[trigger] fys[j]
                != #[trigger] fys[k] by {
                assert(ys[j] != ys[k]);
            }
        }
        lemma_blocks_total(front, fys, h);
        assert forall|i: int| 0 <= i < blocks[n].len() implies (#[trigger] blocks[n][i]).y_min
            == ys[n] by {}
        lemma_block_total(blocks[n], ys[n], h);
        lemma_total_add(concatenated(front), blocks[n], stands_at(h));
        assert forall|k: int| 0 <= k < blocks.len() && #[trigger] ys[k] == h implies total(
            concatenated(blocks),
            stands_at(h),
        ) == blocks[k].len() by {
            if k == n {
                assert forall|j: int| 0 <= j < front.len() implies #[trigger] fys[j] != h by {
                    assert(ys[j] != ys[n]);
                }
            } else {
                assert(fys[k] == h);
                assert(ys[k] != ys[n]);
            }
        }
        if forall|k: int| 0 <= k < blocks.len() ==> #[trigger] ys[k] != h {
            assert(ys[n] != h);
            assert forall|j: int| 0 <= j < front.len() implies #[trigger] fys[j] != h by {
                assert(ys[j] != h);
            }
        }
    }
}

proof fn lemma_blocks_length(blocks: Seq<Seq<&TextElement>>, width: nat)
    requires
        forall|k: int| 0 <= k < blocks.len() ==> (#[trigger] blocks[k]).len() == width,
    ensures
        concatenated(blocks).len() == blocks.len() * width,
    decreases blocks.len(),
{
    if blocks.len() > 0 {
        let front = blocks.drop_last();
        assert(blocks[blocks.len() - 1].len() == width);
        assert forall|k: int| 0 <= k < front.len() implies (#[trigger] front[k]).len() == width by {
            assert(front[k] == blocks[k]);
        }
        lemma_blocks_length(front, width);
        let n = blocks.len() as int;
        assert(n * width == (n - 1) * width + width) by (nonlinear_arith);
    }
}

proof fn lemma_in_block(blocks: Seq<Seq<&TextElement>>, e: &TextElement)
    requires
        concatenated(blocks).contains(e),
    ensures
        exists|k: int, i: int|
            0 <= k < blocks.len() && 0 <= i < blocks[k].len() && #[trigger] blocks[k][i] == e,
    decreases blocks.len(),
{
    let all = concatenated(blocks);
    let x = choose|x: int| 0 <= x < all.len() && all[x] == e;
    let front = concatenated(blocks.drop_last());
    let n = blocks.len() - 1;
    if x < front.len() {
        assert(front[x] == e);
        lemma_in_block(blocks.drop_last(), e);
        let (k, i) = choose|k: int, i: int|
            0 <= k < blocks.drop_last().len() && 0 <= i < blocks.drop_last()[k].len()
                && #[trigger] blocks.drop_last()[k][i] == e;
        assert(blocks[k][i] == e);
    } else {
        assert(blocks[n][x - front.len()] == e);
    }
}

/// Rows of runs on a page: `width` runs each, all of them texts for cells and at the height of
/// their row, the rows apart from each other by more than a line reaches.
pub open spec fn are_rows(rows: Seq<Seq<&TextElement>>, heights: Seq<int>, width: nat) -> bool {
    &&& rows.len() == heights.len()
    &&& forall|k: int| 0 <= k < rows.len() ==> (#[trigger] rows[k]).len() == width
    &&& forall|k: int, i: int|
        0 <= k < rows.len() && 0 <= i < rows[k].len() ==> (#[trigger] rows[k][i]).y_min
            == heights[k] && is_cell_text(rows[k][i].text@)
    &&& forall|j: int, k: int|
        0 <= j < rows.len() && 0 <= k < rows.len() && j != k ==> (#[trigger] heights[j]
            - #[trigger] heights[k] > ROW_TOLERANCE || heights[k] - heights[j] > ROW_TOLERANCE)
}

proof fn lemma_lines_of_rows(
    elements: Seq<&TextElement>,
    rows: Seq<Seq<&TextElement>>,
    heights: Seq<int>,
    width: nat,
)
    requires
        are_rows(rows, heights, width),
        elements.to_multiset() == concatenated(rows).to_multiset(),
        width > 0,
    ensures
        page_lines(elements).len() == rows.len(),
        are_table_lines(page_lines(elements), width),
{
    broadcast use vstd::seq_lib::group_to_multiset_ensures;

    let lines = page_lines(elements);
    let runs = runs_of_lines(lines);
    let ys = Seq::new(lines.len(), |k: int| lines[k].y);
    let all = concatenated(rows);
    let groups = line_groups(elements);
    law_lines_stand_apart(elements);
    law_lines_keep_runs(elements);
    law_stable_order(depths(elements));
    lemma_grouped_in_range(depths(elements), stable_order(depths(elements)), elements.len());
    assert forall|e: &TextElement| elements.contains(e) implies all.contains(e) by {
        assert(elements.to_multiset().count(e) > 0);
    }
    assert forall|k: int, i: int| 0 <= k < lines.len() && 0 <= i < lines[k].elements.len() implies (
    #[trigger] lines[k].elements[i]).y_min == lines[k].y && is_cell_text(
        lines[k].elements[i].text@,
    ) && heights.contains(lines[k].y) by {
        let e = lines[k].elements[i];
        assert(runs[k][i] == e);
        lemma_block_in_all(runs, k, i);
        assert(concatenated(runs).to_multiset().count(e) > 0);
        assert(all.to_multiset().count(e) > 0);
        lemma_in_block(rows, e);
        let (a, b) = choose|a: int, b: int|
            0 <= a < rows.len() && 0 <= b < rows[a].len() && #[trigger] rows[a][b] == e;
        let first = elements[groups[k][0]];
        assert(groups[k].len() > 0);
        assert(0 <= groups[k][0] < elements.len());
        assert(elements.contains(first));
        lemma_in_block(rows, first);
        let (c, d) = choose|c: int, d: int|
            0 <= c < rows.len() && 0 <= d < rows[c].len() && #[trigger] rows[c][d] == first;
        assert(lines[k].y == heights[c]);
        assert(e.y_min == heights[a]);
        assert(0 <= lines[k].y - lines[k].elements[i].y_min <= ROW_TOLERANCE);
        if a != c {
            assert(heights[a] - heights[c] > ROW_TOLERANCE || heights[c] - heights[a]
                > ROW_TOLERANCE);
        }
        assert(heights[c] == lines[k].y);
    }
    assert(are_blocks(runs, ys)) by {
        assert forall|k: int, i: int| 0 <= k < runs.len() && 0 <= i < runs[k].len() implies (
        #[trigger] runs[k][i]).y_min == ys[k] by {
            assert(runs[k][i] == lines[k].elements[i]);
        }
        assert forall|j: int, k: int| 0 <= j < k < ys.len() implies #[trigger] ys[j]
            != #[trigger] ys[k] by {
            assert(lines[j].y - lines[k].y > ROW_TOLERANCE);
        }
    }
    assert(are_blocks(rows, heights));
    assert forall|k: int| 0 <= k < runs.len() implies (#[trigger] runs[k]).len() == width by {
        assert(groups[k].len() > 0);
        lemma_line_is_filled(elements, k);
        assert(lines[k].elements.len() > 0);
        assert(lines[k].elements[0].y_min == lines[k].y);
        assert(heights.contains(lines[k].y));
        let c = choose|c: int| 0 <= c < heights.len() && heights[c] == lines[k].y;
        lemma_blocks_total(runs, ys, ys[k]);
        lemma_blocks_total(rows, heights, heights[c]);
        lemma_total_same(concatenated(runs), elements, stands_at(ys[k]));
        lemma_total_same(all, elements, stands_at(ys[k]));
        assert(total(concatenated(runs), stands_at(ys[k])) == runs[k].len());
        assert(total(all, stands_at(heights[c])) == rows[c].len());
    }
    lemma_blocks_length(runs, width);
    lemma_blocks_length(rows, width);
    assert(concatenated(runs).to_multiset().len() == concatenated(runs).len());
    assert(all.to_multiset().len() == all.len());
    assert(runs.len() == rows.len()) by (nonlinear_arith)
        requires
            runs.len() * width == rows.len() * width,
            width > 0,
    ;
    assert forall|k: int| 0 <= k < lines.len() implies (#[trigger] lines[k]).elements.len()
        == width by {
        assert(runs[k].len() == width);
    }
}

proof fn lemma_block_in_all(blocks: Seq<Seq<&TextElement>>, k: int, i: int)
    requires
        0 <= k < blocks.len(),
        0 <= i < blocks[k].len(),
    ensures
        concatenated(blocks).contains(blocks[k][i]),
    decreases blocks.len(),
{
    let front = blocks.drop_last();
    let all = concatenated(blocks);
    if k < front.len() {
        lemma_block_in_all(front, k, i);
        let x = choose|x: int|
            0 <= x < concatenated(front).len() && concatenated(front)[x] == front[k][i];
        assert(all[x] == blocks[k][i]);
    } else {
        assert(all[concatenated(front).len() + i] == blocks[k][i]);
    }
}

proof fn lemma_line_is_filled(elements: Seq<&TextElement>, k: int)
    requires
        0 <= k < page_lines(elements).len(),
        line_groups(elements)[k].len() > 0,
    ensures
        page_lines(elements)[k].elements.len() > 0,
{
    let run = arranged(elements, line_groups(elements)[k]);
    law_stable_order(left_edges(run));
}

/// A table comes out of its own Markdown with as many rows and columns as it has: where a column
/// of a page holds nothing but two rows or more of two cells or more each, its Markdown is found
/// to hold a table of that size.
pub proof fn law_rendered_table_is_found(
    elements: Seq<&TextElement>,
    rows: Seq<Seq<&TextElement>>,
    heights: Seq<int>,
    width: nat,
    body_size: int,
    sizes: Seq<i64>,
)
    requires
        rows.len() >= 2,
        width >= 2,
        are_rows(rows, heights, width),
        elements.to_multiset() == concatenated(rows).to_multiset(),
    ensures
        md_grid(column_markdown(elements, body_size, sizes)) == Some(
            (rows.len() as int, width as int),
        ),
{
    let lines = page_lines(elements);
    let none = Seq::<char>::empty();
    lemma_lines_of_rows(elements, rows, heights, width);
    lemma_all_same_width(lines, width);
    let n = lines.len() as int;
    assert(lines[0].elements.len() == width);
    assert(lines.take(n) =~= lines);
    assert(none + table_text(lines) =~= table_text(lines));
    assert(lines_markdown(
        table_text(lines),
        lines.skip(n),
        Some(lines[n - 1].y),
        body_size,
        sizes,
    ) == table_text(lines));
    assert(lines_markdown(none, lines, None, body_size, sizes) == table_text(lines));
    lemma_table_is_found(lines, width);
}

/// A page of one column that holds nothing but a table is not scored down for the table: where the
/// table of the page is found to have as many rows and columns as it has, so is that of its
/// Markdown.
pub proof fn law_rendered_table_is_kept(
    elements: Seq<&TextElement>,
    rows: Seq<Seq<&TextElement>>,
    heights: Seq<int>,
    width: nat,
    lines: Seq<LineSegment>,
    body_size: int,
    sizes: Seq<i64>,
)
    requires
        rows.len() >= 2,
        width >= 2,
        are_rows(rows, heights, width),
        elements.to_multiset() == concatenated(rows).to_multiset(),
        page_columns(elements) == seq![elements],
        pdf_grid(elements, lines) == Some((rows.len() as int, width as int)),
    ensures
        matrix_score(
            pdf_grid(elements, lines),
            md_grid(page_markdown(elements, body_size, sizes)),
        ) == (1int, true, true),
{
    law_rendered_table_is_found(elements, rows, heights, width, body_size, sizes);
    let text = column_markdown(elements, body_size, sizes);
    let columns = page_columns(elements);
    assert(text.len() > 0) by {
        if text.len() == 0 {
            assert(lines_of(text).len() == 0);
        }
    }
    assert(columns.drop_last() =~= Seq::<Seq<&TextElement>>::empty());
    assert(columns_markdown(columns.drop_last(), body_size, sizes) =~= Seq::<Seq<char>>::empty());
    assert(columns_markdown(columns, body_size, sizes) =~= seq![text]);
}

} // verus!
