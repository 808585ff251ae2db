//! Reading rendered Markdown back into headers, paragraphs, tables and lists.
use crate::markdown_render::{is_content, lemma_count_joined};
use crate::order::{lemma_total_add, total};
use crate::text::{
    begins_with, chars_of, count_where, is_space, join, joined, lemma_count_add, lemma_count_none,
    lemma_count_trimmed, line_length, lines, lines_of, string_of, trim, trimmed, views,
    without_return,
};
use vstd::prelude::*;

verus! {

/// The kind of a Markdown node; a header with its level.
#[derive(Debug, Clone, Copy, PartialEq, Eq, Structural)]
pub enum NodeType {
    Header(usize),
    Paragraph,
    Table,
    List,
}

/// A header, paragraph, table or list, with the page that it starts on.
#[derive(Debug, Clone)]
pub struct MdNode {
    pub node_type: NodeType,
    pub text: String,
    pub page_num: usize,
}

/// What an [`MdNode`] holds.
#[verifier::ext_equal]
pub ghost struct NodeView {
    pub node_type: NodeType,
    pub text: Seq<char>,
    pub page_num: usize,
}

impl View for MdNode {
    type V = NodeView;

    open spec fn view(&self) -> NodeView {
        NodeView { node_type: self.node_type, text: self.text@, page_num: self.page_num }
    }
}

/// What each of the nodes holds.
pub open spec fn node_views(nodes: Seq<MdNode>) -> Seq<NodeView> {
    Seq::new(nodes.len(), |i: int| nodes[i]@)
}

/// What one trimmed line of Markdown is.
#[derive(Debug, Clone, Copy, PartialEq, Eq, Structural)]
pub enum LineKind {
    Blank,
    Header(usize),
    Table,
    List,
    Text,
}

/// How many `#` stand at the start of `s`.
pub open spec fn hash_count(s: Seq<char>) -> nat
    decreases s.len(),
{
    if begins_with(s, '#') {
        1 + hash_count(s.skip(1))
    } else {
        0
    }
}

/// How many ASCII digits stand at the start of `s`.
pub open spec fn digit_count(s: Seq<char>) -> nat
    decreases s.len(),
{
    if s.len() > 0 && '0' <= s[0] && s[0] <= '9' {
        1 + digit_count(s.skip(1))
    } else {
        0
    }
}

/// The level of a header line: one to six `#` and a space.
pub open spec fn header_level_of(s: Seq<char>) -> Option<usize> {
    let n = hash_count(s);
    if 1 <= n <= 6 && n < s.len() && s[n as int] == ' ' {
        Some(n as usize)
    } else {
        None
    }
}

/// Whether a line starts with a number and a full stop.
pub open spec fn is_ordinal(s: Seq<char>) -> bool {
    let n = digit_count(s);
    n > 0 && n < s.len() && s[n as int] == '.'
}

/// The kind of a trimmed line.
pub open spec fn line_kind(s: Seq<char>) -> LineKind {
    if s.len() == 0 {
        LineKind::Blank
    } else if header_level_of(s) is Some {
        LineKind::Header(header_level_of(s)->0)
    } else if begins_with(s, '|') {
        LineKind::Table
    } else if begins_with(s, '-') || begins_with(s, '*') || is_ordinal(s) {
        LineKind::List
    } else {
        LineKind::Text
    }
}

/// How many lines of the given kind stand at the start of `lines`.
pub open spec fn run_length(lines: Seq<Seq<char>>, kind: LineKind) -> nat
    decreases lines.len(),
{
    if lines.len() > 0 && line_kind(lines[0]) == kind {
        1 + run_length(lines.skip(1), kind)
    } else {
        0
    }
}

/// A run is no longer than the lines that it is taken from.
pub proof fn lemma_run_length_bound(lines: Seq<Seq<char>>, kind: LineKind)
    ensures
        run_length(lines, kind) <= lines.len(),
    decreases lines.len(),
{
    if lines.len() > 0 && line_kind(lines[0]) == kind {
        lemma_run_length_bound(lines.skip(1), kind);
    }
}

/// The text of a header line: what follows its `#`s, trimmed.
pub open spec fn header_text(s: Seq<char>) -> Seq<char> {
    trimmed(s.skip(hash_count(s) as int))
}

/// The nodes of one page, from its trimmed lines. A header is a node of its own; the longest run
/// of table lines, of list lines or of other text is one node, the first two with their line
/// breaks, the last with a space in place of each. Blank lines only end such a run.
pub open spec fn page_nodes(lines: Seq<Seq<char>>, page_num: usize) -> Seq<NodeView>
    decreases lines.len(),
{
    if lines.len() == 0 {
        Seq::empty()
    } else {
        let kind = line_kind(lines[0]);
        match kind {
            LineKind::Blank => page_nodes(lines.skip(1), page_num),
            LineKind::Header(level) => seq![
                NodeView {
                    node_type: NodeType::Header(level),
                    text: header_text(lines[0]),
                    page_num,
                },
            ] + page_nodes(lines.skip(1), page_num),
            _ => {
                proof {
                    lemma_run_length_bound(lines.skip(1), kind);
                }
                let n = 1 + run_length(lines.skip(1), kind) as int;
                seq![run_node(lines.take(n), kind, page_num)] + page_nodes(lines.skip(n), page_num)
            },
        }
    }
}

/// The node made of a run of table, list or text lines.
pub open spec fn run_node(run: Seq<Seq<char>>, kind: LineKind, page_num: usize) -> NodeView {
    match kind {
        LineKind::Table => NodeView {
            node_type: NodeType::Table,
            text: joined(run, seq!['\n']),
            page_num,
        },
        LineKind::List => NodeView {
            node_type: NodeType::List,
            text: joined(run, seq!['\n']),
            page_num,
        },
        _ => NodeView { node_type: NodeType::Paragraph, text: joined(run, seq![' ']), page_num },
    }
}

/// Each line trimmed.
pub open spec fn trimmed_lines(lines: Seq<Seq<char>>) -> Seq<Seq<char>> {
    Seq::new(lines.len(), |i: int| trimmed(lines[i]))
}

/// What the rendered pages hold: the page number and the text of each.
pub open spec fn page_views(pages: Seq<(usize, String)>) -> Seq<(usize, Seq<char>)> {
    Seq::new(pages.len(), |i: int| (pages[i].0, pages[i].1@))
}

/// The nodes of a document: those of its pages, one page after the other.
pub open spec fn document_nodes(pages: Seq<(usize, Seq<char>)>) -> Seq<NodeView>
    decreases pages.len(),
{
    if pages.len() == 0 {
        Seq::empty()
    } else {
        document_nodes(pages.drop_last()) + page_nodes(
            trimmed_lines(lines_of(pages.last().1)),
            pages.last().0,
        )
    }
}

/// The level of a header line, if it is one.
pub fn header_level(line: &[char]) -> (r: Option<usize>)
    ensures
        r == header_level_of(line@),
{
    let mut n: usize = 0;
    assert(line@.skip(0) =~= line@);
    while n < line.len() && line[n] == '#'
        invariant
            n <= line@.len(),
            hash_count(line@) == n + hash_count(line@.skip(n as int)),
        decreases line@.len() - n,
    {
        assert(line@.skip(n as int).skip(1) =~= line@.skip(n + 1));
        n = n + 1;
    }
    if 1 <= n && n <= 6 && n < line.len() && line[n] == ' ' {
        Some(n)
    } else {
        None
    }
}

/// Whether a line starts with a number and a full stop.
pub fn starts_with_ordinal(line: &[char]) -> (r: bool)
    ensures
        r == is_ordinal(line@),
{
    let mut n: usize = 0;
    assert(line@.skip(0) =~= line@);
    while n < line.len() && '0' <= line[n] && line[n] <= '9'
        invariant
            n <= line@.len(),
            digit_count(line@) == n + digit_count(line@.skip(n as int)),
        decreases line@.len() - n,
    {
        assert(line@.skip(n as int).skip(1) =~= line@.skip(n + 1));
        n = n + 1;
    }
    n > 0 && n < line.len() && line[n] == '.'
}

/// The name of a kind of node.
pub open spec fn type_label(node_type: NodeType) -> Seq<char> {
    match node_type {
        NodeType::Header(_) => "header"@,
        NodeType::Paragraph => "paragraph"@,
        NodeType::Table => "table"@,
        NodeType::List => "list"@,
    }
}

/// The name of a kind of node.
pub fn node_type_label(node_type: &NodeType) -> (r: &'static str)
    ensures
        r@ == type_label(*node_type),
{
    match node_type {
        NodeType::Header(_) => "header",
        NodeType::Paragraph => "paragraph",
        NodeType::Table => "table",
        NodeType::List => "list",
    }
}

/// The kind of a trimmed line.
fn kind_of(line: &[char]) -> (r: LineKind)
    ensures
        r == line_kind(line@),
{
    if line.len() == 0 {
        return LineKind::Blank;
    }
    match header_level(line) {
        Some(level) => LineKind::Header(level),
        None => {
            if line[0] == '|' {
                LineKind::Table
            } else if line[0] == '-' || line[0] == '*' || starts_with_ordinal(line) {
                LineKind::List
            } else {
                LineKind::Text
            }
        },
    }
}

/// The node made of a run of table, list or text lines.
fn node_from_run(run: &[Vec<char>], kind: LineKind, page_num: usize) -> (r: MdNode)
    ensures
        r@ == run_node(views(run@), kind, page_num),
{
    let feed: [char; 1] = ['\n'];
    let space: [char; 1] = [' '];
    assert(feed@ =~= seq!['\n']);
    assert(space@ =~= seq![' ']);
    match kind {
        LineKind::Table => {
            let text: String = string_of(join(run, &feed).as_slice());
            MdNode { node_type: NodeType::Table, text, page_num }
        },
        LineKind::List => {
            let text: String = string_of(join(run, &feed).as_slice());
            MdNode { node_type: NodeType::List, text, page_num }
        },
        _ => {
            let text: String = string_of(join(run, &space).as_slice());
            MdNode { node_type: NodeType::Paragraph, text, page_num }
        },
    }
}

/// Appends the nodes of one page, given its trimmed lines.
fn append_page_nodes(lines: &[Vec<char>], page_num: usize, nodes: &mut Vec<MdNode>)
    ensures
        node_views(final(nodes)@) == node_views(old(nodes)@) + page_nodes(views(lines@), page_num),
{
    let ghost all = views(lines@);
    let ghost start = node_views(nodes@);
    let mut i: usize = 0;
    assert(all.skip(0) =~= all);
    while i < lines.len()
        invariant
            i <= lines@.len(),
            all == views(lines@),
            node_views(nodes@) + page_nodes(all.skip(i as int), page_num) == start + page_nodes(
                all,
                page_num,
            ),
        decreases lines@.len() - i,
    {
        let ghost rest = all.skip(i as int);
        let ghost before = node_views(nodes@);
        assert(rest[0] == lines@[i as int]@);
        assert(rest.skip(1) =~= all.skip(i + 1));
        let kind: LineKind = kind_of(lines[i].as_slice());
        match kind {
            LineKind::Blank => {
                i = i + 1;
            },
            LineKind::Header(level) => {
                let line: &Vec<char> = &lines[i];
                let after: &[char] = vstd::slice::slice_subrange(line.as_slice(), level, line.len());
                assert(after@ =~= line@.skip(hash_count(line@) as int));
                let text: String = string_of(trim(after).as_slice());
                let node: MdNode = MdNode { node_type: NodeType::Header(level), text, page_num };
                let ghost shown = node@;
                nodes.push(node);
                assert(node_views(nodes@) =~= before.push(shown));
                assert(before.push(shown) + page_nodes(all.skip(i + 1), page_num) =~= before + (seq![
                    shown,
                ] + page_nodes(all.skip(i + 1), page_num)));
                i = i + 1;
            },
            _ => {
                let mut j: usize = i + 1;
                while j < lines.len() && kind_of(lines[j].as_slice()) == kind
                    invariant
                        i < j <= lines@.len(),
                        all == views(lines@),
                        run_length(all.skip(i + 1), kind) == (j - i - 1) + run_length(
                            all.skip(j as int),
                            kind,
                        ),
                    decreases lines@.len() - j,
                {
                    assert(all.skip(j as int)[0] == lines@[j as int]@);
                    assert(all.skip(j as int).skip(1) =~= all.skip(j + 1));
                    j = j + 1;
                }
                let ghost n = j - i;
                proof {
                    if j < lines@.len() {
                        assert(all.skip(j as int)[0] == lines@[j as int]@);
                    }
                    assert(run_length(all.skip(j as int), kind) == 0);
                    assert(n == 1 + run_length(rest.skip(1), kind));
                }
                let run: &[Vec<char>] = vstd::slice::slice_subrange(lines, i, j);
                assert(views(run@) =~= rest.take(n));
                let node: MdNode = node_from_run(run, kind, page_num);
                let ghost shown = node@;
                nodes.push(node);
                assert(node_views(nodes@) =~= before.push(shown));
                assert(rest.skip(n) =~= all.skip(j as int));
                assert(before.push(shown) + page_nodes(all.skip(j as int), page_num) =~= before + (
                seq![shown] + page_nodes(all.skip(j as int), page_num)));
                i = j;
            },
        }
    }
    assert(all.skip(i as int) =~= Seq::<Seq<char>>::empty());
    assert(node_views(nodes@) + page_nodes(all.skip(i as int), page_num) =~= node_views(nodes@));
}

/// Reads the rendered pages of a document into nodes.
pub fn classify_and_group(markdown_by_page: &[(usize, String)]) -> (r: Vec<MdNode>)
    ensures
        node_views(r@) == document_nodes(page_views(markdown_by_page@)),
{
    let ghost pages = page_views(markdown_by_page@);
    let mut nodes: Vec<MdNode> = Vec::new();
    let mut p: usize = 0;
    assert(node_views(nodes@) =~= Seq::<NodeView>::empty());
    while p < markdown_by_page.len()
        invariant
            p <= markdown_by_page@.len(),
            pages == page_views(markdown_by_page@),
            node_views(nodes@) == document_nodes(pages.take(p as int)),
        decreases markdown_by_page@.len() - p,
    {
        let page: &(usize, String) = &markdown_by_page[p];
        let raw: Vec<Vec<char>> = lines(chars_of(page.1.as_str()).as_slice());
        let ghost raw_views = lines_of(page.1@);
        let mut clean: Vec<Vec<char>> = Vec::new();
        let mut i: usize = 0;
        while i < raw.len()
            invariant
                i <= raw@.len(),
                views(raw@) == raw_views,
                views(clean@) == trimmed_lines(raw_views).take(i as int),
            decreases raw@.len() - i,
        {
            assert(raw_views[i as int] == raw@[i as int]@);
            let ghost before = views(clean@);
            clean.push(trim(raw[i].as_slice()));
            assert(views(clean@) =~= before.push(trimmed(raw_views[i as int])));
            assert(trimmed_lines(raw_views).take(i + 1) =~= before.push(trimmed(raw_views[i as int])));
            i = i + 1;
        }
        assert(raw@.len() == views(raw@).len());
        assert(trimmed_lines(raw_views).take(i as int) =~= trimmed_lines(raw_views));
        append_page_nodes(clean.as_slice(), page.0, &mut nodes);
        assert(pages.take(p + 1).drop_last() =~= pages.take(p as int));
        assert(pages.take(p + 1).last() == (page.0, page.1@));
        p = p + 1;
    }
    assert(pages.take(p as int) =~= pages);
    nodes
}

/// How many characters of a node have the property `p`.
pub open spec fn node_weight(p: spec_fn(char) -> bool) -> spec_fn(NodeView) -> nat {
    |node: NodeView| count_where(node.text, p)
}

/// How many characters of a part have the property `p`.
pub open spec fn part_weight(p: spec_fn(char) -> bool) -> spec_fn(Seq<char>) -> nat {
    |part: Seq<char>| count_where(part, p)
}

/// How many characters of a page have the property `p`.
pub open spec fn page_weight(p: spec_fn(char) -> bool) -> spec_fn((usize, Seq<char>)) -> nat {
    |page: (usize, Seq<char>)| count_where(page.1, p)
}

proof fn lemma_total_one<A>(x: A, f: spec_fn(A) -> nat)
    ensures
        total(seq![x], f) == f(x),
{
    assert(seq![x].drop_last() =~= Seq::<A>::empty());
    assert(total(seq![x].drop_last(), f) == 0);
}

proof fn lemma_count_lines(s: Seq<char>, p: spec_fn(char) -> bool)
    requires
        is_content(p),
    ensures
        total(lines_of(s), part_weight(p)) == count_where(s, p),
    decreases s.len(),
{
    let f = part_weight(p);
    if s.len() > 0 {
        let k = line_length(s) as int;
        if k >= s.len() {
            lemma_total_one(s, f);
        } else {
            assert(is_space('\n') && is_space('\r'));
            let line = s.take(k);
            let rest = s.skip(k + 1);
            lemma_count_lines(rest, p);
            lemma_total_one(without_return(line), f);
            lemma_total_add(seq![without_return(line)], lines_of(rest), f);
            lemma_line_end(s);
            assert(s =~= line + seq!['\n'] + rest);
            lemma_count_none(seq!['\n'], p);
            lemma_count_add(line, seq!['\n'], p);
            lemma_count_add(line + seq!['\n'], rest, p);
        }
    }
}

proof fn lemma_line_end(s: Seq<char>)
    requires
        line_length(s) < s.len(),
    ensures
        s[line_length(s) as int] == '\n',
    decreases s.len(),
{
    if s[0] != '\n' {
        lemma_line_end(s.skip(1));
    }
}

proof fn lemma_count_trimmed_lines(lines: Seq<Seq<char>>, p: spec_fn(char) -> bool)
    requires
        is_content(p),
    ensures
        total(trimmed_lines(lines), part_weight(p)) == total(lines, part_weight(p)),
    decreases lines.len(),
{
    if lines.len() > 0 {
        lemma_count_trimmed_lines(lines.drop_last(), p);
        assert(trimmed_lines(lines).drop_last() =~= trimmed_lines(lines.drop_last()));
        lemma_count_trimmed(lines.last(), p);
    }
}

proof fn lemma_hashes(s: Seq<char>)
    ensures
        hash_count(s) <= s.len(),
        forall|i: int| 0 <= i < hash_count(s) ==> #[trigger] s[i] == '#',
    decreases s.len(),
{
    if begins_with(s, '#') {
        lemma_hashes(s.skip(1));
        assert forall|i: int| 0 <= i < hash_count(s) implies #[trigger] s[i] == '#' by {
            if i > 0 {
                assert(s.skip(1)[i - 1] == s[i]);
            }
        }
    }
}

proof fn lemma_count_header(s: Seq<char>, p: spec_fn(char) -> bool)
    requires
        is_content(p),
    ensures
        count_where(header_text(s), p) == count_where(s, p),
{
    let n = hash_count(s) as int;
    lemma_hashes(s);
    let marks = s.take(n);
    assert forall|i: int| 0 <= i < marks.len() implies !p(#[trigger] marks[i]) by {
        assert(s[i] == '#');
    }
    lemma_count_none(marks, p);
    assert(s =~= marks + s.skip(n));
    lemma_count_add(marks, s.skip(n), p);
    lemma_count_trimmed(s.skip(n), p);
}

proof fn lemma_count_page_nodes(lines: Seq<Seq<char>>, page_num: usize, p: spec_fn(char) -> bool)
    requires
        is_content(p),
    ensures
        total(page_nodes(lines, page_num), node_weight(p)) == total(lines, part_weight(p)),
    decreases lines.len(),
{
    let f = node_weight(p);
    let g = part_weight(p);
    if lines.len() > 0 {
        let kind = line_kind(lines[0]);
        assert(is_space('\n') && is_space(' '));
        match kind {
            LineKind::Blank => {
                lemma_count_page_nodes(lines.skip(1), page_num, p);
                lemma_total_one(lines[0], g);
                lemma_total_add(seq![lines[0]], lines.skip(1), g);
                assert(lines =~= seq![lines[0]] + lines.skip(1));
                assert(count_where(lines[0], p) == 0);
            },
            LineKind::Header(level) => {
                let node = NodeView {
                    node_type: NodeType::Header(level),
                    text: header_text(lines[0]),
                    page_num,
                };
                lemma_count_page_nodes(lines.skip(1), page_num, p);
                lemma_count_header(lines[0], p);
                lemma_total_one(node, f);
                lemma_total_add(seq![node], page_nodes(lines.skip(1), page_num), f);
                lemma_total_one(lines[0], g);
                lemma_total_add(seq![lines[0]], lines.skip(1), g);
                assert(lines =~= seq![lines[0]] + lines.skip(1));
            },
            _ => {
                lemma_run_length_bound(lines.skip(1), kind);
                let n = 1 + run_length(lines.skip(1), kind) as int;
                let run = lines.take(n);
                let node = run_node(run, kind, page_num);
                lemma_count_page_nodes(lines.skip(n), page_num, p);
                lemma_count_none(seq!['\n'], p);
                lemma_count_none(seq![' '], p);
                lemma_count_joined(run, seq!['\n'], p);
                lemma_count_joined(run, seq![' '], p);
                assert(count_where(node.text, p) == total(run, g));
                lemma_total_one(node, f);
                lemma_total_add(seq![node], page_nodes(lines.skip(n), page_num), f);
                lemma_total_add(run, lines.skip(n), g);
                assert(lines =~= run + lines.skip(n));
            },
        }
    }
}

/// Grouping the lines of the pages into nodes loses no content and invents none: as many
/// characters with a property come out as went in, for any property that neither white space nor
/// the marks of Markdown have.
pub proof fn law_nodes_keep_content(pages: Seq<(usize, Seq<char>)>, p: spec_fn(char) -> bool)
    requires
        is_content(p),
    ensures
        total(document_nodes(pages), node_weight(p)) == total(pages, page_weight(p)),
    decreases pages.len(),
{
    if pages.len() > 0 {
        let front = pages.drop_last();
        let lines = lines_of(pages.last().1);
        law_nodes_keep_content(front, p);
        lemma_count_lines(pages.last().1, p);
        lemma_count_trimmed_lines(lines, p);
        lemma_count_page_nodes(trimmed_lines(lines), pages.last().0, p);
        lemma_total_add(
            document_nodes(front),
            page_nodes(trimmed_lines(lines), pages.last().0),
            node_weight(p),
        );
    }
}

proof fn lemma_hash_count(n: nat, rest: Seq<char>)
    requires
        rest.len() == 0 || rest[0] != '#',
    ensures
        hash_count(Seq::new(n, |i: int| '#') + rest) == n,
    decreases n,
{
    let marks = Seq::new(n, |i: int| '#');
    let s = marks + rest;
    if n == 0 {
        assert(s =~= rest);
    } else {
        lemma_hash_count((n - 1) as nat, rest);
        assert(s.skip(1) =~= Seq::new((n - 1) as nat, |i: int| '#') + rest);
        assert(s[0] == '#');
    }
}

/// One to six `#` with a space behind them make a header of that level, with what follows as its
/// text; more of them do not, and neither do any without the space.
pub proof fn law_header_lines(n: nat, rest: Seq<char>, c: char)
    requires
        c != '#',
        c != ' ',
    ensures
        ({
            let marks = Seq::new(n, |i: int| '#');
            &&& 1 <= n <= 6 ==> line_kind(marks + " "@ + rest) == LineKind::Header(n as usize)
                && header_text(marks + " "@ + rest) == trimmed(" "@ + rest)
            &&& n > 6 ==> !(line_kind(marks + " "@ + rest) is Header)
            &&& !(line_kind(marks.push(c) + rest) is Header)
            &&& !(line_kind(marks) is Header)
        }),
{
    reveal_strlit(" ");
    assert(" "@ =~= seq![' ']);
    let marks = Seq::new(n, |i: int| '#');
    let spaced = " "@ + rest;
    let tight = seq![c] + rest;
    let none = Seq::<char>::empty();
    lemma_hash_count(n, spaced);
    lemma_hash_count(n, tight);
    lemma_hash_count(n, none);
    assert(marks + " "@ + rest =~= marks + spaced);
    assert(marks.push(c) + rest =~= marks + tight);
    assert(marks + none =~= marks);
    assert((marks + spaced).skip(n as int) =~= spaced);
    assert((marks + spaced)[n as int] == ' ');
    assert((marks + tight)[n as int] == c);
}

proof fn lemma_digit_count(digits: Seq<char>, rest: Seq<char>)
    requires
        forall|i: int| 0 <= i < digits.len() ==> '0' <= #[trigger] digits[i] && digits[i] <= '9',
        rest.len() == 0 || !('0' <= rest[0] && rest[0] <= '9'),
    ensures
        digit_count(digits + rest) == digits.len(),
    decreases digits.len(),
{
    let s = digits + rest;
    if digits.len() == 0 {
        assert(s =~= rest);
    } else {
        assert('0' <= digits[0]);
        assert(s[0] == digits[0]);
        assert forall|i: int| 0 <= i < digits.skip(1).len() implies '0' <= #[trigger] digits.skip(
            1,
        )[i] && digits.skip(1)[i] <= '9' by {
            assert(digits.skip(1)[i] == digits[i + 1]);
        }
        lemma_digit_count(digits.skip(1), rest);
        assert(s.skip(1) =~= digits.skip(1) + rest);
    }
}

/// A line that starts with a bar belongs to a table; one that starts with a dash, a star or a
/// number and a full stop, to a list; one without characters is blank; one that starts with none of
/// these, nor with a `#`, is text, and so is one that starts with a number and something else.
pub proof fn law_line_kinds(digits: Seq<char>, rest: Seq<char>, c: char)
    requires
        forall|i: int| 0 <= i < digits.len() ==> '0' <= #[trigger] digits[i] && digits[i] <= '9',
        digits.len() > 0,
    ensures
        line_kind(Seq::empty()) == LineKind::Blank,
        line_kind(seq!['|'] + rest) == LineKind::Table,
        line_kind(seq!['-'] + rest) == LineKind::List,
        line_kind(seq!['*'] + rest) == LineKind::List,
        line_kind(digits.push('.') + rest) == LineKind::List,
        c != '.' && !('0' <= c && c <= '9') ==> line_kind(digits.push(c) + rest) == LineKind::Text,
        line_kind(digits) == LineKind::Text,
        c != '#' && c != '|' && c != '-' && c != '*' && !('0' <= c && c <= '9') ==> line_kind(
            seq![c] + rest,
        ) == LineKind::Text,
        !(line_kind(seq!['#'] + rest) is Header) ==> line_kind(seq!['#'] + rest) == LineKind::Text,
{
    let none = Seq::<char>::empty();
    let point = seq!['.'] + rest;
    let other = seq![c] + rest;
    lemma_digit_count(digits, point);
    lemma_digit_count(digits, none);
    assert(digits.push('.') + rest =~= digits + point);
    assert(digits.push(c) + rest =~= digits + other);
    assert(digits + none =~= digits);
    assert((digits + point)[digits.len() as int] == '.');
    assert((digits + other)[digits.len() as int] == c);
    assert('0' <= digits[0] && digits[0] <= '9');
    assert((digits + point)[0] == digits[0] && (digits + other)[0] == digits[0]);
    if !('0' <= c && c <= '9') {
        lemma_digit_count(digits, other);
        lemma_digit_count(none, other);
        assert(none + other =~= other);
    }
    assert((seq!['|'] + rest)[0] == '|');
    assert((seq!['-'] + rest)[0] == '-');
    assert((seq!['*'] + rest)[0] == '*');
    assert((seq!['#'] + rest)[0] == '#');
    assert(other[0] == c);
    lemma_digit_count(none, seq!['#'] + rest);
    assert(none + (seq!['#'] + rest) =~= seq!['#'] + rest);
}

proof fn lemma_run_of_kind(run: Seq<Seq<char>>, rest: Seq<Seq<char>>, kind: LineKind)
    requires
        forall|i: int| 0 <= i < run.len() ==> line_kind(#[trigger] run[i]) == kind,
        rest.len() == 0 || line_kind(rest[0]) != kind,
    ensures
        run_length(run + rest, kind) == run.len(),
    decreases run.len(),
{
    let all = run + rest;
    if run.len() == 0 {
        assert(all =~= rest);
    } else {
        assert(line_kind(run[0]) == kind);
        assert(all[0] == run[0]);
        assert forall|i: int| 0 <= i < run.skip(1).len() implies line_kind(
            #[trigger] run.skip(1)[i],
        ) == kind by {
            assert(run.skip(1)[i] == run[i + 1]);
        }
        lemma_run_of_kind(run.skip(1), rest, kind);
        assert(all.skip(1) =~= run.skip(1) + rest);
    }
}

/// The nodes of a page follow its lines: a blank line is none, a header line is a node with its
/// level and text, and lines of one other kind that follow one another, as far as they go, are one
/// node: a table or a list with a line feed between them, a paragraph with a space.
pub proof fn law_nodes_of_a_page(
    run: Seq<Seq<char>>,
    rest: Seq<Seq<char>>,
    line: Seq<char>,
    kind: LineKind,
    page_num: usize,
)
    requires
        run.len() > 0,
        kind == LineKind::Table || kind == LineKind::List || kind == LineKind::Text,
        forall|i: int| 0 <= i < run.len() ==> line_kind(#[trigger] run[i]) == kind,
        rest.len() == 0 || line_kind(rest[0]) != kind,
    ensures
        page_nodes(Seq::empty(), page_num) == Seq::<NodeView>::empty(),
        line_kind(line) == LineKind::Blank ==> page_nodes(seq![line] + rest, page_num) == page_nodes(
            rest,
            page_num,
        ),
        line_kind(line) matches LineKind::Header(level) ==> page_nodes(seq![line] + rest, page_num)
            == seq![
            NodeView { node_type: NodeType::Header(level), text: header_text(line), page_num },
        ] + page_nodes(rest, page_num),
        page_nodes(run + rest, page_num) == seq![
            NodeView {
                node_type: if kind == LineKind::Table {
                    NodeType::Table
                } else if kind == LineKind::List {
                    NodeType::List
                } else {
                    NodeType::Paragraph
                },
                text: joined(
                    run,
                    if kind == LineKind::Text {
                        " "@
                    } else {
                        "\n"@
                    },
                ),
                page_num,
            },
        ] + page_nodes(rest, page_num),
{
    reveal_strlit(" ");
    reveal_strlit("\n");
    assert(" "@ =~= seq![' ']);
    assert("\n"@ =~= seq!['\n']);
    let all = run + rest;
    assert((seq![line] + rest).skip(1) =~= rest);
    assert((seq![line] + rest)[0] == line);
    assert(line_kind(run[0]) == kind);
    assert(all[0] == run[0]);
    assert forall|i: int| 0 <= i < run.skip(1).len() implies line_kind(#[trigger] run.skip(1)[i])
        == kind by {
        assert(run.skip(1)[i] == run[i + 1]);
    }
    lemma_run_of_kind(run.skip(1), rest, kind);
    assert(all.skip(1) =~= run.skip(1) + rest);
    let n = run.len() as int;
    assert(all.take(n) =~= run);
    assert(all.skip(n) =~= rest);
}

/// The nodes of pages are those of the ones and those of the others, and those of a single page are
/// those of its lines, each without white space at its ends, with the number of the page.
pub proof fn law_nodes_of_pages(
    a: Seq<(usize, Seq<char>)>,
    b: Seq<(usize, Seq<char>)>,
    page: (usize, Seq<char>),
)
    ensures
        document_nodes(a + b) == document_nodes(a) + document_nodes(b),
        document_nodes(seq![page]) == page_nodes(
            Seq::new(lines_of(page.1).len(), |i: int| trimmed(lines_of(page.1)[i])),
            page.0,
        ),
        document_nodes(Seq::empty()) == Seq::<NodeView>::empty(),
    decreases b.len(),
{
    if b.len() == 0 {
        assert(a + b =~= a);
        assert(document_nodes(a) + document_nodes(b) =~= document_nodes(a));
    } else {
        law_nodes_of_pages(a, b.drop_last(), page);
        assert((a + b).drop_last() =~= a + b.drop_last());
        assert(document_nodes(a + b) =~= document_nodes(a) + document_nodes(b));
    }
    let one = seq![page];
    let lines = lines_of(page.1);
    assert(one.drop_last() =~= Seq::<(usize, Seq<char>)>::empty());
    assert(document_nodes(one.drop_last()) =~= Seq::<NodeView>::empty());
    assert(trimmed_lines(lines) =~= Seq::new(lines.len(), |i: int| trimmed(lines[i])));
    assert(document_nodes(one) =~= page_nodes(trimmed_lines(lines), page.0));
}

/// The names of the kinds of nodes.
pub proof fn law_names_of_kinds(level: usize)
    ensures
        type_label(NodeType::Header(level)) == "header"@,
        type_label(NodeType::Paragraph) == "paragraph"@,
        type_label(NodeType::Table) == "table"@,
        type_label(NodeType::List) == "list"@,
{
}

/// Nodes and pages are seen as they are, each in its place.
pub proof fn law_nodes_are_seen(nodes: Seq<MdNode>, pages: Seq<(usize, String)>, i: int)
    ensures
        node_views(nodes).len() == nodes.len(),
        0 <= i < nodes.len() ==> {
            &&& node_views(nodes)[i].node_type == nodes[i].node_type
            &&& node_views(nodes)[i].text == nodes[i].text@
            &&& node_views(nodes)[i].page_num == nodes[i].page_num
        },
        page_views(pages).len() == pages.len(),
        0 <= i < pages.len() ==> page_views(pages)[i].0 == pages[i].0 && page_views(pages)[i].1
            == pages[i].1@,
{
}

/// A line has the level of the header that it is, and none otherwise; it starts with an ordinal
/// where a full stop follows the digits that it starts with.
pub proof fn law_levels_and_ordinals(line: Seq<char>, digits: Seq<char>, c: char, rest: Seq<char>)
    requires
        forall|i: int| 0 <= i < digits.len() ==> '0' <= #[trigger] digits[i] && digits[i] <= '9',
        !('0' <= c && c <= '9'),
    ensures
        header_level_of(line) == match line_kind(line) {
            LineKind::Header(level) => Some(level),
            _ => None,
        },
        is_ordinal(digits.push(c) + rest) == (digits.len() > 0 && c == '.'),
        !is_ordinal(digits),
{
    lemma_digit_count(digits, seq![c] + rest);
    lemma_digit_count(digits, Seq::empty());
    assert(digits + (seq![c] + rest) =~= digits.push(c) + rest);
    assert(digits + Seq::<char>::empty() =~= digits);
    assert((digits.push(c) + rest)[digits.len() as int] == c);
}

} // verus!
