//! Ruled tables, found from the lines that are drawn on a page.
use crate::order::{
    arranged, index_values, is_stable_order, key_values, law_arranging_keeps_items,
    law_stable_order, law_what_is_in_order_stays, order_by_keys, precedes, stable_order,
};
use crate::types::LineSegment;
use vstd::prelude::*;

verus! {

/// Lines shorter than this are noise, such as tick marks, and no table rules.
pub const MIN_RULE_LENGTH: i64 = 8_000_000;

/// How far off its axis a line may lean and still be horizontal or vertical.
pub const AXIS_TOLERANCE: i64 = 1_000_000;

/// How close two rules stand to count as one.
pub const CLUSTER_TOLERANCE: i64 = 2_000_000;

/// How far a rule may end short of another and still cross it.
pub const INTERSECTION_TOLERANCE: i64 = 2_000_000;

/// A horizontal or vertical rule: where it stands on one axis and what it spans on the other.
#[derive(Debug, Clone, Copy, PartialEq, Eq, Structural)]
pub struct Rule {
    /// The y of a horizontal rule, the x of a vertical one.
    pub pos: i64,
    /// The least x of a horizontal rule, the least y of a vertical one.
    pub span_min: i64,
    /// The greatest x of a horizontal rule, the greatest y of a vertical one.
    pub span_max: i64,
}

/// The middle between two positions, rounded down.
pub open spec fn middle(a: i64, b: i64) -> i64 {
    ((a + b) / 2) as i64
}

fn midpoint(a: i64, b: i64) -> (r: i64)
    ensures
        r == middle(a, b),
        r == (a + b) / 2,
{
    let shifted: u128 = (a as i128 + b as i128 + 0x1_0000_0000_0000_0000) as u128;
    let half: i128 = (shifted / 2) as i128 - 0x8000_0000_0000_0000;
    half as i64
}

pub open spec fn lesser(a: i64, b: i64) -> i64 {
    if a <= b {
        a
    } else {
        b
    }
}

pub open spec fn greater(a: i64, b: i64) -> i64 {
    if a >= b {
        a
    } else {
        b
    }
}

pub open spec fn distance(a: int, b: int) -> int {
    if a <= b {
        b - a
    } else {
        a - b
    }
}

fn gap(a: i64, b: i64) -> (r: i128)
    ensures
        r == distance(a as int, b as int),
        0 <= r < 0x1_0000_0000_0000_0000,
{
    if a <= b {
        b as i128 - a as i128
    } else {
        a as i128 - b as i128
    }
}

/// Whether a line is too short to be a rule.
pub open spec fn is_short(s: LineSegment) -> bool {
    let dx = s.x1 - s.x0;
    let dy = s.y1 - s.y0;
    dx * dx + dy * dy < MIN_RULE_LENGTH * MIN_RULE_LENGTH
}

/// Whether a line is long enough for a rule and runs along the x axis.
pub open spec fn is_horizontal(s: LineSegment) -> bool {
    let dx = distance(s.x0 as int, s.x1 as int);
    let dy = distance(s.y0 as int, s.y1 as int);
    !is_short(s) && dy <= AXIS_TOLERANCE && dx > dy
}

/// Whether a line is long enough for a rule and runs along the y axis.
pub open spec fn is_vertical(s: LineSegment) -> bool {
    let dx = distance(s.x0 as int, s.x1 as int);
    let dy = distance(s.y0 as int, s.y1 as int);
    !is_short(s) && dx <= AXIS_TOLERANCE && dy > dx
}

pub open spec fn horizontal_rule(s: LineSegment) -> Rule {
    Rule { pos: middle(s.y0, s.y1), span_min: lesser(s.x0, s.x1), span_max: greater(s.x0, s.x1) }
}

pub open spec fn vertical_rule(s: LineSegment) -> Rule {
    Rule { pos: middle(s.x0, s.x1), span_min: lesser(s.y0, s.y1), span_max: greater(s.y0, s.y1) }
}

/// The rules that the horizontal lines make, in order.
pub open spec fn horizontal_rules(lines: Seq<LineSegment>) -> Seq<Rule>
    decreases lines.len(),
{
    if lines.len() == 0 {
        Seq::empty()
    } else if is_horizontal(lines.last()) {
        horizontal_rules(lines.drop_last()).push(horizontal_rule(lines.last()))
    } else {
        horizontal_rules(lines.drop_last())
    }
}

/// The rules that the vertical lines make, in order.
pub open spec fn vertical_rules(lines: Seq<LineSegment>) -> Seq<Rule>
    decreases lines.len(),
{
    if lines.len() == 0 {
        Seq::empty()
    } else if is_vertical(lines.last()) {
        vertical_rules(lines.drop_last()).push(vertical_rule(lines.last()))
    } else {
        vertical_rules(lines.drop_last())
    }
}

pub open spec fn positions(rules: Seq<Rule>) -> Seq<int> {
    Seq::new(rules.len(), |i: int| rules[i].pos as int)
}

/// The rules by ascending position.
pub open spec fn by_position(rules: Seq<Rule>) -> Seq<Rule> {
    arranged(rules, stable_order(positions(rules)))
}

/// Two rules as one: it spans both and stands midway between them.
pub open spec fn merged(a: Rule, b: Rule) -> Rule {
    Rule {
        pos: middle(a.pos, b.pos),
        span_min: lesser(a.span_min, b.span_min),
        span_max: greater(a.span_max, b.span_max),
    }
}

/// Takes up one more rule: it merges with the last one where the two stand close together.
pub open spec fn with_rule(clustered: Seq<Rule>, rule: Rule) -> Seq<Rule> {
    if clustered.len() > 0 && distance(clustered.last().pos as int, rule.pos as int)
        <= CLUSTER_TOLERANCE {
        clustered.drop_last().push(merged(clustered.last(), rule))
    } else {
        clustered.push(rule)
    }
}

/// Takes up the rules one after another.
pub open spec fn taken_up(rules: Seq<Rule>) -> Seq<Rule>
    decreases rules.len(),
{
    if rules.len() == 0 {
        Seq::empty()
    } else {
        with_rule(taken_up(rules.drop_last()), rules.last())
    }
}

/// The distinct rules: those that stand close together count as one.
pub open spec fn clustered(rules: Seq<Rule>) -> Seq<Rule> {
    taken_up(by_position(rules))
}

/// Whether a horizontal and a vertical rule cross.
pub open spec fn crosses(h: Rule, v: Rule) -> bool {
    &&& v.pos >= h.span_min - INTERSECTION_TOLERANCE
    &&& v.pos <= h.span_max + INTERSECTION_TOLERANCE
    &&& h.pos >= v.span_min - INTERSECTION_TOLERANCE
    &&& h.pos <= v.span_max + INTERSECTION_TOLERANCE
}

/// How many of the vertical rules cross `h`.
pub open spec fn crossings_of_horizontal(h: Rule, verticals: Seq<Rule>) -> nat
    decreases verticals.len(),
{
    if verticals.len() == 0 {
        0
    } else {
        crossings_of_horizontal(h, verticals.drop_last()) + if crosses(h, verticals.last()) {
            1nat
        } else {
            0
        }
    }
}

/// How many of the horizontal rules cross `v`.
pub open spec fn crossings_of_vertical(v: Rule, horizontals: Seq<Rule>) -> nat
    decreases horizontals.len(),
{
    if horizontals.len() == 0 {
        0
    } else {
        crossings_of_vertical(v, horizontals.drop_last()) + if crosses(horizontals.last(), v) {
            1nat
        } else {
            0
        }
    }
}

/// The horizontal rules that cross two or more of the vertical ones.
pub open spec fn kept_horizontals(horizontals: Seq<Rule>, verticals: Seq<Rule>) -> Seq<Rule>
    decreases horizontals.len(),
{
    if horizontals.len() == 0 {
        Seq::empty()
    } else {
        let front = kept_horizontals(horizontals.drop_last(), verticals);
        if crossings_of_horizontal(horizontals.last(), verticals) >= 2 {
            front.push(horizontals.last())
        } else {
            front
        }
    }
}

/// The vertical rules that cross two or more of the horizontal ones.
pub open spec fn kept_verticals(verticals: Seq<Rule>, horizontals: Seq<Rule>) -> Seq<Rule>
    decreases verticals.len(),
{
    if verticals.len() == 0 {
        Seq::empty()
    } else {
        let front = kept_verticals(verticals.drop_last(), horizontals);
        if crossings_of_vertical(verticals.last(), horizontals) >= 2 {
            front.push(verticals.last())
        } else {
            front
        }
    }
}

/// The rules that cross each other: what is left once no horizontal rule crosses fewer than two
/// of the vertical ones that are left, and no vertical rule fewer than two of the horizontal ones.
pub open spec fn mutual_rules(horizontals: Seq<Rule>, verticals: Seq<Rule>) -> (Seq<Rule>, Seq<Rule>)
    decreases horizontals.len() + verticals.len(),
{
    let hs = kept_horizontals(horizontals, verticals);
    let vs = kept_verticals(verticals, hs);
    if hs.len() + vs.len() < horizontals.len() + verticals.len() {
        mutual_rules(hs, vs)
    } else {
        (horizontals, verticals)
    }
}

/// The rules of the table among `lines`: the distinct horizontal and vertical ones that cross each
/// other.
pub open spec fn grid_rules(lines: Seq<LineSegment>) -> (Seq<Rule>, Seq<Rule>) {
    mutual_rules(clustered(horizontal_rules(lines)), clustered(vertical_rules(lines)))
}

/// The rows and columns of the ruled table among `lines`, where there is one: at least two
/// horizontal and two vertical rules, each of which crosses two or more of the others.
pub open spec fn ruled_grid(lines: Seq<LineSegment>) -> Option<(int, int)> {
    let (hs, vs) = grid_rules(lines);
    if hs.len() < 2 || vs.len() < 2 {
        None
    } else {
        Some((hs.len() - 1, vs.len() - 1))
    }
}

fn short_line(s: &LineSegment) -> (r: bool)
    ensures
        r == is_short(*s),
{
    let dx: i128 = gap(s.x0, s.x1);
    let dy: i128 = gap(s.y0, s.y1);
    let limit: i128 = MIN_RULE_LENGTH as i128;
    let ghost ex: int = s.x1 - s.x0;
    let ghost ey: int = s.y1 - s.y0;
    assert(ex * ex == dx * dx && ey * ey == dy * dy) by (nonlinear_arith)
        requires
            ex == dx || ex == -dx,
            ey == dy || ey == -dy,
    ;
    if dx >= limit || dy >= limit {
        assert(dx * dx + dy * dy >= limit * limit) by (nonlinear_arith)
            requires
                dx >= limit || dy >= limit,
                dx >= 0,
                dy >= 0,
                limit >= 0,
        ;
        return false;
    }
    assert(0 <= dx * dx <= limit * limit && 0 <= dy * dy <= limit * limit) by (nonlinear_arith)
        requires
            0 <= dx <= limit,
            0 <= dy <= limit,
    ;
    dx * dx + dy * dy < limit * limit
}

/// Merges the rules that stand close together.
pub fn cluster_rules(items: &[Rule]) -> (r: Vec<Rule>)
    ensures
        r@ == clustered(items@),
{
    let mut keys: Vec<i128> = Vec::new();
    let mut k: usize = 0;
    while k < items.len()
        invariant
            k <= items@.len(),
            keys@.len() == k,
            forall|i: int| 0 <= i < k ==> keys@[i] == (#[trigger] items@[i]).pos,
        decreases items@.len() - k,
    {
        keys.push(items[k].pos as i128);
        k = k + 1;
    }
    assert(key_values(keys@) =~= positions(items@));
    let order: Vec<usize> = order_by_keys(&keys);
    let ghost sorted = by_position(items@);
    assert(order@.len() == items@.len()) by {
        assert(index_values(order@).len() == order@.len());
    }
    let mut out: Vec<Rule> = Vec::new();
    let mut i: usize = 0;
    assert(sorted.take(0) =~= Seq::<Rule>::empty());
    while i < order.len()
        invariant
            i <= order@.len(),
            order@.len() == items@.len(),
            sorted == by_position(items@),
            index_values(order@) == stable_order(positions(items@)),
            is_stable_order(index_values(order@), positions(items@), items@.len()),
            out@ == taken_up(sorted.take(i as int)),
        decreases order@.len() - i,
    {
        assert(index_values(order@)[i as int] == order@[i as int]);
        let item: Rule = items[order[i]];
        proof {
            assert(item == sorted[i as int]);
            assert(sorted.take(i + 1).drop_last() =~= sorted.take(i as int));
            assert(sorted.take(i + 1).last() == item);
        }
        let n: usize = out.len();
        if n > 0 && gap(out[n - 1].pos, item.pos) <= CLUSTER_TOLERANCE as i128 {
            let last: Rule = out[n - 1];
            let both: Rule = Rule {
                pos: midpoint(last.pos, item.pos),
                span_min: if last.span_min <= item.span_min {
                    last.span_min
                } else {
                    item.span_min
                },
                span_max: if last.span_max >= item.span_max {
                    last.span_max
                } else {
                    item.span_max
                },
            };
            let ghost before = out@;
            out.set(n - 1, both);
            assert(out@ =~= before.drop_last().push(both));
        } else {
            out.push(item);
        }
        i = i + 1;
    }
    assert(sorted.take(i as int) =~= sorted);
    out
}

fn cross(h: &Rule, v: &Rule) -> (r: bool)
    ensures
        r == crosses(*h, *v),
{
    let slack: i128 = INTERSECTION_TOLERANCE as i128;
    v.pos as i128 >= h.span_min as i128 - slack && v.pos as i128 <= h.span_max as i128 + slack
        && h.pos as i128 >= v.span_min as i128 - slack && h.pos as i128 <= v.span_max as i128 + slack
}

fn keep_horizontals(horizontals: &[Rule], verticals: &[Rule]) -> (r: Vec<Rule>)
    ensures
        r@ == kept_horizontals(horizontals@, verticals@),
{
    let mut out: Vec<Rule> = Vec::new();
    let mut i: usize = 0;
    assert(horizontals@.take(0) =~= Seq::<Rule>::empty());
    while i < horizontals.len()
        invariant
            i <= horizontals@.len(),
            out@ == kept_horizontals(horizontals@.take(i as int), verticals@),
        decreases horizontals@.len() - i,
    {
        let h: Rule = horizontals[i];
        let mut count: usize = 0;
        let mut j: usize = 0;
        assert(verticals@.take(0) =~= Seq::<Rule>::empty());
        while j < verticals.len()
            invariant
                j <= verticals@.len(),
                count == crossings_of_horizontal(h, verticals@.take(j as int)),
                count <= j,
            decreases verticals@.len() - j,
        {
            assert(verticals@.take(j + 1).drop_last() =~= verticals@.take(j as int));
            if cross(&h, &verticals[j]) {
                count = count + 1;
            }
            j = j + 1;
        }
        assert(verticals@.take(j as int) =~= verticals@);
        assert(horizontals@.take(i + 1).drop_last() =~= horizontals@.take(i as int));
        if count >= 2 {
            out.push(h);
        }
        i = i + 1;
    }
    assert(horizontals@.take(i as int) =~= horizontals@);
    out
}

fn keep_verticals(verticals: &[Rule], horizontals: &[Rule]) -> (r: Vec<Rule>)
    ensures
        r@ == kept_verticals(verticals@, horizontals@),
{
    let mut out: Vec<Rule> = Vec::new();
    let mut i: usize = 0;
    assert(verticals@.take(0) =~= Seq::<Rule>::empty());
    while i < verticals.len()
        invariant
            i <= verticals@.len(),
            out@ == kept_verticals(verticals@.take(i as int), horizontals@),
        decreases verticals@.len() - i,
    {
        let v: Rule = verticals[i];
        let mut count: usize = 0;
        let mut j: usize = 0;
        assert(horizontals@.take(0) =~= Seq::<Rule>::empty());
        while j < horizontals.len()
            invariant
                j <= horizontals@.len(),
                count == crossings_of_vertical(v, horizontals@.take(j as int)),
                count <= j,
            decreases horizontals@.len() - j,
        {
            assert(horizontals@.take(j + 1).drop_last() =~= horizontals@.take(j as int));
            if cross(&horizontals[j], &v) {
                count = count + 1;
            }
            j = j + 1;
        }
        assert(horizontals@.take(j as int) =~= horizontals@);
        assert(verticals@.take(i + 1).drop_last() =~= verticals@.take(i as int));
        if count >= 2 {
            out.push(v);
        }
        i = i + 1;
    }
    assert(verticals@.take(i as int) =~= verticals@);
    out
}

/// Keeps the rules that cross each other.
pub fn keep_mutual_rules(horizontals: Vec<Rule>, verticals: Vec<Rule>) -> (r: (
    Vec<Rule>,
    Vec<Rule>,
))
    ensures
        (r.0@, r.1@) == mutual_rules(horizontals@, verticals@),
{
    let mut hs: Vec<Rule> = horizontals;
    let mut vs: Vec<Rule> = verticals;
    loop
        invariant
            mutual_rules(hs@, vs@) == mutual_rules(horizontals@, verticals@),
        decreases hs@.len() + vs@.len(),
    {
        let h_kept: Vec<Rule> = keep_horizontals(&hs, &vs);
        let v_kept: Vec<Rule> = keep_verticals(&vs, &h_kept);
        proof {
            lemma_kept_bound(hs@, vs@);
            lemma_kept_bound(vs@, h_kept@);
        }
        if h_kept.len() == hs.len() && v_kept.len() == vs.len() {
            return (hs, vs);
        }
        hs = h_kept;
        vs = v_kept;
    }
}

/// The rows and columns of the ruled table that the lines of a page draw, where there is one: of
/// the distinct rules, those that cross each other at least twice bound its cells.
///
/// A table without drawn borders is none of these.
pub fn detect_ruled_grid(lines: &[LineSegment]) -> (r: Option<(usize, usize)>)
    ensures
        r is Some == ruled_grid(lines@) is Some,
        r matches Some((rows, cols)) ==> ruled_grid(lines@) == Some((rows as int, cols as int)),
{
    let mut horizontals: Vec<Rule> = Vec::new();
    let mut verticals: Vec<Rule> = Vec::new();
    let mut i: usize = 0;
    assert(lines@.take(0) =~= Seq::<LineSegment>::empty());
    while i < lines.len()
        invariant
            i <= lines@.len(),
            horizontals@ == horizontal_rules(lines@.take(i as int)),
            verticals@ == vertical_rules(lines@.take(i as int)),
        decreases lines@.len() - i,
    {
        assert(lines@.take(i + 1).drop_last() =~= lines@.take(i as int));
        let s: LineSegment = lines[i];
        let dx: i128 = gap(s.x0, s.x1);
        let dy: i128 = gap(s.y0, s.y1);
        if !short_line(&s) {
            if dy <= AXIS_TOLERANCE as i128 && dx > dy {
                horizontals.push(
                    Rule {
                        pos: midpoint(s.y0, s.y1),
                        span_min: if s.x0 <= s.x1 {
                            s.x0
                        } else {
                            s.x1
                        },
                        span_max: if s.x0 >= s.x1 {
                            s.x0
                        } else {
                            s.x1
                        },
                    },
                );
            } else if dx <= AXIS_TOLERANCE as i128 && dy > dx {
                verticals.push(
                    Rule {
                        pos: midpoint(s.x0, s.x1),
                        span_min: if s.y0 <= s.y1 {
                            s.y0
                        } else {
                            s.y1
                        },
                        span_max: if s.y0 >= s.y1 {
                            s.y0
                        } else {
                            s.y1
                        },
                    },
                );
            }
        }
        i = i + 1;
    }
    assert(lines@.take(i as int) =~= lines@);
    let h_rules: Vec<Rule> = cluster_rules(&horizontals);
    let v_rules: Vec<Rule> = cluster_rules(&verticals);
    let (h_kept, v_kept): (Vec<Rule>, Vec<Rule>) = keep_mutual_rules(h_rules, v_rules);
    if h_kept.len() < 2 || v_kept.len() < 2 {
        return None;
    }
    Some((h_kept.len() - 1, v_kept.len() - 1))
}

proof fn lemma_taken_up_bound(rules: Seq<Rule>)
    ensures
        taken_up(rules).len() <= rules.len(),
    decreases rules.len(),
{
    if rules.len() > 0 {
        lemma_taken_up_bound(rules.drop_last());
    }
}

proof fn lemma_kept_bound(rules: Seq<Rule>, others: Seq<Rule>)
    ensures
        kept_horizontals(rules, others).len() <= rules.len(),
        kept_verticals(rules, others).len() <= rules.len(),
    decreases rules.len(),
{
    if rules.len() > 0 {
        lemma_kept_bound(rules.drop_last(), others);
    }
}

proof fn lemma_mutual_bound(horizontals: Seq<Rule>, verticals: Seq<Rule>)
    ensures
        mutual_rules(horizontals, verticals).0.len() <= horizontals.len(),
        mutual_rules(horizontals, verticals).1.len() <= verticals.len(),
    decreases horizontals.len() + verticals.len(),
{
    let hs = kept_horizontals(horizontals, verticals);
    let vs = kept_verticals(verticals, hs);
    lemma_kept_bound(horizontals, verticals);
    lemma_kept_bound(verticals, hs);
    if hs.len() + vs.len() < horizontals.len() + verticals.len() {
        lemma_mutual_bound(hs, vs);
    }
}

/// A ruled table has a row and a column at least, and more horizontal lines than rows and more
/// vertical lines than columns are drawn for it.
pub proof fn law_grid_is_drawn(lines: Seq<LineSegment>)
    ensures
        ruled_grid(lines) matches Some((rows, cols)) ==> {
            &&& 1 <= rows < horizontal_rules(lines).len()
            &&& 1 <= cols < vertical_rules(lines).len()
        },
{
    let hs = clustered(horizontal_rules(lines));
    let vs = clustered(vertical_rules(lines));
    law_stable_order(positions(horizontal_rules(lines)));
    law_stable_order(positions(vertical_rules(lines)));
    lemma_taken_up_bound(by_position(horizontal_rules(lines)));
    lemma_taken_up_bound(by_position(vertical_rules(lines)));
    lemma_mutual_bound(hs, vs);
}

/// A line that is neither horizontal nor vertical, or too short, changes nothing wherever it is
/// drawn.
pub proof fn law_stray_line_changes_nothing(
    before: Seq<LineSegment>,
    line: LineSegment,
    after: Seq<LineSegment>,
)
    requires
        !is_horizontal(line),
        !is_vertical(line),
    ensures
        ruled_grid(before.push(line) + after) == ruled_grid(before + after),
{
    lemma_stray_line(before, line, after);
}

proof fn lemma_stray_line(before: Seq<LineSegment>, line: LineSegment, after: Seq<LineSegment>)
    requires
        !is_horizontal(line),
        !is_vertical(line),
    ensures
        horizontal_rules(before.push(line) + after) == horizontal_rules(before + after),
        vertical_rules(before.push(line) + after) == vertical_rules(before + after),
    decreases after.len(),
{
    if after.len() == 0 {
        assert(before.push(line) + after =~= before.push(line));
        assert(before + after =~= before);
        assert(before.push(line).drop_last() =~= before);
    } else {
        lemma_stray_line(before, line, after.drop_last());
        assert((before.push(line) + after).drop_last() =~= before.push(line) + after.drop_last());
        assert((before + after).drop_last() =~= before + after.drop_last());
    }
}

proof fn lemma_kept_cross(vs: Seq<Rule>, hs: Seq<Rule>)
    ensures
        forall|i: int|
            0 <= i < kept_verticals(vs, hs).len() ==> crossings_of_vertical(
                #[trigger] kept_verticals(vs, hs)[i],
                hs,
            ) >= 2,
    decreases vs.len(),
{
    if vs.len() > 0 {
        let front = kept_verticals(vs.drop_last(), hs);
        let all = kept_verticals(vs, hs);
        lemma_kept_cross(vs.drop_last(), hs);
        assert forall|i: int| 0 <= i < all.len() implies crossings_of_vertical(
            #[trigger] all[i],
            hs,
        ) >= 2 by {
            if i < front.len() {
                assert(all[i] == front[i]);
            }
        }
    }
}

proof fn lemma_kept_horizontals_cross(hs: Seq<Rule>, vs: Seq<Rule>)
    ensures
        forall|i: int|
            0 <= i < kept_horizontals(hs, vs).len() ==> crossings_of_horizontal(
                #[trigger] kept_horizontals(hs, vs)[i],
                vs,
            ) >= 2,
    decreases hs.len(),
{
    if hs.len() > 0 {
        let front = kept_horizontals(hs.drop_last(), vs);
        let all = kept_horizontals(hs, vs);
        lemma_kept_horizontals_cross(hs.drop_last(), vs);
        assert forall|i: int| 0 <= i < all.len() implies crossings_of_horizontal(
            #[trigger] all[i],
            vs,
        ) >= 2 by {
            if i < front.len() {
                assert(all[i] == front[i]);
            }
        }
    }
}

/// Whether each horizontal rule crosses two or more of the vertical ones, and each vertical rule
/// two or more of the horizontal ones.
pub open spec fn cross_each_other(horizontals: Seq<Rule>, verticals: Seq<Rule>) -> bool {
    &&& forall|i: int|
        0 <= i < horizontals.len() ==> crossings_of_horizontal(#[trigger] horizontals[i], verticals)
            >= 2
    &&& forall|i: int|
        0 <= i < verticals.len() ==> crossings_of_vertical(#[trigger] verticals[i], horizontals)
            >= 2
}

/// Whether `part` is what is left of `all` once some of the rules are taken out.
pub open spec fn is_part(part: Seq<Rule>, all: Seq<Rule>) -> bool
    decreases all.len(),
{
    part.len() == 0 || (all.len() > 0 && (is_part(part, all.drop_last()) || (part.last()
        == all.last() && is_part(part.drop_last(), all.drop_last()))))
}

proof fn lemma_part_crossings(part: Seq<Rule>, all: Seq<Rule>, rule: Rule)
    requires
        is_part(part, all),
    ensures
        crossings_of_horizontal(rule, part) <= crossings_of_horizontal(rule, all),
        crossings_of_vertical(rule, part) <= crossings_of_vertical(rule, all),
    decreases all.len(),
{
    if part.len() > 0 {
        if is_part(part, all.drop_last()) {
            lemma_part_crossings(part, all.drop_last(), rule);
        } else {
            lemma_part_crossings(part.drop_last(), all.drop_last(), rule);
        }
    }
}

proof fn lemma_part_kept(part: Seq<Rule>, all: Seq<Rule>, few: Seq<Rule>, others: Seq<Rule>)
    requires
        is_part(part, all),
        is_part(few, others),
    ensures
        (forall|i: int|
            0 <= i < part.len() ==> crossings_of_horizontal(#[trigger] part[i], few) >= 2)
            ==> is_part(part, kept_horizontals(all, others)),
        (forall|i: int|
            0 <= i < part.len() ==> crossings_of_vertical(#[trigger] part[i], few) >= 2)
            ==> is_part(part, kept_verticals(all, others)),
    decreases all.len(),
{
    if part.len() > 0 {
        let front = all.drop_last();
        let hs = kept_horizontals(all, others);
        let vs = kept_verticals(all, others);
        lemma_part_crossings(few, others, all.last());
        assert(kept_horizontals(front, others).push(all.last()).drop_last()
            =~= kept_horizontals(front, others));
        assert(kept_verticals(front, others).push(all.last()).drop_last() =~= kept_verticals(
            front,
            others,
        ));
        if is_part(part, front) {
            lemma_part_kept(part, front, few, others);
        } else {
            let short = part.drop_last();
            lemma_part_kept(short, front, few, others);
            assert(part.last() == part[part.len() - 1]);
            if forall|i: int|
                0 <= i < part.len() ==> crossings_of_horizontal(#[trigger] part[i], few) >= 2 {
                assert forall|i: int| 0 <= i < short.len() implies crossings_of_horizontal(
                    #[trigger] short[i],
                    few,
                ) >= 2 by {
                    assert(short[i] == part[i]);
                }
                assert(is_part(part, hs));
            }
            if forall|i: int|
                0 <= i < part.len() ==> crossings_of_vertical(#[trigger] part[i], few) >= 2 {
                assert forall|i: int| 0 <= i < short.len() implies crossings_of_vertical(
                    #[trigger] short[i],
                    few,
                ) >= 2 by {
                    assert(short[i] == part[i]);
                }
                assert(is_part(part, vs));
            }
        }
    }
}

proof fn lemma_kept_is_part(rules: Seq<Rule>, others: Seq<Rule>)
    ensures
        is_part(kept_horizontals(rules, others), rules),
        is_part(kept_verticals(rules, others), rules),
        kept_horizontals(rules, others).len() == rules.len() ==> kept_horizontals(rules, others)
            == rules,
        kept_verticals(rules, others).len() == rules.len() ==> kept_verticals(rules, others)
            == rules,
    decreases rules.len(),
{
    if rules.len() > 0 {
        let front = rules.drop_last();
        let hs = kept_horizontals(front, others);
        let vs = kept_verticals(front, others);
        lemma_kept_is_part(front, others);
        lemma_kept_bound(front, others);
        assert(hs.push(rules.last()).drop_last() =~= hs);
        assert(vs.push(rules.last()).drop_last() =~= vs);
        assert(front.push(rules.last()) =~= rules);
    } else {
        assert(kept_horizontals(rules, others) =~= rules);
        assert(kept_verticals(rules, others) =~= rules);
    }
}

proof fn lemma_part_of_all(rules: Seq<Rule>)
    ensures
        is_part(rules, rules),
    decreases rules.len(),
{
    if rules.len() > 0 {
        lemma_part_of_all(rules.drop_last());
    }
}

proof fn lemma_part_of_part(a: Seq<Rule>, b: Seq<Rule>, c: Seq<Rule>)
    requires
        is_part(a, b),
        is_part(b, c),
    ensures
        is_part(a, c),
    decreases c.len(),
{
    if a.len() > 0 {
        if is_part(b, c.drop_last()) {
            lemma_part_of_part(a, b, c.drop_last());
        } else if is_part(a, b.drop_last()) {
            lemma_part_of_part(a, b.drop_last(), c.drop_last());
        } else {
            lemma_part_of_part(a.drop_last(), b.drop_last(), c.drop_last());
        }
    }
}

/// The rules that are kept cross each other, and are some of the rules that there are.
pub proof fn law_mutual_rules_cross(horizontals: Seq<Rule>, verticals: Seq<Rule>)
    ensures
        ({
            let (hs, vs) = mutual_rules(horizontals, verticals);
            &&& cross_each_other(hs, vs)
            &&& is_part(hs, horizontals)
            &&& is_part(vs, verticals)
        }),
    decreases horizontals.len() + verticals.len(),
{
    let hs = kept_horizontals(horizontals, verticals);
    let vs = kept_verticals(verticals, hs);
    lemma_kept_bound(horizontals, verticals);
    lemma_kept_bound(verticals, hs);
    lemma_kept_is_part(horizontals, verticals);
    lemma_kept_is_part(verticals, hs);
    if hs.len() + vs.len() < horizontals.len() + verticals.len() {
        law_mutual_rules_cross(hs, vs);
        let (last_hs, last_vs) = mutual_rules(hs, vs);
        lemma_part_of_part(last_hs, hs, horizontals);
        lemma_part_of_part(last_vs, vs, verticals);
    } else {
        lemma_kept_horizontals_cross(horizontals, verticals);
        lemma_kept_cross(verticals, hs);
        lemma_part_of_all(horizontals);
        lemma_part_of_all(verticals);
    }
}

/// No other rules could be kept: whatever rules cross each other are among those that are kept.
pub proof fn law_mutual_rules_are_all(
    horizontals: Seq<Rule>,
    verticals: Seq<Rule>,
    some_hs: Seq<Rule>,
    some_vs: Seq<Rule>,
)
    requires
        is_part(some_hs, horizontals),
        is_part(some_vs, verticals),
        cross_each_other(some_hs, some_vs),
    ensures
        is_part(some_hs, mutual_rules(horizontals, verticals).0),
        is_part(some_vs, mutual_rules(horizontals, verticals).1),
    decreases horizontals.len() + verticals.len(),
{
    let hs = kept_horizontals(horizontals, verticals);
    let vs = kept_verticals(verticals, hs);
    lemma_part_kept(some_hs, horizontals, some_vs, verticals);
    lemma_part_kept(some_vs, verticals, some_hs, hs);
    if hs.len() + vs.len() < horizontals.len() + verticals.len() {
        law_mutual_rules_are_all(hs, vs, some_hs, some_vs);
    }
}

/// Every rule of a ruled table crosses at least two rules of the table of the other direction.
pub proof fn law_grid_rules_cross(lines: Seq<LineSegment>)
    ensures
        cross_each_other(grid_rules(lines).0, grid_rules(lines).1),
{
    law_mutual_rules_cross(
        clustered(horizontal_rules(lines)),
        clustered(vertical_rules(lines)),
    );
}

/// Whether a rule spans all that another one does.
pub open spec fn spans(wide: Rule, rule: Rule) -> bool {
    wide.span_min <= rule.span_min && rule.span_max <= wide.span_max
}

proof fn lemma_taken_up_spans(rules: Seq<Rule>, i: int)
    requires
        0 <= i < rules.len(),
    ensures
        exists|k: int|
            0 <= k < taken_up(rules).len() && spans(#[trigger] taken_up(rules)[k], rules[i]),
    decreases rules.len(),
{
    let front = rules.drop_last();
    let before = taken_up(front);
    let all = taken_up(rules);
    let rule = rules.last();
    let at = all.len() - 1;
    if i == rules.len() - 1 {
        assert(spans(all[at], rules[i]));
    } else {
        lemma_taken_up_spans(front, i);
        let k = choose|k: int| 0 <= k < before.len() && spans(#[trigger] before[k], front[i]);
        assert(front[i] == rules[i]);
        if k == before.len() - 1 && all.len() == before.len() {
            assert(all[at] == merged(before[k], rule));
            assert(spans(all[at], rules[i]));
        } else {
            assert(all[k] == before[k]);
            assert(spans(all[k], rules[i]));
        }
    }
}

/// Merging loses no part of a rule: whatever a rule spans, one of the distinct rules spans.
pub proof fn law_merging_keeps_spans(rules: Seq<Rule>, i: int)
    requires
        0 <= i < rules.len(),
    ensures
        exists|k: int| 0 <= k < clustered(rules).len() && spans(#[trigger] clustered(rules)[k], rules[i]),
{
    let order = stable_order(positions(rules));
    law_stable_order(positions(rules));
    assert(order.contains(i));
    let m = choose|m: int| 0 <= m < order.len() && order[m] == i;
    assert(by_position(rules)[m] == rules[i]);
    let sorted = by_position(rules);
    lemma_taken_up_spans(sorted, m);
    let k = choose|k: int| 0 <= k < taken_up(sorted).len() && spans(#[trigger] taken_up(sorted)[k], sorted[m]);
    assert(clustered(rules)[k] == taken_up(sorted)[k]);
}

/// A line drawn the other way round.
pub open spec fn turned(s: LineSegment) -> LineSegment {
    LineSegment { x0: s.x1, y0: s.y1, x1: s.x0, y1: s.y0 }
}

/// A line with its two axes exchanged.
pub open spec fn transposed(s: LineSegment) -> LineSegment {
    LineSegment { x0: s.y0, y0: s.x0, x1: s.y1, y1: s.x1 }
}

/// The rules of lines are those of the ones and those of the others. A single line is a horizontal
/// rule where it is eight points long at least and its ends differ by no more than a point in y,
/// and by more in x; it stands midway between its ends and spans from the one to the other. A
/// vertical rule is the same with the axes exchanged. Any other line is none.
pub proof fn law_rules_of_lines(a: Seq<LineSegment>, b: Seq<LineSegment>, s: LineSegment)
    ensures
        horizontal_rules(a + b) == horizontal_rules(a) + horizontal_rules(b),
        vertical_rules(a + b) == vertical_rules(a) + vertical_rules(b),
        horizontal_rules(Seq::empty()) == Seq::<Rule>::empty(),
        vertical_rules(Seq::empty()) == Seq::<Rule>::empty(),
        ({
            let (dx, dy) = (s.x1 - s.x0, s.y1 - s.y0);
            let long = dx * dx + dy * dy >= 8_000_000 * 8_000_000;
            let flat = -1_000_000 <= dy <= 1_000_000 && (dx > dy && dx > -dy || -dx > dy && -dx
                > -dy);
            let upright = -1_000_000 <= dx <= 1_000_000 && (dy > dx && dy > -dx || -dy > dx && -dy
                > -dx);
            let hs = horizontal_rules(seq![s]);
            let vs = vertical_rules(seq![s]);
            &&& hs.len() == (if long && flat {
                1nat
            } else {
                0
            })
            &&& vs.len() == (if long && upright {
                1nat
            } else {
                0
            })
            &&& hs.len() == 1 ==> {
                let rule = hs[0];
                &&& 2 * rule.pos <= s.y0 + s.y1 <= 2 * rule.pos + 1
                &&& rule.span_min <= s.x0 <= rule.span_max && rule.span_min <= s.x1 <= rule.span_max
                &&& rule.span_max - rule.span_min == dx || rule.span_max - rule.span_min == -dx
            }
            &&& vs.len() == 1 ==> {
                let rule = vs[0];
                &&& 2 * rule.pos <= s.x0 + s.x1 <= 2 * rule.pos + 1
                &&& rule.span_min <= s.y0 <= rule.span_max && rule.span_min <= s.y1 <= rule.span_max
                &&& rule.span_max - rule.span_min == dy || rule.span_max - rule.span_min == -dy
            }
        }),
    decreases b.len(),
{
    if b.len() == 0 {
        assert(a + b =~= a);
        assert(horizontal_rules(a) + horizontal_rules(b) =~= horizontal_rules(a));
        assert(vertical_rules(a) + vertical_rules(b) =~= vertical_rules(a));
    } else {
        law_rules_of_lines(a, b.drop_last(), s);
        assert((a + b).drop_last() =~= a + b.drop_last());
        assert(horizontal_rules(a + b) =~= horizontal_rules(a) + horizontal_rules(b));
        assert(vertical_rules(a + b) =~= vertical_rules(a) + vertical_rules(b));
    }
    let one = seq![s];
    assert(one.drop_last() =~= Seq::<LineSegment>::empty());
    assert(horizontal_rules(one.drop_last()) =~= Seq::<Rule>::empty());
    assert(vertical_rules(one.drop_last()) =~= Seq::<Rule>::empty());
}

proof fn lemma_turned_rules(s: LineSegment)
    ensures
        horizontal_rules(seq![turned(s)]) == horizontal_rules(seq![s]),
        vertical_rules(seq![turned(s)]) == vertical_rules(seq![s]),
        horizontal_rules(seq![transposed(s)]) == vertical_rules(seq![s]),
        vertical_rules(seq![transposed(s)]) == horizontal_rules(seq![s]),
{
    let (one, turn, trans) = (seq![s], seq![turned(s)], seq![transposed(s)]);
    assert(one.drop_last() =~= Seq::<LineSegment>::empty());
    assert(turn.drop_last() =~= Seq::<LineSegment>::empty());
    assert(trans.drop_last() =~= Seq::<LineSegment>::empty());
    assert(horizontal_rules(one.drop_last()) =~= vertical_rules(one.drop_last()));
    let (dx, dy) = (s.x1 - s.x0, s.y1 - s.y0);
    assert((-dx) * (-dx) == dx * dx && (-dy) * (-dy) == dy * dy) by (nonlinear_arith);
    assert(is_short(turned(s)) == is_short(s));
    assert(is_short(transposed(s)) == is_short(s));
}

/// The table does not depend on the direction in which a line is drawn.
pub proof fn law_direction_does_not_matter(lines: Seq<LineSegment>, k: int)
    requires
        0 <= k < lines.len(),
    ensures
        ruled_grid(lines.update(k, turned(lines[k]))) == ruled_grid(lines),
{
    let s = lines[k];
    let (front, back) = (lines.take(k), lines.skip(k + 1));
    let other = lines.update(k, turned(s));
    assert(lines =~= front + (seq![s] + back));
    assert(other =~= front + (seq![turned(s)] + back));
    law_rules_of_lines(front, seq![s] + back, s);
    law_rules_of_lines(seq![s], back, s);
    law_rules_of_lines(front, seq![turned(s)] + back, s);
    law_rules_of_lines(seq![turned(s)], back, s);
    lemma_turned_rules(s);
}

proof fn lemma_transposed_rules(lines: Seq<LineSegment>)
    ensures
        horizontal_rules(lines.map_values(|s: LineSegment| transposed(s))) == vertical_rules(lines),
        vertical_rules(lines.map_values(|s: LineSegment| transposed(s))) == horizontal_rules(lines),
    decreases lines.len(),
{
    let f = |s: LineSegment| transposed(s);
    let all = lines.map_values(f);
    if lines.len() == 0 {
        assert(all =~= lines);
        assert(horizontal_rules(lines) =~= vertical_rules(lines));
    } else {
        let front = lines.drop_last();
        let s = lines.last();
        lemma_transposed_rules(front);
        assert(lines =~= front + seq![s]);
        assert(all =~= front.map_values(f) + seq![transposed(s)]);
        law_rules_of_lines(front, seq![s], s);
        law_rules_of_lines(front.map_values(f), seq![transposed(s)], s);
        lemma_turned_rules(s);
    }
}

/// A horizontal and a vertical rule cross where each stands within the span of the other, or no
/// more than two points beyond it; rules are counted one by one.
pub proof fn law_crossings(h: Rule, v: Rule, a: Seq<Rule>, b: Seq<Rule>)
    ensures
        crosses(h, v) <==> h.span_min - 2_000_000 <= v.pos <= h.span_max + 2_000_000 && v.span_min
            - 2_000_000 <= h.pos <= v.span_max + 2_000_000,
        crossings_of_horizontal(h, a + b) == crossings_of_horizontal(h, a)
            + crossings_of_horizontal(h, b),
        crossings_of_vertical(v, a + b) == crossings_of_vertical(v, a) + crossings_of_vertical(v, b),
        crossings_of_horizontal(h, seq![v]) == if crosses(h, v) {
            1nat
        } else {
            0
        },
        crossings_of_vertical(v, seq![h]) == if crosses(h, v) {
            1nat
        } else {
            0
        },
        crossings_of_horizontal(h, Seq::empty()) == 0,
        crossings_of_vertical(v, Seq::empty()) == 0,
    decreases b.len(),
{
    if b.len() == 0 {
        assert(a + b =~= a);
    } else {
        law_crossings(h, v, a, b.drop_last());
        assert((a + b).drop_last() =~= a + b.drop_last());
    }
    assert(seq![v].drop_last() =~= Seq::<Rule>::empty());
    assert(seq![h].drop_last() =~= Seq::<Rule>::empty());
    assert(crossings_of_horizontal(h, seq![v].drop_last()) == 0);
    assert(crossings_of_vertical(v, seq![h].drop_last()) == 0);
}

proof fn lemma_crossings_mirror(rule: Rule, others: Seq<Rule>)
    ensures
        crossings_of_horizontal(rule, others) == crossings_of_vertical(rule, others),
    decreases others.len(),
{
    if others.len() > 0 {
        lemma_crossings_mirror(rule, others.drop_last());
    }
}

proof fn lemma_part_is_shorter(part: Seq<Rule>, all: Seq<Rule>)
    requires
        is_part(part, all),
    ensures
        part.len() <= all.len(),
    decreases all.len(),
{
    if part.len() > 0 {
        if is_part(part, all.drop_last()) {
            lemma_part_is_shorter(part, all.drop_last());
        } else {
            lemma_part_is_shorter(part.drop_last(), all.drop_last());
        }
    }
}

proof fn lemma_mirrored(horizontals: Seq<Rule>, verticals: Seq<Rule>)
    ensures
        mutual_rules(horizontals, verticals).0.len() <= mutual_rules(
            verticals,
            horizontals,
        ).1.len(),
        mutual_rules(horizontals, verticals).1.len() <= mutual_rules(
            verticals,
            horizontals,
        ).0.len(),
{
    let (hs, vs) = mutual_rules(horizontals, verticals);
    law_mutual_rules_cross(horizontals, verticals);
    assert(cross_each_other(vs, hs)) by {
        assert forall|i: int| 0 <= i < vs.len() implies crossings_of_horizontal(
            #[trigger] vs[i],
            hs,
        ) >= 2 by {
            lemma_crossings_mirror(vs[i], hs);
        }
        assert forall|i: int| 0 <= i < hs.len() implies crossings_of_vertical(
            #[trigger] hs[i],
            vs,
        ) >= 2 by {
            lemma_crossings_mirror(hs[i], vs);
        }
    }
    law_mutual_rules_are_all(verticals, horizontals, vs, hs);
    lemma_part_is_shorter(vs, mutual_rules(verticals, horizontals).0);
    lemma_part_is_shorter(hs, mutual_rules(verticals, horizontals).1);
}

/// With the axes exchanged, rows are columns and columns are rows.
pub proof fn law_axes_are_alike(lines: Seq<LineSegment>)
    ensures
        ruled_grid(lines.map_values(|s: LineSegment| transposed(s))) == match ruled_grid(lines) {
            Some((rows, cols)) => Some((cols, rows)),
            None => None,
        },
{
    let hs = clustered(horizontal_rules(lines));
    let vs = clustered(vertical_rules(lines));
    lemma_transposed_rules(lines);
    lemma_mirrored(hs, vs);
    lemma_mirrored(vs, hs);
}

/// A table has a row between each two of its horizontal rules and a column between each two of its
/// vertical ones, and there is one where there are two of each at least.
pub proof fn law_rows_and_columns(lines: Seq<LineSegment>)
    ensures
        ({
            let (hs, vs) = mutual_rules(
                clustered(horizontal_rules(lines)),
                clustered(vertical_rules(lines)),
            );
            &&& ruled_grid(lines) is Some <==> hs.len() >= 2 && vs.len() >= 2
            &&& ruled_grid(lines) matches Some((rows, cols)) ==> rows + 1 == hs.len() && cols + 1
                == vs.len()
        }),
{
}

proof fn lemma_all_crossed(rule: Rule, others: Seq<Rule>)
    requires
        forall|i: int| 0 <= i < others.len() ==> crosses(rule, #[trigger] others[i]),
    ensures
        crossings_of_horizontal(rule, others) == others.len(),
    decreases others.len(),
{
    if others.len() > 0 {
        assert(crosses(rule, others[others.len() - 1]));
        assert forall|i: int| 0 <= i < others.drop_last().len() implies crosses(
            rule,
            #[trigger] others.drop_last()[i],
        ) by {
            assert(others.drop_last()[i] == others[i]);
        }
        lemma_all_crossed(rule, others.drop_last());
    }
}

/// A table in full is found in full: where every distinct horizontal rule crosses every distinct
/// vertical one, and there are two of each at least, all of them bound its cells.
pub proof fn law_full_table_is_found(lines: Seq<LineSegment>)
    requires
        clustered(horizontal_rules(lines)).len() >= 2,
        clustered(vertical_rules(lines)).len() >= 2,
        forall|i: int, j: int|
            0 <= i < clustered(horizontal_rules(lines)).len() && 0 <= j < clustered(
                vertical_rules(lines),
            ).len() ==> crosses(
                #[trigger] clustered(horizontal_rules(lines))[i],
                #[trigger] clustered(vertical_rules(lines))[j],
            ),
    ensures
        ruled_grid(lines) == Some(
            (
                clustered(horizontal_rules(lines)).len() - 1,
                clustered(vertical_rules(lines)).len() - 1,
            ),
        ),
{
    let hs = clustered(horizontal_rules(lines));
    let vs = clustered(vertical_rules(lines));
    assert(cross_each_other(hs, vs)) by {
        assert forall|i: int| 0 <= i < hs.len() implies crossings_of_horizontal(
            #[trigger] hs[i],
            vs,
        ) >= 2 by {
            lemma_all_crossed(hs[i], vs);
        }
        assert forall|j: int| 0 <= j < vs.len() implies crossings_of_vertical(
            #[trigger] vs[j],
            hs,
        ) >= 2 by {
            assert forall|i: int| 0 <= i < hs.len() implies crosses(vs[j], #[trigger] hs[i]) by {
                assert(crosses(hs[i], vs[j]));
            }
            lemma_all_crossed(vs[j], hs);
            lemma_crossings_mirror(vs[j], hs);
        }
    }
    lemma_part_of_all(hs);
    lemma_part_of_all(vs);
    law_mutual_rules_are_all(hs, vs, hs, vs);
    law_mutual_rules_cross(hs, vs);
    lemma_part_is_shorter(hs, mutual_rules(hs, vs).0);
    lemma_part_is_shorter(vs, mutual_rules(hs, vs).1);
    lemma_part_is_shorter(mutual_rules(hs, vs).0, hs);
    lemma_part_is_shorter(mutual_rules(hs, vs).1, vs);
}

/// Whether rules come in order and stand more than two points apart from each other.
pub open spec fn stand_apart(rules: Seq<Rule>) -> bool {
    forall|i: int, j: int| 0 <= i < j < rules.len() ==> rules[j].pos - rules[i].pos > 2_000_000
}

proof fn lemma_taken_up_apart(rules: Seq<Rule>)
    requires
        forall|i: int, j: int| 0 <= i < j < rules.len() ==> rules[i].pos <= rules[j].pos,
    ensures
        rules.len() > 0 ==> taken_up(rules).len() > 0 && taken_up(rules).last().pos
            <= rules.last().pos,
        stand_apart(taken_up(rules)),
    decreases rules.len(),
{
    if rules.len() > 0 {
        let front = rules.drop_last();
        let last = rules.last();
        let before = taken_up(front);
        let after = taken_up(rules);
        assert forall|i: int, j: int| 0 <= i < j < front.len() implies front[i].pos
            <= front[j].pos by {
            assert(front[i] == rules[i] && front[j] == rules[j]);
        }
        lemma_taken_up_apart(front);
        if front.len() > 0 {
            assert(front.last() == rules[rules.len() - 2]);
            assert(front.last().pos <= last.pos);
            let m = before.len() - 1;
            assert(before[m] == before.last());
            assert forall|i: int, j: int| 0 <= i < j < after.len() implies after[j].pos
                - after[i].pos > 2_000_000 by {
                if j < m {
                    assert(after[i] == before[i] && after[j] == before[j]);
                } else {
                    if i < m {
                        assert(after[i] == before[i]);
                        assert(before[m].pos - before[i].pos > 2_000_000);
                    }
                }
            }
        } else {
            assert(before =~= Seq::<Rule>::empty());
            assert(after =~= seq![last]);
        }
    }
}

proof fn lemma_apart_is_taken_up(rules: Seq<Rule>)
    requires
        stand_apart(rules),
    ensures
        taken_up(rules) == rules,
    decreases rules.len(),
{
    if rules.len() > 0 {
        let front = rules.drop_last();
        assert forall|i: int, j: int| 0 <= i < j < front.len() implies front[j].pos - front[i].pos
            > 2_000_000 by {
            assert(rules[j].pos - rules[i].pos > 2_000_000);
        }
        lemma_apart_is_taken_up(front);
        if front.len() > 0 {
            let (m, n) = (rules.len() - 2, rules.len() - 1);
            assert(rules[n].pos - rules[m].pos > 2_000_000);
            assert(front.last() == rules[m] && rules.last() == rules[n]);
        }
        assert(front.push(rules.last()) =~= rules);
    } else {
        assert(taken_up(rules) =~= rules);
    }
}

/// The distinct rules come in order and stand more than two points apart from each other; rules
/// that already do are all distinct.
pub proof fn law_distinct_rules(rules: Seq<Rule>)
    ensures
        stand_apart(clustered(rules)),
        stand_apart(rules) ==> clustered(rules) == rules,
        rules.len() > 0 ==> clustered(rules).len() > 0,
{
    let keys = positions(rules);
    let order = stable_order(keys);
    let sorted = by_position(rules);
    law_stable_order(keys);
    assert forall|i: int, j: int| 0 <= i < j < sorted.len() implies sorted[i].pos
        <= sorted[j].pos by {
        assert(precedes(keys, order[i], order[j]));
        assert(0 <= order[i] < rules.len() && 0 <= order[j] < rules.len());
    }
    lemma_taken_up_apart(sorted);
    if stand_apart(rules) {
        assert forall|i: int, j: int| 0 <= i < j < keys.len() implies keys[i] < keys[j] by {
            assert(rules[j].pos - rules[i].pos > 2_000_000);
        }
        assert forall|i: int| 0 <= i < order.len() implies order[i] == i by {
            lemma_order_is_identity(keys, i);
        }
        assert(sorted =~= rules);
        lemma_apart_is_taken_up(rules);
    }
}

proof fn lemma_order_is_identity(keys: Seq<int>, i: int)
    requires
        forall|a: int, b: int| 0 <= a < b < keys.len() ==> keys[a] < keys[b],
        0 <= i < keys.len(),
    ensures
        stable_order(keys)[i] == i,
    decreases i,
{
    let order = stable_order(keys);
    law_stable_order(keys);
    assert forall|a: int| 0 <= a < i implies order[a] == a by {
        lemma_order_is_identity(keys, a);
    }
    assert(order.contains(i));
    let m = choose|m: int| 0 <= m < order.len() && order[m] == i;
    assert(m >= i);
    if m > i {
        assert(precedes(keys, order[i], order[m]));
        let x = order[i];
        assert(0 <= x < keys.len());
        assert(x < i);
        assert(order[x] == x);
        assert(precedes(keys, order[x], order[i]));
    }
}

/// Two rules no more than two points apart count as one that stands midway and spans both; two
/// rules further apart are two, the lower position first.
pub proof fn law_close_rules_are_one(a: Rule, b: Rule)
    requires
        a.pos <= b.pos,
    ensures
        b.pos - a.pos <= 2_000_000 ==> clustered(seq![a, b]).len() == 1 && ({
            let rule = clustered(seq![a, b])[0];
            &&& 2 * rule.pos <= a.pos + b.pos <= 2 * rule.pos + 1
            &&& rule.span_min <= a.span_min && rule.span_min <= b.span_min
            &&& rule.span_min == a.span_min || rule.span_min == b.span_min
            &&& rule.span_max >= a.span_max && rule.span_max >= b.span_max
            &&& rule.span_max == a.span_max || rule.span_max == b.span_max
        }),
        b.pos - a.pos > 2_000_000 ==> clustered(seq![a, b]) == seq![a, b],
        clustered(seq![a]) == seq![a],
{
    let both = seq![a, b];
    let one = seq![a];
    law_distinct_rules(both);
    law_distinct_rules(one);
    let keys = positions(both);
    let order = stable_order(keys);
    law_stable_order(keys);
    assert(precedes(keys, order[0], order[1]));
    assert(order.contains(0) && order.contains(1));
    assert(order[0] == 0 && order[1] == 1);
    let sorted = by_position(both);
    assert(sorted =~= both);
    assert(both.drop_last() =~= one);
    assert(one.drop_last() =~= Seq::<Rule>::empty());
    assert(taken_up(one.drop_last()) =~= Seq::<Rule>::empty());
    assert(taken_up(one) =~= one);
    assert(both.last() == b);
    if b.pos - a.pos <= 2_000_000 {
        assert(one.drop_last().push(merged(a, b)) =~= seq![merged(a, b)]);
        assert(taken_up(both) =~= seq![merged(a, b)]);
    }
}

/// Rules are made distinct in the order of their positions, wherever they were drawn: the next rule
/// is merged into the last distinct one where it stands no more than two points from it, and is a
/// distinct one otherwise; those before stay as they are. A merged rule stands midway and spans
/// both.
pub proof fn law_next_rule(rules: Seq<Rule>, next: Rule)
    requires
        forall|i: int, j: int| 0 <= i < j < rules.len() ==> rules[i].pos <= rules[j].pos,
        forall|i: int| 0 <= i < rules.len() ==> (#[trigger] rules[i]).pos <= next.pos,
    ensures
        ({
            let before = clustered(rules);
            let after = clustered(rules.push(next));
            let last = before.last();
            let near = before.len() > 0 && -2_000_000 <= next.pos - last.pos <= 2_000_000;
            &&& !near ==> after == before.push(next)
            &&& near ==> {
                let rule = after.last();
                &&& after.len() == before.len()
                &&& after.drop_last() == before.drop_last()
                &&& 2 * rule.pos <= last.pos + next.pos <= 2 * rule.pos + 1
                &&& rule.span_min <= last.span_min && rule.span_min <= next.span_min
                &&& rule.span_min == last.span_min || rule.span_min == next.span_min
                &&& rule.span_max >= last.span_max && rule.span_max >= next.span_max
                &&& rule.span_max == last.span_max || rule.span_max == next.span_max
            }
        }),
{
    let all = rules.push(next);
    lemma_sorted_stays(rules);
    lemma_sorted_stays(all);
    assert(all.drop_last() =~= rules);
    let before = taken_up(rules);
    if before.len() > 0 && distance(before.last().pos as int, next.pos as int) <= CLUSTER_TOLERANCE {
        let rule = merged(before.last(), next);
        assert(before.drop_last().push(rule).drop_last() =~= before.drop_last());
    }
}

proof fn lemma_sorted_stays(rules: Seq<Rule>)
    requires
        forall|i: int, j: int| 0 <= i < j < rules.len() ==> rules[i].pos <= rules[j].pos,
    ensures
        by_position(rules) == rules,
{
    law_what_is_in_order_stays(positions(rules));
    assert(by_position(rules) =~= rules);
}

/// It does not matter in which order rules are drawn that are made distinct: what counts is how they
/// stand, lowest position first, and rules at the same position as they were drawn.
pub proof fn law_rules_are_put_in_order(rules: Seq<Rule>)
    ensures
        ({
            let sorted = arranged(
                rules,
                stable_order(Seq::new(rules.len(), |i: int| rules[i].pos as int)),
            );
            &&& sorted.len() == rules.len()
            &&& sorted.to_multiset() == rules.to_multiset()
            &&& forall|i: int, j: int|
                0 <= i < j < sorted.len() ==> sorted[i].pos <= sorted[j].pos
            &&& clustered(rules) == clustered(sorted)
        }),
{
    let keys = Seq::new(rules.len(), |i: int| rules[i].pos as int);
    assert(keys =~= positions(rules));
    let order = stable_order(keys);
    let sorted = arranged(rules, order);
    law_stable_order(keys);
    law_arranging_keeps_items(rules, keys);
    assert forall|i: int, j: int| 0 <= i < j < sorted.len() implies sorted[i].pos
        <= sorted[j].pos by {
        assert(precedes(keys, order[i], order[j]));
        assert(0 <= order[i] < rules.len() && 0 <= order[j] < rules.len());
    }
    lemma_sorted_stays(sorted);
}

/// Of the rules of one direction those are kept that cross two rules of the other direction at
/// least, each for itself and in order; the rules that are left are tried again until all stay.
pub proof fn law_rules_are_tried_one_by_one(
    a: Seq<Rule>,
    b: Seq<Rule>,
    rule: Rule,
    others: Seq<Rule>,
)
    ensures
        kept_horizontals(a + b, others) == kept_horizontals(a, others) + kept_horizontals(b, others),
        kept_verticals(a + b, others) == kept_verticals(a, others) + kept_verticals(b, others),
        kept_horizontals(seq![rule], others) == if crossings_of_horizontal(rule, others) >= 2 {
            seq![rule]
        } else {
            Seq::empty()
        },
        kept_verticals(seq![rule], others) == if crossings_of_vertical(rule, others) >= 2 {
            seq![rule]
        } else {
            Seq::empty()
        },
        kept_horizontals(Seq::empty(), others).len() == 0,
        kept_verticals(Seq::empty(), others).len() == 0,
        mutual_rules(a, b) == mutual_rules(
            kept_horizontals(a, b),
            kept_verticals(b, kept_horizontals(a, b)),
        ),
    decreases b.len(),
{
    let one = seq![rule];
    assert(one.drop_last() =~= Seq::<Rule>::empty());
    assert(kept_horizontals(one.drop_last(), others) =~= Seq::<Rule>::empty());
    assert(kept_verticals(one.drop_last(), others) =~= Seq::<Rule>::empty());
    if b.len() == 0 {
        assert(a + b =~= a);
    } else {
        law_rules_are_tried_one_by_one(a, b.drop_last(), rule, others);
        assert((a + b).drop_last() =~= a + b.drop_last());
        assert((a + b).last() == b.last());
    }
    let hs = kept_horizontals(a, b);
    let vs = kept_verticals(b, hs);
    if hs.len() + vs.len() == a.len() + b.len() {
        lemma_kept_all(a, b);
        lemma_kept_all_verticals(b, hs);
    } else {
        lemma_kept_bound(a, b);
        lemma_kept_bound(b, hs);
    }
}

proof fn lemma_kept_all(rules: Seq<Rule>, others: Seq<Rule>)
    ensures
        kept_horizontals(rules, others).len() <= rules.len(),
        kept_horizontals(rules, others).len() == rules.len() ==> kept_horizontals(rules, others)
            == rules,
    decreases rules.len(),
{
    if rules.len() > 0 {
        lemma_kept_all(rules.drop_last(), others);
        if kept_horizontals(rules, others).len() == rules.len() {
            assert(kept_horizontals(rules, others) =~= rules);
        }
    } else {
        assert(kept_horizontals(rules, others) =~= rules);
    }
}

proof fn lemma_kept_all_verticals(rules: Seq<Rule>, others: Seq<Rule>)
    ensures
        kept_verticals(rules, others).len() <= rules.len(),
        kept_verticals(rules, others).len() == rules.len() ==> kept_verticals(rules, others)
            == rules,
    decreases rules.len(),
{
    if rules.len() > 0 {
        lemma_kept_all_verticals(rules.drop_last(), others);
        if kept_verticals(rules, others).len() == rules.len() {
            assert(kept_verticals(rules, others) =~= rules);
        }
    } else {
        assert(kept_verticals(rules, others) =~= rules);
    }
}

} // verus!
