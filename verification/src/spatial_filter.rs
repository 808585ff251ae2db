//! Recurring headers and footers, and the spatial index of a page.
use crate::order::total;
use crate::text::{chars_of, string_of, string_views, trim, trimmed};
use crate::types::{HeaderFooterCandidate, PageContent, Ratio, RedactCluster, TextElement};
use vstd::multiset::Multiset;
use vstd::prelude::*;

verus! {

/// Above this height, in hundredths of the page from its top, stands the header zone.
pub const HEADER_ZONE_MAX: i32 = 7;

/// Below this height, in hundredths of the page from its top, stands the footer zone.
pub const FOOTER_ZONE_MIN: i32 = 93;

/// On how many pages in a hundred a text recurs at least to be a header or footer.
pub const FREQ_REDACT_THRESHOLD: i32 = 30;

/// How similar two texts are at least, in hundredths, to be the same recurring text.
pub const NLD_SIMILARITY_THRESHOLD: i32 = 65;

/// The bounding box of a text run, with the place of the run in its page.
#[derive(Debug, Clone, Copy)]
pub struct SpatialElement {
    pub index: usize,
    /// Two opposite corners: x and y of the one, then x and y of the other.
    pub bbox: [i64; 4],
}

/// A spatial index of bounding boxes: an `rstar::RTree` of rectangles.
#[verifier::external_body]
pub struct PageTree {
    tree: rstar::RTree<
        rstar::primitives::GeomWithData<rstar::primitives::Rectangle<[i128; 2]>, usize>,
    >,
}

/// The bounding boxes that an index holds.
pub uninterp spec fn tree_elements(tree: PageTree) -> Multiset<SpatialElement>;

pub open spec fn low(a: int, b: int) -> int {
    if a <= b {
        a
    } else {
        b
    }
}

pub open spec fn high(a: int, b: int) -> int {
    if a >= b {
        a
    } else {
        b
    }
}

/// Whether the box between the corners of `e` and the box between the corners `(x0, y0)` and
/// `(x1, y1)` have a point in common; their edges belong to them.
pub open spec fn boxes_meet(e: SpatialElement, x0: int, y0: int, x1: int, y1: int) -> bool {
    let (ex0, ey0) = (e.bbox[0] as int, e.bbox[1] as int);
    let (ex1, ey1) = (e.bbox[2] as int, e.bbox[3] as int);
    &&& low(ex0, ex1) <= high(x0, x1)
    &&& high(ex0, ex1) >= low(x0, x1)
    &&& low(ey0, ey1) <= high(y0, y1)
    &&& high(ey0, ey1) >= low(y0, y1)
}

/// `rstar::RTree::bulk_load` makes an index of the given items: it holds each of them, as often
/// as it is given.
#[verifier::external_body]
fn bulk_load(items: Vec<SpatialElement>) -> (r: PageTree)
    ensures
        tree_elements(r) == items@.to_multiset(),
{
    let boxes = items.into_iter().map(
        |e|
            rstar::primitives::GeomWithData::new(
                rstar::primitives::Rectangle::from_corners(
                    [e.bbox[0] as i128, e.bbox[1] as i128],
                    [e.bbox[2] as i128, e.bbox[3] as i128],
                ),
                e.index,
            ),
    ).collect();
    PageTree { tree: rstar::RTree::bulk_load(boxes) }
}

/// `rstar::RTree::locate_in_envelope_intersecting` finds the items whose boxes have a point in
/// common with an envelope: the indices that it gives are those of these items, each as often
/// as the index holds such an item. In which order they come is left open.
#[verifier::external_body]
fn locate_in_envelope_intersecting(
    tree: &PageTree,
    x0: i128,
    y0: i128,
    x1: i128,
    y1: i128,
) -> (r: Vec<usize>)
    ensures
        forall|k: usize| #[trigger]
            r@.to_multiset().count(k) == tree_elements(*tree).filter(
                |e: SpatialElement|
                    e.index == k && boxes_meet(e, x0 as int, y0 as int, x1 as int, y1 as int),
            ).len(),
{
    let envelope = rstar::AABB::from_corners([x0, y0], [x1, y1]);
    tree.tree.locate_in_envelope_intersecting(&envelope).map(|item| item.data).collect()
}

/// The bounding box of each run, with its place among them.
pub open spec fn spatial_elements(elements: Seq<&TextElement>) -> Seq<SpatialElement> {
    Seq::new(elements.len(), |i: int| spatial_element(elements[i], i as usize))
}

pub open spec fn spatial_element(e: &TextElement, index: usize) -> SpatialElement {
    SpatialElement { index, bbox: [e.x_min, e.y_min, e.x_max, e.y_max] }
}

/// The spatial index of the runs of a page.
pub fn build_page_rtree(elements: &[&TextElement]) -> (r: PageTree)
    ensures
        tree_elements(r) == spatial_elements(elements@).to_multiset(),
{
    let mut items: Vec<SpatialElement> = Vec::new();
    let mut i: usize = 0;
    while i < elements.len()
        invariant
            i <= elements@.len(),
            items@ == spatial_elements(elements@).take(i as int),
        decreases elements@.len() - i,
    {
        let e: &TextElement = elements[i];
        items.push(SpatialElement { index: i, bbox: [e.x_min, e.y_min, e.x_max, e.y_max] });
        assert(items@ =~= spatial_elements(elements@).take(i + 1));
        i = i + 1;
    }
    assert(items@ =~= spatial_elements(elements@));
    bulk_load(items)
}

/// Whether the bounding box of run `k` meets the box between two corners.
pub open spec fn run_meets(
    elements: Seq<&TextElement>,
    k: int,
    x0: int,
    y0: int,
    x1: int,
    y1: int,
) -> bool {
    boxes_meet(spatial_element(elements[k], k as usize), x0, y0, x1, y1)
}

proof fn lemma_located_once(
    elements: Seq<&TextElement>,
    k: usize,
    x0: int,
    y0: int,
    x1: int,
    y1: int,
)
    requires
        elements.len() <= usize::MAX,
    ensures
        spatial_elements(elements).to_multiset().filter(
            |e: SpatialElement| e.index == k && boxes_meet(e, x0, y0, x1, y1),
        ).len() == if k < elements.len() && run_meets(elements, k as int, x0, y0, x1, y1) {
            1nat
        } else {
            0
        },
{
    broadcast use vstd::seq_lib::group_to_multiset_ensures;

    let items = spatial_elements(elements);
    let f = |e: SpatialElement| e.index == k && boxes_meet(e, x0, y0, x1, y1);
    let all = items.to_multiset();
    let found = all.filter(f);
    assert forall|i: int, j: int| 0 <= i < items.len() && 0 <= j < items.len() && i != j implies items[i]
        != items[j] by {
        assert(items[i].index == i && items[j].index == j);
    }
    assert(items.no_duplicates());
    items.lemma_multiset_has_no_duplicates();
    assert forall|e: SpatialElement| all.count(e) == if items.contains(e) {
        1nat
    } else {
        0
    } by {
        if items.contains(e) {
            assert(all.contains(e));
        } else {
            assert(all.count(e) == 0);
        }
    }
    if k < elements.len() && run_meets(elements, k as int, x0, y0, x1, y1) {
        let item = items[k as int];
        let one = Multiset::<SpatialElement>::empty().insert(item);
        assert forall|e: SpatialElement| found.count(e) == one.count(e) by {
            if f(e) && items.contains(e) {
                let i = choose|i: int| 0 <= i < items.len() && items[i] == e;
                assert(items[i].index == i);
            }
            if e == item {
                assert(items[k as int] == e);
            }
        }
        assert(found =~= one);
    } else {
        assert forall|e: SpatialElement| found.count(e) == 0 by {
            if f(e) && items.contains(e) {
                let i = choose|i: int| 0 <= i < items.len() && items[i] == e;
                assert(items[i].index == i);
            }
        }
        assert(found =~= Multiset::<SpatialElement>::empty());
    }
}

/// The runs of a page whose bounding boxes meet the box between two corners: each once, in no
/// particular order.
pub(crate) fn runs_in_box(
    tree: &PageTree,
    Ghost(elements): Ghost<Seq<&TextElement>>,
    x0: i128,
    y0: i128,
    x1: i128,
    y1: i128,
) -> (r: Vec<usize>)
    requires
        elements.len() <= usize::MAX,
        tree_elements(*tree) == spatial_elements(elements).to_multiset(),
    ensures
        r@.no_duplicates(),
        forall|k: usize| #[trigger]
            r@.contains(k) <==> k < elements.len() && run_meets(
                elements,
                k as int,
                x0 as int,
                y0 as int,
                x1 as int,
                y1 as int,
            ),
{
    broadcast use vstd::seq_lib::group_to_multiset_ensures;

    let found: Vec<usize> = locate_in_envelope_intersecting(tree, x0, y0, x1, y1);
    proof {
        assert forall|k: usize| #[trigger]
            found@.to_multiset().count(k) == if k < elements.len() && run_meets(
                elements,
                k as int,
                x0 as int,
                y0 as int,
                x1 as int,
                y1 as int,
            ) {
                1nat
            } else {
                0
            } by {
            lemma_located_once(elements, k, x0 as int, y0 as int, x1 as int, y1 as int);
        }
        assert forall|k: usize| #[trigger] found@.contains(k) <==> k < elements.len() && run_meets(
            elements,
            k as int,
            x0 as int,
            y0 as int,
            x1 as int,
            y1 as int,
        ) by {
            assert(found@.to_multiset().count(k) >= 0);
        }
        assert forall|k: usize| found@.to_multiset().contains(k) implies #[trigger] found@.to_multiset().count(
            k,
        ) == 1 by {}
        found@.lemma_multiset_has_no_duplicates_conv();
    }
    found
}

/// The least number of characters to insert, delete or replace to turn one text into the other.
pub open spec fn edit_distance(a: Seq<char>, b: Seq<char>) -> nat
    decreases a.len() + b.len(),
{
    if a.len() == 0 {
        b.len()
    } else if b.len() == 0 {
        a.len()
    } else {
        let delete = edit_distance(a.drop_last(), b) + 1;
        let insert = edit_distance(a, b.drop_last()) + 1;
        let replace = edit_distance(a.drop_last(), b.drop_last()) + if a.last() == b.last() {
            0nat
        } else {
            1
        };
        low(low(delete as int, insert as int), replace as int) as nat
    }
}

/// `strsim::levenshtein` counts the characters to insert, delete or replace to turn one text
/// into the other: the least number of them.
#[verifier::external_body]
fn levenshtein(a: &str, b: &str) -> (r: usize)
    ensures
        r == edit_distance(a@, b@),
{
    strsim::levenshtein(a, b)
}

/// The length of the longer of two texts.
pub open spec fn longer_length(a: Seq<char>, b: Seq<char>) -> nat {
    if a.len() >= b.len() {
        a.len()
    } else {
        b.len()
    }
}

/// How similar two texts are, as a fraction: the part of the longer text that needs no change.
/// Two empty texts are the same.
pub open spec fn similarity(a: Seq<char>, b: Seq<char>) -> (int, int) {
    let longer = longer_length(a, b) as int;
    if longer == 0 {
        (1, 1)
    } else {
        (longer - edit_distance(a, b), longer)
    }
}

/// Whether two texts are similar enough to be the same recurring text.
pub open spec fn are_similar(a: Seq<char>, b: Seq<char>) -> bool {
    let (num, den) = similarity(a, b);
    100 * num >= NLD_SIMILARITY_THRESHOLD * den
}

proof fn lemma_edit_distance_bound(a: Seq<char>, b: Seq<char>)
    ensures
        edit_distance(a, b) <= longer_length(a, b),
    decreases a.len() + b.len(),
{
    if a.len() > 0 && b.len() > 0 {
        lemma_edit_distance_bound(a.drop_last(), b.drop_last());
    }
}

/// The similarity of two texts, from 0 for texts without anything in common to 1 for the same
/// text.
pub fn normalized_levenshtein(a: &str, b: &str) -> (r: Ratio)
    ensures
        (r.num as int, r.den as int) == similarity(a@, b@),
        r.valid(),
{
    let a_len: usize = chars_of(a).len();
    let b_len: usize = chars_of(b).len();
    let longer: usize = if a_len >= b_len {
        a_len
    } else {
        b_len
    };
    if longer == 0 {
        return Ratio { num: 1, den: 1 };
    }
    let distance: usize = levenshtein(a, b);
    Ratio { num: longer as i128 - distance as i128, den: longer as i128 }
}

fn similar(a: &str, b: &str) -> (r: bool)
    ensures
        r == are_similar(a@, b@),
{
    normalized_levenshtein(a, b).at_least_percent(NLD_SIMILARITY_THRESHOLD)
}

/// Similarity lies between 0 and 1, and a text is as similar to itself as can be.
pub proof fn law_similarity(a: Seq<char>, b: Seq<char>)
    ensures
        0 <= similarity(a, b).0 <= similarity(a, b).1,
        similarity(a, a).0 == similarity(a, a).1,
        are_similar(a, a),
{
    lemma_edit_distance_bound(a, b);
    lemma_same_text(a);
}

proof fn lemma_same_text(a: Seq<char>)
    ensures
        edit_distance(a, a) == 0,
    decreases a.len(),
{
    if a.len() > 0 {
        lemma_same_text(a.drop_last());
    }
}

/// Similarity does not depend on the order of the two texts.
pub proof fn law_similarity_is_symmetric(a: Seq<char>, b: Seq<char>)
    ensures
        similarity(a, b) == similarity(b, a),
{
    lemma_distance_symmetric(a, b);
}

proof fn lemma_distance_symmetric(a: Seq<char>, b: Seq<char>)
    ensures
        edit_distance(a, b) == edit_distance(b, a),
    decreases a.len() + b.len(),
{
    if a.len() > 0 && b.len() > 0 {
        lemma_distance_symmetric(a.drop_last(), b);
        lemma_distance_symmetric(a, b.drop_last());
        lemma_distance_symmetric(a.drop_last(), b.drop_last());
    }
}

/// The character of a decimal digit.
pub open spec fn digit(d: int) -> char {
    (48 + d) as u8 as char
}

/// A whole number in decimal.
pub open spec fn decimal(n: nat) -> Seq<char>
    decreases n,
{
    if n < 10 {
        seq![digit(n as int)]
    } else {
        decimal(n / 10).push(digit((n % 10) as int))
    }
}

/// `num / den` rounded to the nearest whole number, halves to the even one.
pub open spec fn rounded(num: nat, den: nat) -> nat {
    let q = num / den;
    let rest = num % den;
    if 2 * rest > den || (2 * rest == den && q % 2 == 1) {
        q + 1
    } else {
        q
    }
}

/// A fraction in decimal, rounded to two places. A negative fraction keeps its sign even where
/// it rounds to zero.
pub open spec fn two_decimals(num: int, den: int) -> Seq<char> {
    let size = if num < 0 {
        -num
    } else {
        num
    };
    let hundredths = rounded((100 * size) as nat, den as nat);
    let sign = if num < 0 {
        seq!['-']
    } else {
        Seq::empty()
    };
    sign + decimal(hundredths / 100) + seq![
        '.',
        digit((hundredths / 10 % 10) as int),
        digit((hundredths % 10) as int),
    ]
}

fn append_decimal(out: &mut Vec<char>, n: u128)
    ensures
        final(out)@ == old(out)@ + decimal(n as nat),
    decreases n,
{
    if n >= 10 {
        let ghost before = out@;
        append_decimal(out, n / 10);
        out.push((48 + (n % 10) as u8) as char);
        assert(out@ =~= before + decimal(n as nat));
    } else {
        out.push((48 + n as u8) as char);
    }
}

/// A fraction in decimal, rounded to two places.
pub fn zone_label(r: &Ratio) -> (s: String)
    requires
        r.valid(),
    ensures
        s@ == two_decimals(r.num as int, r.den as int),
{
    let negative: bool = r.num < 0;
    let size: u128 = if negative {
        (-r.num) as u128
    } else {
        r.num as u128
    };
    let den: u128 = r.den as u128;
    let q: u128 = 100 * size / den;
    let rest: u128 = 100 * size % den;
    assert(q <= 100 * size) by (nonlinear_arith)
        requires
            q == 100 * size / (den as int),
            den >= 1,
    ;
    let hundredths: u128 = if 2 * rest > den || (2 * rest == den && q % 2 == 1) {
        q + 1
    } else {
        q
    };
    assert(hundredths == rounded((100 * size) as nat, den as nat));
    let mut out: Vec<char> = Vec::new();
    if negative {
        out.push('-');
    }
    let ghost sign = out@;
    append_decimal(&mut out, hundredths / 100);
    out.push('.');
    out.push((48 + (hundredths / 10 % 10) as u8) as char);
    out.push((48 + (hundredths % 10) as u8) as char);
    proof {
        let expected_sign = if r.num < 0 {
            seq!['-']
        } else {
            Seq::<char>::empty()
        };
        assert(sign =~= expected_sign);
        assert(out@ =~= sign + decimal((hundredths / 100) as nat) + seq![
            '.',
            digit((hundredths / 10 % 10) as int),
            digit((hundredths % 10) as int),
        ]);
    }
    string_of(&out)
}

/// Whether a height on a page lies in the header or footer zone.
pub open spec fn in_edge_zone(height: (int, int)) -> bool {
    100 * height.0 < HEADER_ZONE_MAX * height.1 || 100 * height.0 > FOOTER_ZONE_MIN * height.1
}

fn stands_at_edge(height: &Ratio) -> (r: bool)
    requires
        height.valid(),
    ensures
        r == in_edge_zone((height.num as int, height.den as int)),
{
    !height.at_least_percent(HEADER_ZONE_MAX) || height.above_percent(FOOTER_ZONE_MIN)
}

/// A candidate as a value.
#[verifier::ext_equal]
pub ghost struct CandidateView {
    pub page_num: usize,
    pub y_zone: Seq<char>,
    pub text: Seq<char>,
}

impl View for HeaderFooterCandidate {
    type V = CandidateView;

    open spec fn view(&self) -> CandidateView {
        CandidateView { page_num: self.page_num, y_zone: self.y_zone@, text: self.text@ }
    }
}

pub open spec fn candidate_views(candidates: Seq<HeaderFooterCandidate>) -> Seq<CandidateView> {
    Seq::new(candidates.len(), |i: int| candidates[i]@)
}

/// The candidate that a run is.
pub open spec fn candidate_of(e: TextElement, page_num: usize, page_height: i64) -> CandidateView {
    let (num, den) = e.y_norm_of(page_height as int);
    CandidateView { page_num, y_zone: two_decimals(num, den), text: trimmed(e.text@) }
}

/// The candidates among the runs of a page: those in its header and footer zones.
pub open spec fn page_candidates(
    elements: Seq<TextElement>,
    page_num: usize,
    page_height: i64,
) -> Seq<CandidateView>
    decreases elements.len(),
{
    if elements.len() == 0 {
        Seq::empty()
    } else {
        let front = page_candidates(elements.drop_last(), page_num, page_height);
        let e = elements.last();
        if in_edge_zone(e.y_norm_of(page_height as int)) {
            front.push(candidate_of(e, page_num, page_height))
        } else {
            front
        }
    }
}

/// The candidates of a document, page by page.
pub open spec fn document_candidates(pages: Seq<PageContent>) -> Seq<CandidateView>
    decreases pages.len(),
{
    if pages.len() == 0 {
        Seq::empty()
    } else {
        let page = pages.last();
        document_candidates(pages.drop_last()) + page_candidates(
            page.elements@,
            page.page_num,
            page.page_height,
        )
    }
}

/// Takes the texts in the header and footer zones of every page.
pub fn pass1_profile_candidates(pages: &[PageContent]) -> (r: Vec<HeaderFooterCandidate>)
    ensures
        candidate_views(r@) == document_candidates(pages@),
{
    let mut out: Vec<HeaderFooterCandidate> = Vec::new();
    let mut i: usize = 0;
    assert(pages@.take(0) =~= Seq::<PageContent>::empty());
    assert(candidate_views(out@) =~= Seq::<CandidateView>::empty());
    while i < pages.len()
        invariant
            i <= pages@.len(),
            candidate_views(out@) == document_candidates(pages@.take(i as int)),
        decreases pages@.len() - i,
    {
        let page: &PageContent = &pages[i];
        let ghost before = candidate_views(out@);
        let ghost runs = page.elements@;
        let mut j: usize = 0;
        assert(runs.take(0) =~= Seq::<TextElement>::empty());
        assert(before + page_candidates(runs.take(0), page.page_num, page.page_height) =~= before);
        while j < page.elements.len()
            invariant
                j <= page.elements@.len(),
                runs == page.elements@,
                candidate_views(out@) == before + page_candidates(
                    runs.take(j as int),
                    page.page_num,
                    page.page_height,
                ),
            decreases page.elements@.len() - j,
        {
            assert(runs.take(j + 1).drop_last() =~= runs.take(j as int));
            let e: &TextElement = &page.elements[j];
            let height: Ratio = e.y_norm(page.page_height);
            if stands_at_edge(&height) {
                let cs: Vec<char> = chars_of(e.text.as_str());
                let text: Vec<char> = trim(&cs);
                let candidate = HeaderFooterCandidate {
                    page_num: page.page_num,
                    y_zone: zone_label(&height),
                    text: string_of(&text),
                };
                let ghost old_views = candidate_views(out@);
                let ghost view = candidate@;
                out.push(candidate);
                assert(view =~= candidate_of(runs[j as int], page.page_num, page.page_height));
                assert(candidate_views(out@) =~= old_views.push(view));
                assert(candidate_views(out@) =~= before + page_candidates(
                    runs.take(j as int),
                    page.page_num,
                    page.page_height,
                ).push(view));
            }
            j = j + 1;
        }
        assert(runs.take(j as int) =~= runs);
        assert(pages@.take(i + 1).drop_last() =~= pages@.take(i as int));
        i = i + 1;
    }
    assert(pages@.take(i as int) =~= pages@);
    out
}

/// A group of similar texts: the one that started it, and the distinct pages that it is seen on.
#[verifier::ext_equal]
pub ghost struct GroupView {
    pub text: Seq<char>,
    pub pages: Seq<usize>,
}

/// The pages with `page` among them.
pub open spec fn with_page(pages: Seq<usize>, page: usize) -> Seq<usize> {
    if pages.contains(page) {
        pages
    } else {
        pages.push(page)
    }
}

/// The place of the first group whose text is similar; the number of groups where none is.
pub open spec fn first_similar(groups: Seq<GroupView>, text: Seq<char>) -> nat
    decreases groups.len(),
{
    if groups.len() == 0 || are_similar(groups[0].text, text) {
        0
    } else {
        1 + first_similar(groups.skip(1), text)
    }
}

/// Takes up one more text: it joins the first group that it is similar to, and starts a group
/// where there is none.
pub open spec fn with_text(groups: Seq<GroupView>, text: Seq<char>, page: usize) -> Seq<GroupView> {
    let k = first_similar(groups, text) as int;
    if k < groups.len() {
        groups.update(
            k,
            GroupView { text: groups[k].text, pages: with_page(groups[k].pages, page) },
        )
    } else {
        groups.push(GroupView { text, pages: seq![page] })
    }
}

/// The groups of similar texts among the candidates of one zone.
pub open spec fn zone_groups(candidates: Seq<CandidateView>, zone: Seq<char>) -> Seq<GroupView>
    decreases candidates.len(),
{
    if candidates.len() == 0 {
        Seq::empty()
    } else {
        let front = zone_groups(candidates.drop_last(), zone);
        let last = candidates.last();
        if last.y_zone == zone {
            with_text(front, last.text, last.page_num)
        } else {
            front
        }
    }
}

/// The zones of the candidates, in the order in which they first occur.
pub open spec fn zones_of(candidates: Seq<CandidateView>) -> Seq<Seq<char>>
    decreases candidates.len(),
{
    if candidates.len() == 0 {
        Seq::empty()
    } else {
        let front = zones_of(candidates.drop_last());
        if front.contains(candidates.last().y_zone) {
            front
        } else {
            front.push(candidates.last().y_zone)
        }
    }
}

/// A cluster as a value.
#[verifier::ext_equal]
pub ghost struct ClusterView {
    pub y_zone: Seq<char>,
    pub representative_text: Seq<char>,
    pub pages_seen: nat,
    pub frequency: (int, int),
    pub redact: bool,
}

impl View for RedactCluster {
    type V = ClusterView;

    open spec fn view(&self) -> ClusterView {
        ClusterView {
            y_zone: self.y_zone@,
            representative_text: self.representative_text@,
            pages_seen: self.pages_seen as nat,
            frequency: (self.frequency.num as int, self.frequency.den as int),
            redact: self.redact,
        }
    }
}

pub open spec fn cluster_views(clusters: Seq<RedactCluster>) -> Seq<ClusterView> {
    Seq::new(clusters.len(), |i: int| clusters[i]@)
}

/// The part of all pages that `pages` of them are.
pub open spec fn page_frequency(pages: nat, total_pages: nat) -> (int, int) {
    if total_pages > 0 {
        (pages as int, total_pages as int)
    } else {
        (0, 1)
    }
}

/// The cluster that a group of similar texts makes: it is to be redacted where it is seen on
/// enough of the pages.
pub open spec fn cluster_of(group: GroupView, zone: Seq<char>, total_pages: nat) -> ClusterView {
    let frequency = page_frequency(group.pages.len(), total_pages);
    ClusterView {
        y_zone: zone,
        representative_text: group.text,
        pages_seen: group.pages.len(),
        frequency,
        redact: 100 * frequency.0 >= FREQ_REDACT_THRESHOLD * frequency.1,
    }
}

pub open spec fn clusters_of_groups(
    groups: Seq<GroupView>,
    zone: Seq<char>,
    total_pages: nat,
) -> Seq<ClusterView> {
    Seq::new(groups.len(), |i: int| cluster_of(groups[i], zone, total_pages))
}

/// The clusters of the given zones, zone by zone.
pub open spec fn clusters_of_zones(
    candidates: Seq<CandidateView>,
    zones: Seq<Seq<char>>,
    total_pages: nat,
) -> Seq<ClusterView>
    decreases zones.len(),
{
    if zones.len() == 0 {
        Seq::empty()
    } else {
        clusters_of_zones(candidates, zones.drop_last(), total_pages) + clusters_of_groups(
            zone_groups(candidates, zones.last()),
            zones.last(),
            total_pages,
        )
    }
}

/// The clusters of all candidates, zone by zone in the order in which the zones first occur.
pub open spec fn document_clusters(candidates: Seq<CandidateView>, total_pages: nat) -> Seq<ClusterView> {
    clusters_of_zones(candidates, zones_of(candidates), total_pages)
}

struct Group {
    text: String,
    pages: Vec<usize>,
}

impl View for Group {
    type V = GroupView;

    closed spec fn view(&self) -> GroupView {
        GroupView { text: self.text@, pages: self.pages@ }
    }
}

spec fn group_views(groups: Seq<Group>) -> Seq<GroupView> {
    Seq::new(groups.len(), |i: int| groups[i]@)
}

fn insert_page(pages: &mut Vec<usize>, page: usize)
    ensures
        final(pages)@ == with_page(old(pages)@, page),
{
    let mut i: usize = 0;
    while i < pages.len()
        invariant
            i <= pages@.len(),
            pages@ == old(pages)@,
            forall|j: int| 0 <= j < i ==> pages@[j] != page,
        decreases pages@.len() - i,
    {
        if pages[i] == page {
            assert(pages@.contains(page));
            return;
        }
        i = i + 1;
    }
    pages.push(page);
}

fn take_up(groups: &mut Vec<Group>, text: &String, page: usize)
    ensures
        group_views(final(groups)@) == with_text(group_views(old(groups)@), text@, page),
{
    let ghost all = group_views(groups@);
    let mut i: usize = 0;
    assert(all.skip(0) =~= all);
    while i < groups.len()
        invariant
            i <= groups@.len(),
            groups@ == old(groups)@,
            all == group_views(groups@),
            first_similar(all, text@) == i + first_similar(all.skip(i as int), text@),
        decreases groups@.len() - i,
    {
        assert(all.skip(i as int)[0] == groups@[i as int]@);
        assert(all.skip(i as int).skip(1) =~= all.skip(i + 1));
        if similar(groups[i].text.as_str(), text.as_str()) {
            let ghost before = groups@;
            let mut pages: Vec<usize> = Vec::new();
            let mut j: usize = 0;
            while j < groups[i].pages.len()
                invariant
                    i < groups@.len(),
                    groups@ == before,
                    j <= groups@[i as int].pages@.len(),
                    pages@ == groups@[i as int].pages@.take(j as int),
                decreases groups@[i as int].pages@.len() - j,
            {
                pages.push(groups[i].pages[j]);
                assert(pages@ =~= groups@[i as int].pages@.take(j + 1));
                j = j + 1;
            }
            assert(pages@ =~= groups@[i as int].pages@);
            insert_page(&mut pages, page);
            let group = Group { text: groups[i].text.clone(), pages };
            let ghost view = group@;
            groups.set(i, group);
            assert(group_views(groups@) =~= all.update(i as int, view));
            return;
        }
        i = i + 1;
    }
    let mut pages: Vec<usize> = Vec::new();
    pages.push(page);
    let group = Group { text: text.clone(), pages };
    let ghost view = group@;
    groups.push(group);
    assert(view.pages =~= seq![page]);
    assert(group_views(groups@) =~= all.push(view));
}

fn group_zone(candidates: &[HeaderFooterCandidate], zone: &String) -> (r: Vec<Group>)
    ensures
        group_views(r@) == zone_groups(candidate_views(candidates@), zone@),
{
    let ghost all = candidate_views(candidates@);
    let mut groups: Vec<Group> = Vec::new();
    let mut i: usize = 0;
    assert(all.take(0) =~= Seq::<CandidateView>::empty());
    assert(group_views(groups@) =~= Seq::<GroupView>::empty());
    while i < candidates.len()
        invariant
            i <= candidates@.len(),
            all == candidate_views(candidates@),
            group_views(groups@) == zone_groups(all.take(i as int), zone@),
        decreases candidates@.len() - i,
    {
        assert(all.take(i + 1).drop_last() =~= all.take(i as int));
        assert(all.take(i + 1).last() == candidates@[i as int]@);
        if candidates[i].y_zone.eq(zone) {
            take_up(&mut groups, &candidates[i].text, candidates[i].page_num);
        }
        i = i + 1;
    }
    assert(all.take(i as int) =~= all);
    groups
}

fn distinct_zones(candidates: &[HeaderFooterCandidate]) -> (r: Vec<String>)
    ensures
        string_views(r@) == zones_of(candidate_views(candidates@)),
{
    let ghost all = candidate_views(candidates@);
    let mut zones: Vec<String> = Vec::new();
    let mut i: usize = 0;
    assert(all.take(0) =~= Seq::<CandidateView>::empty());
    assert(string_views(zones@) =~= Seq::<Seq<char>>::empty());
    while i < candidates.len()
        invariant
            i <= candidates@.len(),
            all == candidate_views(candidates@),
            string_views(zones@) == zones_of(all.take(i as int)),
        decreases candidates@.len() - i,
    {
        assert(all.take(i + 1).drop_last() =~= all.take(i as int));
        assert(all.take(i + 1).last() == candidates@[i as int]@);
        let ghost before = string_views(zones@);
        let zone: &String = &candidates[i].y_zone;
        let mut known: bool = false;
        let mut j: usize = 0;
        while j < zones.len() && !known
            invariant
                j <= zones@.len(),
                before == string_views(zones@),
                known ==> before.contains(zone@),
                !known ==> forall|k: int| 0 <= k < j ==> before[k] != zone@,
            decreases
                zones@.len() - j + if known {
                    0int
                } else {
                    1int
                },
        {
            if zones[j].eq(zone) {
                assert(before[j as int] == zone@);
                known = true;
            } else {
                j = j + 1;
            }
        }
        if !known {
            zones.push(zone.clone());
            assert(string_views(zones@) =~= before.push(zone@));
        }
        i = i + 1;
    }
    assert(all.take(i as int) =~= all);
    zones
}

fn cluster_from(group: &Group, zone: &String, total_pages: usize) -> (r: RedactCluster)
    ensures
        r@ == cluster_of(group@, zone@, total_pages as nat),
{
    let pages_seen: usize = group.pages.len();
    let frequency: Ratio = if total_pages > 0 {
        Ratio { num: pages_seen as i128, den: total_pages as i128 }
    } else {
        Ratio { num: 0, den: 1 }
    };
    let redact: bool = frequency.at_least_percent(FREQ_REDACT_THRESHOLD);
    RedactCluster {
        y_zone: zone.clone(),
        representative_text: group.text.clone(),
        pages_seen,
        frequency,
        redact,
    }
}

/// Groups the candidates of each zone by similarity and decides which groups are to be redacted.
pub fn pass2_build_redact_clusters(
    candidates: &[HeaderFooterCandidate],
    total_pages: usize,
) -> (r: Vec<RedactCluster>)
    ensures
        cluster_views(r@) == document_clusters(candidate_views(candidates@), total_pages as nat),
{
    let ghost all = candidate_views(candidates@);
    let zones: Vec<String> = distinct_zones(candidates);
    let ghost zs = string_views(zones@);
    let mut clusters: Vec<RedactCluster> = Vec::new();
    let mut i: usize = 0;
    assert(zs.take(0) =~= Seq::<Seq<char>>::empty());
    assert(cluster_views(clusters@) =~= Seq::<ClusterView>::empty());
    while i < zones.len()
        invariant
            i <= zones@.len(),
            all == candidate_views(candidates@),
            zs == string_views(zones@),
            cluster_views(clusters@) == clusters_of_zones(
                all,
                zs.take(i as int),
                total_pages as nat,
            ),
        decreases zones@.len() - i,
    {
        assert(zs.take(i + 1).drop_last() =~= zs.take(i as int));
        assert(zs.take(i + 1).last() == zones@[i as int]@);
        let groups: Vec<Group> = group_zone(candidates, &zones[i]);
        let ghost before = cluster_views(clusters@);
        let ghost added = clusters_of_groups(
            group_views(groups@),
            zones@[i as int]@,
            total_pages as nat,
        );
        let mut j: usize = 0;
        assert(before + added.take(0) =~= before);
        while j < groups.len()
            invariant
                j <= groups@.len(),
                i < zones@.len(),
                added == clusters_of_groups(
                    group_views(groups@),
                    zones@[i as int]@,
                    total_pages as nat,
                ),
                cluster_views(clusters@) == before + added.take(j as int),
            decreases groups@.len() - j,
        {
            let cluster: RedactCluster = cluster_from(&groups[j], &zones[i], total_pages);
            let ghost old_views = cluster_views(clusters@);
            let ghost view = cluster@;
            clusters.push(cluster);
            assert(view == added[j as int]);
            assert(cluster_views(clusters@) =~= old_views.push(view));
            assert(old_views.push(view) =~= before + added.take(j + 1));
            j = j + 1;
        }
        assert(added.take(j as int) =~= added);
        i = i + 1;
    }
    assert(zs.take(i as int) =~= zs);
    clusters
}

/// Whether a cluster has a run redacted that stands in `zone` with `text`.
pub open spec fn cluster_redacts(cluster: ClusterView, zone: Seq<char>, text: Seq<char>) -> bool {
    cluster.redact && cluster.y_zone == zone && are_similar(cluster.representative_text, text)
}

/// Whether a run is to be left out: it stands in the header or footer zone, and a cluster to be
/// redacted at its height has a similar text.
pub open spec fn is_redacted(e: TextElement, page_height: i64, clusters: Seq<ClusterView>) -> bool {
    let height = e.y_norm_of(page_height as int);
    in_edge_zone(height) && exists|i: int|
        0 <= i < clusters.len() && cluster_redacts(
            #[trigger] clusters[i],
            two_decimals(height.0, height.1),
            trimmed(e.text@),
        )
}

/// Decides whether a run is a recurring header or footer, to be left out.
pub fn should_redact(el: &TextElement, page_height: i64, clusters: &[RedactCluster]) -> (r: bool)
    ensures
        r == is_redacted(*el, page_height, cluster_views(clusters@)),
{
    let height: Ratio = el.y_norm(page_height);
    if !stands_at_edge(&height) {
        return false;
    }
    let zone: String = zone_label(&height);
    let cs: Vec<char> = chars_of(el.text.as_str());
    let trimmed_chars: Vec<char> = trim(&cs);
    let text: String = string_of(&trimmed_chars);
    let ghost all = cluster_views(clusters@);
    let mut i: usize = 0;
    while i < clusters.len()
        invariant
            i <= clusters@.len(),
            all == cluster_views(clusters@),
            in_edge_zone(el.y_norm_of(page_height as int)),
            zone@ == two_decimals(
                el.y_norm_of(page_height as int).0,
                el.y_norm_of(page_height as int).1,
            ),
            text@ == trimmed(el.text@),
            forall|j: int| 0 <= j < i ==> !cluster_redacts(#[trigger] all[j], zone@, text@),
        decreases clusters@.len() - i,
    {
        let c: &RedactCluster = &clusters[i];
        assert(all[i as int] == c@);
        if c.redact && c.y_zone.eq(&zone) && similar(c.representative_text.as_str(), text.as_str()) {
            assert(cluster_redacts(all[i as int], zone@, text@));
            return true;
        }
        i = i + 1;
    }
    false
}

/// A run between the header and the footer zone is never a candidate and never left out.
pub proof fn law_body_text_is_kept(
    elements: Seq<TextElement>,
    e: TextElement,
    page_num: usize,
    page_height: i64,
    clusters: Seq<ClusterView>,
)
    requires
        !in_edge_zone(e.y_norm_of(page_height as int)),
    ensures
        !is_redacted(e, page_height, clusters),
        page_candidates(elements.push(e), page_num, page_height) == page_candidates(
            elements,
            page_num,
            page_height,
        ),
{
    assert(elements.push(e).drop_last() =~= elements);
}

proof fn lemma_first_similar(groups: Seq<GroupView>, text: Seq<char>)
    ensures
        first_similar(groups, text) <= groups.len(),
        first_similar(groups, text) < groups.len() ==> are_similar(
            groups[first_similar(groups, text) as int].text,
            text,
        ),
        forall|j: int|
            0 <= j < first_similar(groups, text) ==> !are_similar(#[trigger] groups[j].text, text),
    decreases groups.len(),
{
    if groups.len() > 0 && !are_similar(groups[0].text, text) {
        let rest = groups.skip(1);
        lemma_first_similar(rest, text);
        assert forall|j: int| 0 <= j < first_similar(groups, text) implies !are_similar(
            #[trigger] groups[j].text,
            text,
        ) by {
            if j > 0 {
                assert(rest[j - 1] == groups[j]);
            }
        }
    }
}

proof fn lemma_similar_at(groups: Seq<GroupView>, text: Seq<char>, k: int)
    requires
        0 <= k < groups.len(),
        are_similar(groups[k].text, text),
        forall|j: int| 0 <= j < k ==> !are_similar(#[trigger] groups[j].text, text),
    ensures
        first_similar(groups, text) == k,
{
    lemma_first_similar(groups, text);
    let f = first_similar(groups, text) as int;
    if f < k {
        assert(!are_similar(groups[f].text, text));
    }
    if k < f {
        assert(!are_similar(groups[k].text, text));
    }
}

/// What holds of a text that has been taken up: the first group that it is similar to counts its
/// page.
spec fn is_grouped(groups: Seq<GroupView>, text: Seq<char>, page: usize) -> bool {
    let k = first_similar(groups, text) as int;
    k < groups.len() && groups[k].pages.contains(page)
}

proof fn lemma_stays_grouped(
    groups: Seq<GroupView>,
    text: Seq<char>,
    page: usize,
    other: Seq<char>,
    other_page: usize,
)
    requires
        is_grouped(groups, text, page),
    ensures
        is_grouped(with_text(groups, other, other_page), text, page),
{
    let k = first_similar(groups, text) as int;
    let after = with_text(groups, other, other_page);
    lemma_first_similar(groups, text);
    lemma_first_similar(groups, other);
    assert forall|j: int| 0 <= j < groups.len() implies after[j].text == groups[j].text by {}
    assert forall|j: int| 0 <= j < k implies !are_similar(#[trigger] after[j].text, text) by {
        assert(!are_similar(groups[j].text, text));
    }
    lemma_similar_at(after, text, k);
    let i = choose|i: int| 0 <= i < groups[k].pages.len() && groups[k].pages[i] == page;
    assert(after[k].pages[i] == page);
}

proof fn lemma_is_grouped(groups: Seq<GroupView>, text: Seq<char>, page: usize)
    ensures
        is_grouped(with_text(groups, text, page), text, page),
{
    let k = first_similar(groups, text) as int;
    let after = with_text(groups, text, page);
    lemma_first_similar(groups, text);
    if k < groups.len() {
        let pages = groups[k].pages;
        if !pages.contains(page) {
            assert(pages.push(page)[pages.len() as int] == page);
        }
        assert(after[k].pages.contains(page));
        assert forall|j: int| 0 <= j < k implies !are_similar(#[trigger] after[j].text, text) by {
            assert(!are_similar(groups[j].text, text));
        }
        lemma_similar_at(after, text, k);
    } else {
        law_similarity(text, text);
        assert forall|j: int| 0 <= j < k implies !are_similar(#[trigger] after[j].text, text) by {
            assert(!are_similar(groups[j].text, text));
        }
        lemma_similar_at(after, text, k);
        assert(after[k].pages[0] == page);
    }
}

/// Every candidate is counted: the first group of its zone that its text is similar to has its
/// page among its pages.
pub proof fn law_every_candidate_is_counted(candidates: Seq<CandidateView>, i: int)
    requires
        0 <= i < candidates.len(),
    ensures
        ({
            let c = candidates[i];
            let groups = zone_groups(candidates, c.y_zone);
            let k = first_similar(groups, c.text) as int;
            &&& k < groups.len()
            &&& groups[k].pages.contains(c.page_num)
        }),
    decreases candidates.len(),
{
    let c = candidates[i];
    let front = candidates.drop_last();
    let last = candidates.last();
    if i == candidates.len() - 1 {
        lemma_is_grouped(zone_groups(front, c.y_zone), c.text, c.page_num);
    } else {
        law_every_candidate_is_counted(front, i);
        assert(front[i] == c);
        if last.y_zone == c.y_zone {
            lemma_stays_grouped(
                zone_groups(front, c.y_zone),
                c.text,
                c.page_num,
                last.text,
                last.page_num,
            );
        }
    }
}

/// A group counts each page once, and only pages that have a candidate of its zone with a
/// similar text.
pub proof fn law_group_pages(candidates: Seq<CandidateView>, zone: Seq<char>, k: int)
    requires
        0 <= k < zone_groups(candidates, zone).len(),
    ensures
        zone_groups(candidates, zone)[k].pages.no_duplicates(),
        forall|p: usize| #[trigger]
            zone_groups(candidates, zone)[k].pages.contains(p) ==> exists|i: int|
                0 <= i < candidates.len() && (#[trigger] candidates[i]).y_zone == zone
                    && candidates[i].page_num == p && are_similar(
                    zone_groups(candidates, zone)[k].text,
                    candidates[i].text,
                ),
    decreases candidates.len(),
{
    let front = candidates.drop_last();
    let last = candidates.last();
    let before = zone_groups(front, zone);
    let after = zone_groups(candidates, zone);
    let at = candidates.len() - 1;
    lemma_first_similar(before, last.text);
    let joined_at = first_similar(before, last.text) as int;
    if k < before.len() {
        law_group_pages(front, zone, k);
        assert(after[k].text == before[k].text);
    } else {
        law_similarity(last.text, last.text);
    }
    assert forall|p: usize| #[trigger] after[k].pages.contains(p) implies exists|i: int|
        0 <= i < candidates.len() && (#[trigger] candidates[i]).y_zone == zone
            && candidates[i].page_num == p && are_similar(after[k].text, candidates[i].text) by {
        if k < before.len() && before[k].pages.contains(p) {
            let i = choose|i: int|
                0 <= i < front.len() && (#[trigger] front[i]).y_zone == zone && front[i].page_num
                    == p && are_similar(before[k].text, front[i].text);
            assert(candidates[i] == front[i]);
        } else {
            let m = choose|m: int| 0 <= m < after[k].pages.len() && after[k].pages[m] == p;
            if k < before.len() {
                if m < before[k].pages.len() {
                    assert(before[k].pages[m] == p);
                }
            }
            assert(candidates[at] == last);
        }
    }
}

proof fn lemma_zone_is_known(candidates: Seq<CandidateView>, i: int)
    requires
        0 <= i < candidates.len(),
    ensures
        zones_of(candidates).contains(candidates[i].y_zone),
    decreases candidates.len(),
{
    let front = candidates.drop_last();
    let before = zones_of(front);
    let after = zones_of(candidates);
    let zone = candidates[i].y_zone;
    if i == candidates.len() - 1 {
        if !before.contains(zone) {
            assert(after[before.len() as int] == zone);
        }
    } else {
        lemma_zone_is_known(front, i);
        let k = choose|k: int| 0 <= k < before.len() && before[k] == zone;
        assert(after[k] == zone);
    }
}

proof fn lemma_cluster_is_listed(
    candidates: Seq<CandidateView>,
    zones: Seq<Seq<char>>,
    zone: Seq<char>,
    k: int,
    total_pages: nat,
)
    requires
        zones.contains(zone),
        0 <= k < zone_groups(candidates, zone).len(),
    ensures
        clusters_of_zones(candidates, zones, total_pages).contains(
            cluster_of(zone_groups(candidates, zone)[k], zone, total_pages),
        ),
    decreases zones.len(),
{
    let before = clusters_of_zones(candidates, zones.drop_last(), total_pages);
    let all = clusters_of_zones(candidates, zones, total_pages);
    let cluster = cluster_of(zone_groups(candidates, zone)[k], zone, total_pages);
    let m = choose|m: int| 0 <= m < zones.len() && zones[m] == zone;
    if m == zones.len() - 1 {
        assert(all[before.len() + k] == cluster);
    } else {
        assert(zones.drop_last()[m] == zone);
        lemma_cluster_is_listed(candidates, zones.drop_last(), zone, k, total_pages);
        let j = choose|j: int| 0 <= j < before.len() && before[j] == cluster;
        assert(all[j] == cluster);
    }
}

proof fn lemma_listed_cluster(
    candidates: Seq<CandidateView>,
    zones: Seq<Seq<char>>,
    total_pages: nat,
    i: int,
)
    requires
        0 <= i < clusters_of_zones(candidates, zones, total_pages).len(),
    ensures
        ({
            let c = clusters_of_zones(candidates, zones, total_pages)[i];
            exists|k: int|
                0 <= k < zone_groups(candidates, c.y_zone).len() && c == cluster_of(
                    #[trigger] zone_groups(candidates, c.y_zone)[k],
                    c.y_zone,
                    total_pages,
                )
        }),
    decreases zones.len(),
{
    let before = clusters_of_zones(candidates, zones.drop_last(), total_pages);
    let all = clusters_of_zones(candidates, zones, total_pages);
    let c = all[i];
    if i < before.len() {
        lemma_listed_cluster(candidates, zones.drop_last(), total_pages, i);
        assert(before[i] == c);
    } else {
        let groups = zone_groups(candidates, zones.last());
        let k = i - before.len();
        let added = clusters_of_groups(groups, zones.last(), total_pages);
        assert(zones.len() > 0);
        assert(all == before + added);
        assert(c == added[k]);
        assert(c.y_zone == zones.last());
        assert(c == cluster_of(zone_groups(candidates, c.y_zone)[k], c.y_zone, total_pages));
    }
}

proof fn lemma_groups_differ(candidates: Seq<CandidateView>, zone: Seq<char>)
    ensures
        forall|i: int, j: int|
            0 <= i < j < zone_groups(candidates, zone).len() ==> !are_similar(
                #[trigger] zone_groups(candidates, zone)[i].text,
                #[trigger] zone_groups(candidates, zone)[j].text,
            ),
    decreases candidates.len(),
{
    if candidates.len() > 0 {
        let front = candidates.drop_last();
        let last = candidates.last();
        let before = zone_groups(front, zone);
        let after = zone_groups(candidates, zone);
        lemma_groups_differ(front, zone);
        lemma_first_similar(before, last.text);
        assert forall|i: int, j: int| 0 <= i < j < after.len() implies !are_similar(
            #[trigger] after[i].text,
            #[trigger] after[j].text,
        ) by {
            assert(after[i].text == before[i].text);
            if j < before.len() {
                assert(after[j].text == before[j].text);
            }
        }
    }
}

proof fn lemma_zones_differ(candidates: Seq<CandidateView>)
    ensures
        zones_of(candidates).no_duplicates(),
    decreases candidates.len(),
{
    if candidates.len() > 0 {
        lemma_zones_differ(candidates.drop_last());
    }
}

proof fn lemma_cluster_zone(
    candidates: Seq<CandidateView>,
    zones: Seq<Seq<char>>,
    total_pages: nat,
    i: int,
)
    requires
        0 <= i < clusters_of_zones(candidates, zones, total_pages).len(),
    ensures
        zones.contains(clusters_of_zones(candidates, zones, total_pages)[i].y_zone),
    decreases zones.len(),
{
    let front = zones.drop_last();
    let before = clusters_of_zones(candidates, front, total_pages);
    let c = clusters_of_zones(candidates, zones, total_pages)[i];
    if i < before.len() {
        lemma_cluster_zone(candidates, front, total_pages, i);
        let m = choose|m: int| 0 <= m < front.len() && front[m] == c.y_zone;
        assert(zones[m] == c.y_zone);
    } else {
        assert(zones[zones.len() - 1] == c.y_zone);
    }
}

proof fn lemma_clusters_differ(
    candidates: Seq<CandidateView>,
    zones: Seq<Seq<char>>,
    total_pages: nat,
    i: int,
    j: int,
)
    requires
        zones.no_duplicates(),
        0 <= i < j < clusters_of_zones(candidates, zones, total_pages).len(),
    ensures
        ({
            let all = clusters_of_zones(candidates, zones, total_pages);
            all[i].y_zone == all[j].y_zone ==> !are_similar(
                all[i].representative_text,
                all[j].representative_text,
            )
        }),
    decreases zones.len(),
{
    let front = zones.drop_last();
    let before = clusters_of_zones(candidates, front, total_pages);
    let all = clusters_of_zones(candidates, zones, total_pages);
    let groups = zone_groups(candidates, zones.last());
    let n = before.len() as int;
    if j < n {
        lemma_clusters_differ(candidates, front, total_pages, i, j);
        assert(all[i] == before[i] && all[j] == before[j]);
    } else if i < n {
        lemma_cluster_zone(candidates, front, total_pages, i);
        assert(all[i] == before[i]);
        let m = choose|m: int| 0 <= m < front.len() && front[m] == before[i].y_zone;
        assert(zones[m] == front[m]);
        assert(zones[m] != zones[zones.len() - 1]);
    } else {
        lemma_groups_differ(candidates, zones.last());
        assert(all[i].representative_text == groups[i - n].text);
        assert(all[j].representative_text == groups[j - n].text);
    }
}

/// Two clusters of one zone are dissimilar: what is similar is counted as one.
pub proof fn law_clusters_of_a_zone_differ(
    candidates: Seq<CandidateView>,
    total_pages: nat,
    i: int,
    j: int,
)
    requires
        0 <= i < document_clusters(candidates, total_pages).len(),
        0 <= j < document_clusters(candidates, total_pages).len(),
        i != j,
        document_clusters(candidates, total_pages)[i].y_zone == document_clusters(
            candidates,
            total_pages,
        )[j].y_zone,
    ensures
        !are_similar(
            document_clusters(candidates, total_pages)[i].representative_text,
            document_clusters(candidates, total_pages)[j].representative_text,
        ),
{
    let zones = zones_of(candidates);
    let all = document_clusters(candidates, total_pages);
    lemma_zones_differ(candidates);
    if i < j {
        lemma_clusters_differ(candidates, zones, total_pages, i, j);
    } else {
        lemma_clusters_differ(candidates, zones, total_pages, j, i);
        law_similarity_is_symmetric(all[i].representative_text, all[j].representative_text);
    }
}

/// A text that stands at the same height on enough pages is left out wherever it stands there.
/// `pages` lists such pages, each once.
pub proof fn law_recurring_text_is_redacted(
    candidates: Seq<CandidateView>,
    total_pages: nat,
    pages: Seq<usize>,
    e: TextElement,
    page_height: i64,
)
    requires
        in_edge_zone(e.y_norm_of(page_height as int)),
        total_pages > 0,
        pages.len() > 0,
        pages.no_duplicates(),
        100 * pages.len() >= FREQ_REDACT_THRESHOLD * total_pages,
        forall|j: int|
            0 <= j < pages.len() ==> candidates.contains(
                candidate_of(e, #[trigger] pages[j], page_height),
            ),
    ensures
        is_redacted(e, page_height, document_clusters(candidates, total_pages)),
{
    let height = e.y_norm_of(page_height as int);
    let zone = two_decimals(height.0, height.1);
    let text = trimmed(e.text@);
    let groups = zone_groups(candidates, zone);
    let k = first_similar(groups, text) as int;
    assert forall|j: int| 0 <= j < pages.len() implies k < groups.len() && groups[k].pages.contains(
        #[trigger] pages[j],
    ) by {
        let c = candidate_of(e, pages[j], page_height);
        let i = choose|i: int| 0 <= i < candidates.len() && candidates[i] == c;
        law_every_candidate_is_counted(candidates, i);
    }
    assert(groups[k].pages.contains(pages[0]));
    let counted = groups[k].pages;
    law_group_pages(candidates, zone, k);
    pages.unique_seq_to_set();
    counted.unique_seq_to_set();
    assert(pages.to_set().subset_of(counted.to_set())) by {
        assert forall|p: usize| pages.to_set().contains(p) implies counted.to_set().contains(p) by {
            let j = choose|j: int| 0 <= j < pages.len() && pages[j] == p;
            assert(counted.contains(pages[j]));
        }
    }
    vstd::set_lib::lemma_len_subset(pages.to_set(), counted.to_set());
    let first = candidate_of(e, pages[0], page_height);
    let i = choose|i: int| 0 <= i < candidates.len() && candidates[i] == first;
    lemma_zone_is_known(candidates, i);
    lemma_first_similar(groups, text);
    let clusters = document_clusters(candidates, total_pages);
    let cluster = cluster_of(groups[k], zone, total_pages);
    lemma_cluster_is_listed(candidates, zones_of(candidates), zone, k, total_pages);
    let m = choose|m: int| 0 <= m < clusters.len() && clusters[m] == cluster;
    assert(cluster_redacts(clusters[m], zone, text));
}

/// Only a recurring text is left out: a group of similar texts at the same height is seen on
/// enough of the pages.
pub proof fn law_redacted_text_recurs(
    candidates: Seq<CandidateView>,
    total_pages: nat,
    e: TextElement,
    page_height: i64,
)
    requires
        is_redacted(e, page_height, document_clusters(candidates, total_pages)),
    ensures
        ({
            let height = e.y_norm_of(page_height as int);
            let groups = zone_groups(candidates, two_decimals(height.0, height.1));
            exists|k: int|
                0 <= k < groups.len() && 100 * (#[trigger] groups[k]).pages.len()
                    >= FREQ_REDACT_THRESHOLD * total_pages && are_similar(
                    groups[k].text,
                    trimmed(e.text@),
                )
        }),
{
    let height = e.y_norm_of(page_height as int);
    let zone = two_decimals(height.0, height.1);
    let text = trimmed(e.text@);
    let clusters = document_clusters(candidates, total_pages);
    let i = choose|i: int| 0 <= i < clusters.len() && cluster_redacts(#[trigger] clusters[i], zone, text);
    lemma_listed_cluster(candidates, zones_of(candidates), total_pages, i);
    let groups = zone_groups(candidates, zone);
    let k = choose|k: int|
        0 <= k < groups.len() && clusters[i] == cluster_of(#[trigger] groups[k], zone, total_pages);
    assert(100 * groups[k].pages.len() >= FREQ_REDACT_THRESHOLD * total_pages);
}

/// Whether a run stands in the upper or lower 7 hundredths of its page; on a page without height
/// every run does.
pub open spec fn is_at_edge(e: TextElement, page_height: int) -> bool {
    page_height <= 0 || 100 * (page_height - e.y_min) < 7 * page_height || 100 * (page_height
        - e.y_min) > 93 * page_height
}

/// How far down its page a run stands, as a fraction; at the top on a page without height.
pub open spec fn depth_on_page(e: TextElement, page_height: int) -> (int, int) {
    if page_height <= 0 {
        (0, 1)
    } else {
        (page_height - e.y_min, page_height)
    }
}

/// The candidates of runs are those of the ones and those of the others; a single run is one
/// where it stands at an edge of its page, with the number of the page, the label of its height and
/// its text without white space at the ends; every other run is none.
pub proof fn law_candidates_of_runs(
    a: Seq<TextElement>,
    b: Seq<TextElement>,
    e: TextElement,
    page_num: usize,
    page_height: i64,
)
    ensures
        page_candidates(a + b, page_num, page_height) == page_candidates(a, page_num, page_height)
            + page_candidates(b, page_num, page_height),
        page_candidates(seq![e], page_num, page_height) == if is_at_edge(e, page_height as int) {
            let (num, den) = depth_on_page(e, page_height as int);
            seq![CandidateView { page_num, y_zone: two_decimals(num, den), text: trimmed(e.text@) }]
        } else {
            Seq::empty()
        },
        page_candidates(Seq::empty(), page_num, page_height) == Seq::<CandidateView>::empty(),
    decreases b.len(),
{
    if b.len() == 0 {
        assert(a + b =~= a);
        assert(page_candidates(a, page_num, page_height) + page_candidates(
            b,
            page_num,
            page_height,
        ) =~= page_candidates(a, page_num, page_height));
    } else {
        law_candidates_of_runs(a, b.drop_last(), e, page_num, page_height);
        assert((a + b).drop_last() =~= a + b.drop_last());
        assert(page_candidates(a + b, page_num, page_height) =~= page_candidates(
            a,
            page_num,
            page_height,
        ) + page_candidates(b, page_num, page_height));
    }
    assert(seq![e].drop_last() =~= Seq::<TextElement>::empty());
    assert(page_candidates(seq![e].drop_last(), page_num, page_height) =~= Seq::<
        CandidateView,
    >::empty());
    assert(Seq::<CandidateView>::empty().push(candidate_of(e, page_num, page_height)) =~= seq![
        candidate_of(e, page_num, page_height),
    ]);
}

/// The candidates of pages are those of the ones and those of the others, and those of a single
/// page are those of its runs.
pub proof fn law_candidates_of_pages(a: Seq<PageContent>, b: Seq<PageContent>, page: PageContent)
    ensures
        document_candidates(a + b) == document_candidates(a) + document_candidates(b),
        document_candidates(seq![page]) == page_candidates(
            page.elements@,
            page.page_num,
            page.page_height,
        ),
        document_candidates(Seq::empty()) == Seq::<CandidateView>::empty(),
    decreases b.len(),
{
    if b.len() == 0 {
        assert(a + b =~= a);
        assert(document_candidates(a) + document_candidates(b) =~= document_candidates(a));
    } else {
        law_candidates_of_pages(a, b.drop_last(), page);
        assert((a + b).drop_last() =~= a + b.drop_last());
        assert(document_candidates(a + b) =~= document_candidates(a) + document_candidates(b));
    }
    assert(seq![page].drop_last() =~= Seq::<PageContent>::empty());
    assert(document_candidates(seq![page].drop_last()) =~= Seq::<CandidateView>::empty());
    assert(document_candidates(seq![page]) =~= page_candidates(
        page.elements@,
        page.page_num,
        page.page_height,
    ));
}

/// How many runs of a page stand at an edge of it.
pub open spec fn edge_runs(page: PageContent) -> nat {
    total(
        page.elements@,
        |e: TextElement|
            if is_at_edge(e, page.page_height as int) {
                1nat
            } else {
                0
            },
    )
}

proof fn lemma_page_candidate_count(elements: Seq<TextElement>, page: PageContent)
    ensures
        page_candidates(elements, page.page_num, page.page_height).len() == total(
            elements,
            |e: TextElement|
                if is_at_edge(e, page.page_height as int) {
                    1nat
                } else {
                    0
                },
        ),
    decreases elements.len(),
{
    if elements.len() > 0 {
        lemma_page_candidate_count(elements.drop_last(), page);
    }
}

/// There are as many candidates as runs at the edges of the pages.
pub proof fn law_candidates_are_counted(pages: Seq<PageContent>)
    ensures
        document_candidates(pages).len() == total(pages, |page: PageContent| edge_runs(page)),
    decreases pages.len(),
{
    if pages.len() > 0 {
        law_candidates_are_counted(pages.drop_last());
        lemma_page_candidate_count(pages.last().elements@, pages.last());
    }
}

/// Every run at an edge of any page has its candidate among those of the document.
pub proof fn law_every_edge_run_is_a_candidate(pages: Seq<PageContent>, i: int, k: int)
    requires
        0 <= i < pages.len(),
        0 <= k < pages[i].elements@.len(),
        is_at_edge(pages[i].elements@[k], pages[i].page_height as int),
    ensures
        ({
            let page = pages[i];
            let e = page.elements@[k];
            let (num, den) = depth_on_page(e, page.page_height as int);
            document_candidates(pages).contains(
                CandidateView {
                    page_num: page.page_num,
                    y_zone: two_decimals(num, den),
                    text: trimmed(e.text@),
                },
            )
        }),
{
    let page = pages[i];
    let runs = page.elements@;
    let e = runs[k];
    let (n, h) = (page.page_num, page.page_height);
    let front = runs.take(k);
    let back = runs.skip(k + 1);
    assert(runs =~= front + (seq![e] + back));
    law_candidates_of_runs(front, seq![e] + back, e, n, h);
    law_candidates_of_runs(seq![e], back, e, n, h);
    let c = page_candidates(seq![e], n, h)[0];
    let at = page_candidates(front, n, h).len() as int;
    assert(page_candidates(runs, n, h)[at] == c);
    assert(pages =~= pages.take(i) + (seq![page] + pages.skip(i + 1)));
    law_candidates_of_pages(pages.take(i), seq![page] + pages.skip(i + 1), page);
    law_candidates_of_pages(seq![page], pages.skip(i + 1), page);
    assert(document_candidates(pages)[document_candidates(pages.take(i)).len() + at] == c);
}

/// The run `k` of page `i`.
pub open spec fn run_at(pages: Seq<PageContent>, place: (int, int)) -> TextElement {
    pages[place.0].elements@[place.1]
}

/// A text that stands at one height at an edge of pages of one size, on 30 or more pages in a
/// hundred, is left out wherever it stands there.
pub proof fn law_recurring_runs_are_redacted(
    pages: Seq<PageContent>,
    places: Seq<(int, int)>,
    e: TextElement,
    page_height: i64,
)
    requires
        is_at_edge(e, page_height as int),
        pages.len() > 0,
        100 * places.len() >= 30 * pages.len(),
        forall|j: int|
            0 <= j < places.len() ==> {
                let (i, k) = #[trigger] places[j];
                &&& 0 <= i < pages.len()
                &&& 0 <= k < pages[i].elements@.len()
                &&& pages[i].page_height == page_height
                &&& run_at(pages, (i, k)).y_min == e.y_min
                &&& run_at(pages, (i, k)).text@ == e.text@
            },
        forall|j: int, m: int|
            0 <= j < m < places.len() ==> pages[(#[trigger] places[j]).0].page_num != pages[(
            #[trigger] places[m]).0].page_num,
    ensures
        is_redacted(
            e,
            page_height,
            document_clusters(document_candidates(pages), pages.len()),
        ),
{
    let numbers = Seq::new(places.len(), |j: int| pages[places[j].0].page_num);
    let candidates = document_candidates(pages);
    assert forall|j: int| 0 <= j < numbers.len() implies candidates.contains(
        candidate_of(e, #[trigger] numbers[j], page_height),
    ) by {
        let (i, k) = places[j];
        law_every_edge_run_is_a_candidate(pages, i, k);
        assert(run_at(pages, (i, k)).y_min == e.y_min);
    }
    assert forall|j: int, m: int| 0 <= j < m < numbers.len() implies numbers[j] != numbers[m] by {
        assert(pages[places[j].0].page_num != pages[places[m].0].page_num);
    }
    assert(numbers.no_duplicates());
    law_recurring_text_is_redacted(candidates, pages.len(), numbers, e, page_height);
}

proof fn lemma_one_group(candidates: Seq<CandidateView>, zone: Seq<char>, first: int)
    requires
        0 <= first < candidates.len(),
        candidates[first].y_zone == zone,
        forall|i: int| 0 <= i < first ==> (#[trigger] candidates[i]).y_zone != zone,
        forall|i: int|
            0 <= i < candidates.len() && (#[trigger] candidates[i]).y_zone == zone ==> are_similar(
                candidates[first].text,
                candidates[i].text,
            ),
    ensures
        zone_groups(candidates, zone).len() == 1,
        zone_groups(candidates, zone)[0].text == candidates[first].text,
    decreases candidates.len(),
{
    let front = candidates.drop_last();
    let last = candidates.last();
    let at = candidates.len() - 1;
    assert(candidates[at] == last);
    if first < at {
        assert forall|i: int| 0 <= i < front.len() && (#[trigger] front[i]).y_zone == zone implies are_similar(
            front[first].text,
            front[i].text,
        ) by {
            assert(front[i] == candidates[i]);
        }
        assert forall|i: int| 0 <= i < first implies (#[trigger] front[i]).y_zone != zone by {
            assert(front[i] == candidates[i]);
        }
        lemma_one_group(front, zone, first);
    } else {
        lemma_no_group(front, zone);
    }
}

proof fn lemma_no_group(candidates: Seq<CandidateView>, zone: Seq<char>)
    requires
        forall|i: int| 0 <= i < candidates.len() ==> (#[trigger] candidates[i]).y_zone != zone,
    ensures
        zone_groups(candidates, zone).len() == 0,
    decreases candidates.len(),
{
    if candidates.len() > 0 {
        assert(candidates[candidates.len() - 1].y_zone != zone);
        assert forall|i: int| 0 <= i < candidates.drop_last().len() implies (
        #[trigger] candidates.drop_last()[i]).y_zone != zone by {
            assert(candidates.drop_last()[i] == candidates[i]);
        }
        lemma_no_group(candidates.drop_last(), zone);
    }
}

/// A text that changes a little from page to page, as a page number does, is left out too: where
/// the candidates at one height are all similar to the first of them and stand on 30 or more pages
/// in a hundred, every similar text at that height is left out.
pub proof fn law_changing_text_is_redacted(
    candidates: Seq<CandidateView>,
    total_pages: nat,
    first: int,
    places: Seq<int>,
    e: TextElement,
    page_height: i64,
)
    requires
        total_pages > 0,
        100 * places.len() >= 30 * total_pages,
        is_at_edge(e, page_height as int),
        0 <= first < candidates.len(),
        ({
            let (num, den) = depth_on_page(e, page_height as int);
            candidates[first].y_zone == two_decimals(num, den)
        }),
        are_similar(candidates[first].text, trimmed(e.text@)),
        forall|i: int|
            0 <= i < first ==> (#[trigger] candidates[i]).y_zone != candidates[first].y_zone,
        forall|i: int|
            0 <= i < candidates.len() && (#[trigger] candidates[i]).y_zone
                == candidates[first].y_zone ==> are_similar(
                candidates[first].text,
                candidates[i].text,
            ),
        forall|j: int|
            0 <= j < places.len() ==> 0 <= #[trigger] places[j] < candidates.len()
                && candidates[places[j]].y_zone == candidates[first].y_zone,
        forall|j: int, m: int|
            0 <= j < m < places.len() ==> candidates[#[trigger] places[j]].page_num
                != candidates[#[trigger] places[m]].page_num,
    ensures
        is_redacted(e, page_height, document_clusters(candidates, total_pages)),
{
    let zone = candidates[first].y_zone;
    let groups = zone_groups(candidates, zone);
    lemma_one_group(candidates, zone, first);
    let numbers = Seq::new(places.len(), |j: int| candidates[places[j]].page_num);
    let counted = groups[0].pages;
    law_group_pages(candidates, zone, 0);
    assert forall|j: int, m: int| 0 <= j < m < numbers.len() implies numbers[j] != numbers[m] by {
        assert(candidates[places[j]].page_num != candidates[places[m]].page_num);
    }
    assert(numbers.no_duplicates());
    numbers.unique_seq_to_set();
    counted.unique_seq_to_set();
    assert(numbers.to_set().subset_of(counted.to_set())) by {
        assert forall|p: usize| numbers.to_set().contains(p) implies counted.to_set().contains(p) by {
            let j = choose|j: int| 0 <= j < numbers.len() && numbers[j] == p;
            let c = places[j];
            law_every_candidate_is_counted(candidates, c);
            lemma_first_similar(groups, candidates[c].text);
            assert(first_similar(groups, candidates[c].text) == 0);
        }
    }
    vstd::set_lib::lemma_len_subset(numbers.to_set(), counted.to_set());
    lemma_zone_is_known(candidates, first);
    lemma_cluster_is_listed(candidates, zones_of(candidates), zone, 0, total_pages);
    let clusters = document_clusters(candidates, total_pages);
    let cluster = cluster_of(groups[0], zone, total_pages);
    let m = choose|m: int| 0 <= m < clusters.len() && clusters[m] == cluster;
    assert(cluster_redacts(clusters[m], zone, trimmed(e.text@)));
}

/// Two texts are similar where no more than 35 hundredths of the longer one need to change.
pub proof fn law_similar_texts(a: Seq<char>, b: Seq<char>)
    ensures
        are_similar(a, b) <==> 100 * edit_distance(a, b) <= 35 * (if a.len() >= b.len() {
            a.len()
        } else {
            b.len()
        }),
        similarity(a, b).1 > 0,
        a.len() + b.len() > 0 ==> similarity(a, b) == (if a.len() >= b.len() {
            (a.len() - edit_distance(a, b), a.len() as int)
        } else {
            (b.len() - edit_distance(a, b), b.len() as int)
        }),
        a.len() + b.len() == 0 ==> similarity(a, b).0 == similarity(a, b).1,
{
    lemma_edit_distance_bound(a, b);
}

/// A run is left out exactly where it stands at an edge of its page and one of the clusters to be
/// redacted has the label of its height and a similar text.
pub proof fn law_redaction_is_decided(e: TextElement, page_height: i64, clusters: Seq<ClusterView>)
    ensures
        is_redacted(e, page_height, clusters) <==> is_at_edge(e, page_height as int) && exists|i: int|
            0 <= i < clusters.len() && (#[trigger] clusters[i]).redact && are_similar(
                clusters[i].representative_text,
                trimmed(e.text@),
            ) && clusters[i].y_zone == two_decimals(
                depth_on_page(e, page_height as int).0,
                depth_on_page(e, page_height as int).1,
            ),
{
    let (num, den) = depth_on_page(e, page_height as int);
    let zone = two_decimals(num, den);
    let text = trimmed(e.text@);
    if is_redacted(e, page_height, clusters) {
        let i = choose|i: int|
            0 <= i < clusters.len() && cluster_redacts(#[trigger] clusters[i], zone, text);
        assert(clusters[i].redact);
    }
    if is_at_edge(e, page_height as int) && exists|i: int|
        0 <= i < clusters.len() && (#[trigger] clusters[i]).redact && are_similar(
            clusters[i].representative_text,
            text,
        ) && clusters[i].y_zone == zone {
        let i = choose|i: int|
            0 <= i < clusters.len() && (#[trigger] clusters[i]).redact && are_similar(
                clusters[i].representative_text,
                text,
            ) && clusters[i].y_zone == zone;
        assert(cluster_redacts(clusters[i], zone, text));
    }
}

/// A cluster belongs to a zone that some candidate stands in and has the text of one of its
/// candidates, counts distinct pages that have a similar text there, and is redacted where these
/// are 30 or more pages in a hundred.
pub proof fn law_clusters(candidates: Seq<CandidateView>, total_pages: nat, i: int) -> (pages: Seq<
    usize,
>)
    requires
        0 <= i < document_clusters(candidates, total_pages).len(),
        total_pages > 0,
    ensures
        ({
            let c = document_clusters(candidates, total_pages)[i];
            &&& c.pages_seen == pages.len()
            &&& pages.no_duplicates()
            &&& forall|p: usize| #[trigger]
                pages.contains(p) ==> exists|j: int|
                    0 <= j < candidates.len() && (#[trigger] candidates[j]).y_zone == c.y_zone
                        && candidates[j].page_num == p && are_similar(
                        c.representative_text,
                        candidates[j].text,
                    )
            &&& c.frequency == (pages.len() as int, total_pages as int)
            &&& c.redact <==> 100 * pages.len() >= 30 * total_pages
            &&& exists|j: int|
                0 <= j < candidates.len() && (#[trigger] candidates[j]).y_zone == c.y_zone
                    && candidates[j].text == c.representative_text
        }),
{
    lemma_listed_cluster(candidates, zones_of(candidates), total_pages, i);
    let c = document_clusters(candidates, total_pages)[i];
    let groups = zone_groups(candidates, c.y_zone);
    let k = choose|k: int|
        0 <= k < groups.len() && c == cluster_of(#[trigger] groups[k], c.y_zone, total_pages);
    law_group_pages(candidates, c.y_zone, k);
    lemma_group_text(candidates, c.y_zone, k);
    groups[k].pages
}

proof fn lemma_group_text(candidates: Seq<CandidateView>, zone: Seq<char>, k: int)
    requires
        0 <= k < zone_groups(candidates, zone).len(),
    ensures
        exists|j: int|
            0 <= j < candidates.len() && (#[trigger] candidates[j]).y_zone == zone
                && candidates[j].text == zone_groups(candidates, zone)[k].text,
    decreases candidates.len(),
{
    let front = candidates.drop_last();
    let before = zone_groups(front, zone);
    lemma_first_similar(before, candidates.last().text);
    if k < before.len() {
        lemma_group_text(front, zone, k);
        let j = choose|j: int|
            0 <= j < front.len() && (#[trigger] front[j]).y_zone == zone && front[j].text
                == before[k].text;
        assert(candidates[j] == front[j]);
    } else {
        assert(candidates[candidates.len() - 1] == candidates.last());
    }
}

/// The value of a text of decimal digits.
pub open spec fn digits_value(s: Seq<char>) -> nat
    decreases s.len(),
{
    if s.len() == 0 {
        0
    } else {
        10 * digits_value(s.drop_last()) + (s.last() as u32 - 48) as nat
    }
}

/// A whole number in decimal is written in digits, has the value of the number, and has no digit
/// too many.
pub proof fn law_decimal(n: nat)
    ensures
        digits_value(decimal(n)) == n,
        forall|i: int| 0 <= i < decimal(n).len() ==> '0' <= #[trigger] decimal(n)[i] && decimal(n)[i] <= '9',
        decimal(n).len() > 0,
        n > 0 ==> decimal(n)[0] != '0',
        n == 0 ==> decimal(n).len() == 1,
    decreases n,
{
    if n < 10 {
        assert(decimal(n).drop_last() =~= Seq::<char>::empty());
        assert(digits_value(decimal(n).drop_last()) == 0);
    } else {
        let front = decimal(n / 10);
        law_decimal(n / 10);
        assert(decimal(n).drop_last() =~= front);
        assert(decimal(n)[0] == front[0]);
    }
}

/// The label of a height is the nearest number of hundredths, with two digits behind the point and
/// a sign where the height is negative; of two that are as near, the even one.
pub proof fn law_zone_label(num: int, den: int) -> (hundredths: nat)
    requires
        den > 0,
    ensures
        ({
            let size = if num < 0 {
                -num
            } else {
                num
            };
            let off = 100 * size - hundredths * den;
            &&& -den <= 2 * off <= den
            &&& (2 * off == den || 2 * off == -den) ==> hundredths % 2 == 0
            &&& two_decimals(num, den) == (if num < 0 {
                seq!['-']
            } else {
                Seq::empty()
            }) + decimal(hundredths / 100) + seq![
                '.',
                (48 + hundredths / 10 % 10) as u8 as char,
                (48 + hundredths % 10) as u8 as char,
            ]
        }),
{
    let size = if num < 0 {
        -num
    } else {
        num
    };
    let all = (100 * size) as nat;
    let q = all / (den as nat);
    let rest = all % (den as nat);
    let hundredths = rounded(all, den as nat);
    vstd::arithmetic::div_mod::lemma_fundamental_div_mod(all as int, den);
    assert(q * den == den * q) by (nonlinear_arith);
    assert((q + 1) * den == q * den + den) by (nonlinear_arith);
    hundredths
}

/// Candidates and clusters are seen as they are, part by part.
pub proof fn law_candidates_are_seen(
    candidates: Seq<HeaderFooterCandidate>,
    clusters: Seq<RedactCluster>,
    i: int,
)
    ensures
        candidate_views(candidates).len() == candidates.len(),
        0 <= i < candidates.len() ==> {
            &&& candidate_views(candidates)[i].page_num == candidates[i].page_num
            &&& candidate_views(candidates)[i].y_zone == candidates[i].y_zone@
            &&& candidate_views(candidates)[i].text == candidates[i].text@
        },
        cluster_views(clusters).len() == clusters.len(),
        0 <= i < clusters.len() ==> {
            &&& cluster_views(clusters)[i].y_zone == clusters[i].y_zone@
            &&& cluster_views(clusters)[i].representative_text == clusters[i].representative_text@
            &&& cluster_views(clusters)[i].pages_seen == clusters[i].pages_seen
            &&& cluster_views(clusters)[i].frequency.0 == clusters[i].frequency.num
            &&& cluster_views(clusters)[i].frequency.1 == clusters[i].frequency.den
            &&& cluster_views(clusters)[i].redact == clusters[i].redact
        },
{
}

/// Whether a number lies between two others, whichever of them is the greater.
pub open spec fn lies_between(p: int, a: int, b: int) -> bool {
    a <= p <= b || b <= p <= a
}

/// Two boxes meet if and only if some point lies in both; which of its corners a box is given by
/// is no matter.
pub proof fn law_boxes_that_meet(e: SpatialElement, x0: int, y0: int, x1: int, y1: int)
    ensures
        boxes_meet(e, x0, y0, x1, y1) == exists|px: int, py: int|
            #![trigger lies_between(px, x0, x1), lies_between(py, y0, y1)]
            lies_between(px, x0, x1) && lies_between(py, y0, y1) && lies_between(
                px,
                e.bbox[0] as int,
                e.bbox[2] as int,
            ) && lies_between(py, e.bbox[1] as int, e.bbox[3] as int),
        boxes_meet(e, x0, y0, x1, y1) == boxes_meet(e, x1, y1, x0, y0),
        boxes_meet(e, x0, y0, x1, y1) == boxes_meet(e, x0, y1, x1, y0),
{
    if boxes_meet(e, x0, y0, x1, y1) {
        let px = high(low(e.bbox[0] as int, e.bbox[2] as int), low(x0, x1));
        let py = high(low(e.bbox[1] as int, e.bbox[3] as int), low(y0, y1));
        assert(lies_between(px, x0, x1) && lies_between(py, y0, y1));
    }
}

/// The index of a page holds each of its runs once, with its place and its bounding box.
pub proof fn law_runs_are_indexed(elements: Seq<&TextElement>, i: int)
    requires
        elements.len() <= usize::MAX,
    ensures
        spatial_elements(elements).len() == elements.len(),
        0 <= i < elements.len() ==> {
            let item = spatial_elements(elements)[i];
            &&& item.index == i
            &&& item.bbox[0] == elements[i].x_min
            &&& item.bbox[1] == elements[i].y_min
            &&& item.bbox[2] == elements[i].x_max
            &&& item.bbox[3] == elements[i].y_max
        },
{
}

/// The distance of two texts is the least number of characters to take out, put in or replace: none
/// exactly for the same text, all of them against nothing, and otherwise what is least of the three
/// ways to deal with the last characters.
pub proof fn law_edit_distance(a: Seq<char>, x: char, b: Seq<char>, y: char)
    ensures
        edit_distance(a, b) == 0 <==> a == b,
        edit_distance(a, Seq::empty()) == a.len(),
        edit_distance(Seq::empty(), b) == b.len(),
        ({
            let d = edit_distance(a.push(x), b.push(y));
            let out = edit_distance(a, b.push(y)) + 1;
            let put = edit_distance(a.push(x), b) + 1;
            let over = edit_distance(a, b) + if x == y {
                0int
            } else {
                1
            };
            &&& d <= out && d <= put && d <= over
            &&& d == out || d == put || d == over
        }),
        edit_distance(a, b) <= a.len() + b.len(),
    decreases a.len() + b.len(),
{
    assert(a.push(x).drop_last() =~= a);
    assert(b.push(y).drop_last() =~= b);
    lemma_distance_zero(a, b);
}

proof fn lemma_distance_zero(a: Seq<char>, b: Seq<char>)
    ensures
        edit_distance(a, b) == 0 <==> a == b,
        edit_distance(a, b) <= a.len() + b.len(),
    decreases a.len() + b.len(),
{
    if a.len() == 0 || b.len() == 0 {
        if edit_distance(a, b) == 0 {
            assert(a =~= b);
        }
    } else {
        lemma_distance_zero(a.drop_last(), b.drop_last());
        lemma_distance_zero(a.drop_last(), b);
        lemma_distance_zero(a, b.drop_last());
        if edit_distance(a, b) == 0 {
            assert(a.drop_last() == b.drop_last() && a.last() == b.last());
            assert(a =~= a.drop_last().push(a.last()));
            assert(b =~= b.drop_last().push(b.last()));
        }
    }
}

/// Candidates are grouped in order: the next candidate of a zone adds its page to the first group
/// with a similar text, once, and starts a group of its own where there is none; candidates of
/// other zones change nothing. `k` is the place of the first group with a similar text.
pub proof fn law_next_candidate(
    candidates: Seq<CandidateView>,
    c: CandidateView,
    zone: Seq<char>,
    k: int,
)
    requires
        0 <= k <= zone_groups(candidates, zone).len(),
        forall|j: int|
            0 <= j < k ==> !are_similar((#[trigger] zone_groups(candidates, zone)[j]).text, c.text),
        k < zone_groups(candidates, zone).len() ==> are_similar(
            zone_groups(candidates, zone)[k].text,
            c.text,
        ),
    ensures
        zone_groups(Seq::empty(), zone).len() == 0,
        ({
            let before = zone_groups(candidates, zone);
            let after = zone_groups(candidates.push(c), zone);
            &&& c.y_zone != zone ==> after == before
            &&& c.y_zone == zone && k == before.len() ==> {
                &&& after.len() == before.len() + 1
                &&& after.drop_last() == before
                &&& after.last().text == c.text
                &&& after.last().pages == seq![c.page_num]
            }
            &&& c.y_zone == zone && k < before.len() ==> {
                &&& after.len() == before.len()
                &&& forall|j: int| 0 <= j < before.len() && j != k ==> #[trigger] after[j] == before[j]
                &&& after[k].text == before[k].text
                &&& before[k].pages.contains(c.page_num) ==> after[k].pages == before[k].pages
                &&& !before[k].pages.contains(c.page_num) ==> after[k].pages == before[k].pages.push(
                    c.page_num,
                )
            }
        }),
{
    let before = zone_groups(candidates, zone);
    assert(candidates.push(c).drop_last() =~= candidates);
    lemma_first_similar(before, c.text);
    let first = first_similar(before, c.text) as int;
    if first < k {
        assert(are_similar(before[first].text, c.text));
    }
    assert(first == k);
    let after = zone_groups(candidates.push(c), zone);
    if c.y_zone == zone && k == before.len() {
        assert(after.drop_last() =~= before);
    }
}

/// Every zone is listed once, where its first candidate stands; each has a cluster for each of its
/// groups, in order, and clusters come zone by zone.
pub proof fn law_clusters_come_zone_by_zone(
    candidates: Seq<CandidateView>,
    c: CandidateView,
    a: Seq<Seq<char>>,
    b: Seq<Seq<char>>,
    zone: Seq<char>,
    total_pages: nat,
    i: int,
)
    ensures
        zones_of(Seq::empty()).len() == 0,
        zones_of(candidates.push(c)) == if zones_of(candidates).contains(c.y_zone) {
            zones_of(candidates)
        } else {
            zones_of(candidates).push(c.y_zone)
        },
        document_clusters(candidates, total_pages) == clusters_of_zones(
            candidates,
            zones_of(candidates),
            total_pages,
        ),
        clusters_of_zones(candidates, a + b, total_pages) == clusters_of_zones(
            candidates,
            a,
            total_pages,
        ) + clusters_of_zones(candidates, b, total_pages),
        clusters_of_zones(candidates, Seq::empty(), total_pages).len() == 0,
        clusters_of_zones(candidates, seq![zone], total_pages).len() == zone_groups(
            candidates,
            zone,
        ).len(),
        0 <= i < zone_groups(candidates, zone).len() ==> {
            let group = zone_groups(candidates, zone)[i];
            let cluster = clusters_of_zones(candidates, seq![zone], total_pages)[i];
            &&& cluster.y_zone == zone
            &&& cluster.representative_text == group.text
            &&& cluster.pages_seen == group.pages.len()
            &&& total_pages > 0 ==> cluster.frequency == (
                group.pages.len() as int,
                total_pages as int,
            ) && cluster.redact == (100 * group.pages.len() >= 30 * total_pages)
            &&& total_pages == 0 ==> cluster.frequency == (0int, 1int) && !cluster.redact
        },
    decreases b.len(),
{
    assert(candidates.push(c).drop_last() =~= candidates);
    let one = seq![zone];
    assert(one.drop_last() =~= Seq::<Seq<char>>::empty());
    assert(clusters_of_zones(candidates, one.drop_last(), total_pages) =~= Seq::<
        ClusterView,
    >::empty());
    assert(clusters_of_zones(candidates, one, total_pages) =~= clusters_of_groups(
        zone_groups(candidates, zone),
        zone,
        total_pages,
    ));
    if b.len() == 0 {
        assert(a + b =~= a);
        assert(clusters_of_zones(candidates, a, total_pages) + clusters_of_zones(
            candidates,
            b,
            total_pages,
        ) =~= clusters_of_zones(candidates, a, total_pages));
    } else {
        law_clusters_come_zone_by_zone(candidates, c, a, b.drop_last(), zone, total_pages, i);
        assert((a + b).drop_last() =~= a + b.drop_last());
        assert((a + b).last() == b.last());
        assert(clusters_of_zones(candidates, a + b, total_pages) =~= clusters_of_zones(
            candidates,
            a,
            total_pages,
        ) + clusters_of_zones(candidates, b, total_pages));
    }
}

} // verus!
