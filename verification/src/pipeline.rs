//! From the runs and lines of the pages of a document to its chunks.
use crate::chunker::{
    chunk_document, chunk_views, chunk_weight, chunks_of, header_nodes, law_chunks_keep_content,
    ChunkView,
};
use crate::column_layout::column_views;
use crate::fidelity::{
    alnum, law_quality_verdict, law_rendered_page_is_kept, md_grid, page_report, pdf_grid,
    retention, score_page, text_fits, text_length, ReportView,
};
use crate::json::JsonView;
use crate::markdown::{document_nodes, law_nodes_keep_content, node_weight, page_views, page_weight};
use crate::markdown_render::{
    body_font_size, descending, distinct_sizes, estimate_body_font_size, is_content, larger_sizes,
    law_rendering_keeps_content, page_markdown, rank_larger_sizes, render_page_markdown,
    run_weight,
};
use crate::order::{concatenated, lemma_total_add, total};
use crate::text::count_where;
use crate::spatial_filter::{
    candidate_views, cluster_views, document_candidates, document_clusters, in_edge_zone,
    is_redacted, pass1_profile_candidates, pass2_build_redact_clusters, should_redact, ClusterView,
};
use crate::tokens::TokenCounter;
use crate::types::{
    ChunkPayload, HeaderFooterCandidate, IngestionQuality, PageContent, PageFidelityReport,
    RedactCluster, TextElement,
};
use vstd::prelude::*;

verus! {

/// What came of a document.
#[derive(Debug)]
pub struct Ingestion {
    /// How many texts stand in the header and footer zones.
    pub candidates: usize,
    /// How many groups of them recur and are left out.
    pub redact_clusters: usize,
    /// The report on each page, in order.
    pub reports: Vec<PageFidelityReport>,
    pub pages_passed: usize,
    pub pages_warned: usize,
    pub pages_quarantined: usize,
    pub chunks: Vec<ChunkPayload>,
}

/// A page holds more text than can be counted.
#[derive(Debug, Clone, Copy, PartialEq, Eq, Structural)]
pub struct TooMuchText;

/// The clusters of recurring headers and footers of a document.
pub open spec fn clusters_in(pages: Seq<PageContent>) -> Seq<ClusterView> {
    document_clusters(document_candidates(pages), pages.len())
}

/// How many clusters are to be redacted.
pub open spec fn redacted_count(clusters: Seq<ClusterView>) -> nat
    decreases clusters.len(),
{
    if clusters.len() == 0 {
        0
    } else {
        redacted_count(clusters.drop_last()) + if clusters.last().redact {
            1nat
        } else {
            0
        }
    }
}

/// The runs of a page that are not left out, in order.
pub open spec fn kept_runs<'a>(
    elements: Seq<TextElement>,
    page_height: i64,
    clusters: Seq<ClusterView>,
) -> Seq<&'a TextElement>
    decreases elements.len(),
{
    if elements.len() == 0 {
        Seq::empty()
    } else {
        let front = kept_runs(elements.drop_last(), page_height, clusters);
        if is_redacted(elements.last(), page_height, clusters) {
            front
        } else {
            front.push(&elements.last())
        }
    }
}

/// The runs of each page that are not left out.
pub open spec fn kept_per_page<'a>(
    pages: Seq<PageContent>,
    clusters: Seq<ClusterView>,
) -> Seq<Seq<&'a TextElement>> {
    Seq::new(
        pages.len(),
        |i: int| kept_runs(pages[i].elements@, pages[i].page_height, clusters),
    )
}

/// The runs of each page of a document that are not recurring headers or footers.
pub open spec fn document_runs<'a>(pages: Seq<PageContent>) -> Seq<Seq<&'a TextElement>> {
    kept_per_page(pages, clusters_in(pages))
}

/// The size of the body text of a document.
pub open spec fn document_body_size(pages: Seq<PageContent>) -> int {
    body_font_size(concatenated(document_runs(pages)))
}

/// The heading sizes of a document, from the largest downwards.
pub open spec fn document_heading_sizes(pages: Seq<PageContent>) -> Seq<i64> {
    distinct_sizes(
        descending(
            larger_sizes(concatenated(document_runs(pages)), document_body_size(pages)),
        ),
    )
}

/// The Markdown of page `i` of a document.
pub open spec fn markdown_of(pages: Seq<PageContent>, i: int) -> Seq<char> {
    page_markdown(
        document_runs(pages)[i],
        document_body_size(pages),
        document_heading_sizes(pages),
    )
}

/// The report on page `i` of a document.
pub open spec fn report_on(pages: Seq<PageContent>, i: int) -> ReportView {
    page_report(
        pages[i].page_num,
        document_runs(pages)[i],
        markdown_of(pages, i),
        pages[i].vector_lines@,
    )
}

pub open spec fn report_views(reports: Seq<PageFidelityReport>) -> Seq<ReportView> {
    Seq::new(reports.len(), |i: int| reports[i]@)
}

/// The reports on the pages of a document.
pub open spec fn document_reports(pages: Seq<PageContent>) -> Seq<ReportView> {
    Seq::new(pages.len(), |i: int| report_on(pages, i))
}

/// How many pages got the verdict `quality`.
pub open spec fn verdicts(reports: Seq<ReportView>, quality: IngestionQuality) -> nat
    decreases reports.len(),
{
    if reports.len() == 0 {
        0
    } else {
        verdicts(reports.drop_last(), quality) + if reports.last().quality == quality {
            1nat
        } else {
            0
        }
    }
}

/// The numbers and the Markdown of those of the first `n` pages that are not quarantined.
pub open spec fn surviving(pages: Seq<PageContent>, n: nat) -> Seq<(usize, Seq<char>)>
    decreases n,
{
    if n == 0 {
        Seq::empty()
    } else {
        let front = surviving(pages, (n - 1) as nat);
        if report_on(pages, n - 1).quality == IngestionQuality::Quarantined {
            front
        } else {
            front.push((pages[n - 1].page_num, markdown_of(pages, n - 1)))
        }
    }
}

/// The chunks of a document: those of its pages that are not quarantined.
pub open spec fn document_chunks(
    pages: Seq<PageContent>,
    document_id: Seq<char>,
    definition: JsonView,
) -> Seq<ChunkView> {
    chunks_of(document_nodes(surviving(pages, pages.len())), definition, document_id)
}

/// Whether the text of every page can be counted.
pub open spec fn all_text_fits(pages: Seq<PageContent>) -> bool {
    forall|i: int|
        0 <= i < pages.len() ==> text_length(#[trigger] document_runs(pages)[i]) <= usize::MAX
}

fn count_redacted(clusters: &[RedactCluster]) -> (r: usize)
    ensures
        r == redacted_count(cluster_views(clusters@)),
{
    let ghost all = cluster_views(clusters@);
    let mut n: usize = 0;
    let mut i: usize = 0;
    assert(all.take(0) =~= Seq::<ClusterView>::empty());
    while i < clusters.len()
        invariant
            i <= clusters@.len(),
            all == cluster_views(clusters@),
            n == redacted_count(all.take(i as int)),
            n <= i,
        decreases clusters@.len() - i,
    {
        assert(all.take(i + 1).drop_last() =~= all.take(i as int));
        assert(all.take(i + 1).last() == clusters@[i as int]@);
        if clusters[i].redact {
            n = n + 1;
        }
        i = i + 1;
    }
    assert(all.take(i as int) =~= all);
    n
}

/// The runs of a page that are not recurring headers or footers.
pub fn keep_runs<'a>(page: &'a PageContent, clusters: &[RedactCluster]) -> (r: Vec<&'a TextElement>)
    ensures
        r@ == kept_runs(page.elements@, page.page_height, cluster_views(clusters@)),
{
    let ghost runs = page.elements@;
    let ghost views = cluster_views(clusters@);
    let mut out: Vec<&'a TextElement> = Vec::new();
    let mut i: usize = 0;
    assert(runs.take(0) =~= Seq::<TextElement>::empty());
    while i < page.elements.len()
        invariant
            i <= page.elements@.len(),
            runs == page.elements@,
            views == cluster_views(clusters@),
            out@ == kept_runs(runs.take(i as int), page.page_height, views),
        decreases page.elements@.len() - i,
    {
        assert(runs.take(i + 1).drop_last() =~= runs.take(i as int));
        assert(runs.take(i + 1).last() == runs[i as int]);
        let e: &'a TextElement = &page.elements[i];
        if !should_redact(e, page.page_height, clusters) {
            out.push(e);
        }
        i = i + 1;
    }
    assert(runs.take(i as int) =~= runs);
    out
}

fn keep_all<'a>(pages: &'a [PageContent], clusters: &[RedactCluster]) -> (r: Vec<Vec<&'a TextElement>>)
    ensures
        column_views(r@) == kept_per_page(pages@, cluster_views(clusters@)),
{
    let mut out: Vec<Vec<&'a TextElement>> = Vec::new();
    let ghost all = kept_per_page(pages@, cluster_views(clusters@));
    let mut i: usize = 0;
    while i < pages.len()
        invariant
            i <= pages@.len(),
            all == kept_per_page(pages@, cluster_views(clusters@)),
            column_views(out@) == all.take(i as int),
        decreases pages@.len() - i,
    {
        let ghost before = column_views(out@);
        let kept: Vec<&'a TextElement> = keep_runs(&pages[i], clusters);
        let ghost view = kept@;
        assert(view == all[i as int]);
        out.push(kept);
        assert(column_views(out@) =~= before.push(view));
        assert(all.take(i + 1) =~= all.take(i as int).push(all[i as int]));
        i = i + 1;
    }
    assert(all.take(i as int) =~= all);
    out
}

fn join_runs<'a>(parts: &[Vec<&'a TextElement>]) -> (r: Vec<&'a TextElement>)
    ensures
        r@ == concatenated(column_views(parts@)),
{
    let ghost all = column_views(parts@);
    let mut out: Vec<&'a TextElement> = Vec::new();
    let mut i: usize = 0;
    assert(all.take(0) =~= Seq::<Seq<&TextElement>>::empty());
    while i < parts.len()
        invariant
            i <= parts@.len(),
            all == column_views(parts@),
            out@ == concatenated(all.take(i as int)),
        decreases parts@.len() - i,
    {
        let ghost before = out@;
        let mut j: usize = 0;
        while j < parts[i].len()
            invariant
                i < parts@.len(),
                j <= parts@[i as int]@.len(),
                out@ == before + parts@[i as int]@.take(j as int),
            decreases parts@[i as int]@.len() - j,
        {
            out.push(parts[i][j]);
            assert(out@ =~= before + parts@[i as int]@.take(j + 1));
            j = j + 1;
        }
        assert(parts@[i as int]@.take(j as int) =~= parts@[i as int]@);
        assert(all.take(i + 1).drop_last() =~= all.take(i as int));
        assert(all.take(i + 1).last() == parts@[i as int]@);
        i = i + 1;
    }
    assert(all.take(i as int) =~= all);
    out
}

/// Takes a document from the runs and lines of its pages to its chunks: recurring headers and
/// footers are left out, every page is rendered and scored, and the pages that are not
/// quarantined are cut into chunks.
#[verifier::spinoff_prover]
#[verifier::rlimit(60)]
pub fn ingest(pages: &[PageContent], document_id: &str, counter: &TokenCounter) -> (r: Result<
    Ingestion,
    TooMuchText,
>)
    ensures
        r is Ok == all_text_fits(pages@),
        r matches Ok(result) ==> {
            &&& result.candidates == document_candidates(pages@).len()
            &&& result.redact_clusters == redacted_count(clusters_in(pages@))
            &&& report_views(result.reports@) == document_reports(pages@)
            &&& result.pages_passed == verdicts(document_reports(pages@), IngestionQuality::Pass)
            &&& result.pages_warned == verdicts(
                document_reports(pages@),
                IngestionQuality::Warning,
            )
            &&& result.pages_quarantined == verdicts(
                document_reports(pages@),
                IngestionQuality::Quarantined,
            )
            &&& chunk_views(result.chunks@) == document_chunks(
                pages@,
                document_id@,
                counter.definition(),
            )
        },
{
    let found: Vec<HeaderFooterCandidate> = pass1_profile_candidates(pages);
    let candidates: usize = found.len();
    assert(candidate_views(found@).len() == candidates);
    let clusters: Vec<RedactCluster> = pass2_build_redact_clusters(&found, pages.len());
    let redact_clusters: usize = count_redacted(&clusters);
    let kept: Vec<Vec<&TextElement>> = keep_all(pages, &clusters);
    let ghost runs = document_runs(pages@);
    assert(column_views(kept@) == runs);
    assert(kept@.len() == runs.len()) by {
        assert(column_views(kept@).len() == kept@.len());
    }
    let all_kept: Vec<&TextElement> = join_runs(&kept);
    let body: i64 = estimate_body_font_size(&all_kept);
    let sizes: Vec<i64> = rank_larger_sizes(&all_kept, body);
    let ghost all = document_reports(pages@);
    let mut reports: Vec<PageFidelityReport> = Vec::new();
    let mut survivors: Vec<(usize, String)> = Vec::new();
    let mut passed: usize = 0;
    let mut warned: usize = 0;
    let mut quarantined: usize = 0;
    let mut i: usize = 0;
    assert(all.take(0) =~= Seq::<ReportView>::empty());
    assert(page_views(survivors@) =~= Seq::<(usize, Seq<char>)>::empty());
    while i < pages.len()
        invariant
            i <= pages@.len(),
            runs == document_runs(pages@),
            column_views(kept@) == runs,
            kept@.len() == pages@.len(),
            body == document_body_size(pages@),
            sizes@ == document_heading_sizes(pages@),
            all == document_reports(pages@),
            report_views(reports@) == all.take(i as int),
            page_views(survivors@) == surviving(pages@, i as nat),
            passed == verdicts(all.take(i as int), IngestionQuality::Pass),
            warned == verdicts(all.take(i as int), IngestionQuality::Warning),
            quarantined == verdicts(all.take(i as int), IngestionQuality::Quarantined),
            passed + warned + quarantined == i,
            forall|j: int| 0 <= j < i ==> text_length(#[trigger] runs[j]) <= usize::MAX,
        decreases pages@.len() - i,
    {
        let page: &PageContent = &pages[i];
        let page_runs: &Vec<&TextElement> = &kept[i];
        assert(page_runs@ == runs[i as int]);
        if !text_fits(page_runs) {
            return Err(TooMuchText);
        }
        let markdown: String = render_page_markdown(page_runs, body, &sizes);
        let report: PageFidelityReport = score_page(
            page.page_num,
            page_runs,
            markdown.as_str(),
            &page.vector_lines,
        );
        proof {
            assert(report@ == all[i as int]);
            assert(all.take(i + 1).drop_last() =~= all.take(i as int));
            assert(all.take(i + 1).last() == all[i as int]);
        }
        match report.quality {
            IngestionQuality::Quarantined => {
                quarantined = quarantined + 1;
            },
            IngestionQuality::Warning => {
                warned = warned + 1;
                let ghost before = page_views(survivors@);
                let ghost entry = (page.page_num, markdown@);
                survivors.push((page.page_num, markdown));
                assert(page_views(survivors@) =~= before.push(entry));
            },
            IngestionQuality::Pass => {
                passed = passed + 1;
                let ghost before = page_views(survivors@);
                let ghost entry = (page.page_num, markdown@);
                survivors.push((page.page_num, markdown));
                assert(page_views(survivors@) =~= before.push(entry));
            },
        }
        let ghost before = report_views(reports@);
        let ghost view = report@;
        reports.push(report);
        assert(report_views(reports@) =~= before.push(view));
        assert(all.take(i + 1) =~= all.take(i as int).push(all[i as int]));
        i = i + 1;
    }
    assert(all.take(i as int) =~= all);
    let chunks: Vec<ChunkPayload> = chunk_document(&survivors, document_id, counter);
    Ok(
        Ingestion {
            candidates,
            redact_clusters,
            reports,
            pages_passed: passed,
            pages_warned: warned,
            pages_quarantined: quarantined,
            chunks,
        },
    )
}

proof fn lemma_verdicts(reports: Seq<ReportView>)
    ensures
        verdicts(reports, IngestionQuality::Pass) + verdicts(reports, IngestionQuality::Warning)
            + verdicts(reports, IngestionQuality::Quarantined) == reports.len(),
    decreases reports.len(),
{
    if reports.len() > 0 {
        lemma_verdicts(reports.drop_last());
    }
}

/// Every page gets one verdict.
pub proof fn law_every_page_is_judged(pages: Seq<PageContent>)
    ensures
        verdicts(document_reports(pages), IngestionQuality::Pass) + verdicts(
            document_reports(pages),
            IngestionQuality::Warning,
        ) + verdicts(document_reports(pages), IngestionQuality::Quarantined) == pages.len(),
{
    lemma_verdicts(document_reports(pages));
}

/// A quarantined page goes into no chunk: without it among the surviving pages, as many survive
/// as passed or were let through with a warning, and each survivor is such a page.
pub proof fn law_quarantined_pages_are_left_out(pages: Seq<PageContent>, n: nat)
    requires
        n <= pages.len(),
    ensures
        forall|k: int|
            0 <= k < surviving(pages, n).len() ==> exists|i: int|
                0 <= i < n && (#[trigger] report_on(pages, i)).quality
                    != IngestionQuality::Quarantined && #[trigger] surviving(pages, n)[k] == (
                    pages[i].page_num,
                    markdown_of(pages, i),
                ),
        surviving(pages, n).len() + verdicts(
            document_reports(pages).take(n as int),
            IngestionQuality::Quarantined,
        ) == n,
    decreases n,
{
    let reports = document_reports(pages);
    if n > 0 {
        let m = (n - 1) as nat;
        law_quarantined_pages_are_left_out(pages, m);
        let front = surviving(pages, m);
        let all = surviving(pages, n);
        assert(reports.take(n as int).drop_last() =~= reports.take(m as int));
        assert(reports.take(n as int).last() == report_on(pages, m as int));
        assert forall|k: int| 0 <= k < all.len() implies exists|i: int|
            0 <= i < n && (#[trigger] report_on(pages, i)).quality != IngestionQuality::Quarantined
                && #[trigger] all[k] == (pages[i].page_num, markdown_of(pages, i)) by {
            if k < front.len() {
                assert(all[k] == front[k]);
                let i = choose|i: int|
                    0 <= i < m && (#[trigger] report_on(pages, i)).quality
                        != IngestionQuality::Quarantined && front[k] == (
                        pages[i].page_num,
                        markdown_of(pages, i),
                    );
                assert(report_on(pages, i).quality != IngestionQuality::Quarantined);
            } else {
                assert(report_on(pages, m as int).quality != IngestionQuality::Quarantined);
            }
        }
    } else {
        assert(reports.take(0) =~= Seq::<ReportView>::empty());
    }
}

/// The runs that were kept of those of the first `n` pages that are not quarantined.
pub open spec fn surviving_runs<'a>(pages: Seq<PageContent>, n: nat) -> Seq<&'a TextElement>
    decreases n,
{
    if n == 0 {
        Seq::empty()
    } else {
        let front = surviving_runs(pages, (n - 1) as nat);
        if report_on(pages, n - 1).quality == IngestionQuality::Quarantined {
            front
        } else {
            front + document_runs(pages)[n - 1]
        }
    }
}

proof fn lemma_surviving_content(pages: Seq<PageContent>, n: nat, p: spec_fn(char) -> bool)
    requires
        n <= pages.len(),
        is_content(p),
    ensures
        total(surviving(pages, n), page_weight(p)) == total(surviving_runs(pages, n), run_weight(p)),
    decreases n,
{
    if n > 0 {
        let m = (n - 1) as nat;
        lemma_surviving_content(pages, m, p);
        if report_on(pages, n - 1).quality != IngestionQuality::Quarantined {
            let front = surviving(pages, m);
            let entry = (pages[n - 1].page_num, markdown_of(pages, n - 1));
            assert(front.push(entry).drop_last() =~= front);
            law_rendering_keeps_content(
                document_runs(pages)[n - 1],
                document_body_size(pages),
                document_heading_sizes(pages),
                p,
            );
            lemma_total_add(surviving_runs(pages, m), document_runs(pages)[n - 1], run_weight(p));
        }
    }
}

/// What goes into chunks and headers is what was kept of the pages that are not quarantined: as
/// many characters with a property come out as went in, for any property that neither white
/// space nor the marks of Markdown have.
pub proof fn law_content_reaches_the_nodes(pages: Seq<PageContent>, p: spec_fn(char) -> bool)
    requires
        is_content(p),
    ensures
        total(document_nodes(surviving(pages, pages.len())), node_weight(p)) == total(
            surviving_runs(pages, pages.len()),
            run_weight(p),
        ),
{
    lemma_surviving_content(pages, pages.len(), p);
    law_nodes_keep_content(surviving(pages, pages.len()), p);
}

/// Of what was kept of the pages that are not quarantined nothing is lost on the way to chunks
/// and headers, and nothing is doubled: as many characters with a property come out as went in,
/// for any property that neither white space nor the marks of Markdown have.
pub proof fn law_content_reaches_the_chunks(
    pages: Seq<PageContent>,
    document_id: Seq<char>,
    definition: JsonView,
    p: spec_fn(char) -> bool,
)
    requires
        is_content(p),
    ensures
        total(document_chunks(pages, document_id, definition), chunk_weight(p)) + total(
            header_nodes(document_nodes(surviving(pages, pages.len()))),
            node_weight(p),
        ) == total(surviving_runs(pages, pages.len()), run_weight(p)),
{
    let nodes = document_nodes(surviving(pages, pages.len()));
    law_content_reaches_the_nodes(pages, p);
    law_chunks_keep_content(nodes, definition, document_id, p);
}

/// The pages of a document, rendered by this library, are judged by their tables alone: a page
/// passes where its table survived or it has none, and is quarantined otherwise.
pub proof fn law_pages_are_judged_by_their_tables(pages: Seq<PageContent>, i: int)
    requires
        0 <= i < pages.len(),
    ensures
        ({
            let pdf = pdf_grid(document_runs(pages)[i], pages[i].vector_lines@);
            let md = md_grid(markdown_of(pages, i));
            report_on(pages, i).quality == if pdf is None || pdf == md {
                IngestionQuality::Pass
            } else {
                IngestionQuality::Quarantined
            }
        }),
{
    let runs = document_runs(pages)[i];
    law_rendered_page_is_kept(runs, document_body_size(pages), document_heading_sizes(pages));
    let kept = retention(
        total(runs, run_weight(alnum())),
        count_where(markdown_of(pages, i), alnum()),
    );
    law_quality_verdict(
        pages[i].page_num,
        kept,
        pdf_grid(runs, pages[i].vector_lines@),
        md_grid(markdown_of(pages, i)),
    );
}

/// A run that is left out does not count: the page is rendered and scored as if it were not
/// there, so that leaving it out is never taken for a loss.
pub proof fn law_left_out_runs_do_not_count(
    before: Seq<TextElement>,
    e: TextElement,
    after: Seq<TextElement>,
    page_height: i64,
    clusters: Seq<ClusterView>,
)
    requires
        is_redacted(e, page_height, clusters),
    ensures
        kept_runs(before.push(e) + after, page_height, clusters) == kept_runs(
            before + after,
            page_height,
            clusters,
        ),
    decreases after.len(),
{
    if after.len() == 0 {
        assert(before.push(e) + after =~= before.push(e));
        assert(before + after =~= before);
        assert(before.push(e).drop_last() =~= before);
    } else {
        law_left_out_runs_do_not_count(before, e, after.drop_last(), page_height, clusters);
        assert((before.push(e) + after).drop_last() =~= before.push(e) + after.drop_last());
        assert((before + after).drop_last() =~= before + after.drop_last());
    }
}

/// A run between the header and footer zones of its page is kept, however often it recurs.
pub proof fn law_body_runs_are_kept(pages: Seq<PageContent>, i: int, k: int)
    requires
        0 <= i < pages.len(),
        0 <= k < pages[i].elements@.len(),
        !in_edge_zone(
            pages[i].elements@[k].y_norm_of(pages[i].page_height as int),
        ),
    ensures
        document_runs(pages)[i].contains(&pages[i].elements@[k]),
{
    lemma_kept(pages[i].elements@, pages[i].page_height, clusters_in(pages), k);
}

proof fn lemma_kept(elements: Seq<TextElement>, page_height: i64, clusters: Seq<ClusterView>, k: int)
    requires
        0 <= k < elements.len(),
        !is_redacted(elements[k], page_height, clusters),
    ensures
        kept_runs(elements, page_height, clusters).contains(&elements[k]),
    decreases elements.len(),
{
    let front = kept_runs(elements.drop_last(), page_height, clusters);
    let all = kept_runs(elements, page_height, clusters);
    if k == elements.len() - 1 {
        assert(all[front.len() as int] == &elements[k]);
    } else {
        lemma_kept(elements.drop_last(), page_height, clusters, k);
        let j = choose|j: int| 0 <= j < front.len() && front[j] == &elements[k];
        assert(all[j] == &elements[k]);
    }
}

/// The runs kept of a page are its runs without those to be redacted, in order: each run is kept
/// or left out whatever stands before and behind it, and a kept run is the run itself.
pub proof fn law_kept_runs(
    first: Seq<TextElement>,
    e: TextElement,
    second: Seq<TextElement>,
    page_height: i64,
    clusters: Seq<ClusterView>,
)
    ensures
        kept_runs(Seq::empty(), page_height, clusters).len() == 0,
        kept_runs(seq![e], page_height, clusters) == if is_redacted(e, page_height, clusters) {
            Seq::<&TextElement>::empty()
        } else {
            seq![&e]
        },
        kept_runs(first + second, page_height, clusters) == kept_runs(
            first,
            page_height,
            clusters,
        ) + kept_runs(second, page_height, clusters),
    decreases second.len(),
{
    assert(seq![e].drop_last() =~= Seq::<TextElement>::empty());
    assert(kept_runs(seq![e].drop_last(), page_height, clusters) =~= Seq::empty());
    if second.len() == 0 {
        assert(first + second =~= first);
    } else {
        law_kept_runs(first, e, second.drop_last(), page_height, clusters);
        assert((first + second).drop_last() =~= first + second.drop_last());
        assert((first + second).last() == second.last());
    }
}

/// No run is kept twice or made up, and one is left out only for a cluster that recurs: with no
/// such cluster all runs of a page are kept as they stand.
pub proof fn law_without_recurring_text_all_is_kept(
    elements: Seq<TextElement>,
    page_height: i64,
    clusters: Seq<ClusterView>,
)
    requires
        forall|i: int| 0 <= i < clusters.len() ==> !(#[trigger] clusters[i]).redact,
    ensures
        kept_runs(elements, page_height, clusters) == Seq::new(
            elements.len(),
            |i: int| &elements[i],
        ),
    decreases elements.len(),
{
    if elements.len() > 0 {
        let front = elements.drop_last();
        law_without_recurring_text_all_is_kept(front, page_height, clusters);
        assert(!is_redacted(elements.last(), page_height, clusters));
        assert(kept_runs(elements, page_height, clusters) =~= Seq::new(
            elements.len(),
            |i: int| &elements[i],
        ));
    }
}

/// Clusters to be redacted, and verdicts of one kind, are counted one by one.
pub proof fn law_counts_add_up(
    clusters: Seq<ClusterView>,
    more_clusters: Seq<ClusterView>,
    cluster: ClusterView,
    reports: Seq<ReportView>,
    more_reports: Seq<ReportView>,
    report: ReportView,
    quality: IngestionQuality,
)
    ensures
        redacted_count(Seq::empty()) == 0,
        redacted_count(seq![cluster]) == (if cluster.redact {
            1int
        } else {
            0
        }),
        redacted_count(clusters + more_clusters) == redacted_count(clusters) + redacted_count(
            more_clusters,
        ),
        verdicts(Seq::empty(), quality) == 0,
        verdicts(seq![report], quality) == (if report.quality == quality {
            1int
        } else {
            0
        }),
        verdicts(reports + more_reports, quality) == verdicts(reports, quality) + verdicts(
            more_reports,
            quality,
        ),
    decreases more_clusters.len() + more_reports.len(),
{
    assert(seq![cluster].drop_last() =~= Seq::<ClusterView>::empty());
    assert(redacted_count(seq![cluster].drop_last()) == 0);
    assert(seq![report].drop_last() =~= Seq::<ReportView>::empty());
    assert(verdicts(seq![report].drop_last(), quality) == 0);
    if more_clusters.len() > 0 {
        law_counts_add_up(
            clusters,
            more_clusters.drop_last(),
            cluster,
            reports,
            more_reports,
            report,
            quality,
        );
        assert((clusters + more_clusters).drop_last() =~= clusters + more_clusters.drop_last());
    } else {
        assert(clusters + more_clusters =~= clusters);
        if more_reports.len() > 0 {
            law_counts_add_up(
                clusters,
                more_clusters,
                cluster,
                reports,
                more_reports.drop_last(),
                report,
                quality,
            );
            assert((reports + more_reports).drop_last() =~= reports + more_reports.drop_last());
        } else {
            assert(reports + more_reports =~= reports);
        }
    }
}

/// How many of the first `n` pages are not quarantined.
pub open spec fn pages_let_through(pages: Seq<PageContent>, n: nat) -> nat {
    (n - verdicts(document_reports(pages).take(n as int), IngestionQuality::Quarantined)) as nat
}

/// Every page that is not quarantined is cut into chunks, in the order of the pages: its number
/// and its Markdown stand behind those of the pages before it that were let through.
pub proof fn law_pages_let_through_survive(pages: Seq<PageContent>, n: nat, i: int)
    requires
        0 <= i < n <= pages.len(),
        report_on(pages, i).quality != IngestionQuality::Quarantined,
    ensures
        pages_let_through(pages, i as nat) < surviving(pages, n).len(),
        surviving(pages, n)[pages_let_through(pages, i as nat) as int] == (
            pages[i].page_num,
            markdown_of(pages, i),
        ),
    decreases n,
{
    let m = (n - 1) as nat;
    lemma_let_through(pages, m);
    if i < m {
        law_pages_let_through_survive(pages, m, i);
        let k = pages_let_through(pages, i as nat) as int;
        let front = surviving(pages, m);
        assert(front.push((pages[m as int].page_num, markdown_of(pages, m as int)))[k] == front[k]);
    } else {
        assert(i == m);
    }
}

proof fn lemma_let_through(pages: Seq<PageContent>, n: nat)
    requires
        n <= pages.len(),
    ensures
        surviving(pages, n).len() == pages_let_through(pages, n),
{
    law_quarantined_pages_are_left_out(pages, n);
}

/// What is written of a page and found of it rests on what was kept of all pages: the sizes of
/// body text and headings are those of the whole document, clusters are built from the edges of
/// all its pages against their number, and each report is on the page that it stands for.
pub proof fn law_pages_share_a_document(pages: Seq<PageContent>, i: int)
    requires
        0 <= i < pages.len(),
    ensures
        document_reports(pages).len() == pages.len(),
        ({
            let clusters = document_clusters(document_candidates(pages), pages.len());
            let kept = Seq::new(
                pages.len(),
                |k: int| kept_runs(pages[k].elements@, pages[k].page_height, clusters),
            );
            let body = body_font_size(concatenated(kept));
            let headings = distinct_sizes(descending(larger_sizes(concatenated(kept), body)));
            &&& markdown_of(pages, i) == page_markdown(kept[i], body, headings)
            &&& document_reports(pages)[i] == page_report(
                pages[i].page_num,
                kept[i],
                page_markdown(kept[i], body, headings),
                pages[i].vector_lines@,
            )
        }),
{
    let clusters = document_clusters(document_candidates(pages), pages.len());
    let kept = Seq::new(
        pages.len(),
        |k: int| kept_runs(pages[k].elements@, pages[k].page_height, clusters),
    );
    assert(kept =~= document_runs(pages));
}

/// A page on which all text stands between the header and footer zones keeps every run, in
/// order, whatever the other pages hold.
pub proof fn law_pages_without_edges_keep_all(pages: Seq<PageContent>, i: int)
    requires
        0 <= i < pages.len(),
        forall|k: int|
            0 <= k < pages[i].elements@.len() ==> !in_edge_zone(
                (#[trigger] pages[i].elements@[k]).y_norm_of(pages[i].page_height as int),
            ),
    ensures
        document_runs(pages)[i] == Seq::new(
            pages[i].elements@.len(),
            |k: int| &pages[i].elements@[k],
        ),
{
    lemma_body_is_kept(pages[i].elements@, pages[i].page_height, clusters_in(pages));
}

proof fn lemma_body_is_kept(
    elements: Seq<TextElement>,
    page_height: i64,
    clusters: Seq<ClusterView>,
)
    requires
        forall|k: int|
            0 <= k < elements.len() ==> !in_edge_zone(
                (#[trigger] elements[k]).y_norm_of(page_height as int),
            ),
    ensures
        kept_runs(elements, page_height, clusters) == Seq::new(
            elements.len(),
            |k: int| &elements[k],
        ),
    decreases elements.len(),
{
    if elements.len() > 0 {
        let front = elements.drop_last();
        assert forall|k: int| 0 <= k < front.len() implies !in_edge_zone(
            (#[trigger] front[k]).y_norm_of(page_height as int),
        ) by {
            assert(front[k] == elements[k]);
        }
        lemma_body_is_kept(front, page_height, clusters);
        assert(elements.last() == elements[elements.len() - 1]);
        assert(!is_redacted(elements.last(), page_height, clusters));
        assert(kept_runs(elements, page_height, clusters) =~= Seq::new(
            elements.len(),
            |k: int| &elements[k],
        ));
    }
}

/// Nothing comes of a document without pages, and if all pages are quarantined nothing of it is
/// cut into chunks.
pub proof fn law_nothing_comes_of_nothing(pages: Seq<PageContent>)
    ensures
        surviving(pages, 0).len() == 0,
        pages.len() == 0 ==> document_reports(pages).len() == 0,
        verdicts(document_reports(pages), IngestionQuality::Quarantined) == pages.len()
            ==> surviving(pages, pages.len()).len() == 0,
{
    law_quarantined_pages_are_left_out(pages, pages.len());
    assert(document_reports(pages).take(pages.len() as int) =~= document_reports(pages));
}

/// Each report is seen as it is, in its place.
pub proof fn law_reports_are_seen_in_order(reports: Seq<PageFidelityReport>, i: int)
    ensures
        report_views(reports).len() == reports.len(),
        0 <= i < reports.len() ==> report_views(reports)[i] == reports[i]@,
{
}

/// A document can be scored if, on each page, the letters and numbers of what is kept can be
/// counted, and not otherwise.
pub proof fn law_text_that_fits(pages: Seq<PageContent>, i: int)
    ensures
        pages.len() == 0 ==> all_text_fits(pages),
        all_text_fits(pages) && 0 <= i < pages.len() ==> text_length(document_runs(pages)[i])
            <= usize::MAX,
        0 <= i < pages.len() && text_length(document_runs(pages)[i]) > usize::MAX
            ==> !all_text_fits(pages),
        (forall|k: int|
            0 <= k < pages.len() ==> text_length(#[trigger] document_runs(pages)[k]) <= usize::MAX)
            ==> all_text_fits(pages),
{
}

/// The chunks of a document are those of the nodes of its pages that are let through, and where
/// every page is let through, of all its pages in order.
pub proof fn law_chunks_of_a_document(
    pages: Seq<PageContent>,
    document_id: Seq<char>,
    definition: JsonView,
)
    ensures
        document_chunks(pages, document_id, definition) == chunks_of(
            document_nodes(surviving(pages, pages.len())),
            definition,
            document_id,
        ),
        (forall|i: int|
            0 <= i < pages.len() ==> (#[trigger] report_on(pages, i)).quality
                != IngestionQuality::Quarantined) ==> document_chunks(
            pages,
            document_id,
            definition,
        ) == chunks_of(
            document_nodes(
                Seq::new(pages.len(), |i: int| (pages[i].page_num, markdown_of(pages, i))),
            ),
            definition,
            document_id,
        ),
{
    if forall|i: int|
        0 <= i < pages.len() ==> (#[trigger] report_on(pages, i)).quality
            != IngestionQuality::Quarantined {
        lemma_all_survive(pages, pages.len());
    }
}

proof fn lemma_all_survive(pages: Seq<PageContent>, n: nat)
    requires
        n <= pages.len(),
        forall|i: int|
            0 <= i < pages.len() ==> (#[trigger] report_on(pages, i)).quality
                != IngestionQuality::Quarantined,
    ensures
        surviving(pages, n) == Seq::new(n, |i: int| (pages[i].page_num, markdown_of(pages, i))),
    decreases n,
{
    if n > 0 {
        lemma_all_survive(pages, (n - 1) as nat);
        assert(report_on(pages, n - 1).quality != IngestionQuality::Quarantined);
    }
    assert(surviving(pages, n) =~= Seq::new(
        n,
        |i: int| (pages[i].page_num, markdown_of(pages, i)),
    ));
}

} // verus!
