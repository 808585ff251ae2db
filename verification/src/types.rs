//! The values that pass between the stages of the pipeline.
//!
//! Lengths and positions are whole numbers of micropoints: a PDF point is [`POINT`] of them.
//! Positions follow PDF user space: the origin is at the bottom left and y grows upwards.
use vstd::prelude::*;

verus! {

/// One PDF point, in micropoints.
pub const POINT: i64 = 1_000_000;

/// A fraction `num / den`, with a positive `den`.
#[derive(Debug, Clone, Copy, PartialEq, Eq, Structural)]
pub struct Ratio {
    pub num: i128,
    pub den: i128,
}

impl Ratio {
    /// A fraction whose parts leave room for percentages to be taken of them.
    pub open spec fn valid(self) -> bool {
        &&& -0x1_0000_0000_0000_0000_0000 < self.num < 0x1_0000_0000_0000_0000_0000
        &&& 0 < self.den < 0x1_0000_0000_0000_0000_0000
    }

    /// Whether the fraction is `percent` hundredths or more.
    pub fn at_least_percent(&self, percent: i32) -> (r: bool)
        requires
            self.valid(),
        ensures
            r == (100 * self.num >= percent * self.den),
    {
        let p: i128 = percent as i128;
        assert(-0x8000_0000 * 0x1_0000_0000_0000_0000_0000 <= p * self.den
            <= 0x8000_0000 * 0x1_0000_0000_0000_0000_0000) by (nonlinear_arith)
            requires
                -0x8000_0000 <= p <= 0x8000_0000,
                0 < self.den < 0x1_0000_0000_0000_0000_0000,
        ;
        100 * self.num >= p * self.den
    }

    /// Whether the fraction is more than `percent` hundredths.
    pub fn above_percent(&self, percent: i32) -> (r: bool)
        requires
            self.valid(),
        ensures
            r == (100 * self.num > percent * self.den),
    {
        let p: i128 = percent as i128;
        assert(-0x8000_0000 * 0x1_0000_0000_0000_0000_0000 <= p * self.den
            <= 0x8000_0000 * 0x1_0000_0000_0000_0000_0000) by (nonlinear_arith)
            requires
                -0x8000_0000 <= p <= 0x8000_0000,
                0 < self.den < 0x1_0000_0000_0000_0000_0000,
        ;
        100 * self.num > p * self.den
    }
}

/// A positioned run of text, as it stands in the content stream of its page.
#[derive(Debug, Clone)]
pub struct TextElement {
    pub text: String,
    pub x_min: i64,
    pub y_min: i64,
    pub x_max: i64,
    pub y_max: i64,
    pub font_size: i64,
    pub page_num: usize,
}

impl TextElement {
    /// The height of the run on its page, as a fraction: 0 is the top of the page, 1 the bottom.
    pub open spec fn y_norm_of(self, page_height: int) -> (int, int) {
        if page_height <= 0 {
            (0, 1)
        } else {
            (page_height - self.y_min, page_height)
        }
    }

    /// The height of the run on its page, from 0 at the top to 1 at the bottom; 0 on a page
    /// without height.
    pub fn y_norm(&self, page_height: i64) -> (r: Ratio)
        ensures
            (r.num as int, r.den as int) == self.y_norm_of(page_height as int),
            r.valid(),
    {
        if page_height <= 0 {
            return Ratio { num: 0, den: 1 };
        }
        Ratio { num: page_height as i128 - self.y_min as i128, den: page_height as i128 }
    }
}

/// A straight line drawn on a page.
#[derive(Debug, Clone, Copy)]
pub struct LineSegment {
    pub x0: i64,
    pub y0: i64,
    pub x1: i64,
    pub y1: i64,
}

/// Everything taken from one page.
#[derive(Debug, Clone)]
pub struct PageContent {
    pub page_num: usize,
    pub page_height: i64,
    pub page_width: i64,
    pub elements: Vec<TextElement>,
    pub vector_lines: Vec<LineSegment>,
}

/// A text that stands in the header or footer zone of a page.
#[derive(Debug, Clone)]
pub struct HeaderFooterCandidate {
    pub page_num: usize,
    /// The height on the page, rounded to two decimals.
    pub y_zone: String,
    pub text: String,
}

/// Near-duplicate header or footer texts that stand at the same height across the document.
#[derive(Debug, Clone)]
pub struct RedactCluster {
    pub y_zone: String,
    pub representative_text: String,
    pub pages_seen: usize,
    pub frequency: Ratio,
    pub redact: bool,
}

/// The verdict on how well a page survived its rendering.
#[derive(Debug, Clone, Copy, PartialEq, Eq, Structural)]
pub enum IngestionQuality {
    Pass,
    Warning,
    Quarantined,
}

/// The fidelity score of one page, with what it is made of.
#[derive(Debug, Clone, Copy)]
pub struct PageFidelityReport {
    pub page_num: usize,
    pub c_retention: Ratio,
    /// 1 where the tables agree, 0 where one was lost or changed.
    pub t_matrix: u8,
    pub s_fidelity: Ratio,
    pub quality: IngestionQuality,
    pub table_detected_in_pdf: bool,
    pub table_detected_in_md: bool,
}

/// One chunk of a document, ready to be embedded.
#[derive(Debug, Clone)]
pub struct ChunkPayload {
    pub chunk_id: usize,
    pub text: String,
    pub parent_hierarchy: Vec<String>,
    pub root_document: String,
    pub token_count: usize,
    pub source_pages: Vec<usize>,
}

/// A run stands the lower on its page the smaller its y, from 0 at the top edge to 1 at the bottom
/// edge; a page without height has no lower and higher.
pub proof fn law_height_on_a_page(e: TextElement, page_height: int)
    ensures
        e.y_norm_of(page_height).1 > 0,
        page_height <= 0 ==> e.y_norm_of(page_height).0 == 0,
        page_height > 0 ==> e.y_norm_of(page_height).1 == page_height
            && e.y_norm_of(page_height).0 + e.y_min == page_height,
{
}

} // verus!
