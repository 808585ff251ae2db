//! The pages of a PDF file as scripts: what each operation of a page's content does, with fonts,
//! paths and texts resolved, left to be carried out on the coordinates.
use crate::font_metrics::{
    font_table, font_views, glyph_width, resolve_page_fonts, FontMetrics, MetricsView,
    StandardFonts, StandardView,
};
use crate::pdf_document::{
    box_limit, content_operations, describe, document_objects, document_trailer, fonts_of_page,
    inherited_box, names_encryption, operation_views, operations_in, page_content, page_streams,
    page_tree, pages_of, pdf_parse, read_operations, resolve_inherited_mediabox, streams_decode,
    MediaBox, Operation,
};
use crate::pdf_object::{
    as_number, lemma_array_view, number_of, object_views, Number, ObjectView, PdfObject,
};
use crate::text::{
    append_chars, chars_of, from_utf8_lossy, is_blank, lossy_text, space_char,
    string_of,
};
use crate::types::{LineSegment, TextElement, POINT};
use vstd::prelude::*;

verus! {

/// The width of a glyph of a font that the page does not have, in thousandths of the font size.
pub const UNKNOWN_FONT_WIDTH: i64 = 500;

/// A filled shape counts as a rule where it is no wider or no higher than this.
pub const THIN_FILL_THRESHOLD: i64 = 2_500_000;

/// A coordinate, as the sum of two numbers.
#[derive(Debug, Clone, Copy, PartialEq, Eq, Structural)]
pub struct Coordinate {
    pub base: Number,
    pub offset: Number,
}

/// A point of a path.
#[derive(Debug, Clone, Copy, PartialEq, Eq, Structural)]
pub struct PathPoint {
    pub x: Coordinate,
    pub y: Coordinate,
}

/// The six numbers of a transformation.
#[derive(Debug, Clone, Copy, PartialEq, Eq, Structural)]
pub struct Transform {
    pub a: Number,
    pub b: Number,
    pub c: Number,
    pub d: Number,
    pub e: Number,
    pub f: Number,
}

/// One glyph of a text.
#[derive(Debug, Clone, Copy, PartialEq, Eq, Structural)]
pub struct Glyph {
    /// The width, in thousandths of the font size.
    pub width: Number,
    /// Whether the spacing of words applies.
    pub is_space: bool,
}

/// A part of a spaced text.
#[derive(Debug, PartialEq)]
pub enum Spacing {
    Glyphs(Vec<Glyph>),
    /// A move against the direction of writing, in thousandths of the font size.
    Adjust(Number),
}

/// A part of a spaced text as a value.
pub ghost enum SpacingView {
    Glyphs(Seq<Glyph>),
    Adjust(Number),
}

impl View for Spacing {
    type V = SpacingView;

    open spec fn view(&self) -> SpacingView {
        match self {
            Spacing::Glyphs(glyphs) => SpacingView::Glyphs(glyphs@),
            Spacing::Adjust(n) => SpacingView::Adjust(*n),
        }
    }
}

/// One step of the script of a page.
#[derive(Debug, PartialEq)]
pub enum Step {
    /// Keeps the current transformation.
    Save,
    /// Goes back to the transformation that was kept last.
    Restore,
    /// Puts a transformation before the current one.
    Concat(Transform),
    /// Starts a text at the origin.
    BeginText,
    /// Draws a path.
    Paint { subpaths: Vec<Vec<PathPoint>>, stroke: bool, fill: bool },
    FontSize(Number),
    CharSpacing(Number),
    WordSpacing(Number),
    /// Sets how wide the text is drawn, in hundredths.
    HorizontalScale(Number),
    Leading(Number),
    Rise(Number),
    /// Starts a line, set off from the start of the one before.
    MoveLine(Number, Number),
    /// The same, and the leading becomes the distance downwards.
    MoveLineAndLead(Number, Number),
    SetMatrix(Transform),
    /// Starts a line below the one before, by the leading.
    NextLine,
    /// Writes a text.
    Show { text: String, glyphs: Vec<Glyph> },
    /// Writes a text with its glyphs moved apart or together.
    ShowSpaced { text: String, parts: Vec<Spacing> },
}

/// One step as a value.
pub ghost enum StepView {
    Save,
    Restore,
    Concat(Transform),
    BeginText,
    Paint { subpaths: Seq<Seq<PathPoint>>, stroke: bool, fill: bool },
    FontSize(Number),
    CharSpacing(Number),
    WordSpacing(Number),
    HorizontalScale(Number),
    Leading(Number),
    Rise(Number),
    MoveLine(Number, Number),
    MoveLineAndLead(Number, Number),
    SetMatrix(Transform),
    NextLine,
    Show { text: Seq<char>, glyphs: Seq<Glyph> },
    ShowSpaced { text: Seq<char>, parts: Seq<SpacingView> },
}

pub open spec fn subpath_views(subpaths: Seq<Vec<PathPoint>>) -> Seq<Seq<PathPoint>> {
    Seq::new(subpaths.len(), |i: int| subpaths[i]@)
}

pub open spec fn spacing_views(parts: Seq<Spacing>) -> Seq<SpacingView> {
    Seq::new(parts.len(), |i: int| parts[i]@)
}

impl View for Step {
    type V = StepView;

    open spec fn view(&self) -> StepView {
        match self {
            Step::Save => StepView::Save,
            Step::Restore => StepView::Restore,
            Step::Concat(t) => StepView::Concat(*t),
            Step::BeginText => StepView::BeginText,
            Step::Paint { subpaths, stroke, fill } => StepView::Paint {
                subpaths: subpath_views(subpaths@),
                stroke: *stroke,
                fill: *fill,
            },
            Step::FontSize(n) => StepView::FontSize(*n),
            Step::CharSpacing(n) => StepView::CharSpacing(*n),
            Step::WordSpacing(n) => StepView::WordSpacing(*n),
            Step::HorizontalScale(n) => StepView::HorizontalScale(*n),
            Step::Leading(n) => StepView::Leading(*n),
            Step::Rise(n) => StepView::Rise(*n),
            Step::MoveLine(x, y) => StepView::MoveLine(*x, *y),
            Step::MoveLineAndLead(x, y) => StepView::MoveLineAndLead(*x, *y),
            Step::SetMatrix(t) => StepView::SetMatrix(*t),
            Step::NextLine => StepView::NextLine,
            Step::Show { text, glyphs } => StepView::Show { text: text@, glyphs: glyphs@ },
            Step::ShowSpaced { text, parts } => StepView::ShowSpaced {
                text: text@,
                parts: spacing_views(parts@),
            },
        }
    }
}

pub open spec fn step_views(steps: Seq<Step>) -> Seq<StepView> {
    Seq::new(steps.len(), |i: int| steps[i]@)
}

/// What an operator asks for.
#[derive(Debug, Clone, Copy, PartialEq, Eq, Structural)]
pub enum Operator {
    Save,
    Restore,
    Concat,
    BeginText,
    MoveTo,
    LineTo,
    CurveTo,
    ClosePath,
    Rectangle,
    Paint { stroke: bool, fill: bool },
    EndPath,
    Font,
    CharSpacing,
    WordSpacing,
    HorizontalScale,
    Leading,
    Rise,
    MoveLine,
    MoveLineAndLead,
    SetMatrix,
    NextLine,
    Show,
    NextLineShow,
    NextLineShowSpacing,
    ShowSpaced,
    /// Nothing that bears on texts or lines.
    Other,
}

/// What the operator with the given name asks for.
pub open spec fn operator_of(name: Seq<char>) -> Operator {
    if name == "q"@ {
        Operator::Save
    } else if name == "Q"@ {
        Operator::Restore
    } else if name == "cm"@ {
        Operator::Concat
    } else if name == "BT"@ {
        Operator::BeginText
    } else if name == "m"@ {
        Operator::MoveTo
    } else if name == "l"@ {
        Operator::LineTo
    } else if name == "c"@ || name == "v"@ || name == "y"@ {
        Operator::CurveTo
    } else if name == "h"@ {
        Operator::ClosePath
    } else if name == "re"@ {
        Operator::Rectangle
    } else if name == "S"@ || name == "s"@ {
        Operator::Paint { stroke: true, fill: false }
    } else if name == "f"@ || name == "F"@ || name == "f*"@ {
        Operator::Paint { stroke: false, fill: true }
    } else if name == "B"@ || name == "B*"@ || name == "b"@ || name == "b*"@ {
        Operator::Paint { stroke: true, fill: true }
    } else if name == "n"@ {
        Operator::EndPath
    } else if name == "Tf"@ {
        Operator::Font
    } else if name == "Tc"@ {
        Operator::CharSpacing
    } else if name == "Tw"@ {
        Operator::WordSpacing
    } else if name == "Tz"@ {
        Operator::HorizontalScale
    } else if name == "TL"@ {
        Operator::Leading
    } else if name == "Ts"@ {
        Operator::Rise
    } else if name == "Td"@ {
        Operator::MoveLine
    } else if name == "TD"@ {
        Operator::MoveLineAndLead
    } else if name == "Tm"@ {
        Operator::SetMatrix
    } else if name == "T*"@ {
        Operator::NextLine
    } else if name == "Tj"@ {
        Operator::Show
    } else if name == "'"@ {
        Operator::NextLineShow
    } else if name == "\""@ {
        Operator::NextLineShowSpacing
    } else if name == "TJ"@ {
        Operator::ShowSpaced
    } else {
        Operator::Other
    }
}

fn is_named(name: &[char], other: &str) -> (r: bool)
    ensures
        r == (name@ == other@),
{
    let mut i: usize = 0;
    for c in it: other.chars()
        invariant
            it.seq() == other@,
            i == it.index(),
            i <= name@.len(),
            forall|j: int| 0 <= j < i ==> name@[j] == other@[j],
    {
        if i >= name.len() || name[i] != c {
            assert(other@[i as int] == c);
            return false;
        }
        i = i + 1;
    }
    assert(i == name@.len() ==> name@ =~= other@);
    i == name.len()
}

/// What the operator with the given name asks for.
pub fn parse_operator(operator: &str) -> (r: Operator)
    ensures
        r == operator_of(operator@),
{
    let name: Vec<char> = chars_of(operator);
    if is_named(&name, "q") {
        Operator::Save
    } else if is_named(&name, "Q") {
        Operator::Restore
    } else if is_named(&name, "cm") {
        Operator::Concat
    } else if is_named(&name, "BT") {
        Operator::BeginText
    } else if is_named(&name, "m") {
        Operator::MoveTo
    } else if is_named(&name, "l") {
        Operator::LineTo
    } else if is_named(&name, "c") || is_named(&name, "v") || is_named(&name, "y") {
        Operator::CurveTo
    } else if is_named(&name, "h") {
        Operator::ClosePath
    } else if is_named(&name, "re") {
        Operator::Rectangle
    } else if is_named(&name, "S") || is_named(&name, "s") {
        Operator::Paint { stroke: true, fill: false }
    } else if is_named(&name, "f") || is_named(&name, "F") || is_named(&name, "f*") {
        Operator::Paint { stroke: false, fill: true }
    } else if is_named(&name, "B") || is_named(&name, "B*") || is_named(&name, "b") || is_named(
        &name,
        "b*",
    ) {
        Operator::Paint { stroke: true, fill: true }
    } else if is_named(&name, "n") {
        Operator::EndPath
    } else if is_named(&name, "Tf") {
        Operator::Font
    } else if is_named(&name, "Tc") {
        Operator::CharSpacing
    } else if is_named(&name, "Tw") {
        Operator::WordSpacing
    } else if is_named(&name, "Tz") {
        Operator::HorizontalScale
    } else if is_named(&name, "TL") {
        Operator::Leading
    } else if is_named(&name, "Ts") {
        Operator::Rise
    } else if is_named(&name, "Td") {
        Operator::MoveLine
    } else if is_named(&name, "TD") {
        Operator::MoveLineAndLead
    } else if is_named(&name, "Tm") {
        Operator::SetMatrix
    } else if is_named(&name, "T*") {
        Operator::NextLine
    } else if is_named(&name, "Tj") {
        Operator::Show
    } else if is_named(&name, "'") {
        Operator::NextLineShow
    } else if is_named(&name, "\"") {
        Operator::NextLineShowSpacing
    } else if is_named(&name, "TJ") {
        Operator::ShowSpaced
    } else {
        Operator::Other
    }
}

/// The metrics of the last font with the given name.
pub open spec fn font_named(fonts: Seq<(Seq<char>, MetricsView)>, name: Seq<char>) -> Option<
    MetricsView,
>
    decreases fonts.len(),
{
    if fonts.len() == 0 {
        None
    } else if fonts.last().0 == name {
        Some(fonts.last().1)
    } else {
        font_named(fonts.drop_last(), name)
    }
}

/// The width of a glyph, also where the page does not have the font.
pub open spec fn width_in(font: Option<MetricsView>, code: u32) -> Number {
    match font {
        Some(metrics) => glyph_width(metrics, code),
        None => Number::Integer(UNKNOWN_FONT_WIDTH),
    }
}

/// The glyphs of a text with two bytes to a character; a last single byte is a character too.
/// The spacing of words does not apply.
pub open spec fn two_byte_glyphs(font: Option<MetricsView>, bytes: Seq<u8>) -> Seq<Glyph>
    decreases bytes.len(),
{
    if bytes.len() == 0 {
        Seq::empty()
    } else if bytes.len() == 1 {
        seq![Glyph { width: width_in(font, bytes[0] as u32), is_space: false }]
    } else {
        let code = (bytes[0] as int * 256 + bytes[1] as int) as u32;
        seq![Glyph { width: width_in(font, code), is_space: false }] + two_byte_glyphs(
            font,
            bytes.skip(2),
        )
    }
}

/// The glyphs of a text in a font.
pub open spec fn glyphs_of(font: Option<MetricsView>, bytes: Seq<u8>) -> Seq<Glyph> {
    match font {
        Some(MetricsView::Composite { .. }) => two_byte_glyphs(font, bytes),
        _ => Seq::new(
            bytes.len(),
            |i: int|
                Glyph { width: width_in(font, bytes[i] as u32), is_space: bytes[i] == 0x20 },
        ),
    }
}

fn find_font<'a>(fonts: &'a [(String, FontMetrics)], name: &String) -> (r: Option<&'a FontMetrics>)
    ensures
        match r {
            Some(metrics) => font_named(font_views(fonts@), name@) == Some(metrics@),
            None => font_named(font_views(fonts@), name@) is None,
        },
{
    let ghost all = font_views(fonts@);
    let mut i: usize = fonts.len();
    assert(all.take(i as int) =~= all);
    while i > 0
        invariant
            i <= fonts@.len(),
            all == font_views(fonts@),
            font_named(all, name@) == font_named(all.take(i as int), name@),
        decreases i,
    {
        assert(all.take(i as int).last() == all[i - 1]);
        assert(all.take(i as int).drop_last() =~= all.take(i - 1));
        if fonts[i - 1].0.eq(name) {
            return Some(&fonts[i - 1].1);
        }
        i = i - 1;
    }
    None
}

/// The metrics of a font as a value.
pub open spec fn metrics_view(font: Option<&FontMetrics>) -> Option<MetricsView> {
    match font {
        Some(metrics) => Some(metrics@),
        None => None,
    }
}

fn width_of(font: Option<&FontMetrics>, code: u32) -> (r: Number)
    ensures
        r == width_in(metrics_view(font), code),
{
    match font {
        Some(metrics) => metrics.width_fraction(code),
        None => Number::Integer(UNKNOWN_FONT_WIDTH),
    }
}

/// The glyphs of a text in a font.
pub fn text_glyphs(font: Option<&FontMetrics>, bytes: &[u8]) -> (r: Vec<Glyph>)
    ensures
        r@ == glyphs_of(metrics_view(font), bytes@),
{
    let ghost metrics = metrics_view(font);
    let two_byte: bool = match font {
        Some(m) => m.is_two_byte(),
        None => false,
    };
    let mut out: Vec<Glyph> = Vec::new();
    let mut i: usize = 0;
    if two_byte {
        assert(bytes@.skip(0) =~= bytes@);
        assert(out@ + two_byte_glyphs(metrics, bytes@) =~= two_byte_glyphs(metrics, bytes@));
        while i < bytes.len()
            invariant
                i <= bytes@.len(),
                metrics == metrics_view(font),
                out@ + two_byte_glyphs(metrics, bytes@.skip(i as int)) == two_byte_glyphs(
                    metrics,
                    bytes@,
                ),
            decreases bytes@.len() - i,
        {
            let ghost rest = bytes@.skip(i as int);
            let ghost before = out@;
            if bytes.len() - i >= 2 {
                let code: u32 = bytes[i] as u32 * 256 + bytes[i + 1] as u32;
                let glyph = Glyph { width: width_of(font, code), is_space: false };
                out.push(glyph);
                assert(rest.skip(2) =~= bytes@.skip(i + 2));
                assert(before + (seq![glyph] + two_byte_glyphs(metrics, rest.skip(2))) =~= out@
                    + two_byte_glyphs(metrics, rest.skip(2)));
                i = i + 2;
            } else {
                let glyph = Glyph { width: width_of(font, bytes[i] as u32), is_space: false };
                out.push(glyph);
                assert(bytes@.skip(i + 1) =~= Seq::<u8>::empty());
                assert(before + seq![glyph] =~= out@ + two_byte_glyphs(metrics, bytes@.skip(i + 1)));
                i = i + 1;
            }
        }
        assert(bytes@.skip(i as int) =~= Seq::<u8>::empty());
        assert(out@ + Seq::<Glyph>::empty() =~= out@);
        out
    } else {
        let ghost all = glyphs_of(metrics, bytes@);
        while i < bytes.len()
            invariant
                i <= bytes@.len(),
                metrics == metrics_view(font),
                !(metrics matches Some(MetricsView::Composite { .. })),
                all == glyphs_of(metrics, bytes@),
                out@ == all.take(i as int),
            decreases bytes@.len() - i,
        {
            let b: u8 = bytes[i];
            out.push(Glyph { width: width_of(font, b as u32), is_space: b == 0x20 });
            assert(out@ =~= all.take(i + 1));
            i = i + 1;
        }
        assert(out@ =~= all);
        out
    }
}

/// The parts of a spaced text; an object that is neither text nor number is passed over.
pub open spec fn spaced_parts(font: Option<MetricsView>, items: Seq<ObjectView>) -> Seq<SpacingView>
    decreases items.len(),
{
    if items.len() == 0 {
        Seq::empty()
    } else {
        let front = spaced_parts(font, items.drop_last());
        match items.last() {
            ObjectView::Text(bytes) => front.push(SpacingView::Glyphs(glyphs_of(font, bytes))),
            ObjectView::Integer(_) | ObjectView::Real(_) => front.push(
                SpacingView::Adjust(number_of(items.last())),
            ),
            _ => front,
        }
    }
}

/// The text of a spaced text.
pub open spec fn spaced_text(items: Seq<ObjectView>) -> Seq<char>
    decreases items.len(),
{
    if items.len() == 0 {
        Seq::empty()
    } else {
        let front = spaced_text(items.drop_last());
        match items.last() {
            ObjectView::Text(bytes) => front + lossy_text(bytes),
            _ => front,
        }
    }
}

/// Where the reading of a page's content stands.
pub ghost struct ScriptState {
    /// How many transformations are kept.
    pub depth: nat,
    /// The path in the making.
    pub subpaths: Seq<Seq<PathPoint>>,
    /// The name of the font.
    pub font: Seq<char>,
    /// The steps so far.
    pub steps: Seq<StepView>,
}

/// Where the reading starts.
pub open spec fn initial_script() -> ScriptState {
    ScriptState {
        depth: 0,
        subpaths: Seq::empty(),
        font: Seq::empty(),
        steps: Seq::empty(),
    }
}

pub open spec fn with_step(state: ScriptState, step: StepView) -> ScriptState {
    ScriptState { steps: state.steps.push(step), ..state }
}

pub open spec fn coordinate(n: Number) -> Coordinate {
    Coordinate { base: n, offset: Number::Integer(0) }
}

pub open spec fn point(x: Number, y: Number) -> PathPoint {
    PathPoint { x: coordinate(x), y: coordinate(y) }
}

/// The six numbers of a transformation.
pub open spec fn transform_of(operands: Seq<ObjectView>) -> Transform {
    Transform {
        a: number_of(operands[0]),
        b: number_of(operands[1]),
        c: number_of(operands[2]),
        d: number_of(operands[3]),
        e: number_of(operands[4]),
        f: number_of(operands[5]),
    }
}

/// The path with one more point: it goes on with the last part of the path, and starts a part
/// where there is none.
pub open spec fn with_point(subpaths: Seq<Seq<PathPoint>>, p: PathPoint) -> Seq<Seq<PathPoint>> {
    if subpaths.len() > 0 {
        subpaths.drop_last().push(subpaths.last().push(p))
    } else {
        seq![seq![p]]
    }
}

/// The path with its last part led back to where that part started.
pub open spec fn closed(subpaths: Seq<Seq<PathPoint>>) -> Seq<Seq<PathPoint>> {
    if subpaths.len() > 0 && subpaths.last().len() > 0 {
        with_point(subpaths, subpaths.last()[0])
    } else {
        subpaths
    }
}

/// The outline of a rectangle.
pub open spec fn rectangle(x: Number, y: Number, w: Number, h: Number) -> Seq<PathPoint> {
    let right = Coordinate { base: x, offset: w };
    let top = Coordinate { base: y, offset: h };
    seq![
        point(x, y),
        PathPoint { x: right, y: coordinate(y) },
        PathPoint { x: right, y: top },
        PathPoint { x: coordinate(x), y: top },
        point(x, y),
    ]
}

/// What an operation does to the path.
pub open spec fn path_after(
    subpaths: Seq<Seq<PathPoint>>,
    operator: Operator,
    operands: Seq<ObjectView>,
) -> Seq<Seq<PathPoint>> {
    let n = operands.len() as int;
    match operator {
        Operator::MoveTo => if n == 2 {
            subpaths.push(seq![point(number_of(operands[0]), number_of(operands[1]))])
        } else {
            subpaths
        },
        Operator::LineTo => if n == 2 {
            with_point(subpaths, point(number_of(operands[0]), number_of(operands[1])))
        } else {
            subpaths
        },
        Operator::CurveTo => if n >= 2 {
            with_point(subpaths, point(number_of(operands[n - 2]), number_of(operands[n - 1])))
        } else {
            subpaths
        },
        Operator::ClosePath => closed(subpaths),
        Operator::Rectangle => if n == 4 {
            subpaths.push(
                rectangle(
                    number_of(operands[0]),
                    number_of(operands[1]),
                    number_of(operands[2]),
                    number_of(operands[3]),
                ),
            )
        } else {
            subpaths
        },
        Operator::Paint { .. } | Operator::EndPath => Seq::empty(),
        _ => subpaths,
    }
}

/// The step of writing an object, where it is a text.
pub open spec fn shown(
    state: ScriptState,
    o: ObjectView,
    fonts: Seq<(Seq<char>, MetricsView)>,
) -> ScriptState {
    match o {
        ObjectView::Text(bytes) => with_step(
            state,
            StepView::Show {
                text: lossy_text(bytes),
                glyphs: glyphs_of(font_named(fonts, state.font), bytes),
            },
        ),
        _ => state,
    }
}

/// What an operation does, apart from what it does to the path.
pub open spec fn steps_after(
    state: ScriptState,
    operator: Operator,
    operands: Seq<ObjectView>,
    fonts: Seq<(Seq<char>, MetricsView)>,
) -> ScriptState {
    let n = operands.len() as int;
    match operator {
        Operator::Save => ScriptState { depth: state.depth + 1, ..with_step(state, StepView::Save) },
        Operator::Restore => if state.depth > 0 {
            ScriptState {
                depth: (state.depth - 1) as nat,
                ..with_step(state, StepView::Restore)
            }
        } else {
            state
        },
        Operator::Concat => if n == 6 {
            with_step(state, StepView::Concat(transform_of(operands)))
        } else {
            state
        },
        Operator::BeginText => with_step(state, StepView::BeginText),
        Operator::Paint { stroke, fill } => with_step(
            state,
            StepView::Paint { subpaths: state.subpaths, stroke, fill },
        ),
        Operator::Font => if n == 2 {
            let sized = with_step(state, StepView::FontSize(number_of(operands[1])));
            match operands[0] {
                ObjectView::Name(name) => ScriptState { font: lossy_text(name), ..sized },
                _ => sized,
            }
        } else {
            state
        },
        Operator::CharSpacing => if n > 0 {
            with_step(state, StepView::CharSpacing(number_of(operands[0])))
        } else {
            state
        },
        Operator::WordSpacing => if n > 0 {
            with_step(state, StepView::WordSpacing(number_of(operands[0])))
        } else {
            state
        },
        Operator::HorizontalScale => if n > 0 {
            with_step(state, StepView::HorizontalScale(number_of(operands[0])))
        } else {
            state
        },
        Operator::Leading => if n > 0 {
            with_step(state, StepView::Leading(number_of(operands[0])))
        } else {
            state
        },
        Operator::Rise => if n > 0 {
            with_step(state, StepView::Rise(number_of(operands[0])))
        } else {
            state
        },
        Operator::MoveLine => if n == 2 {
            with_step(
                state,
                StepView::MoveLine(number_of(operands[0]), number_of(operands[1])),
            )
        } else {
            state
        },
        Operator::MoveLineAndLead => if n == 2 {
            with_step(
                state,
                StepView::MoveLineAndLead(number_of(operands[0]), number_of(operands[1])),
            )
        } else {
            state
        },
        Operator::SetMatrix => if n == 6 {
            with_step(state, StepView::SetMatrix(transform_of(operands)))
        } else {
            state
        },
        Operator::NextLine => with_step(state, StepView::NextLine),
        Operator::Show => if n > 0 {
            shown(state, operands[0], fonts)
        } else {
            state
        },
        Operator::NextLineShow => {
            let moved = with_step(state, StepView::NextLine);
            if n > 0 {
                shown(moved, operands[0], fonts)
            } else {
                moved
            }
        },
        Operator::NextLineShowSpacing => {
            let spaced = if n == 3 {
                with_step(
                    with_step(state, StepView::WordSpacing(number_of(operands[0]))),
                    StepView::CharSpacing(number_of(operands[1])),
                )
            } else {
                state
            };
            let moved = with_step(spaced, StepView::NextLine);
            if n > 2 {
                shown(moved, operands[2], fonts)
            } else {
                moved
            }
        },
        Operator::ShowSpaced => if n > 0 {
            match operands[0] {
                ObjectView::Array(items) => with_step(
                    state,
                    StepView::ShowSpaced {
                        text: spaced_text(items),
                        parts: spaced_parts(font_named(fonts, state.font), items),
                    },
                ),
                _ => state,
            }
        } else {
            state
        },
        _ => state,
    }
}

/// What an operation does.
pub open spec fn after_operation(
    state: ScriptState,
    operation: (Seq<char>, Seq<ObjectView>),
    fonts: Seq<(Seq<char>, MetricsView)>,
) -> ScriptState {
    let operator = operator_of(operation.0);
    ScriptState {
        subpaths: path_after(state.subpaths, operator, operation.1),
        ..steps_after(state, operator, operation.1, fonts)
    }
}

/// Where the reading stands after some operations.
pub open spec fn script_after(
    operations: Seq<(Seq<char>, Seq<ObjectView>)>,
    fonts: Seq<(Seq<char>, MetricsView)>,
) -> ScriptState
    decreases operations.len(),
{
    if operations.len() == 0 {
        initial_script()
    } else {
        after_operation(
            script_after(operations.drop_last(), fonts),
            operations.last(),
            fonts,
        )
    }
}

struct Script {
    depth: usize,
    subpaths: Vec<Vec<PathPoint>>,
    font: String,
    steps: Vec<Step>,
}

impl View for Script {
    type V = ScriptState;

    closed spec fn view(&self) -> ScriptState {
        ScriptState {
            depth: self.depth as nat,
            subpaths: subpath_views(self.subpaths@),
            font: self.font@,
            steps: step_views(self.steps@),
        }
    }
}

fn plain_point(x: &PdfObject, y: &PdfObject) -> (r: PathPoint)
    ensures
        r == point(number_of(x@), number_of(y@)),
{
    let zero = Number::Integer(0);
    PathPoint {
        x: Coordinate { base: as_number(x), offset: zero },
        y: Coordinate { base: as_number(y), offset: zero },
    }
}

fn read_transform(operands: &[PdfObject]) -> (r: Transform)
    requires
        operands@.len() == 6,
    ensures
        r == transform_of(object_views(operands@)),
{
    Transform {
        a: as_number(&operands[0]),
        b: as_number(&operands[1]),
        c: as_number(&operands[2]),
        d: as_number(&operands[3]),
        e: as_number(&operands[4]),
        f: as_number(&operands[5]),
    }
}

fn outline(operands: &[PdfObject]) -> (r: Vec<PathPoint>)
    requires
        operands@.len() == 4,
    ensures
        r@ == rectangle(
            number_of(operands@[0]@),
            number_of(operands@[1]@),
            number_of(operands@[2]@),
            number_of(operands@[3]@),
        ),
{
    let zero = Number::Integer(0);
    let x: Number = as_number(&operands[0]);
    let y: Number = as_number(&operands[1]);
    let left = Coordinate { base: x, offset: zero };
    let foot = Coordinate { base: y, offset: zero };
    let right = Coordinate { base: x, offset: as_number(&operands[2]) };
    let top = Coordinate { base: y, offset: as_number(&operands[3]) };
    let mut out: Vec<PathPoint> = Vec::new();
    out.push(PathPoint { x: left, y: foot });
    out.push(PathPoint { x: right, y: foot });
    out.push(PathPoint { x: right, y: top });
    out.push(PathPoint { x: left, y: top });
    out.push(PathPoint { x: left, y: foot });
    assert(out@ =~= rectangle(
        number_of(operands@[0]@),
        number_of(operands@[1]@),
        number_of(operands@[2]@),
        number_of(operands@[3]@),
    ));
    out
}

fn append_point(subpaths: &mut Vec<Vec<PathPoint>>, p: PathPoint)
    ensures
        subpath_views(final(subpaths)@) == with_point(subpath_views(old(subpaths)@), p),
{
    let ghost before = subpath_views(subpaths@);
    match subpaths.pop() {
        Some(mut last) => {
            let ghost line = last@;
            last.push(p);
            subpaths.push(last);
            assert(subpath_views(subpaths@) =~= before.drop_last().push(line.push(p)));
        },
        None => {
            let mut line: Vec<PathPoint> = Vec::new();
            line.push(p);
            assert(line@ =~= seq![p]);
            subpaths.push(line);
            assert(subpath_views(subpaths@) =~= seq![seq![p]]);
        },
    }
}

fn append_path(subpaths: &mut Vec<Vec<PathPoint>>, operator: Operator, operands: &[PdfObject])
    ensures
        subpath_views(final(subpaths)@) == path_after(
            subpath_views(old(subpaths)@),
            operator,
            object_views(operands@),
        ),
{
    let ghost before = subpath_views(subpaths@);
    let ghost values = object_views(operands@);
    let n: usize = operands.len();
    assert(values.len() == n);
    match operator {
        Operator::MoveTo => {
            if n == 2 {
                let p: PathPoint = plain_point(&operands[0], &operands[1]);
                let mut line: Vec<PathPoint> = Vec::new();
                line.push(p);
                assert(line@ =~= seq![p]);
                subpaths.push(line);
                assert(subpath_views(subpaths@) =~= before.push(seq![p]));
            }
        },
        Operator::LineTo => {
            if n == 2 {
                append_point(subpaths, plain_point(&operands[0], &operands[1]));
            }
        },
        Operator::CurveTo => {
            if n >= 2 {
                append_point(subpaths, plain_point(&operands[n - 2], &operands[n - 1]));
            }
        },
        Operator::ClosePath => {
            let k: usize = subpaths.len();
            if k > 0 {
                assert(before.last() == subpaths@[k - 1]@);
                if subpaths[k - 1].len() > 0 {
                    let start: PathPoint = subpaths[k - 1][0];
                    append_point(subpaths, start);
                }
            }
        },
        Operator::Rectangle => {
            if n == 4 {
                let line: Vec<PathPoint> = outline(operands);
                let ghost points = line@;
                subpaths.push(line);
                assert(subpath_views(subpaths@) =~= before.push(points));
            }
        },
        Operator::Paint { .. } => {
            subpaths.clear();
            assert(subpath_views(subpaths@) =~= Seq::<Seq<PathPoint>>::empty());
        },
        Operator::EndPath => {
            subpaths.clear();
            assert(subpath_views(subpaths@) =~= Seq::<Seq<PathPoint>>::empty());
        },
        _ => {},
    }
}

impl Script {
    fn new() -> (r: Script)
        ensures
            r@ == initial_script(),
            r.depth == 0,
    {
        let script = Script {
            depth: 0,
            subpaths: Vec::new(),
            font: String::new(),
            steps: Vec::new(),
        };
        proof {
            reveal_strlit("");
        }
        assert(subpath_views(script.subpaths@) =~= Seq::<Seq<PathPoint>>::empty());
        assert(step_views(script.steps@) =~= Seq::<StepView>::empty());
        assert(script.font@ =~= Seq::<char>::empty());
        script
    }

    fn add(&mut self, step: Step)
        ensures
            final(self)@ == with_step(old(self)@, step@),
            final(self).depth == old(self).depth,
    {
        let ghost before = step_views(self.steps@);
        let ghost view = step@;
        self.steps.push(step);
        assert(step_views(self.steps@) =~= before.push(view));
    }

    fn show(&mut self, o: &PdfObject, fonts: &[(String, FontMetrics)])
        ensures
            final(self)@ == shown(old(self)@, o@, font_views(fonts@)),
            final(self).depth == old(self).depth,
    {
        if let PdfObject::Text(bytes) = o {
            let font: Option<&FontMetrics> = find_font(fonts, &self.font);
            let text: String = from_utf8_lossy(bytes);
            let glyphs: Vec<Glyph> = text_glyphs(font, bytes);
            self.add(Step::Show { text, glyphs });
        }
    }

    fn show_spaced(&mut self, items: &[PdfObject], fonts: &[(String, FontMetrics)])
        ensures
            final(self)@ == with_step(
                old(self)@,
                StepView::ShowSpaced {
                    text: spaced_text(object_views(items@)),
                    parts: spaced_parts(
                        font_named(font_views(fonts@), old(self)@.font),
                        object_views(items@),
                    ),
                },
            ),
            final(self).depth == old(self).depth,
    {
        let ghost all = object_views(items@);
        let font: Option<&FontMetrics> = find_font(fonts, &self.font);
        let ghost metrics = metrics_view(font);
        let mut text: Vec<char> = Vec::new();
        let mut parts: Vec<Spacing> = Vec::new();
        let mut i: usize = 0;
        assert(all.take(0) =~= Seq::<ObjectView>::empty());
        assert(spacing_views(parts@) =~= Seq::<SpacingView>::empty());
        while i < items.len()
            invariant
                i <= items@.len(),
                all == object_views(items@),
                metrics == metrics_view(font),
                text@ == spaced_text(all.take(i as int)),
                spacing_views(parts@) == spaced_parts(metrics, all.take(i as int)),
            decreases items@.len() - i,
        {
            assert(all.take(i + 1).drop_last() =~= all.take(i as int));
            assert(all.take(i + 1).last() == items@[i as int]@);
            let ghost before = spacing_views(parts@);
            match &items[i] {
                PdfObject::Text(bytes) => {
                    let fragment: String = from_utf8_lossy(bytes);
                    let chars: Vec<char> = chars_of(fragment.as_str());
                    append_chars(&mut text, &chars);
                    let part = Spacing::Glyphs(text_glyphs(font, bytes));
                    let ghost view = part@;
                    parts.push(part);
                    assert(spacing_views(parts@) =~= before.push(view));
                },
                PdfObject::Integer(n) => {
                    let part = Spacing::Adjust(Number::Integer(*n));
                    let ghost view = part@;
                    parts.push(part);
                    assert(spacing_views(parts@) =~= before.push(view));
                },
                PdfObject::Real(bits) => {
                    let part = Spacing::Adjust(Number::Real(*bits));
                    let ghost view = part@;
                    parts.push(part);
                    assert(spacing_views(parts@) =~= before.push(view));
                },
                _ => {},
            }
            i = i + 1;
        }
        assert(all.take(i as int) =~= all);
        let whole: String = string_of(&text);
        self.add(Step::ShowSpaced { text: whole, parts });
    }

    fn set_text_state(&mut self, operator: Operator, operands: &[PdfObject])
        requires
            operator == Operator::CharSpacing || operator == Operator::WordSpacing || operator
                == Operator::HorizontalScale || operator == Operator::Leading || operator
                == Operator::Rise,
        ensures
            final(self)@ == steps_after(
                old(self)@,
                operator,
                object_views(operands@),
                Seq::empty(),
            ),
            final(self).depth == old(self).depth,
    {
        assert(object_views(operands@).len() == operands@.len());
        if operands.len() > 0 {
            let n: Number = as_number(&operands[0]);
            match operator {
                Operator::CharSpacing => self.add(Step::CharSpacing(n)),
                Operator::WordSpacing => self.add(Step::WordSpacing(n)),
                Operator::HorizontalScale => self.add(Step::HorizontalScale(n)),
                Operator::Leading => self.add(Step::Leading(n)),
                _ => self.add(Step::Rise(n)),
            }
        }
    }

    fn set_font(&mut self, operands: &[PdfObject])
        ensures
            final(self)@ == steps_after(
                old(self)@,
                Operator::Font,
                object_views(operands@),
                Seq::empty(),
            ),
            final(self).depth == old(self).depth,
    {
        assert(object_views(operands@).len() == operands@.len());
        if operands.len() == 2 {
            self.add(Step::FontSize(as_number(&operands[1])));
            if let PdfObject::Name(name) = &operands[0] {
                self.font = from_utf8_lossy(name);
            }
        }
    }

    /// Takes up one operation, all but what it does to the path.
    fn take_up(&mut self, operator: Operator, operands: &[PdfObject], fonts: &[(String, FontMetrics)])
        requires
            old(self).depth < usize::MAX,
        ensures
            ({
                let after = steps_after(
                    old(self)@,
                    operator,
                    object_views(operands@),
                    font_views(fonts@),
                );
                &&& final(self)@.depth == after.depth
                &&& final(self)@.font == after.font
                &&& final(self)@.steps == after.steps
                &&& operator is Paint || final(self)@.subpaths == old(self)@.subpaths
            }),
            final(self).depth <= old(self).depth + 1,
    {
        let n: usize = operands.len();
        let ghost values = object_views(operands@);
        assert(values.len() == n);
        match operator {
            Operator::Save => {
                self.add(Step::Save);
                self.depth = self.depth + 1;
            },
            Operator::Restore => {
                if self.depth > 0 {
                    self.add(Step::Restore);
                    self.depth = self.depth - 1;
                }
            },
            Operator::Concat => {
                if n == 6 {
                    self.add(Step::Concat(read_transform(operands)));
                }
            },
            Operator::BeginText => self.add(Step::BeginText),
            Operator::Paint { stroke, fill } => {
                let mut subpaths: Vec<Vec<PathPoint>> = Vec::new();
                core::mem::swap(&mut subpaths, &mut self.subpaths);
                self.add(Step::Paint { subpaths, stroke, fill });
            },
            Operator::Font => self.set_font(operands),
            Operator::MoveLine => {
                if n == 2 {
                    self.add(Step::MoveLine(as_number(&operands[0]), as_number(&operands[1])));
                }
            },
            Operator::MoveLineAndLead => {
                if n == 2 {
                    self.add(Step::MoveLineAndLead(as_number(&operands[0]), as_number(&operands[1])));
                }
            },
            Operator::SetMatrix => {
                if n == 6 {
                    self.add(Step::SetMatrix(read_transform(operands)));
                }
            },
            Operator::NextLine => self.add(Step::NextLine),
            Operator::Show => {
                if n > 0 {
                    self.show(&operands[0], fonts);
                }
            },
            Operator::NextLineShow => {
                self.add(Step::NextLine);
                if n > 0 {
                    self.show(&operands[0], fonts);
                }
            },
            Operator::NextLineShowSpacing => {
                if n == 3 {
                    self.add(Step::WordSpacing(as_number(&operands[0])));
                    self.add(Step::CharSpacing(as_number(&operands[1])));
                }
                self.add(Step::NextLine);
                if n > 2 {
                    self.show(&operands[2], fonts);
                }
            },
            Operator::ShowSpaced => {
                if n > 0 {
                    if let PdfObject::Array(items) = &operands[0] {
                        proof {
                            lemma_array_view(*items);
                        }
                        self.show_spaced(items, fonts);
                    }
                }
            },
            Operator::CharSpacing
            | Operator::WordSpacing
            | Operator::HorizontalScale
            | Operator::Leading
            | Operator::Rise => self.set_text_state(operator, operands),
            _ => {},
        }
    }

    fn run(&mut self, operation: &Operation, fonts: &[(String, FontMetrics)])
        requires
            old(self).depth < usize::MAX,
        ensures
            final(self)@ == after_operation(
                old(self)@,
                (operation.operator@, object_views(operation.operands@)),
                font_views(fonts@),
            ),
            final(self).depth <= old(self).depth + 1,
    {
        let operator: Operator = parse_operator(operation.operator.as_str());
        let ghost before = self@;
        let ghost values = object_views(operation.operands@);
        self.take_up(operator, &operation.operands, fonts);
        append_path(&mut self.subpaths, operator, &operation.operands);
        assert(self@.subpaths == path_after(before.subpaths, operator, values));
    }
}

/// Reads the operations of a page's content into the steps of its script.
pub fn script_of(operations: &[Operation], fonts: &[(String, FontMetrics)]) -> (r: Vec<Step>)
    ensures
        step_views(r@) == script_after(operation_views(operations@), font_views(fonts@)).steps,
{
    let ghost all = operation_views(operations@);
    let mut script: Script = Script::new();
    let mut i: usize = 0;
    assert(all.take(0) =~= Seq::<(Seq<char>, Seq<ObjectView>)>::empty());
    while i < operations.len()
        invariant
            i <= operations@.len(),
            all == operation_views(operations@),
            script@ == script_after(all.take(i as int), font_views(fonts@)),
            script.depth <= i,
        decreases operations@.len() - i,
    {
        assert(all.take(i + 1).drop_last() =~= all.take(i as int));
        assert(all.take(i + 1).last() == all[i as int]);
        script.run(&operations[i], fonts);
        i = i + 1;
    }
    assert(all.take(i as int) =~= all);
    script.steps
}

/// The script of one page.
#[derive(Debug)]
pub struct PageScript {
    /// The number of the page, from 1 on.
    pub page_num: usize,
    pub media_box: MediaBox,
    pub steps: Vec<Step>,
}

/// Why a file was not read.
#[derive(Debug)]
pub enum ExtractError {
    /// The bytes are no PDF file; what is wrong with them, in words.
    Unreadable(String),
}

/// The corners of a page that gives none: US Letter.
pub open spec fn letter_box() -> MediaBox {
    MediaBox {
        x0: Number::Integer(0),
        y0: Number::Integer(0),
        x1: Number::Integer(612),
        y1: Number::Integer(792),
    }
}

/// The corners of a page, its own or inherited, and otherwise those of US Letter.
pub open spec fn page_box(objects: Map<(u32, u16), ObjectView>, page: (u32, u16)) -> MediaBox {
    match inherited_box(objects, page, box_limit()) {
        Some(corners) => corners,
        None => letter_box(),
    }
}

/// The steps of a page with the given content.
pub open spec fn page_steps(
    objects: Map<(u32, u16), ObjectView>,
    page: (u32, u16),
    standard: StandardView,
    content: Seq<u8>,
) -> Seq<StepView> {
    script_after(
        operations_in(content),
        font_table(objects, fonts_of_page(objects, page), standard),
    ).steps
}

/// Whether a script is that of a page: it has the corners of the page, and the steps of what the
/// content streams of the page decode to.
pub open spec fn is_script_of(
    script: PageScript,
    objects: Map<(u32, u16), ObjectView>,
    page: (u32, u16),
    standard: StandardView,
) -> bool {
    &&& script.media_box == page_box(objects, page)
    &&& exists|content: Seq<u8>|
        streams_decode(objects, page_streams(objects, page), content) && step_views(script.steps@)
            == #[trigger] page_steps(objects, page, standard, content)
}

fn extract_page(doc: &lopdf::Document, page: (u32, u16), page_num: usize, standard: &StandardFonts) -> (r:
    PageScript)
    ensures
        r.page_num == page_num,
        is_script_of(r, document_objects(*doc), page, standard@),
{
    let ghost objects = document_objects(*doc);
    let media_box: MediaBox = match resolve_inherited_mediabox(doc, page) {
        Some(corners) => corners,
        None => MediaBox {
            x0: Number::Integer(0),
            y0: Number::Integer(0),
            x1: Number::Integer(612),
            y1: Number::Integer(792),
        },
    };
    let content: Vec<u8> = page_content(doc, page);
    let operations: Vec<Operation> = read_operations(&content);
    let fonts: Vec<(String, FontMetrics)> = resolve_page_fonts(doc, page, standard);
    let steps: Vec<Step> = script_of(&operations, &fonts);
    assert(step_views(steps@) == page_steps(objects, page, standard@, content@));
    PageScript { page_num, media_box, steps }
}

/// Whether the scripts are those of the pages of a file, in page order and numbered from 1 on.
pub open spec fn are_scripts_of(
    scripts: Seq<PageScript>,
    objects: Map<(u32, u16), ObjectView>,
    pages: Seq<(u32, u16)>,
    standard: StandardView,
) -> bool {
    &&& scripts.len() == pages.len()
    &&& forall|i: int|
        0 <= i < scripts.len() ==> (#[trigger] scripts[i]).page_num == i + 1 && is_script_of(
            scripts[i],
            objects,
            pages[i],
            standard,
        )
}

fn extract_pages(doc: &lopdf::Document, standard: &StandardFonts) -> (r: Vec<PageScript>)
    ensures
        are_scripts_of(
            r@,
            document_objects(*doc),
            page_tree(document_trailer(*doc), document_objects(*doc)),
            standard@,
        ),
{
    let ghost objects = document_objects(*doc);
    let pages: Vec<(u32, u16)> = pages_of(doc);
    let mut out: Vec<PageScript> = Vec::new();
    let mut i: usize = 0;
    while i < pages.len()
        invariant
            i <= pages@.len(),
            objects == document_objects(*doc),
            pages@ == page_tree(document_trailer(*doc), objects),
            out@.len() == i,
            forall|j: int|
                0 <= j < i ==> (#[trigger] out@[j]).page_num == j + 1 && is_script_of(
                    out@[j],
                    objects,
                    pages@[j],
                    standard@,
                ),
        decreases pages@.len() - i,
    {
        let script: PageScript = extract_page(doc, pages[i], i + 1, standard);
        out.push(script);
        i = i + 1;
    }
    out
}

/// The objects of the PDF file that some bytes are.
pub open spec fn file_objects(bytes: Seq<u8>) -> Map<(u32, u16), ObjectView> {
    match pdf_parse(bytes) {
        Ok((_, objects)) => objects,
        Err(_) => Map::empty(),
    }
}

/// The page objects of the PDF file that some bytes are, in page order.
pub open spec fn file_pages(bytes: Seq<u8>) -> Seq<(u32, u16)> {
    match pdf_parse(bytes) {
        Ok((trailer, objects)) => page_tree(trailer, objects),
        Err(_) => Seq::empty(),
    }
}

/// Whether some bytes are a PDF file.
pub open spec fn is_file(bytes: Seq<u8>) -> bool {
    pdf_parse(bytes) is Ok
}

/// Whether the scripts are those of the pages of some file.
pub open spec fn are_scripts(scripts: Seq<PageScript>, standard: StandardView) -> bool {
    exists|objects: Map<(u32, u16), ObjectView>, pages: Seq<(u32, u16)>| #[trigger]
        are_scripts_of(scripts, objects, pages, standard)
}

/// Reads a PDF file into the scripts of its pages, in page order. Of a file that names encryption
/// it is only said that what comes out are the scripts of some file.
///
/// Forms that a page draws by name are not followed.
pub fn extract_document(bytes: &[u8], standard: &StandardFonts) -> (r: Result<
    Vec<PageScript>,
    ExtractError,
>)
    ensures
        r matches Ok(scripts) ==> are_scripts(scripts@, standard@),
        !names_encryption(bytes@) ==> r is Ok == is_file(bytes@),
        !names_encryption(bytes@) ==> (r matches Ok(scripts) ==> are_scripts_of(
            scripts@,
            file_objects(bytes@),
            file_pages(bytes@),
            standard@,
        )),
        !names_encryption(bytes@) ==> (r matches Err(ExtractError::Unreadable(words))
            ==> pdf_parse(bytes@)->Err_0 == words@),
{
    match lopdf::Document::load_mem(bytes) {
        Ok(doc) => {
            let scripts: Vec<PageScript> = extract_pages(&doc, standard);
            proof {
                assert(are_scripts_of(
                    scripts@,
                    document_objects(doc),
                    page_tree(document_trailer(doc), document_objects(doc)),
                    standard@,
                ));
                if !names_encryption(bytes@) {
                    assert(document_objects(doc) == file_objects(bytes@));
                    assert(page_tree(document_trailer(doc), document_objects(doc)) == file_pages(
                        bytes@,
                    ));
                }
            }
            Ok(scripts)
        },
        Err(e) => Err(ExtractError::Unreadable(describe(&e))),
    }
}

/// A number held at the ends of the range of positions.
pub open spec fn held_in_range(n: int) -> int {
    if n > i64::MAX {
        i64::MAX as int
    } else if n < i64::MIN {
        i64::MIN as int
    } else {
        n
    }
}

fn hold_in_range(n: i128) -> (r: i64)
    ensures
        r == held_in_range(n as int),
{
    if n > i64::MAX as i128 {
        i64::MAX
    } else if n < i64::MIN as i128 {
        i64::MIN
    } else {
        n as i64
    }
}

/// The height of a line of text: the font size, a point at least.
pub open spec fn line_height(font_size: int) -> int {
    let size = if font_size < 0 {
        -font_size
    } else {
        font_size
    };
    if size < POINT {
        POINT as int
    } else {
        size
    }
}

/// The lower edge of a text: a quarter of its height below its base line.
pub open spec fn lower_edge(base_line: int, font_size: int) -> int {
    base_line - line_height(font_size) / 4
}

/// The run that a text is, written from `start_x` to `end_x` on a base line; none for a text
/// that is blank. It reaches a quarter of its height below the base line and the rest above it.
pub fn text_run(
    text: &str,
    start_x: i64,
    end_x: i64,
    base_line: i64,
    font_size: i64,
    page_num: usize,
) -> (r: Option<TextElement>)
    ensures
        r is None == is_blank(text@),
        r matches Some(e) ==> {
            &&& e.text@ == text@
            &&& e.x_min == (if start_x <= end_x { start_x } else { end_x })
            &&& e.x_max == (if start_x <= end_x { end_x } else { start_x })
            &&& e.y_min == held_in_range(lower_edge(base_line as int, font_size as int))
            &&& e.y_max == held_in_range(
                lower_edge(base_line as int, font_size as int) + line_height(font_size as int),
            )
            &&& e.font_size == font_size
            &&& e.page_num == page_num
        },
{
    let cs: Vec<char> = chars_of(text);
    let mut i: usize = 0;
    while i < cs.len() && space_char(cs[i])
        invariant
            i <= cs@.len(),
            forall|j: int| 0 <= j < i ==> crate::text::is_space(#[trigger] cs@[j]),
        decreases cs@.len() - i,
    {
        i = i + 1;
    }
    if i == cs.len() {
        return None;
    }
    assert(!crate::text::is_space(text@[i as int]));
    let size: i128 = if font_size < 0 {
        -(font_size as i128)
    } else {
        font_size as i128
    };
    let height: i128 = if size < POINT as i128 {
        POINT as i128
    } else {
        size
    };
    let quarter: i128 = (height as u128 / 4) as i128;
    let foot: i128 = base_line as i128 - quarter;
    let (x_min, x_max): (i64, i64) = if start_x <= end_x {
        (start_x, end_x)
    } else {
        (end_x, start_x)
    };
    Some(
        TextElement {
            text: text.to_owned(),
            x_min,
            y_min: hold_in_range(foot),
            x_max,
            y_max: hold_in_range(foot + height),
            font_size,
            page_num,
        },
    )
}

/// The extent of some positions: the greatest less the least.
pub open spec fn extent(positions: Seq<int>) -> int {
    highest(positions) - lowest(positions)
}

pub open spec fn lowest(positions: Seq<int>) -> int
    decreases positions.len(),
{
    if positions.len() <= 1 {
        positions[0]
    } else {
        let front = lowest(positions.drop_last());
        if positions.last() < front {
            positions.last()
        } else {
            front
        }
    }
}

pub open spec fn highest(positions: Seq<int>) -> int
    decreases positions.len(),
{
    if positions.len() <= 1 {
        positions[0]
    } else {
        let front = highest(positions.drop_last());
        if positions.last() > front {
            positions.last()
        } else {
            front
        }
    }
}

pub open spec fn x_positions(points: Seq<(i64, i64)>) -> Seq<int> {
    Seq::new(points.len(), |i: int| points[i].0 as int)
}

pub open spec fn y_positions(points: Seq<(i64, i64)>) -> Seq<int> {
    Seq::new(points.len(), |i: int| points[i].1 as int)
}

/// Whether a part of a path that is drawn counts as rules: a stroked one always does, and one
/// that is only filled where it is thin.
pub open spec fn counts_as_rule(points: Seq<(i64, i64)>, stroke: bool, fill: bool) -> bool {
    points.len() >= 2 && (stroke || (fill && (extent(x_positions(points)) <= THIN_FILL_THRESHOLD
        || extent(y_positions(points)) <= THIN_FILL_THRESHOLD)))
}

/// The lines between each two points that follow one another.
pub open spec fn segments(points: Seq<(i64, i64)>) -> Seq<LineSegment> {
    Seq::new(
        (points.len() - 1) as nat,
        |i: int|
            LineSegment {
                x0: points[i].0,
                y0: points[i].1,
                x1: points[i + 1].0,
                y1: points[i + 1].1,
            },
    )
}

fn is_thin(points: &[(i64, i64)]) -> (r: bool)
    requires
        points@.len() > 0,
    ensures
        r == (extent(x_positions(points@)) <= THIN_FILL_THRESHOLD || extent(y_positions(points@))
            <= THIN_FILL_THRESHOLD),
{
    let ghost xs = x_positions(points@);
    let ghost ys = y_positions(points@);
    let mut x_low: i64 = points[0].0;
    let mut x_high: i64 = points[0].0;
    let mut y_low: i64 = points[0].1;
    let mut y_high: i64 = points[0].1;
    let mut i: usize = 1;
    while i < points.len()
        invariant
            1 <= i <= points@.len(),
            xs == x_positions(points@),
            ys == y_positions(points@),
            x_low == lowest(xs.take(i as int)),
            x_high == highest(xs.take(i as int)),
            y_low == lowest(ys.take(i as int)),
            y_high == highest(ys.take(i as int)),
        decreases points@.len() - i,
    {
        proof {
            assert(xs.take(i + 1).drop_last() =~= xs.take(i as int));
            assert(ys.take(i + 1).drop_last() =~= ys.take(i as int));
            assert(xs.take(i + 1).last() == points@[i as int].0);
            assert(ys.take(i + 1).last() == points@[i as int].1);
        }
        let (x, y): (i64, i64) = points[i];
        if x < x_low {
            x_low = x;
        }
        if x > x_high {
            x_high = x;
        }
        if y < y_low {
            y_low = y;
        }
        if y > y_high {
            y_high = y;
        }
        i = i + 1;
    }
    assert(xs.take(i as int) =~= xs);
    assert(ys.take(i as int) =~= ys);
    let limit: i128 = THIN_FILL_THRESHOLD as i128;
    x_high as i128 - x_low as i128 <= limit || y_high as i128 - y_low as i128 <= limit
}

/// The lines that drawing a part of a path adds to a page.
pub fn paint_path(points: &[(i64, i64)], stroke: bool, fill: bool) -> (r: Vec<LineSegment>)
    ensures
        r@ == if counts_as_rule(points@, stroke, fill) {
            segments(points@)
        } else {
            Seq::empty()
        },
{
    let mut out: Vec<LineSegment> = Vec::new();
    if points.len() < 2 {
        return out;
    }
    let rule: bool = stroke || (fill && is_thin(points));
    if !rule {
        return out;
    }
    let mut i: usize = 1;
    while i < points.len()
        invariant
            1 <= i <= points@.len(),
            out@ == segments(points@).take(i - 1),
        decreases points@.len() - i,
    {
        let (x0, y0): (i64, i64) = points[i - 1];
        let (x1, y1): (i64, i64) = points[i];
        out.push(LineSegment { x0, y0, x1, y1 });
        assert(out@ =~= segments(points@).take(i as int));
        i = i + 1;
    }
    assert(out@ =~= segments(points@));
    out
}

/// How many steps keep a transformation, less how many go back to one.
pub open spec fn kept_transformations(steps: Seq<StepView>) -> int
    decreases steps.len(),
{
    if steps.len() == 0 {
        0
    } else {
        let front = kept_transformations(steps.drop_last());
        match steps.last() {
            StepView::Save => front + 1,
            StepView::Restore => front - 1,
            _ => front,
        }
    }
}

proof fn lemma_kept_push(steps: Seq<StepView>, step: StepView)
    ensures
        kept_transformations(steps.push(step)) == kept_transformations(steps) + match step {
            StepView::Save => 1int,
            StepView::Restore => -1,
            _ => 0,
        },
{
    assert(steps.push(step).drop_last() =~= steps);
}

/// At every place of a page's content as many transformations are kept as were kept and not gone
/// back to: the script never goes back further than it can.
pub proof fn law_restore_matches_save(
    operations: Seq<(Seq<char>, Seq<ObjectView>)>,
    fonts: Seq<(Seq<char>, MetricsView)>,
)
    ensures
        kept_transformations(script_after(operations, fonts).steps) == script_after(
            operations,
            fonts,
        ).depth,
    decreases operations.len(),
{
    if operations.len() > 0 {
        let front = operations.drop_last();
        let operation = operations.last();
        let state = script_after(front, fonts);
        law_restore_matches_save(front, fonts);
        let operator = operator_of(operation.0);
        let operands = operation.1;
        let after = steps_after(state, operator, operands, fonts);
        if after.steps.len() > state.steps.len() {
            lemma_kept_push(state.steps, after.steps[state.steps.len() as int]);
            let one = state.steps.push(after.steps[state.steps.len() as int]);
            if after.steps.len() > one.len() {
                let step = after.steps[one.len() as int];
                lemma_kept_push(one, step);
                let two = one.push(step);
                if after.steps.len() > two.len() {
                    let third = after.steps[two.len() as int];
                    lemma_kept_push(two, third);
                    let three = two.push(third);
                    if after.steps.len() > three.len() {
                        let fourth = after.steps[three.len() as int];
                        lemma_kept_push(three, fourth);
                        assert(after.steps =~= three.push(fourth));
                    } else {
                        assert(after.steps =~= three);
                    }
                } else {
                    assert(after.steps =~= two);
                }
            } else {
                assert(after.steps =~= one);
            }
        } else {
            assert(after.steps =~= state.steps);
        }
    }
}

/// Drawing a path uses it up: the next path starts from nothing, and what is drawn is the whole
/// path since the last one was used up.
pub proof fn law_painting_uses_up_the_path(
    state: ScriptState,
    operation: (Seq<char>, Seq<ObjectView>),
    fonts: Seq<(Seq<char>, MetricsView)>,
    stroke: bool,
    fill: bool,
)
    requires
        operator_of(operation.0) == (Operator::Paint { stroke, fill }),
    ensures
        after_operation(state, operation, fonts).subpaths.len() == 0,
        after_operation(state, operation, fonts).steps == state.steps.push(
            StepView::Paint { subpaths: state.subpaths, stroke, fill },
        ),
{
}

/// An operator that bears on neither texts nor lines changes nothing.
pub proof fn law_other_operators_change_nothing(
    state: ScriptState,
    operation: (Seq<char>, Seq<ObjectView>),
    fonts: Seq<(Seq<char>, MetricsView)>,
)
    requires
        operator_of(operation.0) == Operator::Other,
    ensures
        after_operation(state, operation, fonts) == state,
{
}

/// A text has a glyph for each byte, and in a composite font a glyph for each two.
pub proof fn law_glyph_count(font: Option<MetricsView>, bytes: Seq<u8>)
    ensures
        glyphs_of(font, bytes).len() == if font matches Some(MetricsView::Composite { .. }) {
            (bytes.len() + 1) / 2
        } else {
            bytes.len()
        },
{
    lemma_two_byte_count(font, bytes);
}

proof fn lemma_two_byte_count(font: Option<MetricsView>, bytes: Seq<u8>)
    ensures
        two_byte_glyphs(font, bytes).len() == (bytes.len() + 1) / 2,
    decreases bytes.len(),
{
    if bytes.len() >= 2 {
        lemma_two_byte_count(font, bytes.skip(2));
    }
}

/// What each operator asks for, by its name; a name that is none of these asks for nothing.
pub proof fn law_operator_names(name: Seq<char>)
    ensures
        operator_of("q"@) == Operator::Save,
        operator_of("Q"@) == Operator::Restore,
        operator_of("cm"@) == Operator::Concat,
        operator_of("BT"@) == Operator::BeginText,
        operator_of("m"@) == Operator::MoveTo,
        operator_of("l"@) == Operator::LineTo,
        operator_of("c"@) == Operator::CurveTo,
        operator_of("v"@) == Operator::CurveTo,
        operator_of("y"@) == Operator::CurveTo,
        operator_of("h"@) == Operator::ClosePath,
        operator_of("re"@) == Operator::Rectangle,
        operator_of("S"@) == (Operator::Paint { stroke: true, fill: false }),
        operator_of("s"@) == (Operator::Paint { stroke: true, fill: false }),
        operator_of("f"@) == (Operator::Paint { stroke: false, fill: true }),
        operator_of("F"@) == (Operator::Paint { stroke: false, fill: true }),
        operator_of("f*"@) == (Operator::Paint { stroke: false, fill: true }),
        operator_of("B"@) == (Operator::Paint { stroke: true, fill: true }),
        operator_of("B*"@) == (Operator::Paint { stroke: true, fill: true }),
        operator_of("b"@) == (Operator::Paint { stroke: true, fill: true }),
        operator_of("b*"@) == (Operator::Paint { stroke: true, fill: true }),
        operator_of("n"@) == Operator::EndPath,
        operator_of("Tf"@) == Operator::Font,
        operator_of("Tc"@) == Operator::CharSpacing,
        operator_of("Tw"@) == Operator::WordSpacing,
        operator_of("Tz"@) == Operator::HorizontalScale,
        operator_of("TL"@) == Operator::Leading,
        operator_of("Ts"@) == Operator::Rise,
        operator_of("Td"@) == Operator::MoveLine,
        operator_of("TD"@) == Operator::MoveLineAndLead,
        operator_of("Tm"@) == Operator::SetMatrix,
        operator_of("T*"@) == Operator::NextLine,
        operator_of("Tj"@) == Operator::Show,
        operator_of("'"@) == Operator::NextLineShow,
        operator_of("\""@) == Operator::NextLineShowSpacing,
        operator_of("TJ"@) == Operator::ShowSpaced,
        operator_of(name) != Operator::Other ==> name == "q"@ || name == "Q"@ || name == "cm"@ || name == "BT"@ || name == "m"@ || name == "l"@ || name == "c"@ || name == "v"@ || name == "y"@ || name == "h"@ || name == "re"@ || name == "S"@ || name == "s"@ || name == "f"@ || name == "F"@ || name == "f*"@ || name == "B"@ || name == "B*"@ || name == "b"@ || name == "b*"@ || name == "n"@ || name == "Tf"@ || name == "Tc"@ || name == "Tw"@ || name == "Tz"@ || name == "TL"@ || name == "Ts"@ || name == "Td"@ || name == "TD"@ || name == "Tm"@ || name == "T*"@ || name == "Tj"@ || name == "'"@ || name == "\""@ || name == "TJ"@,
{
    reveal_strlit("q");
    reveal_strlit("Q");
    reveal_strlit("cm");
    reveal_strlit("BT");
    reveal_strlit("m");
    reveal_strlit("l");
    reveal_strlit("c");
    reveal_strlit("v");
    reveal_strlit("y");
    reveal_strlit("h");
    reveal_strlit("re");
    reveal_strlit("S");
    reveal_strlit("s");
    reveal_strlit("f");
    reveal_strlit("F");
    reveal_strlit("f*");
    reveal_strlit("B");
    reveal_strlit("B*");
    reveal_strlit("b");
    reveal_strlit("b*");
    reveal_strlit("n");
    reveal_strlit("Tf");
    reveal_strlit("Tc");
    reveal_strlit("Tw");
    reveal_strlit("Tz");
    reveal_strlit("TL");
    reveal_strlit("Ts");
    reveal_strlit("Td");
    reveal_strlit("TD");
    reveal_strlit("Tm");
    reveal_strlit("T*");
    reveal_strlit("Tj");
    reveal_strlit("'");
    reveal_strlit("\"");
    reveal_strlit("TJ");
    assert("q"@.len() == 1 && "q"@[0] == 'q');
    assert("Q"@.len() == 1 && "Q"@[0] == 'Q');
    assert("cm"@.len() == 2 && "cm"@[0] == 'c' && "cm"@[1] == 'm');
    assert("BT"@.len() == 2 && "BT"@[0] == 'B' && "BT"@[1] == 'T');
    assert("m"@.len() == 1 && "m"@[0] == 'm');
    assert("l"@.len() == 1 && "l"@[0] == 'l');
    assert("c"@.len() == 1 && "c"@[0] == 'c');
    assert("v"@.len() == 1 && "v"@[0] == 'v');
    assert("y"@.len() == 1 && "y"@[0] == 'y');
    assert("h"@.len() == 1 && "h"@[0] == 'h');
    assert("re"@.len() == 2 && "re"@[0] == 'r' && "re"@[1] == 'e');
    assert("S"@.len() == 1 && "S"@[0] == 'S');
    assert("s"@.len() == 1 && "s"@[0] == 's');
    assert("f"@.len() == 1 && "f"@[0] == 'f');
    assert("F"@.len() == 1 && "F"@[0] == 'F');
    assert("f*"@.len() == 2 && "f*"@[0] == 'f' && "f*"@[1] == '*');
    assert("B"@.len() == 1 && "B"@[0] == 'B');
    assert("B*"@.len() == 2 && "B*"@[0] == 'B' && "B*"@[1] == '*');
    assert("b"@.len() == 1 && "b"@[0] == 'b');
    assert("b*"@.len() == 2 && "b*"@[0] == 'b' && "b*"@[1] == '*');
    assert("n"@.len() == 1 && "n"@[0] == 'n');
    assert("Tf"@.len() == 2 && "Tf"@[0] == 'T' && "Tf"@[1] == 'f');
    assert("Tc"@.len() == 2 && "Tc"@[0] == 'T' && "Tc"@[1] == 'c');
    assert("Tw"@.len() == 2 && "Tw"@[0] == 'T' && "Tw"@[1] == 'w');
    assert("Tz"@.len() == 2 && "Tz"@[0] == 'T' && "Tz"@[1] == 'z');
    assert("TL"@.len() == 2 && "TL"@[0] == 'T' && "TL"@[1] == 'L');
    assert("Ts"@.len() == 2 && "Ts"@[0] == 'T' && "Ts"@[1] == 's');
    assert("Td"@.len() == 2 && "Td"@[0] == 'T' && "Td"@[1] == 'd');
    assert("TD"@.len() == 2 && "TD"@[0] == 'T' && "TD"@[1] == 'D');
    assert("Tm"@.len() == 2 && "Tm"@[0] == 'T' && "Tm"@[1] == 'm');
    assert("T*"@.len() == 2 && "T*"@[0] == 'T' && "T*"@[1] == '*');
    assert("Tj"@.len() == 2 && "Tj"@[0] == 'T' && "Tj"@[1] == 'j');
    assert("'"@.len() == 1 && "'"@[0] == '\'');
    assert("\""@.len() == 1 && "\""@[0] == '"');
    assert("TJ"@.len() == 2 && "TJ"@[0] == 'T' && "TJ"@[1] == 'J');
}

/// The operations of a page are read in order, from a page without anything on it.
pub proof fn law_operations_are_read_in_order(
    operations: Seq<(Seq<char>, Seq<ObjectView>)>,
    operation: (Seq<char>, Seq<ObjectView>),
    fonts: Seq<(Seq<char>, MetricsView)>,
)
    ensures
        script_after(operations.push(operation), fonts) == after_operation(
            script_after(operations, fonts),
            operation,
            fonts,
        ),
        script_after(Seq::empty(), fonts).depth == 0,
        script_after(Seq::empty(), fonts).subpaths == Seq::<Seq<PathPoint>>::empty(),
        script_after(Seq::empty(), fonts).font == Seq::<char>::empty(),
        script_after(Seq::empty(), fonts).steps == Seq::<StepView>::empty(),
{
    assert(operations.push(operation).drop_last() =~= operations);
}

/// The text of a spaced text is that of its strings, in order: the texts of two arrays one after
/// the other, the text of one string, and nothing for any other object. Its parts are the glyphs of
/// its strings and its numbers in the same way.
pub proof fn law_spaced_text(
    a: Seq<ObjectView>,
    b: Seq<ObjectView>,
    bytes: Seq<u8>,
    o: ObjectView,
    font: Option<MetricsView>,
)
    ensures
        spaced_text(a + b) == spaced_text(a) + spaced_text(b),
        spaced_text(seq![ObjectView::Text(bytes)]) == lossy_text(bytes),
        !(o is Text) ==> spaced_text(seq![o]) == Seq::<char>::empty(),
        spaced_text(Seq::empty()) == Seq::<char>::empty(),
        spaced_parts(font, a + b) == spaced_parts(font, a) + spaced_parts(font, b),
        spaced_parts(font, seq![ObjectView::Text(bytes)]) == seq![
            SpacingView::Glyphs(glyphs_of(font, bytes)),
        ],
        o matches ObjectView::Integer(i) ==> spaced_parts(font, seq![o]) == seq![
            SpacingView::Adjust(Number::Integer(i)),
        ],
        o matches ObjectView::Real(bits) ==> spaced_parts(font, seq![o]) == seq![
            SpacingView::Adjust(Number::Real(bits)),
        ],
        !(o is Text) && !(o is Integer) && !(o is Real) ==> spaced_parts(font, seq![o]) == Seq::<
            SpacingView,
        >::empty(),
        spaced_parts(font, Seq::empty()) == Seq::<SpacingView>::empty(),
    decreases b.len(),
{
    if b.len() == 0 {
        assert(a + b =~= a);
        assert(spaced_text(a) + spaced_text(b) =~= spaced_text(a));
        assert(spaced_parts(font, a) + spaced_parts(font, b) =~= spaced_parts(font, a));
    } else {
        law_spaced_text(a, b.drop_last(), bytes, o, font);
        assert((a + b).drop_last() =~= a + b.drop_last());
        assert(spaced_text(a + b) =~= spaced_text(a) + spaced_text(b));
        assert(spaced_parts(font, a + b) =~= spaced_parts(font, a) + spaced_parts(font, b));
    }
    let text = seq![ObjectView::Text(bytes)];
    let one = seq![o];
    assert(text.drop_last() =~= Seq::<ObjectView>::empty());
    assert(one.drop_last() =~= Seq::<ObjectView>::empty());
    assert(spaced_text(text.drop_last()) =~= Seq::<char>::empty());
    assert(spaced_text(one.drop_last()) =~= Seq::<char>::empty());
    assert(spaced_text(text) =~= lossy_text(bytes));
    assert(spaced_parts(font, text.drop_last()) =~= Seq::<SpacingView>::empty());
    assert(spaced_parts(font, one.drop_last()) =~= Seq::<SpacingView>::empty());
    assert(spaced_parts(font, text) =~= seq![SpacingView::Glyphs(glyphs_of(font, bytes))]);
    if let ObjectView::Integer(i) = o {
        assert(spaced_parts(font, one) =~= seq![SpacingView::Adjust(Number::Integer(i))]);
    }
    if let ObjectView::Real(bits) = o {
        assert(spaced_parts(font, one) =~= seq![SpacingView::Adjust(Number::Real(bits))]);
    }
}

/// In a simple font, and without one, each byte is a glyph, and the byte 32 is a space; in a
/// composite font each two bytes are one, the first of them the higher, and none is a space. A
/// glyph has the width that the font gives its code, and half the font size without a font.
pub proof fn law_glyphs(font: Option<MetricsView>, a: Seq<u8>, b: Seq<u8>, high: u8, low: u8)
    ensures
        !(font matches Some(MetricsView::Composite { .. })) ==> {
            &&& glyphs_of(font, a + b) == glyphs_of(font, a) + glyphs_of(font, b)
            &&& glyphs_of(font, seq![low]) == seq![
                Glyph { width: width_in(font, low as u32), is_space: low == 32 },
            ]
        },
        font matches Some(MetricsView::Composite { .. }) ==> {
            &&& glyphs_of(font, seq![high, low] + b) == seq![
                Glyph { width: width_in(font, (256 * high + low) as u32), is_space: false },
            ] + glyphs_of(font, b)
            &&& glyphs_of(font, seq![low]) == seq![
                Glyph { width: width_in(font, low as u32), is_space: false },
            ]
        },
        glyphs_of(font, Seq::empty()) == Seq::<Glyph>::empty(),
        font is None ==> width_in(font, low as u32) == Number::Integer(500),
        font matches Some(metrics) ==> width_in(font, low as u32) == glyph_width(metrics, low as u32),
{
    assert((seq![high, low] + b).skip(2) =~= b);
    assert(glyphs_of(font, Seq::empty()) =~= Seq::<Glyph>::empty());
    if !(font matches Some(MetricsView::Composite { .. })) {
        assert(glyphs_of(font, a + b) =~= glyphs_of(font, a) + glyphs_of(font, b));
        assert(glyphs_of(font, seq![low]) =~= seq![
            Glyph { width: width_in(font, low as u32), is_space: low == 32 },
        ]);
    }
}

/// A font goes by its name: of fonts with one name the last, and a font with another name does not
/// count.
pub proof fn law_font_names(
    fonts: Seq<(Seq<char>, MetricsView)>,
    own: Seq<char>,
    metrics: MetricsView,
    name: Seq<char>,
)
    ensures
        font_named(fonts.push((own, metrics)), name) == if own == name {
            Some(metrics)
        } else {
            font_named(fonts, name)
        },
        font_named(Seq::empty(), name) is None,
{
    assert(fonts.push((own, metrics)).drop_last() =~= fonts);
}

/// `q` keeps the transformation, `Q` goes back to the one kept last and does nothing where none is
/// kept, `cm` with six numbers puts one before, and `BT` starts a text; none of them touches the
/// path or the font.
pub proof fn law_graphics_operators(
    state: ScriptState,
    operands: Seq<ObjectView>,
    fonts: Seq<(Seq<char>, MetricsView)>,
)
    ensures
        after_operation(state, ("q"@, operands), fonts) == (ScriptState {
            depth: state.depth + 1,
            steps: state.steps.push(StepView::Save),
            ..state
        }),
        state.depth > 0 ==> after_operation(state, ("Q"@, operands), fonts) == (ScriptState {
            depth: (state.depth - 1) as nat,
            steps: state.steps.push(StepView::Restore),
            ..state
        }),
        state.depth == 0 ==> after_operation(state, ("Q"@, operands), fonts) == state,
        operands.len() == 6 ==> after_operation(state, ("cm"@, operands), fonts) == (ScriptState {
            steps: state.steps.push(
                StepView::Concat(
                    Transform {
                        a: number_of(operands[0]),
                        b: number_of(operands[1]),
                        c: number_of(operands[2]),
                        d: number_of(operands[3]),
                        e: number_of(operands[4]),
                        f: number_of(operands[5]),
                    },
                ),
            ),
            ..state
        }),
        operands.len() != 6 ==> after_operation(state, ("cm"@, operands), fonts) == state,
        after_operation(state, ("BT"@, operands), fonts) == (ScriptState {
            steps: state.steps.push(StepView::BeginText),
            ..state
        }),
{
    law_operator_names("q"@);
}

/// A path is made of points: `m` starts a part, `l`, `c`, `v` and `y` go on with the last part to
/// their last point, `h` leads it back to its start, and `re` adds a part that goes round; each
/// only with the operands it needs, and none of them draws anything.
pub proof fn law_path_operators(
    state: ScriptState,
    operands: Seq<ObjectView>,
    fonts: Seq<(Seq<char>, MetricsView)>,
    before: Seq<Seq<PathPoint>>,
    part: Seq<PathPoint>,
    name: Seq<char>,
)
    requires
        name == "l"@ || name == "c"@ || name == "v"@ || name == "y"@,
    ensures
        ({
            let zero = Number::Integer(0);
            let at = |x: Number, y: Number|
                PathPoint {
                    x: Coordinate { base: x, offset: zero },
                    y: Coordinate { base: y, offset: zero },
                };
            let n = operands.len() as int;
            let on = after_operation(state, (name, operands), fonts);
            let moved = after_operation(state, ("m"@, operands), fonts);
            let round = after_operation(state, ("re"@, operands), fonts);
            let back = after_operation(state, ("h"@, operands), fonts);
            &&& on.steps == state.steps && on.depth == state.depth && on.font == state.font
            &&& moved.steps == state.steps && moved.depth == state.depth && moved.font == state.font
            &&& round.steps == state.steps && round.depth == state.depth && round.font == state.font
            &&& back.steps == state.steps && back.depth == state.depth && back.font == state.font
            &&& n == 2 ==> moved.subpaths == state.subpaths.push(
                seq![at(number_of(operands[0]), number_of(operands[1]))],
            )
            &&& n != 2 ==> moved.subpaths == state.subpaths
            &&& (n == 2 || (n > 2 && name != "l"@)) && state.subpaths == before.push(part)
                ==> on.subpaths == before.push(
                part.push(at(number_of(operands[n - 2]), number_of(operands[n - 1]))),
            )
            &&& (n == 2 || (n > 2 && name != "l"@)) && state.subpaths.len() == 0 ==> on.subpaths
                == seq![seq![at(number_of(operands[n - 2]), number_of(operands[n - 1]))]]
            &&& n < 2 || (n > 2 && name == "l"@) ==> on.subpaths == state.subpaths
            &&& state.subpaths == before.push(part) && part.len() > 0 ==> back.subpaths
                == before.push(part.push(part[0]))
            &&& state.subpaths.len() == 0 ==> back.subpaths == state.subpaths
            &&& state.subpaths == before.push(part) && part.len() == 0 ==> back.subpaths
                == state.subpaths
            &&& n == 4 ==> {
                let (x, y) = (number_of(operands[0]), number_of(operands[1]));
                let right = Coordinate { base: x, offset: number_of(operands[2]) };
                let top = Coordinate { base: y, offset: number_of(operands[3]) };
                let left = Coordinate { base: x, offset: zero };
                let bottom = Coordinate { base: y, offset: zero };
                round.subpaths == state.subpaths.push(
                    seq![
                        PathPoint { x: left, y: bottom },
                        PathPoint { x: right, y: bottom },
                        PathPoint { x: right, y: top },
                        PathPoint { x: left, y: top },
                        PathPoint { x: left, y: bottom },
                    ],
                )
            }
            &&& n != 4 ==> round.subpaths == state.subpaths
        }),
{
    law_operator_names(name);
    if state.subpaths == before.push(part) {
        assert(state.subpaths.drop_last() =~= before);
        assert(state.subpaths.last() == part);
    }
    reveal_strlit("l");
    reveal_strlit("c");
    reveal_strlit("v");
    reveal_strlit("y");
}

/// `S` and `s` draw the outline of the path, `f`, `F` and `f*` fill it, `B`, `B*`, `b` and `b*` do
/// both, and `n` neither; after each of them the path is gone.
pub proof fn law_paint_operators(
    state: ScriptState,
    operands: Seq<ObjectView>,
    fonts: Seq<(Seq<char>, MetricsView)>,
    name: Seq<char>,
)
    ensures
        ({
            let after = after_operation(state, (name, operands), fonts);
            let stroke = name == "S"@ || name == "s"@;
            let fill = name == "f"@ || name == "F"@ || name == "f*"@;
            let both = name == "B"@ || name == "B*"@ || name == "b"@ || name == "b*"@;
            &&& stroke || fill || both ==> after == (ScriptState {
                subpaths: Seq::empty(),
                steps: state.steps.push(
                    StepView::Paint {
                        subpaths: state.subpaths,
                        stroke: stroke || both,
                        fill: fill || both,
                    },
                ),
                ..state
            })
            &&& name == "n"@ ==> after == (ScriptState { subpaths: Seq::empty(), ..state })
        }),
{
    law_operator_names(name);
    reveal_strlit("S");
    reveal_strlit("s");
    reveal_strlit("f");
    reveal_strlit("F");
    reveal_strlit("f*");
    reveal_strlit("B");
    reveal_strlit("B*");
    reveal_strlit("b");
    reveal_strlit("b*");
    reveal_strlit("n");
}

/// `Tf` with a name and a number sets the font and its size; `Tc`, `Tw`, `Tz`, `TL` and `Ts` set
/// what they name to their first number; without their operands they do nothing.
pub proof fn law_text_settings(
    state: ScriptState,
    operands: Seq<ObjectView>,
    fonts: Seq<(Seq<char>, MetricsView)>,
)
    ensures
        ({
            let set = |step: StepView| ScriptState { steps: state.steps.push(step), ..state };
            let first = number_of(operands[0]);
            let font = after_operation(state, ("Tf"@, operands), fonts);
            &&& operands.len() > 0 ==> {
                &&& after_operation(state, ("Tc"@, operands), fonts) == set(StepView::CharSpacing(first))
                &&& after_operation(state, ("Tw"@, operands), fonts) == set(StepView::WordSpacing(first))
                &&& after_operation(state, ("Tz"@, operands), fonts) == set(
                    StepView::HorizontalScale(first),
                )
                &&& after_operation(state, ("TL"@, operands), fonts) == set(StepView::Leading(first))
                &&& after_operation(state, ("Ts"@, operands), fonts) == set(StepView::Rise(first))
            }
            &&& operands.len() == 0 ==> {
                &&& after_operation(state, ("Tc"@, operands), fonts) == state
                &&& after_operation(state, ("Tw"@, operands), fonts) == state
                &&& after_operation(state, ("Tz"@, operands), fonts) == state
                &&& after_operation(state, ("TL"@, operands), fonts) == state
                &&& after_operation(state, ("Ts"@, operands), fonts) == state
            }
            &&& operands.len() == 2 ==> {
                &&& font.steps == state.steps.push(StepView::FontSize(number_of(operands[1])))
                &&& font.depth == state.depth && font.subpaths == state.subpaths
                &&& operands[0] matches ObjectView::Name(name) ==> font.font == lossy_text(name)
                &&& !(operands[0] is Name) ==> font.font == state.font
            }
            &&& operands.len() != 2 ==> font == state
        }),
{
    law_operator_names("Tf"@);
}

/// `Td` and `TD` with two numbers start a line, set off by them, `T*` starts the next one, and
/// `Tm` with six numbers sets the place of the text; without their operands they do nothing.
pub proof fn law_text_moves(
    state: ScriptState,
    operands: Seq<ObjectView>,
    fonts: Seq<(Seq<char>, MetricsView)>,
)
    ensures
        ({
            let did = |step: StepView| ScriptState { steps: state.steps.push(step), ..state };
            let (x, y) = (number_of(operands[0]), number_of(operands[1]));
            let td = after_operation(state, ("Td"@, operands), fonts);
            let lead = after_operation(state, ("TD"@, operands), fonts);
            let tm = after_operation(state, ("Tm"@, operands), fonts);
            &&& td == if operands.len() == 2 {
                did(StepView::MoveLine(x, y))
            } else {
                state
            }
            &&& lead == if operands.len() == 2 {
                did(StepView::MoveLineAndLead(x, y))
            } else {
                state
            }
            &&& tm == if operands.len() == 6 {
                did(
                    StepView::SetMatrix(
                        Transform {
                            a: x,
                            b: y,
                            c: number_of(operands[2]),
                            d: number_of(operands[3]),
                            e: number_of(operands[4]),
                            f: number_of(operands[5]),
                        },
                    ),
                )
            } else {
                state
            }
            &&& after_operation(state, ("T*"@, operands), fonts) == did(StepView::NextLine)
        }),
{
    law_operator_names("Td"@);
}

/// `Tj` writes its string in the font that is set, `'` on the next line, and `"` on the next line
/// with the spacings of words and characters that it gives; `TJ` writes the strings of its array,
/// with the numbers between them. What is no string, or no array, writes nothing.
pub proof fn law_text_is_written(
    state: ScriptState,
    bytes: Seq<u8>,
    items: Seq<ObjectView>,
    first: ObjectView,
    second: ObjectView,
    other: ObjectView,
    rest: Seq<ObjectView>,
    fonts: Seq<(Seq<char>, MetricsView)>,
)
    requires
        !(other is Text),
        !(other is Array),
    ensures
        ({
            let text = ObjectView::Text(bytes);
            let font = font_named(fonts, state.font);
            let show = StepView::Show { text: lossy_text(bytes), glyphs: glyphs_of(font, bytes) };
            let spaced = StepView::ShowSpaced {
                text: spaced_text(items),
                parts: spaced_parts(font, items),
            };
            let did = |steps: Seq<StepView>| ScriptState { steps: state.steps + steps, ..state };
            &&& after_operation(state, ("Tj"@, seq![text] + rest), fonts) == did(seq![show])
            &&& after_operation(state, ("'"@, seq![text] + rest), fonts) == did(seq![StepView::NextLine, show])
            &&& after_operation(state, ("\""@, seq![first, second, text]), fonts) == did(
                seq![
                    StepView::WordSpacing(number_of(first)),
                    StepView::CharSpacing(number_of(second)),
                    StepView::NextLine,
                    show,
                ],
            )
            &&& after_operation(state, ("TJ"@, seq![ObjectView::Array(items)] + rest), fonts) == did(
                seq![spaced],
            )
            &&& after_operation(state, ("Tj"@, seq![other] + rest), fonts) == state
            &&& after_operation(state, ("TJ"@, seq![other] + rest), fonts) == state
            &&& after_operation(state, ("'"@, seq![other] + rest), fonts) == did(seq![StepView::NextLine])
            &&& after_operation(state, ("Tj"@, seq![ObjectView::Array(items)] + rest), fonts) == state
            &&& after_operation(state, ("TJ"@, seq![text] + rest), fonts) == state
            &&& after_operation(state, ("'"@, seq![ObjectView::Array(items)] + rest), fonts) == did(
                seq![StepView::NextLine],
            )
            &&& after_operation(
                state,
                ("\""@, seq![first, second, ObjectView::Array(items)]),
                fonts,
            ) == did(
                seq![
                    StepView::WordSpacing(number_of(first)),
                    StepView::CharSpacing(number_of(second)),
                    StepView::NextLine,
                ],
            )
            &&& after_operation(state, ("Tj"@, Seq::empty()), fonts) == state
            &&& after_operation(state, ("TJ"@, Seq::empty()), fonts) == state
            &&& after_operation(state, ("'"@, Seq::empty()), fonts) == did(seq![StepView::NextLine])
            &&& after_operation(state, ("\""@, Seq::empty()), fonts) == did(seq![StepView::NextLine])
            &&& after_operation(state, ("\""@, seq![first]), fonts) == did(seq![StepView::NextLine])
            &&& after_operation(state, ("\""@, seq![first, second]), fonts) == did(
                seq![StepView::NextLine],
            )
            &&& after_operation(state, ("\""@, seq![first, second, other]), fonts) == did(
                seq![
                    StepView::WordSpacing(number_of(first)),
                    StepView::CharSpacing(number_of(second)),
                    StepView::NextLine,
                ],
            )
            &&& rest.len() > 0 ==> after_operation(
                state,
                ("\""@, seq![first, second, other] + rest),
                fonts,
            ) == did(seq![StepView::NextLine])
            &&& rest.len() > 0 ==> after_operation(
                state,
                ("\""@, seq![first, second, text] + rest),
                fonts,
            ) == did(seq![StepView::NextLine, show])
        }),
{
    law_operator_names("Tj"@);
    let text = ObjectView::Text(bytes);
    let font = font_named(fonts, state.font);
    let show = StepView::Show { text: lossy_text(bytes), glyphs: glyphs_of(font, bytes) };
    let spaced = StepView::ShowSpaced {
        text: spaced_text(items),
        parts: spaced_parts(font, items),
    };
    let (word, char_step) = (
        StepView::WordSpacing(number_of(first)),
        StepView::CharSpacing(number_of(second)),
    );
    assert(state.steps.push(show) =~= state.steps + seq![show]);
    assert(state.steps.push(spaced) =~= state.steps + seq![spaced]);
    assert(state.steps.push(StepView::NextLine) =~= state.steps + seq![StepView::NextLine]);
    assert(state.steps.push(StepView::NextLine).push(show) =~= state.steps + seq![
        StepView::NextLine,
        show,
    ]);
    assert((seq![text] + rest)[0] == text);
    assert((seq![other] + rest)[0] == other);
    assert((seq![ObjectView::Array(items)] + rest)[0] == ObjectView::Array(items));
    assert((seq![first, second, text] + rest)[2] == text);
    assert(state.steps.push(word).push(char_step).push(StepView::NextLine) =~= state.steps + seq![
        word,
        char_step,
        StepView::NextLine,
    ]);
    assert(state.steps.push(word).push(char_step).push(StepView::NextLine).push(show)
        =~= state.steps + seq![word, char_step, StepView::NextLine, show]);
}

/// A text is as high as its font size, a point at least; a quarter of that, without its fraction,
/// lies below its base line; and positions beyond the range are held at its ends.
pub proof fn law_text_height(base_line: int, font_size: int, n: int)
    ensures
        ({
            let h = line_height(font_size);
            let below = base_line - lower_edge(base_line, font_size);
            &&& h >= 1_000_000
            &&& -1_000_000 <= font_size <= 1_000_000 ==> h == 1_000_000
            &&& font_size > 1_000_000 ==> h == font_size
            &&& font_size < -1_000_000 ==> h == -font_size
            &&& h - 4 < 4 * below <= h
            &&& i64::MIN <= held_in_range(n) <= i64::MAX
            &&& i64::MIN <= n <= i64::MAX ==> held_in_range(n) == n
            &&& n > i64::MAX ==> held_in_range(n) == i64::MAX
            &&& n < i64::MIN ==> held_in_range(n) == i64::MIN
        }),
{
}

proof fn lemma_extremes(positions: Seq<int>)
    requires
        positions.len() > 0,
    ensures
        positions.contains(lowest(positions)),
        positions.contains(highest(positions)),
        forall|i: int|
            0 <= i < positions.len() ==> lowest(positions) <= #[trigger] positions[i] <= highest(
                positions,
            ),
    decreases positions.len(),
{
    if positions.len() > 1 {
        let front = positions.drop_last();
        lemma_extremes(front);
        let a = choose|a: int| 0 <= a < front.len() && front[a] == lowest(front);
        let b = choose|b: int| 0 <= b < front.len() && front[b] == highest(front);
        assert(positions[a] == front[a] && positions[b] == front[b]);
        assert(positions[positions.len() - 1] == positions.last());
        assert forall|i: int| 0 <= i < positions.len() implies lowest(positions)
            <= #[trigger] positions[i] <= highest(positions) by {
            if i < front.len() {
                assert(front[i] == positions[i]);
            }
        }
    } else {
        assert(positions[0] == lowest(positions));
    }
}

/// A part of a path counts as rules where it has two points at least and is stroked, or filled and
/// thin: no two of its points are more than two and a half points apart across, or none up and
/// down.
pub proof fn law_rules_among_paths(points: Seq<(i64, i64)>, stroke: bool, fill: bool)
    ensures
        counts_as_rule(points, stroke, fill) <==> points.len() >= 2 && (stroke || (fill && ((forall|
            i: int,
            j: int,
        |
            0 <= i < points.len() && 0 <= j < points.len() ==> (#[trigger] points[i]).0 - (
            #[trigger] points[j]).0 <= 2_500_000) || (forall|i: int, j: int|
            0 <= i < points.len() && 0 <= j < points.len() ==> (#[trigger] points[i]).1 - (
            #[trigger] points[j]).1 <= 2_500_000)))),
{
    if points.len() >= 2 {
        let xs = x_positions(points);
        let ys = y_positions(points);
        lemma_extremes(xs);
        lemma_extremes(ys);
        let (xl, xh) = (
            choose|a: int| 0 <= a < xs.len() && xs[a] == lowest(xs),
            choose|a: int| 0 <= a < xs.len() && xs[a] == highest(xs),
        );
        let (yl, yh) = (
            choose|a: int| 0 <= a < ys.len() && ys[a] == lowest(ys),
            choose|a: int| 0 <= a < ys.len() && ys[a] == highest(ys),
        );
        assert(points[xh].0 - points[xl].0 == extent(xs));
        assert(points[yh].1 - points[yl].1 == extent(ys));
        assert forall|i: int, j: int| 0 <= i < points.len() && 0 <= j < points.len() implies (
        #[trigger] points[i]).0 - (#[trigger] points[j]).0 <= extent(xs) by {
            assert(xs[i] <= highest(xs) && xs[j] >= lowest(xs));
        }
        assert forall|i: int, j: int| 0 <= i < points.len() && 0 <= j < points.len() implies (
        #[trigger] points[i]).1 - (#[trigger] points[j]).1 <= extent(ys) by {
            assert(ys[i] <= highest(ys) && ys[j] >= lowest(ys));
        }
    }
}

/// The lines of a part of a path lead from each of its points to the next.
pub proof fn law_lines_of_a_path(points: Seq<(i64, i64)>, p: (i64, i64), q: (i64, i64))
    ensures
        segments(points.push(p).push(q)) == segments(points.push(p)).push(
            LineSegment { x0: p.0, y0: p.1, x1: q.0, y1: q.1 },
        ),
        segments(seq![p]) == Seq::<LineSegment>::empty(),
{
    let all = points.push(p).push(q);
    assert(segments(all) =~= segments(points.push(p)).push(
        LineSegment { x0: p.0, y0: p.1, x1: q.0, y1: q.1 },
    ));
    assert(segments(seq![p]) =~= Seq::<LineSegment>::empty());
}

/// A page without corners is as large as US Letter, 612 by 792 points.
pub proof fn law_page_corners(objects: Map<(u32, u16), ObjectView>, page: (u32, u16))
    ensures
        page_box(objects, page) == match inherited_box(objects, page, 64) {
            Some(corners) => corners,
            None => MediaBox {
                x0: Number::Integer(0),
                y0: Number::Integer(0),
                x1: Number::Integer(612),
                y1: Number::Integer(792),
            },
        },
{
}

/// A file gives one script for each of its pages, in page order and numbered from 1 on, with the
/// corners of the page and the steps of what its content decodes to.
pub proof fn law_pages_are_read(
    scripts: Seq<PageScript>,
    objects: Map<(u32, u16), ObjectView>,
    pages: Seq<(u32, u16)>,
    standard: StandardView,
    i: int,
) -> (content: Seq<u8>)
    requires
        are_scripts_of(scripts, objects, pages, standard),
        0 <= i < pages.len(),
    ensures
        scripts.len() == pages.len(),
        scripts[i].page_num == i + 1,
        scripts[i].media_box == page_box(objects, pages[i]),
        streams_decode(objects, page_streams(objects, pages[i]), content),
        step_views(scripts[i].steps@) == script_after(
            match content_operations(content) {
                Some(operations) => operations,
                None => Seq::empty(),
            },
            font_table(objects, fonts_of_page(objects, pages[i]), standard),
        ).steps,
{
    assert(is_script_of(scripts[i], objects, pages[i], standard));
    choose|content: Seq<u8>|
        streams_decode(objects, page_streams(objects, pages[i]), content) && step_views(
            scripts[i].steps@,
        ) == #[trigger] page_steps(objects, pages[i], standard, content)
}

/// The steps of a script are seen as they are, each in its place and with all its parts.
pub proof fn law_steps_are_seen(steps: Seq<Step>, i: int)
    requires
        0 <= i < steps.len(),
    ensures
        step_views(steps).len() == steps.len(),
        match steps[i] {
            Step::Save => step_views(steps)[i] is Save,
            Step::Restore => step_views(steps)[i] is Restore,
            Step::Concat(t) => step_views(steps)[i] == StepView::Concat(t),
            Step::BeginText => step_views(steps)[i] is BeginText,
            Step::Paint { subpaths, stroke, fill } => {
                let seen = step_views(steps)[i];
                &&& seen is Paint
                &&& seen->stroke == stroke
                &&& seen->fill == fill
                &&& seen->subpaths.len() == subpaths@.len()
                &&& forall|k: int|
                    0 <= k < subpaths@.len() ==> #[trigger] seen->subpaths[k] == subpaths@[k]@
            },
            Step::FontSize(n) => step_views(steps)[i] == StepView::FontSize(n),
            Step::CharSpacing(n) => step_views(steps)[i] == StepView::CharSpacing(n),
            Step::WordSpacing(n) => step_views(steps)[i] == StepView::WordSpacing(n),
            Step::HorizontalScale(n) => step_views(steps)[i] == StepView::HorizontalScale(n),
            Step::Leading(n) => step_views(steps)[i] == StepView::Leading(n),
            Step::Rise(n) => step_views(steps)[i] == StepView::Rise(n),
            Step::MoveLine(x, y) => step_views(steps)[i] == StepView::MoveLine(x, y),
            Step::MoveLineAndLead(x, y) => step_views(steps)[i] == StepView::MoveLineAndLead(x, y),
            Step::SetMatrix(t) => step_views(steps)[i] == StepView::SetMatrix(t),
            Step::NextLine => step_views(steps)[i] is NextLine,
            Step::Show { text, glyphs } => {
                let seen = step_views(steps)[i];
                &&& seen is Show
                &&& seen->Show_text == text@
                &&& seen->glyphs == glyphs@
            },
            Step::ShowSpaced { text, parts } => {
                let seen = step_views(steps)[i];
                &&& seen is ShowSpaced
                &&& seen->ShowSpaced_text == text@
                &&& seen->parts.len() == parts@.len()
                &&& forall|k: int|
                    0 <= k < parts@.len() ==> match parts@[k] {
                        Spacing::Glyphs(glyphs) => #[trigger] seen->parts[k] == SpacingView::Glyphs(
                            glyphs@,
                        ),
                        Spacing::Adjust(n) => seen->parts[k] == SpacingView::Adjust(n),
                    }
            },
        },
{
}

/// A glyph of any code has the width that its font gives the code, and half the font size without a
/// font.
pub proof fn law_widths_of_glyphs(font: Option<&FontMetrics>, metrics: MetricsView, code: u32)
    ensures
        width_in(None, code) == Number::Integer(500),
        width_in(Some(metrics), code) == glyph_width(metrics, code),
        font is None ==> metrics_view(font) is None,
        font matches Some(own) ==> metrics_view(font) == Some(own@),
{
}

/// Bytes are a file where they can be read as one, and then have its objects and its pages; other
/// bytes have none.
pub proof fn law_files(
    bytes: Seq<u8>,
    scripts: Seq<PageScript>,
    objects: Map<(u32, u16), ObjectView>,
    pages: Seq<(u32, u16)>,
    standard: StandardView,
)
    ensures
        match pdf_parse(bytes) {
            Ok((trailer, held)) => is_file(bytes) && file_objects(bytes) == held && file_pages(bytes)
                == page_tree(trailer, held),
            Err(_) => !is_file(bytes) && file_pages(bytes).len() == 0,
        },
        are_scripts_of(scripts, objects, pages, standard) ==> are_scripts(scripts, standard),
        are_scripts_of(Seq::empty(), objects, Seq::empty(), standard),
{
}

/// A script is that of a page only with the corners of the page and with the steps of something
/// that its content streams decode to; scripts are those of a file only where there is one for each
/// page, numbered from 1 on.
pub proof fn law_scripts_of_pages(
    scripts: Seq<PageScript>,
    objects: Map<(u32, u16), ObjectView>,
    pages: Seq<(u32, u16)>,
    standard: StandardView,
    content: Seq<u8>,
    script: PageScript,
    page: (u32, u16),
    i: int,
)
    ensures
        script.media_box != page_box(objects, page) ==> !is_script_of(
            script,
            objects,
            page,
            standard,
        ),
        script.media_box == page_box(objects, page) && streams_decode(
            objects,
            page_streams(objects, page),
            content,
        ) && step_views(script.steps@) == script_after(
            operations_in(content),
            font_table(objects, fonts_of_page(objects, page), standard),
        ).steps ==> is_script_of(script, objects, page, standard),
        scripts.len() != pages.len() ==> !are_scripts_of(scripts, objects, pages, standard),
        0 <= i < scripts.len() && (scripts[i].page_num != i + 1 || !is_script_of(
            scripts[i],
            objects,
            pages[i],
            standard,
        )) ==> !are_scripts_of(scripts, objects, pages, standard),
{
    if step_views(script.steps@) == script_after(
        operations_in(content),
        font_table(objects, fonts_of_page(objects, page), standard),
    ).steps {
        assert(step_views(script.steps@) == page_steps(objects, page, standard, content));
    }
}

} // verus!
