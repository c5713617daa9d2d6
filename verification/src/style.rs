//! Styled text: the colors of the view, spans of one style and lines of spans.

use vstd::prelude::*;

use crate::diff::Kind;

verus! {

/// A terminal color.
#[derive(Clone, Copy, Debug, PartialEq, Eq, Structural)]
pub enum Color {
    DarkGray,
    Green,
    Red,
    Rgb(u8, u8, u8),
    Indexed(u8),
}

/// How a piece of text is shown.
#[derive(Clone, Copy, Debug, PartialEq, Eq, Structural)]
pub struct Style {
    pub fg: Option<Color>,
    pub bg: Option<Color>,
    pub bold: bool,
    pub reversed: bool,
}

/// A piece of text in one style.
#[derive(Clone, Debug, PartialEq, Eq)]
pub struct Span {
    pub content: String,
    pub style: Style,
}

/// A line of text: a style of its own, and spans whose styles go over it.
#[derive(Clone, Debug, PartialEq, Eq)]
pub struct Line {
    pub style: Style,
    pub spans: Vec<Span>,
}

/// A span, by its contents.
pub struct SpanView {
    pub content: Seq<char>,
    pub style: Style,
}

/// A line, by its contents.
pub struct LineView {
    pub style: Style,
    pub spans: Seq<SpanView>,
}

impl View for Span {
    type V = SpanView;

    open spec fn view(&self) -> SpanView {
        SpanView { content: self.content@, style: self.style }
    }
}

/// The spans, by their contents.
pub open spec fn span_views(spans: Seq<Span>) -> Seq<SpanView> {
    spans.map_values(|s: Span| s@)
}

impl View for Line {
    type V = LineView;

    open spec fn view(&self) -> LineView {
        LineView { style: self.style, spans: span_views(self.spans@) }
    }
}

/// The lines, by their contents.
pub open spec fn line_views(lines: Seq<Line>) -> Seq<LineView> {
    lines.map_values(|l: Line| l@)
}

/// Appending a span appends its contents.
pub proof fn lemma_span_views_push(spans: Seq<Span>, span: Span)
    ensures
        span_views(spans.push(span)) == span_views(spans).push(span@),
{
    assert(span_views(spans.push(span)) =~= span_views(spans).push(span@));
}

/// Appending a line appends its contents.
pub proof fn lemma_line_views_push(lines: Seq<Line>, line: Line)
    ensures
        line_views(lines.push(line)) == line_views(lines).push(line@),
{
    assert(line_views(lines.push(line)) =~= line_views(lines).push(line@));
}

/// The terminal's own style.
#[verifier::allow_in_spec]
pub fn plain() -> Style
    returns
        (Style { fg: None, bg: None, bold: false, reversed: false }),
{
    Style { fg: None, bg: None, bold: false, reversed: false }
}

/// Asides: hunk headers, raw lines, the divider, the footer.
#[verifier::allow_in_spec]
pub fn dim() -> Style
    returns
        (Style { fg: Some(Color::DarkGray), bg: None, bold: false, reversed: false }),
{
    Style { fg: Some(Color::DarkGray), bg: None, bold: false, reversed: false }
}

/// The band of a hunk header: a muted blue.
#[verifier::allow_in_spec]
pub fn hunk_band() -> Style
    returns
        (Style {
            fg: Some(Color::DarkGray),
            bg: Some(Color::Rgb(20, 34, 56)),
            bold: false,
            reversed: false,
        }),
{
    Style {
        fg: Some(Color::DarkGray),
        bg: Some(Color::Rgb(20, 34, 56)),
        bold: false,
        reversed: false,
    }
}

/// The bar of a file header.
#[verifier::allow_in_spec]
pub fn bar() -> Style
    returns
        (Style { fg: None, bg: Some(Color::Indexed(236)), bold: false, reversed: false }),
{
    Style { fg: None, bg: Some(Color::Indexed(236)), bold: false, reversed: false }
}

/// What is absent on one side.
#[verifier::allow_in_spec]
pub fn dead() -> Style
    returns
        (Style { fg: None, bg: Some(Color::Indexed(234)), bold: false, reversed: false }),
{
    Style { fg: None, bg: Some(Color::Indexed(234)), bold: false, reversed: false }
}

/// A status message: accent blue.
#[verifier::allow_in_spec]
pub fn success() -> Style
    returns
        (Style { fg: Some(Color::Rgb(88, 166, 255)), bg: None, bold: true, reversed: false }),
{
    Style { fg: Some(Color::Rgb(88, 166, 255)), bg: None, bold: true, reversed: false }
}

/// An error message: bright red.
#[verifier::allow_in_spec]
pub fn failure() -> Style
    returns
        (Style { fg: Some(Color::Rgb(248, 81, 73)), bg: None, bold: false, reversed: false }),
{
    Style { fg: Some(Color::Rgb(248, 81, 73)), bg: None, bold: false, reversed: false }
}

/// The tint of a line: red and green at 15% over a dark page.
pub open spec fn base_tint(kind: Kind) -> Style {
    match kind {
        Kind::Ctx => plain(),
        Kind::Del => Style { bg: Some(Color::Rgb(48, 27, 31)), ..plain() },
        Kind::Add => Style { bg: Some(Color::Rgb(18, 38, 30)), ..plain() },
    }
}

/// The tint of emphasised words: red and green at 40%, in bold.
pub open spec fn emph_tint(kind: Kind) -> Style {
    match kind {
        Kind::Ctx => plain(),
        Kind::Del => Style { bg: Some(Color::Rgb(107, 43, 43)), bold: true, ..plain() },
        Kind::Add => Style { bg: Some(Color::Rgb(26, 74, 41)), bold: true, ..plain() },
    }
}

/// The tint of a line.
pub fn base_style(kind: Kind) -> (s: Style)
    ensures
        s == base_tint(kind),
{
    match kind {
        Kind::Ctx => plain(),
        Kind::Del => Style { bg: Some(Color::Rgb(48, 27, 31)), ..plain() },
        Kind::Add => Style { bg: Some(Color::Rgb(18, 38, 30)), ..plain() },
    }
}

/// The tint of emphasised words.
pub fn emph_style(kind: Kind) -> (s: Style)
    ensures
        s == emph_tint(kind),
{
    match kind {
        Kind::Ctx => plain(),
        Kind::Del => Style { bg: Some(Color::Rgb(107, 43, 43)), bold: true, ..plain() },
        Kind::Add => Style { bg: Some(Color::Rgb(26, 74, 41)), bold: true, ..plain() },
    }
}

} // verus!
