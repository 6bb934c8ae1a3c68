//! What a slide looks like on the terminal: the styled lines of the main
//! stage and of the speaker panel, as plain values that a terminal backend
//! draws one for one.

use vstd::prelude::*;
use crate::inline::{parse_inline_spec, parse_inline_with};
use crate::parser::{
    contains_string, elements_view, spans_view, strings_view, ElementView, Slide, SlideElement, SpanView,
    TextSpan,
};
use crate::text::{chars_of, lines, split_lines, string_of, vecs_view};
use crate::ui::{clock_text, decimal, format_seconds};
use crate::theme::{TextStyle, ThemeColor, ThemeStyles};
use crate::ui::{
    image_label, inline_width, kind_and_text, lines_view, parts_view, parts_width,
    resolve_image_text, span_to_kind_and_text, str_width, str_width_of, wrap_spans, wrap_spans_spec,
    wrap_with_prefix, wrap_with_prefix_spec, SpanKind,
};

verus! {

/// How a piece of text is drawn.
#[derive(Debug, Clone, Copy, PartialEq, Eq)]
pub struct SpanStyle {
    pub fg: Option<ThemeColor>,
    pub bg: Option<ThemeColor>,
    pub bold: bool,
    pub italic: bool,
    pub underlined: bool,
}

/// A piece of text and how it is drawn.
#[derive(Debug, Clone, PartialEq)]
pub struct StyledText {
    pub text: String,
    pub style: SpanStyle,
}

/// The values of a line of styled pieces.
pub open spec fn styled_view(v: Seq<StyledText>) -> Seq<(Seq<char>, SpanStyle)> {
    v.map_values(|p: StyledText| (p.text@, p.style))
}

/// A theme style as a drawing style.
pub open spec fn base_of(t: TextStyle) -> SpanStyle {
    SpanStyle { fg: t.fg, bg: t.bg, bold: t.bold, italic: false, underlined: false }
}

/// The style of inline code: yellow on dark grey.
pub open spec fn code_base() -> SpanStyle {
    SpanStyle {
        fg: Some(ThemeColor::Yellow),
        bg: Some(ThemeColor::DarkGray),
        bold: false,
        italic: false,
        underlined: false,
    }
}

/// The drawing style of a theme style.
pub fn style_of(t: TextStyle) -> (s: SpanStyle)
    ensures
        s == base_of(t),
{
    SpanStyle { fg: t.fg, bg: t.bg, bold: t.bold, italic: false, underlined: false }
}

/// The styled pieces for the spans found inside inline code: all in the code
/// style (made bold or italic as the spans are), links by their text, images
/// by their label; empty texts are dropped.
pub open spec fn code_pieces(spans: Seq<SpanView>, existing: Seq<Seq<char>>) -> Seq<(Seq<char>, SpanStyle)>
    decreases spans.len(),
{
    if spans.len() == 0 {
        Seq::empty()
    } else {
        let cb = code_base();
        let (t, st) = match spans.last() {
            SpanView::Normal(t) => (t, cb),
            SpanView::Bold(t) => (t, SpanStyle { bold: true, ..cb }),
            SpanView::Italic(t) => (t, SpanStyle { italic: true, ..cb }),
            SpanView::BoldItalic(t) => (t, SpanStyle { bold: true, italic: true, ..cb }),
            SpanView::InlineCode(t) => (t, cb),
            SpanView::Link { text, url: _ } => (text, cb),
            SpanView::Image { alt, src } => (image_label(alt, src, existing.contains(src)).0, cb),
        };
        code_pieces(spans.drop_last(), existing) + if t.len() > 0 {
            seq![(t, st)]
        } else {
            Seq::empty()
        }
    }
}

/// The styled pieces of one laid-out piece in the style `base`.
pub open spec fn rich_piece(part: (SpanKind, Seq<char>), base: SpanStyle, existing: Seq<Seq<char>>) -> Seq<
    (Seq<char>, SpanStyle),
> {
    let (kind, text) = part;
    if text.len() == 0 {
        Seq::empty()
    } else {
        match kind {
            SpanKind::Normal => seq![(text, base)],
            SpanKind::Bold => seq![(text, SpanStyle { bold: true, ..base })],
            SpanKind::Italic => seq![(text, SpanStyle { italic: true, ..base })],
            SpanKind::BoldItalic => seq![(text, SpanStyle { bold: true, italic: true, ..base })],
            SpanKind::InlineCode => code_pieces(parse_inline_spec(text), existing),
            SpanKind::Underline => seq![(text, SpanStyle { underlined: true, ..base })],
        }
    }
}

/// The styled pieces of laid-out pieces in the style `base`.
pub open spec fn rich_spans(parts: Seq<(SpanKind, Seq<char>)>, base: SpanStyle, existing: Seq<Seq<char>>) -> Seq<
    (Seq<char>, SpanStyle),
>
    decreases parts.len(),
{
    if parts.len() == 0 {
        Seq::empty()
    } else {
        rich_spans(parts.drop_last(), base, existing) + rich_piece(parts.last(), base, existing)
    }
}

fn push_styled(out: &mut Vec<StyledText>, text: String, style: SpanStyle)
    ensures
        styled_view(final(out)@) == styled_view(old(out)@) + if text@.len() > 0 {
            seq![(text@, style)]
        } else {
            Seq::<(Seq<char>, SpanStyle)>::empty()
        },
{
    if !text.as_str().is_empty() {
        let ghost before = out@;
        let ghost tv = text@;
        out.push(StyledText { text, style });
        assert(styled_view(out@) =~= styled_view(before).push((tv, style)));
    } else {
        assert(styled_view(out@) =~= styled_view(out@) + Seq::<(Seq<char>, SpanStyle)>::empty());
    }
}

fn append_code_pieces(out: &mut Vec<StyledText>, spans: &Vec<TextSpan>, existing: &Vec<String>)
    ensures
        styled_view(final(out)@) == styled_view(old(out)@) + code_pieces(spans_view(spans@), strings_view(existing@)),
{
    let ghost sv = spans_view(spans@);
    let ghost ex = strings_view(existing@);
    let ghost start = styled_view(out@);
    let mut k: usize = 0;
    while k < spans.len()
        invariant
            k <= spans.len(),
            sv == spans_view(spans@),
            ex == strings_view(existing@),
            styled_view(out@) == start + code_pieces(sv.take(k as int), ex),
        decreases spans.len() - k,
    {
        assert(sv.take(k + 1).drop_last() =~= sv.take(k as int));
        let ghost mid = styled_view(out@);
        let cb = SpanStyle {
            fg: Some(ThemeColor::Yellow),
            bg: Some(ThemeColor::DarkGray),
            bold: false,
            italic: false,
            underlined: false,
        };
        match &spans[k] {
            TextSpan::Normal(t) => push_styled(out, t.clone(), cb),
            TextSpan::Bold(t) => push_styled(out, t.clone(), SpanStyle { bold: true, ..cb }),
            TextSpan::Italic(t) => push_styled(out, t.clone(), SpanStyle { italic: true, ..cb }),
            TextSpan::BoldItalic(t) => push_styled(
                out,
                t.clone(),
                SpanStyle { bold: true, italic: true, ..cb },
            ),
            TextSpan::InlineCode(t) => push_styled(out, t.clone(), cb),
            TextSpan::Link { text, url: _ } => push_styled(out, text.clone(), cb),
            TextSpan::Image { alt, src } => {
                let found = contains_string(existing, src);
                let (label, _underline) = resolve_image_text(alt.as_str(), src.as_str(), found);
                push_styled(out, label, cb);
            },
        }
        assert(styled_view(out@) =~= start + code_pieces(sv.take(k + 1), ex));
        k = k + 1;
    }
    assert(sv.take(k as int) =~= sv);
}

/// The styled pieces of laid-out pieces drawn in the style `base`: bold,
/// italic and underlined pieces add their emphasis to it, and inline code is
/// drawn in the code style with the formatting inside it; `existing` lists
/// the image sources that name existing files.
pub fn build_rich_spans(parts: &Vec<(SpanKind, String)>, base: SpanStyle, existing: &Vec<String>) -> (out:
    Vec<StyledText>)
    ensures
        styled_view(out@) == rich_spans(parts_view(parts@), base, strings_view(existing@)),
{
    let ghost pv = parts_view(parts@);
    let ghost ex = strings_view(existing@);
    let mut out: Vec<StyledText> = Vec::new();
    let mut k: usize = 0;
    while k < parts.len()
        invariant
            k <= parts.len(),
            pv == parts_view(parts@),
            ex == strings_view(existing@),
            styled_view(out@) == rich_spans(pv.take(k as int), base, ex),
        decreases parts.len() - k,
    {
        assert(pv.take(k + 1).drop_last() =~= pv.take(k as int));
        let kind = parts[k].0;
        let text = &parts[k].1;
        let ghost before = styled_view(out@);
        if !text.as_str().is_empty() {
            match kind {
                SpanKind::Normal => push_styled(&mut out, text.clone(), base),
                SpanKind::Bold => push_styled(&mut out, text.clone(), SpanStyle { bold: true, ..base }),
                SpanKind::Italic => push_styled(&mut out, text.clone(), SpanStyle { italic: true, ..base }),
                SpanKind::BoldItalic => push_styled(
                    &mut out,
                    text.clone(),
                    SpanStyle { bold: true, italic: true, ..base },
                ),
                SpanKind::InlineCode => {
                    let chars = chars_of(text.as_str());
                    let inner = parse_inline_with(&chars);
                    append_code_pieces(&mut out, &inner, existing);
                },
                SpanKind::Underline => push_styled(
                    &mut out,
                    text.clone(),
                    SpanStyle { underlined: true, ..base },
                ),
            }
        } else {
            assert(styled_view(out@) =~= before + rich_piece(pv[k as int], base, ex));
        }
        assert(styled_view(out@) =~= rich_spans(pv.take(k + 1), base, ex));
        k = k + 1;
    }
    assert(pv.take(k as int) =~= pv);
    out
}


/// Whether a span is an image whose source is among `existing`.
pub open spec fn image_found(s: SpanView, existing: Seq<Seq<char>>) -> bool {
    match s {
        SpanView::Image { alt: _, src } => existing.contains(src),
        _ => false,
    }
}

/// The laid-out pieces of spans, given the image sources that name existing files.
pub open spec fn parts_of(spans: Seq<SpanView>, existing: Seq<Seq<char>>) -> Seq<(SpanKind, Seq<char>)> {
    spans.map_values(|s: SpanView| kind_and_text(s, image_found(s, existing)))
}

/// Lays out spans, given the image sources that name existing files.
pub fn spans_to_parts(spans: &Vec<TextSpan>, existing: &Vec<String>) -> (parts: Vec<(SpanKind, String)>)
    ensures
        parts_view(parts@) == parts_of(spans_view(spans@), strings_view(existing@)),
{
    let ghost sv = spans_view(spans@);
    let ghost ex = strings_view(existing@);
    let mut parts: Vec<(SpanKind, String)> = Vec::new();
    let mut k: usize = 0;
    while k < spans.len()
        invariant
            k <= spans.len(),
            sv == spans_view(spans@),
            ex == strings_view(existing@),
            parts_view(parts@) == parts_of(sv, ex).take(k as int),
        decreases spans.len() - k,
    {
        let found = match &spans[k] {
            TextSpan::Image { alt: _, src } => contains_string(existing, src),
            _ => false,
        };
        let part = span_to_kind_and_text(&spans[k], found);
        let ghost before = parts@;
        parts.push(part);
        assert(parts_view(parts@) =~= parts_of(sv, ex).take(k + 1)) by {
            assert(parts_view(parts@) =~= parts_view(before).push((part.0, part.1@)));
        }
        k = k + 1;
    }
    assert(parts_of(sv, ex).take(k as int) =~= parts_of(sv, ex));
    parts
}

/// A drawn line.
pub type LineView = Seq<(Seq<char>, SpanStyle)>;

/// The values of drawn lines.
pub open spec fn rows_view(v: Seq<Vec<StyledText>>) -> Seq<LineView> {
    v.map_values(|l: Vec<StyledText>| styled_view(l@))
}

/// A wrapped line after its prefix: the prefix (when not empty) in the style
/// `ps`, then the text in the style `bs`.
pub open spec fn prefixed_row(
    x: (Seq<char>, Seq<(SpanKind, Seq<char>)>),
    ps: SpanStyle,
    bs: SpanStyle,
    existing: Seq<Seq<char>>,
) -> LineView {
    (if x.0.len() > 0 {
        seq![(x.0, ps)]
    } else {
        Seq::empty()
    }) + rich_spans(x.1, bs, existing)
}

/// The drawing style of a heading of the given level.
pub open spec fn heading_style_for(level: u8, heading: TextStyle) -> SpanStyle {
    let b = base_of(heading);
    if level == 1 {
        SpanStyle { bold: true, italic: true, ..b }
    } else if level == 2 {
        SpanStyle { bold: true, ..b }
    } else {
        b
    }
}

/// The indentation of a heading of the given level.
pub open spec fn indent_for(level: u8) -> Seq<char> {
    if level == 1 || level == 2 {
        ""@
    } else if level == 3 {
        "  "@
    } else if level == 4 {
        "    "@
    } else if level == 5 {
        "      "@
    } else {
        "        "@
    }
}

/// The widest display width among lines (0 for none).
pub open spec fn widest(ls: Seq<Seq<char>>) -> int
    decreases ls.len(),
{
    if ls.len() == 0 {
        0
    } else {
        let w = widest(ls.drop_last());
        let x = str_width_of(ls.last()) as int;
        if x > w {
            x
        } else {
            w
        }
    }
}

/// `n` copies of `c`.
pub open spec fn repeat(c: char, n: int) -> Seq<char> {
    Seq::new(n as nat, |i: int| c)
}

/// The width of a code box: four columns more than its widest line, but no
/// more than the screen allows (four columns less than `max_width`, at least
/// ten) and no less than ten.
pub open spec fn code_box_width(widest_line: int, max_width: int) -> int {
    let max_box = if max_width - 4 > 10 {
        max_width - 4
    } else {
        10
    };
    let w = if widest_line + 4 < max_box {
        widest_line + 4
    } else {
        max_box
    };
    if w > 10 {
        w
    } else {
        10
    }
}

/// One drawn row of code inside a box of width `bw`: the left border, the
/// text, padding up to the right border, and the right border.
pub open spec fn code_row(lp: Seq<(SpanKind, Seq<char>)>, bw: int, cs: SpanStyle, existing: Seq<Seq<char>>) -> LineView {
    let content = if parts_width(lp) <= usize::MAX {
        parts_width(lp)
    } else {
        usize::MAX as int
    };
    let pad = if bw - 4 > content {
        bw - 4 - content
    } else {
        0
    };
    seq![("  │ "@, cs)] + rich_spans(lp, cs, existing) + (if pad > 0 {
        seq![(repeat(' ', pad), cs)]
    } else {
        Seq::empty()
    }) + seq![(" │"@, cs)]
}

/// The drawn rows of one line of code.
pub open spec fn code_line_rows(line: Seq<char>, bw: int, cs: SpanStyle, existing: Seq<Seq<char>>) -> Seq<LineView> {
    wrap_spans_spec(parts_of(parse_inline_spec(line), existing), bw - 4).map_values(
        |lp: Seq<(SpanKind, Seq<char>)>| code_row(lp, bw, cs, existing),
    )
}

/// The drawn rows of lines of code.
pub open spec fn code_body(ls: Seq<Seq<char>>, bw: int, cs: SpanStyle, existing: Seq<Seq<char>>) -> Seq<LineView>
    decreases ls.len(),
{
    if ls.len() == 0 {
        Seq::empty()
    } else {
        code_body(ls.drop_last(), bw, cs, existing) + code_line_rows(ls.last(), bw, cs, existing)
    }
}

/// The drawn lines of a code block: an empty line, the box with the code
/// inside it, and an empty line.
pub open spec fn code_block_rows(code: Seq<char>, cs: SpanStyle, max_width: int, existing: Seq<Seq<char>>) -> Seq<LineView> {
    let ls = lines(code);
    let bw = code_box_width(widest(ls), max_width);
    let e: LineView = Seq::empty();
    seq![e, seq![("  ┌"@ + repeat('─', bw - 2) + "┐"@, cs)]] + code_body(ls, bw, cs, existing) + seq![
        seq![("  └"@ + repeat('─', bw - 2) + "┘"@, cs)],
        e,
    ]
}

/// The drawn lines of one slide element on a stage `max_width` columns wide.
pub open spec fn element_rows(e: ElementView, theme: ThemeStyles, max_width: int, existing: Seq<Seq<char>>) -> Seq<LineView> {
    let empty: LineView = Seq::empty();
    match e {
        ElementView::Heading(level, spans) => {
            let hs = heading_style_for(level, theme.heading_style);
            let ind = indent_for(level);
            wrap_with_prefix_spec(parts_of(spans, existing), ind, ind, max_width).map_values(
                |x: (Seq<char>, Seq<(SpanKind, Seq<char>)>)| prefixed_row(x, hs, hs, existing),
            ).push(empty)
        },
        ElementView::ListItem(spans) => wrap_with_prefix_spec(
            parts_of(spans, existing),
            "  • "@,
            "    "@,
            max_width,
        ).map_values(
            |x: (Seq<char>, Seq<(SpanKind, Seq<char>)>)|
                prefixed_row(x, base_of(theme.list_style), base_of(theme.paragraph_style), existing),
        ),
        ElementView::Paragraph(spans) => wrap_spans_spec(parts_of(spans, existing), max_width).map_values(
            |lp: Seq<(SpanKind, Seq<char>)>| rich_spans(lp, base_of(theme.paragraph_style), existing),
        ),
        ElementView::CodeBlock(code) => code_block_rows(code, base_of(theme.code_style), max_width, existing),
        ElementView::EmptyLine => seq![empty],
        ElementView::Note(_) => Seq::empty(),
    }
}

/// The drawn lines of the elements `es`.
pub open spec fn elements_rows(es: Seq<ElementView>, theme: ThemeStyles, max_width: int, existing: Seq<Seq<char>>) -> Seq<LineView>
    decreases es.len(),
{
    if es.len() == 0 {
        Seq::empty()
    } else {
        elements_rows(es.drop_last(), theme, max_width, existing) + element_rows(es.last(), theme, max_width, existing)
    }
}

/// The drawn lines of a slide: an empty line, then its elements in order.
pub open spec fn slide_rows(slide: Seq<ElementView>, theme: ThemeStyles, max_width: int, existing: Seq<Seq<char>>) -> Seq<LineView> {
    seq![Seq::empty()] + elements_rows(slide, theme, max_width, existing)
}


fn push_text(out: &mut Vec<StyledText>, text: String, style: SpanStyle)
    ensures
        styled_view(final(out)@) == styled_view(old(out)@).push((text@, style)),
{
    let ghost before = out@;
    let ghost tv = text@;
    out.push(StyledText { text, style });
    assert(styled_view(out@) =~= styled_view(before).push((tv, style)));
}

fn push_row(rows: &mut Vec<Vec<StyledText>>, row: Vec<StyledText>)
    ensures
        rows_view(final(rows)@) == rows_view(old(rows)@).push(styled_view(row@)),
{
    let ghost before = rows@;
    let ghost rv = styled_view(row@);
    rows.push(row);
    assert(rows_view(rows@) =~= rows_view(before).push(rv));
}

fn append_rows(rows: &mut Vec<Vec<StyledText>>, more: Vec<Vec<StyledText>>)
    ensures
        rows_view(final(rows)@) == rows_view(old(rows)@) + rows_view(more@),
{
    let mut more = more;
    let ghost m = more@;
    rows.append(&mut more);
    assert(rows_view(rows@) =~= rows_view(old(rows)@) + rows_view(m));
}

/// The values of wrapped lines with their prefixes.
pub open spec fn prefixed_view(v: Seq<(String, Vec<(SpanKind, String)>)>) -> Seq<(Seq<char>, Seq<(SpanKind, Seq<char>)>)> {
    v.map_values(|l: (String, Vec<(SpanKind, String)>)| (l.0@, parts_view(l.1@)))
}

/// Draws wrapped lines after their prefixes.
fn prefixed_rows(
    wrapped: &Vec<(String, Vec<(SpanKind, String)>)>,
    ps: SpanStyle,
    bs: SpanStyle,
    existing: &Vec<String>,
) -> (rows: Vec<Vec<StyledText>>)
    ensures
        rows_view(rows@) == prefixed_view(wrapped@).map_values(
            |x: (Seq<char>, Seq<(SpanKind, Seq<char>)>)| prefixed_row(x, ps, bs, strings_view(existing@)),
        ),
{
    let ghost ex = strings_view(existing@);
    let ghost target = prefixed_view(wrapped@).map_values(
        |x: (Seq<char>, Seq<(SpanKind, Seq<char>)>)| prefixed_row(x, ps, bs, ex),
    );
    let mut rows: Vec<Vec<StyledText>> = Vec::new();
    let mut k: usize = 0;
    while k < wrapped.len()
        invariant
            k <= wrapped.len(),
            ex == strings_view(existing@),
            target == prefixed_view(wrapped@).map_values(
                |x: (Seq<char>, Seq<(SpanKind, Seq<char>)>)| prefixed_row(x, ps, bs, ex),
            ),
            rows_view(rows@) == target.take(k as int),
        decreases wrapped.len() - k,
    {
        let mut row: Vec<StyledText> = Vec::new();
        push_styled(&mut row, wrapped[k].0.clone(), ps);
        let body = build_rich_spans(&wrapped[k].1, bs, existing);
        let ghost r0 = styled_view(row@);
        let mut body = body;
        let ghost bv = styled_view(body@);
        row.append(&mut body);
        assert(styled_view(row@) =~= r0 + bv);
        assert(styled_view(row@) == target[k as int]);
        push_row(&mut rows, row);
        assert(rows_view(rows@) =~= target.take(k + 1));
        k = k + 1;
    }
    assert(target.take(k as int) =~= target);
    rows
}

/// Draws wrapped lines in the style `bs`.
fn plain_rows(wrapped: &Vec<Vec<(SpanKind, String)>>, bs: SpanStyle, existing: &Vec<String>) -> (rows: Vec<
    Vec<StyledText>,
>)
    ensures
        rows_view(rows@) == lines_view(wrapped@).map_values(
            |lp: Seq<(SpanKind, Seq<char>)>| rich_spans(lp, bs, strings_view(existing@)),
        ),
{
    let ghost ex = strings_view(existing@);
    let ghost target = lines_view(wrapped@).map_values(
        |lp: Seq<(SpanKind, Seq<char>)>| rich_spans(lp, bs, ex),
    );
    let mut rows: Vec<Vec<StyledText>> = Vec::new();
    let mut k: usize = 0;
    while k < wrapped.len()
        invariant
            k <= wrapped.len(),
            ex == strings_view(existing@),
            target == lines_view(wrapped@).map_values(
                |lp: Seq<(SpanKind, Seq<char>)>| rich_spans(lp, bs, ex),
            ),
            rows_view(rows@) == target.take(k as int),
        decreases wrapped.len() - k,
    {
        let row = build_rich_spans(&wrapped[k], bs, existing);
        push_row(&mut rows, row);
        assert(rows_view(rows@) =~= target.take(k + 1));
        k = k + 1;
    }
    assert(target.take(k as int) =~= target);
    rows
}

/// `n` copies of `c`.
fn repeat_char(c: char, n: usize) -> (s: String)
    ensures
        s@ == repeat(c, n as int),
{
    let mut v: Vec<char> = Vec::new();
    let mut k: usize = 0;
    while k < n
        invariant
            k <= n,
            v@ == repeat(c, k as int),
        decreases n - k,
    {
        v.push(c);
        k = k + 1;
        assert(v@ =~= repeat(c, k as int));
    }
    string_of(&v)
}

/// The drawn rows of one line of code.
fn code_line_rows_exec(line: &Vec<char>, bw: usize, cs: SpanStyle, existing: &Vec<String>) -> (rows: Vec<
    Vec<StyledText>,
>)
    requires
        bw >= 10,
    ensures
        rows_view(rows@) == code_line_rows(line@, bw as int, cs, strings_view(existing@)),
{
    let ghost ex = strings_view(existing@);
    let spans = parse_inline_with(line);
    let parts = spans_to_parts(&spans, existing);
    let wrapped = wrap_spans(&parts, bw - 4);
    let ghost target = code_line_rows(line@, bw as int, cs, ex);
    assert(lines_view(wrapped@) == wrap_spans_spec(parts_of(parse_inline_spec(line@), ex), bw - 4));
    let mut rows: Vec<Vec<StyledText>> = Vec::new();
    let mut k: usize = 0;
    while k < wrapped.len()
        invariant
            k <= wrapped.len(),
            bw >= 10,
            ex == strings_view(existing@),
            target == code_line_rows(line@, bw as int, cs, ex),
            target == lines_view(wrapped@).map_values(
                |lp: Seq<(SpanKind, Seq<char>)>| code_row(lp, bw as int, cs, ex),
            ),
            rows_view(rows@) == target.take(k as int),
        decreases wrapped.len() - k,
    {
        let content = inline_width(&wrapped[k]);
        let pad = (bw - 4).saturating_sub(content);
        let mut row: Vec<StyledText> = Vec::new();
        push_text(&mut row, "  │ ".to_string(), cs);
        proof {
            broadcast use vstd::string::group_string_axioms;
        }
        let body = build_rich_spans(&wrapped[k], cs, existing);
        let ghost r0 = styled_view(row@);
        let ghost bv = styled_view(body@);
        let mut body = body;
        row.append(&mut body);
        assert(styled_view(row@) =~= r0 + bv);
        if pad > 0 {
            push_text(&mut row, repeat_char(' ', pad), cs);
        }
        push_text(&mut row, " │".to_string(), cs);
        assert(styled_view(row@) =~= target[k as int]);
        push_row(&mut rows, row);
        assert(rows_view(rows@) =~= target.take(k + 1));
        k = k + 1;
    }
    assert(target.take(k as int) =~= target);
    rows
}

/// The box width for code whose widest line is `widest_line` columns.
fn code_box_width_exec(widest_line: usize, max_width: usize) -> (w: usize)
    ensures
        w as int == code_box_width(widest_line as int, max_width as int),
        w >= 10,
{
    let max_box = if max_width.saturating_sub(4) > 10 {
        max_width - 4
    } else {
        10
    };
    let w = if (widest_line as u128) + 4 < (max_box as u128) {
        widest_line + 4
    } else {
        max_box
    };
    if w > 10 {
        w
    } else {
        10
    }
}

/// The drawn lines of a code block.
fn code_block_rows_exec(code: &String, cs: SpanStyle, max_width: usize, existing: &Vec<String>) -> (rows: Vec<
    Vec<StyledText>,
>)
    ensures
        rows_view(rows@) == code_block_rows(code@, cs, max_width as int, strings_view(existing@)),
{
    let ghost ex = strings_view(existing@);
    let chars = chars_of(code.as_str());
    let ls = split_lines(&chars);
    let ghost lv = vecs_view(ls@);
    let mut widest_line: usize = 0;
    let mut k: usize = 0;
    while k < ls.len()
        invariant
            k <= ls.len(),
            lv == vecs_view(ls@),
            widest_line as int == widest(lv.take(k as int)),
        decreases ls.len() - k,
    {
        assert(lv.take(k + 1).drop_last() =~= lv.take(k as int));
        let line_str = string_of(&ls[k]);
        let x = str_width(line_str.as_str());
        if x > widest_line {
            widest_line = x;
        }
        k = k + 1;
    }
    assert(lv.take(k as int) =~= lv);
    let bw = code_box_width_exec(widest_line, max_width);
    let mut rows: Vec<Vec<StyledText>> = Vec::new();
    let e0: Vec<StyledText> = Vec::new();
    assert(styled_view(e0@) =~= Seq::<(Seq<char>, SpanStyle)>::empty());
    push_row(&mut rows, e0);
    proof {
        broadcast use vstd::string::group_string_axioms;
    }
    let mut top: Vec<StyledText> = Vec::new();
    let mut t = "  ┌".to_string();
    let dashes = repeat_char('─', bw - 2);
    t.append(dashes.as_str());
    t.append("┐");
    push_text(&mut top, t, cs);
    push_row(&mut rows, top);
    let ghost head = rows_view(rows@);
    let mut j: usize = 0;
    while j < ls.len()
        invariant
            j <= ls.len(),
            bw >= 10,
            lv == vecs_view(ls@),
            ex == strings_view(existing@),
            rows_view(rows@) == head + code_body(lv.take(j as int), bw as int, cs, ex),
        decreases ls.len() - j,
    {
        assert(lv.take(j + 1).drop_last() =~= lv.take(j as int));
        let more = code_line_rows_exec(&ls[j], bw, cs, existing);
        append_rows(&mut rows, more);
        assert(rows_view(rows@) =~= head + code_body(lv.take(j + 1), bw as int, cs, ex));
        j = j + 1;
    }
    assert(lv.take(j as int) =~= lv);
    let mut bottom: Vec<StyledText> = Vec::new();
    let mut b = "  └".to_string();
    let dashes2 = repeat_char('─', bw - 2);
    b.append(dashes2.as_str());
    b.append("┘");
    push_text(&mut bottom, b, cs);
    push_row(&mut rows, bottom);
    let e1: Vec<StyledText> = Vec::new();
    assert(styled_view(e1@) =~= Seq::<(Seq<char>, SpanStyle)>::empty());
    push_row(&mut rows, e1);
    assert(rows_view(rows@) =~= code_block_rows(code@, cs, max_width as int, ex));
    rows
}


/// The drawn lines of one slide element on a stage `max_width` columns
/// wide; `existing` lists the image sources that name existing files.
pub fn element_rows_exec(e: &SlideElement, theme: &ThemeStyles, max_width: usize, existing: &Vec<String>) -> (rows:
    Vec<Vec<StyledText>>)
    ensures
        rows_view(rows@) == element_rows(e@, *theme, max_width as int, strings_view(existing@)),
{
    let ghost ex = strings_view(existing@);
    proof {
        broadcast use vstd::string::group_string_axioms;
    }
    match e {
        SlideElement::Heading(level, spans) => {
            let b = style_of(theme.heading_style);
            let hs = if *level == 1 {
                SpanStyle { bold: true, italic: true, ..b }
            } else if *level == 2 {
                SpanStyle { bold: true, ..b }
            } else {
                b
            };
            let indent: &str = if *level == 1 || *level == 2 {
                ""
            } else if *level == 3 {
                "  "
            } else if *level == 4 {
                "    "
            } else if *level == 5 {
                "      "
            } else {
                "        "
            };
            let parts = spans_to_parts(spans, existing);
            let wrapped = wrap_with_prefix(&parts, indent, indent, max_width);
            let mut rows = prefixed_rows(&wrapped, hs, hs, existing);
            let e0: Vec<StyledText> = Vec::new();
            assert(styled_view(e0@) =~= Seq::<(Seq<char>, SpanStyle)>::empty());
            push_row(&mut rows, e0);
            rows
        },
        SlideElement::ListItem(spans) => {
            let parts = spans_to_parts(spans, existing);
            let wrapped = wrap_with_prefix(&parts, "  • ", "    ", max_width);
            prefixed_rows(&wrapped, style_of(theme.list_style), style_of(theme.paragraph_style), existing)
        },
        SlideElement::Paragraph(spans) => {
            let parts = spans_to_parts(spans, existing);
            let wrapped = wrap_spans(&parts, max_width);
            plain_rows(&wrapped, style_of(theme.paragraph_style), existing)
        },
        SlideElement::CodeBlock(code) => code_block_rows_exec(code, style_of(theme.code_style), max_width, existing),
        SlideElement::EmptyLine => {
            let mut rows: Vec<Vec<StyledText>> = Vec::new();
            let e0: Vec<StyledText> = Vec::new();
            assert(styled_view(e0@) =~= Seq::<(Seq<char>, SpanStyle)>::empty());
            push_row(&mut rows, e0);
            assert(rows_view(rows@) =~= seq![Seq::<(Seq<char>, SpanStyle)>::empty()]);
            rows
        },
        SlideElement::Note(_) => {
            let rows: Vec<Vec<StyledText>> = Vec::new();
            assert(rows_view(rows@) =~= Seq::<LineView>::empty());
            rows
        },
    }
}

/// The drawn lines of the main stage for a slide, `max_width` columns wide:
/// an empty line, then each element in order (speaker notes are not shown);
/// `existing` lists the image sources that name existing files.
pub fn slide_rows_exec(slide: &Slide, theme: &ThemeStyles, max_width: usize, existing: &Vec<String>) -> (rows: Vec<
    Vec<StyledText>,
>)
    ensures
        rows_view(rows@) == slide_rows(slide@, *theme, max_width as int, strings_view(existing@)),
{
    let ghost ex = strings_view(existing@);
    let ghost es = elements_view(slide.elements@);
    let mut rows: Vec<Vec<StyledText>> = Vec::new();
    let e0: Vec<StyledText> = Vec::new();
    assert(styled_view(e0@) =~= Seq::<(Seq<char>, SpanStyle)>::empty());
    push_row(&mut rows, e0);
    let ghost head = rows_view(rows@);
    let mut k: usize = 0;
    while k < slide.elements.len()
        invariant
            k <= slide.elements.len(),
            es == elements_view(slide.elements@),
            ex == strings_view(existing@),
            head == seq![Seq::<(Seq<char>, SpanStyle)>::empty()],
            rows_view(rows@) == head + elements_rows(es.take(k as int), *theme, max_width as int, ex),
        decreases slide.elements.len() - k,
    {
        assert(es.take(k + 1).drop_last() =~= es.take(k as int));
        let more = element_rows_exec(&slide.elements[k], theme, max_width, existing);
        append_rows(&mut rows, more);
        assert(rows_view(rows@) =~= head + elements_rows(es.take(k + 1), *theme, max_width as int, ex));
        k = k + 1;
    }
    assert(es.take(k as int) =~= es);
    rows
}

/// The image sources whose files the drawing of `spans` consults: those of
/// its images, and those of the images written inside its inline code.
pub open spec fn span_image_queries(spans: Seq<SpanView>) -> Seq<Seq<char>>
    decreases spans.len(),
{
    if spans.len() == 0 {
        Seq::empty()
    } else {
        span_image_queries(spans.drop_last()) + match spans.last() {
            SpanView::Image { alt: _, src } => seq![src],
            SpanView::InlineCode(t) => direct_images(parse_inline_spec(t)),
            _ => Seq::empty(),
        }
    }
}

/// The sources of the images among `spans`.
pub open spec fn direct_images(spans: Seq<SpanView>) -> Seq<Seq<char>>
    decreases spans.len(),
{
    if spans.len() == 0 {
        Seq::empty()
    } else {
        direct_images(spans.drop_last()) + match spans.last() {
            SpanView::Image { alt: _, src } => seq![src],
            _ => Seq::empty(),
        }
    }
}

fn push_direct_images(out: &mut Vec<String>, spans: &Vec<TextSpan>)
    ensures
        strings_view(final(out)@) == strings_view(old(out)@) + direct_images(spans_view(spans@)),
{
    let ghost sv = spans_view(spans@);
    let ghost start = strings_view(out@);
    let mut k: usize = 0;
    while k < spans.len()
        invariant
            k <= spans.len(),
            sv == spans_view(spans@),
            strings_view(out@) == start + direct_images(sv.take(k as int)),
        decreases spans.len() - k,
    {
        assert(sv.take(k + 1).drop_last() =~= sv.take(k as int));
        let ghost before = out@;
        match &spans[k] {
            TextSpan::Image { alt: _, src } => {
                out.push(src.clone());
                assert(strings_view(out@) =~= strings_view(before).push(src@));
            },
            _ => {},
        }
        assert(strings_view(out@) =~= start + direct_images(sv.take(k + 1)));
        k = k + 1;
    }
    assert(sv.take(k as int) =~= sv);
}

/// Adds the image sources that drawing `spans` consults.
pub fn push_image_queries(out: &mut Vec<String>, spans: &Vec<TextSpan>)
    ensures
        strings_view(final(out)@) == strings_view(old(out)@) + span_image_queries(spans_view(spans@)),
{
    let ghost sv = spans_view(spans@);
    let ghost start = strings_view(out@);
    let mut k: usize = 0;
    while k < spans.len()
        invariant
            k <= spans.len(),
            sv == spans_view(spans@),
            strings_view(out@) == start + span_image_queries(sv.take(k as int)),
        decreases spans.len() - k,
    {
        assert(sv.take(k + 1).drop_last() =~= sv.take(k as int));
        match &spans[k] {
            TextSpan::Image { alt: _, src } => {
                let ghost b = out@;
                out.push(src.clone());
                assert(strings_view(out@) =~= strings_view(b).push(src@));
            },
            TextSpan::InlineCode(t) => {
                let chars = chars_of(t.as_str());
                let inner = parse_inline_with(&chars);
                push_direct_images(out, &inner);
            },
            _ => {},
        }
        assert(strings_view(out@) =~= start + span_image_queries(sv.take(k + 1)));
        k = k + 1;
    }
    assert(sv.take(k as int) =~= sv);
}

/// The image sources whose files drawing the element `e` consults.
pub open spec fn element_image_queries(e: ElementView) -> Seq<Seq<char>> {
    match e {
        ElementView::Heading(_, spans) => span_image_queries(spans),
        ElementView::ListItem(spans) => span_image_queries(spans),
        ElementView::Paragraph(spans) => span_image_queries(spans),
        ElementView::CodeBlock(code) => code_image_queries(lines(code)),
        _ => Seq::empty(),
    }
}

/// The image sources whose files drawing lines of code consults.
pub open spec fn code_image_queries(ls: Seq<Seq<char>>) -> Seq<Seq<char>>
    decreases ls.len(),
{
    if ls.len() == 0 {
        Seq::empty()
    } else {
        code_image_queries(ls.drop_last()) + span_image_queries(parse_inline_spec(ls.last()))
    }
}

/// The image sources whose files drawing a slide consults.
pub open spec fn slide_image_queries(es: Seq<ElementView>) -> Seq<Seq<char>>
    decreases es.len(),
{
    if es.len() == 0 {
        Seq::empty()
    } else {
        slide_image_queries(es.drop_last()) + element_image_queries(es.last())
    }
}

/// The image sources whose files drawing `slide` consults; a caller that
/// checks these on disk knows all that [`slide_rows_exec`] needs.
pub fn slide_image_sources(slide: &Slide) -> (out: Vec<String>)
    ensures
        strings_view(out@) == slide_image_queries(slide@),
{
    let ghost es = elements_view(slide.elements@);
    let mut out: Vec<String> = Vec::new();
    let mut k: usize = 0;
    assert(strings_view(out@) =~= Seq::<Seq<char>>::empty());
    while k < slide.elements.len()
        invariant
            k <= slide.elements.len(),
            es == elements_view(slide.elements@),
            strings_view(out@) == slide_image_queries(es.take(k as int)),
        decreases slide.elements.len() - k,
    {
        assert(es.take(k + 1).drop_last() =~= es.take(k as int));
        let ghost before = strings_view(out@);
        match &slide.elements[k] {
            SlideElement::Heading(_, spans) | SlideElement::ListItem(spans) | SlideElement::Paragraph(
                spans,
            ) => {
                push_image_queries(&mut out, spans);
            },
            SlideElement::CodeBlock(code) => {
                let chars = chars_of(code.as_str());
                let ls = split_lines(&chars);
                let ghost lv = vecs_view(ls@);
                let mut j: usize = 0;
                while j < ls.len()
                    invariant
                        j <= ls.len(),
                        lv == vecs_view(ls@),
                        strings_view(out@) == before + code_image_queries(lv.take(j as int)),
                    decreases ls.len() - j,
                {
                    assert(lv.take(j + 1).drop_last() =~= lv.take(j as int));
                    let spans = parse_inline_with(&ls[j]);
                    push_image_queries(&mut out, &spans);
                    j = j + 1;
                }
                assert(lv.take(j as int) =~= lv);
            },
            _ => {
                assert(before + Seq::<Seq<char>>::empty() =~= before);
            },
        }
        assert(strings_view(out@) =~= slide_image_queries(es.take(k + 1)));
        k = k + 1;
    }
    assert(es.take(k as int) =~= es);
    out
}


/// The style of speaker notes: the theme's paragraph colour (white when it
/// has none).
pub open spec fn note_style(theme: ThemeStyles) -> SpanStyle {
    SpanStyle {
        fg: Some(
            match theme.paragraph_style.fg {
                Some(c) => c,
                None => ThemeColor::White,
            },
        ),
        bg: None,
        bold: false,
        italic: false,
        underlined: false,
    }
}

/// The speaker-panel lines of one note: the note wrapped two columns
/// narrower than the panel, then an empty line.
pub open spec fn one_note_rows(note: Seq<char>, theme: ThemeStyles, inner_width: int, existing: Seq<Seq<char>>) -> Seq<LineView> {
    let w = if inner_width > 2 {
        inner_width - 2
    } else {
        0
    };
    wrap_spans_spec(parts_of(parse_inline_spec(note), existing), w).map_values(
        |lp: Seq<(SpanKind, Seq<char>)>| rich_spans(lp, note_style(theme), existing),
    ).push(Seq::empty())
}

/// The drawn lines of speaker notes in a panel `inner_width` columns wide:
/// each note wrapped two columns narrower, followed by an empty line.
pub open spec fn notes_rows(notes: Seq<Seq<char>>, theme: ThemeStyles, inner_width: int, existing: Seq<Seq<char>>) -> Seq<LineView>
    decreases notes.len(),
{
    if notes.len() == 0 {
        Seq::empty()
    } else {
        notes_rows(notes.drop_last(), theme, inner_width, existing) + one_note_rows(
            notes.last(),
            theme,
            inner_width,
            existing,
        )
    }
}

/// The drawn lines of the speaker panel: the time elapsed, a rule, an empty
/// line, then the notes (or a placeholder when there are none).
pub open spec fn panel_rows(
    notes: Seq<Seq<char>>,
    elapsed_secs: nat,
    theme: ThemeStyles,
    inner_width: int,
    existing: Seq<Seq<char>>,
) -> Seq<LineView> {
    let plain = SpanStyle { fg: None, bg: None, bold: false, italic: false, underlined: false };
    let timer_style = SpanStyle { fg: Some(ThemeColor::Cyan), bold: true, ..plain };
    let gray = SpanStyle { fg: Some(ThemeColor::DarkGray), ..plain };
    let e: LineView = Seq::empty();
    seq![
        seq![(" ⏱  "@ + clock_text(elapsed_secs), timer_style)],
        seq![(" ──────────────────────────"@, gray)],
        e,
    ] + if notes.len() == 0 {
        seq![seq![(" （无备注）"@, gray)]]
    } else {
        notes_rows(notes, theme, inner_width, existing)
    }
}

/// The drawn lines of the speaker panel, `inner_width` columns wide, after
/// `elapsed_secs` seconds of presenting; `existing` lists the image sources
/// that name existing files.
pub fn presenter_panel_rows(
    notes: &Vec<String>,
    elapsed_secs: u64,
    theme: &ThemeStyles,
    inner_width: usize,
    existing: &Vec<String>,
) -> (rows: Vec<Vec<StyledText>>)
    ensures
        rows_view(rows@) == panel_rows(
            strings_view(notes@),
            elapsed_secs as nat,
            *theme,
            inner_width as int,
            strings_view(existing@),
        ),
{
    let ghost ex = strings_view(existing@);
    let ghost nv = strings_view(notes@);
    proof {
        broadcast use vstd::string::group_string_axioms;
    }
    let plain = SpanStyle { fg: None, bg: None, bold: false, italic: false, underlined: false };
    let mut rows: Vec<Vec<StyledText>> = Vec::new();
    let mut timer_row: Vec<StyledText> = Vec::new();
    let mut timer = " ⏱  ".to_string();
    let clock = format_seconds(elapsed_secs);
    timer.append(clock.as_str());
    push_text(&mut timer_row, timer, SpanStyle { fg: Some(ThemeColor::Cyan), bold: true, ..plain });
    push_row(&mut rows, timer_row);
    let mut rule_row: Vec<StyledText> = Vec::new();
    push_text(
        &mut rule_row,
        " ──────────────────────────".to_string(),
        SpanStyle { fg: Some(ThemeColor::DarkGray), ..plain },
    );
    push_row(&mut rows, rule_row);
    let e0: Vec<StyledText> = Vec::new();
    assert(styled_view(e0@) =~= Seq::<(Seq<char>, SpanStyle)>::empty());
    push_row(&mut rows, e0);
    let ghost head = rows_view(rows@);
    if notes.len() == 0 {
        let mut none_row: Vec<StyledText> = Vec::new();
        push_text(&mut none_row, " （无备注）".to_string(), SpanStyle { fg: Some(ThemeColor::DarkGray), ..plain });
        push_row(&mut rows, none_row);
    } else {
        let fg = match theme.paragraph_style.fg {
            Some(c) => c,
            None => ThemeColor::White,
        };
        let ns = SpanStyle { fg: Some(fg), ..plain };
        let width = inner_width.saturating_sub(2);
        let mut k: usize = 0;
        while k < notes.len()
            invariant
                k <= notes.len(),
                nv == strings_view(notes@),
                ex == strings_view(existing@),
                ns == note_style(*theme),
                width as int == (if inner_width > 2 { inner_width - 2 } else { 0 }),
                rows_view(rows@) == head + notes_rows(nv.take(k as int), *theme, inner_width as int, ex),
            decreases notes.len() - k,
        {
            assert(nv.take(k + 1).drop_last() =~= nv.take(k as int));
            assert(nv.take(k + 1).last() == notes@[k as int]@);
            let chars = chars_of(notes[k].as_str());
            let spans = parse_inline_with(&chars);
            let parts = spans_to_parts(&spans, existing);
            let wrapped = wrap_spans(&parts, width);
            let more = plain_rows(&wrapped, ns, existing);
            append_rows(&mut rows, more);
            let e1: Vec<StyledText> = Vec::new();
            assert(styled_view(e1@) =~= Seq::<(Seq<char>, SpanStyle)>::empty());
            push_row(&mut rows, e1);
            assert(rows_view(rows@) =~= head + notes_rows(nv.take(k + 1), *theme, inner_width as int, ex));
            k = k + 1;
        }
        assert(nv.take(k as int) =~= nv);
    }
    assert(rows_view(rows@) =~= panel_rows(nv, elapsed_secs as nat, *theme, inner_width as int, ex));
    rows
}

/// The image sources whose files drawing speaker notes consults.
pub open spec fn notes_image_queries(notes: Seq<Seq<char>>) -> Seq<Seq<char>>
    decreases notes.len(),
{
    if notes.len() == 0 {
        Seq::empty()
    } else {
        notes_image_queries(notes.drop_last()) + span_image_queries(parse_inline_spec(notes.last()))
    }
}

/// The image sources whose files drawing speaker notes consults.
pub fn notes_image_sources(notes: &Vec<String>) -> (out: Vec<String>)
    ensures
        strings_view(out@) == notes_image_queries(strings_view(notes@)),
{
    let ghost nv = strings_view(notes@);
    let mut out: Vec<String> = Vec::new();
    let mut k: usize = 0;
    assert(strings_view(out@) =~= Seq::<Seq<char>>::empty());
    while k < notes.len()
        invariant
            k <= notes.len(),
            nv == strings_view(notes@),
            strings_view(out@) == notes_image_queries(nv.take(k as int)),
        decreases notes.len() - k,
    {
        assert(nv.take(k + 1).drop_last() =~= nv.take(k as int));
        assert(nv.take(k + 1).last() == notes@[k as int]@);
        let chars = chars_of(notes[k].as_str());
        let spans = parse_inline_with(&chars);
        push_image_queries(&mut out, &spans);
        k = k + 1;
    }
    assert(nv.take(k as int) =~= nv);
    out
}

/// The title of the main stage for page `current_page` (counted from 0) of
/// `total_pages`.
pub open spec fn page_title_text(current_page: nat, total_pages: nat) -> Seq<char> {
    " Prism Presentation | 第 "@ + decimal(current_page + 1) + "/"@ + decimal(total_pages) + " 页 "@
}

/// The title of the main stage.
pub fn page_title(current_page: usize, total_pages: usize) -> (t: String)
    requires
        current_page < usize::MAX,
    ensures
        t@ == page_title_text(current_page as nat, total_pages as nat),
{
    proof {
        broadcast use vstd::string::group_string_axioms;
    }
    let mut t = " Prism Presentation | 第 ".to_string();
    let mut digits: Vec<char> = Vec::new();
    crate::ui::push_decimal(&mut digits, (current_page + 1) as u64);
    let a = string_of(&digits);
    t.append(a.as_str());
    t.append("/");
    let mut digits2: Vec<char> = Vec::new();
    crate::ui::push_decimal(&mut digits2, total_pages as u64);
    let b = string_of(&digits2);
    t.append(b.as_str());
    t.append(" 页 ");
    t
}

/// The status line while a page number is being typed.
pub open spec fn goto_status_text(input: Seq<char>) -> Seq<char> {
    if input.len() == 0 {
        " 跳转到: _  (输入页码后按 Enter，Esc 取消)"@
    } else {
        " 跳转到: "@ + input + "_  (Enter 确认，Esc 取消)"@
    }
}

/// The status line while a page number is being typed.
pub fn goto_status(input: &str) -> (t: String)
    ensures
        t@ == goto_status_text(input@),
{
    proof {
        broadcast use vstd::string::group_string_axioms;
    }
    if input.is_empty() {
        return " 跳转到: _  (输入页码后按 Enter，Esc 取消)".to_string();
    }
    let mut t = " 跳转到: ".to_string();
    t.append(input);
    t.append("_  (Enter 确认，Esc 取消)");
    t
}


/// `es` without its speaker notes.
pub open spec fn without_notes(es: Seq<ElementView>) -> Seq<ElementView>
    decreases es.len(),
{
    if es.len() == 0 {
        Seq::empty()
    } else if es.last() is Note {
        without_notes(es.drop_last())
    } else {
        without_notes(es.drop_last()).push(es.last())
    }
}

proof fn lemma_rows_without_notes(es: Seq<ElementView>, theme: ThemeStyles, max_width: int, existing: Seq<Seq<char>>)
    ensures
        elements_rows(es, theme, max_width, existing) == elements_rows(without_notes(es), theme, max_width, existing),
    decreases es.len(),
{
    if es.len() > 0 {
        lemma_rows_without_notes(es.drop_last(), theme, max_width, existing);
        let w = without_notes(es.drop_last());
        if es.last() is Note {
            assert(element_rows(es.last(), theme, max_width, existing) =~= Seq::<LineView>::empty());
            assert(elements_rows(es, theme, max_width, existing) =~= elements_rows(w, theme, max_width, existing));
        } else {
            assert(w.push(es.last()).drop_last() =~= w);
        }
    }
}

/// Speaker notes never show on the main stage: a slide draws the same lines
/// as the same slide with its notes removed.
pub proof fn lemma_notes_not_on_stage(es: Seq<ElementView>, theme: ThemeStyles, max_width: int, existing: Seq<Seq<char>>)
    ensures
        slide_rows(es, theme, max_width, existing) == slide_rows(without_notes(es), theme, max_width, existing),
{
    lemma_rows_without_notes(es, theme, max_width, existing);
}


proof fn lemma_widest_bounds(ls: Seq<Seq<char>>)
    ensures
        widest(ls) >= 0,
        forall|k: int| 0 <= k < ls.len() ==> str_width_of(#[trigger] ls[k]) as int <= widest(ls),
        ls.len() > 0 ==> exists|k: int| 0 <= k < ls.len() && widest(ls) == str_width_of(#[trigger] ls[k]) as int,
    decreases ls.len(),
{
    if ls.len() > 0 {
        let init = ls.drop_last();
        lemma_widest_bounds(init);
        assert forall|k: int| 0 <= k < ls.len() implies str_width_of(#[trigger] ls[k]) as int <= widest(ls) by {
            if k < init.len() {
                assert(ls[k] == init[k]);
            }
        }
        if str_width_of(ls.last()) as int > widest(init) || init.len() == 0 {
            if str_width_of(ls.last()) as int > widest(init) {
                assert(widest(ls) == str_width_of(ls[ls.len() - 1]) as int);
            } else {
                assert(widest(ls) == 0);
                assert(widest(ls) == str_width_of(ls[ls.len() - 1]) as int);
            }
        } else {
            let j = choose|j: int| 0 <= j < init.len() && widest(init) == str_width_of(#[trigger] init[j]) as int;
            assert(ls[j] == init[j]);
        }
    }
}

/// A code box is as wide as the widest line of its code needs (four columns
/// more), but no wider than the stage allows (four columns less than
/// `max_width`, at least ten) and no narrower than ten columns: its width
/// reaches every line's need up to that limit, and is ten or some line's need.
pub proof fn lemma_code_box_fits_widest_line(
    code: Seq<char>,
    cs: SpanStyle,
    max_width: int,
    existing: Seq<Seq<char>>,
)
    ensures
        ({
            let ls = lines(code);
            let rows = code_block_rows(code, cs, max_width, existing);
            let max_box = if max_width - 4 > 10 {
                max_width - 4
            } else {
                10
            };
            exists|bw: int|
                {
                    &&& 10 <= bw <= max_box
                    &&& rows.len() >= 4
                    &&& rows[1] == seq![("  ┌"@ + repeat('─', bw - 2) + "┐"@, cs)]
                    &&& rows[rows.len() - 2] == seq![("  └"@ + repeat('─', bw - 2) + "┘"@, cs)]
                    &&& rows.subrange(2, rows.len() - 2) == code_body(ls, bw, cs, existing)
                    &&& forall|k: int|
                        0 <= k < ls.len() ==> bw >= if str_width_of(#[trigger] ls[k]) + 4 < max_box {
                            str_width_of(ls[k]) + 4
                        } else {
                            max_box
                        }
                    &&& (bw == 10 || exists|k: int|
                        0 <= k < ls.len() && bw == if str_width_of(#[trigger] ls[k]) + 4 < max_box {
                            str_width_of(ls[k]) + 4
                        } else {
                            max_box
                        })
                }
        }),
{
    let ls = lines(code);
    let rows = code_block_rows(code, cs, max_width, existing);
    lemma_widest_bounds(ls);
    let bw = code_box_width(widest(ls), max_width);
    let e: LineView = Seq::empty();
    let body = code_body(ls, bw, cs, existing);
    let top = seq![("  ┌"@ + repeat('─', bw - 2) + "┐"@, cs)];
    let bottom = seq![("  └"@ + repeat('─', bw - 2) + "┘"@, cs)];
    assert(rows == seq![e, top] + body + seq![bottom, e]);
    assert(rows[1] == top);
    assert(rows[rows.len() - 2] == bottom);
    assert(rows.subrange(2, rows.len() - 2) =~= body);
    let max_box = if max_width - 4 > 10 {
        max_width - 4
    } else {
        10
    };
    if bw != 10 {
        assert(ls.len() > 0);
        let j = choose|j: int| 0 <= j < ls.len() && widest(ls) == str_width_of(#[trigger] ls[j]) as int;
        assert(bw == if str_width_of(ls[j]) + 4 < max_box {
            str_width_of(ls[j]) + 4
        } else {
            max_box
        });
    }
}

/// The notes of two lists, one after the other, are drawn as the lines of
/// the first list followed by those of the second: no note is dropped,
/// merged or moved.
pub proof fn lemma_notes_rows_concat(
    a: Seq<Seq<char>>,
    b: Seq<Seq<char>>,
    theme: ThemeStyles,
    inner_width: int,
    existing: Seq<Seq<char>>,
)
    ensures
        notes_rows(a + b, theme, inner_width, existing) == notes_rows(a, theme, inner_width, existing)
            + notes_rows(b, theme, inner_width, existing),
    decreases b.len(),
{
    if b.len() == 0 {
        assert(a + b =~= a);
        assert(notes_rows(a, theme, inner_width, existing) + Seq::<LineView>::empty() =~= notes_rows(
            a,
            theme,
            inner_width,
            existing,
        ));
    } else {
        lemma_notes_rows_concat(a, b.drop_last(), theme, inner_width, existing);
        assert((a + b).drop_last() =~= a + b.drop_last());
        assert((a + b).last() == b.last());
        let one = one_note_rows(b.last(), theme, inner_width, existing);
        assert(notes_rows(a, theme, inner_width, existing) + notes_rows(b.drop_last(), theme, inner_width, existing)
            + one =~= notes_rows(a, theme, inner_width, existing) + (notes_rows(
            b.drop_last(),
            theme,
            inner_width,
            existing,
        ) + one));
    }
}

/// Every note reaches the speaker panel, in order: after the timer, the rule
/// and an empty line come, note by note, the lines of each note followed by
/// an empty line; so the panel has at least three lines more than twice the
/// number of notes.
pub proof fn lemma_every_note_reaches_panel(
    notes: Seq<Seq<char>>,
    elapsed_secs: nat,
    theme: ThemeStyles,
    inner_width: int,
    existing: Seq<Seq<char>>,
)
    ensures
        ({
            let rows = panel_rows(notes, elapsed_secs, theme, inner_width, existing);
            &&& rows.len() >= 3 + 2 * notes.len()
            &&& notes.len() > 0 ==> rows.subrange(3, rows.len() as int) == notes_rows(
                notes,
                theme,
                inner_width,
                existing,
            )
            &&& notes_rows(seq![], theme, inner_width, existing) == Seq::<LineView>::empty()
            &&& forall|n: Seq<char>|
                #[trigger] notes_rows(seq![n], theme, inner_width, existing) == one_note_rows(
                    n,
                    theme,
                    inner_width,
                    existing,
                )
            &&& forall|n: Seq<char>| #[trigger] one_note_rows(n, theme, inner_width, existing).len() >= 2
        }),
{
    let rows = panel_rows(notes, elapsed_secs, theme, inner_width, existing);
    lemma_notes_rows_len(notes, theme, inner_width, existing);
    if notes.len() > 0 {
        assert(rows.subrange(3, rows.len() as int) =~= notes_rows(notes, theme, inner_width, existing));
    }
    assert forall|n: Seq<char>|
        #[trigger] notes_rows(seq![n], theme, inner_width, existing) == one_note_rows(
            n,
            theme,
            inner_width,
            existing,
        ) by {
        let one = seq![n];
        assert(one.drop_last() =~= Seq::<Seq<char>>::empty());
        assert(one.last() == n);
        assert(notes_rows(one.drop_last(), theme, inner_width, existing) == Seq::<LineView>::empty());
        assert(Seq::<LineView>::empty() + one_note_rows(n, theme, inner_width, existing) =~= one_note_rows(
            n,
            theme,
            inner_width,
            existing,
        ));
    }
}

proof fn lemma_notes_rows_len(notes: Seq<Seq<char>>, theme: ThemeStyles, inner_width: int, existing: Seq<Seq<char>>)
    ensures
        notes_rows(notes, theme, inner_width, existing).len() >= 2 * notes.len(),
    decreases notes.len(),
{
    if notes.len() > 0 {
        lemma_notes_rows_len(notes.drop_last(), theme, inner_width, existing);
    }
}

} // verus!
