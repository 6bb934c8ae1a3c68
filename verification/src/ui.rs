//! The text layout used when slides are drawn: time formatting, display
//! widths and line wrapping.

use vstd::prelude::*;
use std::time::Duration;
use crate::parser::{SpanView, TextSpan};
use crate::text::{chars_of, string_of};

verus! {

/// The decimal digit `d`.
pub open spec fn digit_char(d: int) -> char {
    if d == 0 {
        '0'
    } else if d == 1 {
        '1'
    } else if d == 2 {
        '2'
    } else if d == 3 {
        '3'
    } else if d == 4 {
        '4'
    } else if d == 5 {
        '5'
    } else if d == 6 {
        '6'
    } else if d == 7 {
        '7'
    } else if d == 8 {
        '8'
    } else {
        '9'
    }
}

/// The decimal numeral of `n`, without leading zeros.
pub open spec fn decimal(n: nat) -> Seq<char>
    decreases n,
{
    if n < 10 {
        seq![digit_char(n as int)]
    } else {
        decimal(n / 10).push(digit_char((n % 10) as int))
    }
}

/// The decimal numeral of `n`, padded with a zero to at least two digits.
pub open spec fn pad2(n: nat) -> Seq<char> {
    if n < 10 {
        seq!['0'] + decimal(n)
    } else {
        decimal(n)
    }
}

/// A duration of `t` seconds as `H:MM:SS`, or as `MM:SS` when under an hour.
pub open spec fn clock_text(t: nat) -> Seq<char> {
    let h = t / 3600;
    let m = (t % 3600) / 60;
    let s = t % 60;
    if h > 0 {
        decimal(h) + seq![':'] + pad2(m) + seq![':'] + pad2(s)
    } else {
        pad2(m) + seq![':'] + pad2(s)
    }
}

fn digit(d: u64) -> (c: char)
    requires
        d < 10,
    ensures
        c == digit_char(d as int),
{
    if d == 0 {
        '0'
    } else if d == 1 {
        '1'
    } else if d == 2 {
        '2'
    } else if d == 3 {
        '3'
    } else if d == 4 {
        '4'
    } else if d == 5 {
        '5'
    } else if d == 6 {
        '6'
    } else if d == 7 {
        '7'
    } else if d == 8 {
        '8'
    } else {
        '9'
    }
}

/// Appends the decimal numeral of `n`.
pub(crate) fn push_decimal(out: &mut Vec<char>, n: u64)
    ensures
        final(out)@ == old(out)@ + decimal(n as nat),
    decreases n,
{
    if n < 10 {
        out.push(digit(n));
    } else {
        push_decimal(out, n / 10);
        out.push(digit(n % 10));
    }
}

/// Appends the decimal numeral of `n`, padded to two digits.
fn push_pad2(out: &mut Vec<char>, n: u64)
    ensures
        final(out)@ == old(out)@ + pad2(n as nat),
{
    if n < 10 {
        out.push('0');
    }
    push_decimal(out, n);
    assert(final(out)@ =~= old(out)@ + pad2(n as nat));
}

/// `total_secs` seconds as `H:MM:SS`, or as `MM:SS` when under an hour.
pub fn format_seconds(total_secs: u64) -> (text: String)
    ensures
        text@ == clock_text(total_secs as nat),
{
    let hours = total_secs / 3600;
    let minutes = (total_secs % 3600) / 60;
    let seconds = total_secs % 60;
    let mut out: Vec<char> = Vec::new();
    if hours > 0 {
        push_decimal(&mut out, hours);
        out.push(':');
    }
    push_pad2(&mut out, minutes);
    out.push(':');
    push_pad2(&mut out, seconds);
    assert(out@ =~= clock_text(total_secs as nat));
    string_of(&out)
}

/// What `Duration::as_secs` returns: the whole seconds of a duration.
pub uninterp spec fn whole_secs(d: Duration) -> u64;

/// `Duration::as_secs`: the contract names the result after the duration.
#[verifier::external_body]
fn duration_secs(d: &Duration) -> (s: u64)
    ensures
        s == whole_secs(*d),
{
    d.as_secs()
}

/// A duration as `H:MM:SS`, or as `MM:SS` when under an hour (the text
/// that [`format_seconds`] gives for its whole seconds).
pub fn format_duration(d: Duration) -> (text: String)
    ensures
        text@ == clock_text(whole_secs(d) as nat),
{
    let secs = duration_secs(&d);
    format_seconds(secs)
}


/// The display width that `unicode_width` gives a character (`None` for a
/// control character).
pub uninterp spec fn char_width_of(c: char) -> Option<usize>;

/// The display width that `unicode_width` gives a string.
pub uninterp spec fn str_width_of(s: Seq<char>) -> usize;

/// `UnicodeWidthChar::width`: the contract names the result and states what
/// the crate's source shows for printable ASCII and for control characters.
#[verifier::external_body]
fn char_width(c: char) -> (w: Option<usize>)
    ensures
        w == char_width_of(c),
        (' ' <= c && c < '\x7f') ==> w == Some(1usize),
        (c < ' ' || ('\x7f' <= c && c < '\u{a0}')) ==> w == None::<usize>,
{
    unicode_width::UnicodeWidthChar::width(c)
}

/// `UnicodeWidthStr::width`: the contract names the result; the empty string
/// has width 0.
#[verifier::external_body]
pub(crate) fn str_width(s: &str) -> (w: usize)
    ensures
        w == str_width_of(s@),
        s@.len() == 0 ==> w == 0,
{
    unicode_width::UnicodeWidthStr::width(s)
}

/// The columns a character takes when wrapping: its width, 0 for a control
/// character.
pub open spec fn cols(c: char) -> int {
    match char_width_of(c) {
        Some(w) => w as int,
        None => 0,
    }
}

/// The style class of a piece of text once it is laid out.
#[derive(Debug, Clone, Copy, PartialEq, Eq)]
pub enum SpanKind {
    Normal,
    Bold,
    Italic,
    BoldItalic,
    InlineCode,
    Underline,
}

/// The values of laid-out pieces.
pub open spec fn parts_view(v: Seq<(SpanKind, String)>) -> Seq<(SpanKind, Seq<char>)> {
    v.map_values(|p: (SpanKind, String)| (p.0, p.1@))
}

/// The values of laid-out lines.
pub open spec fn lines_view(v: Seq<Vec<(SpanKind, String)>>) -> Seq<Seq<(SpanKind, Seq<char>)>> {
    v.map_values(|l: Vec<(SpanKind, String)>| parts_view(l@))
}

/// The text shown for a link: its URL, or its text when the URL is empty.
pub open spec fn link_label(text: Seq<char>, url: Seq<char>) -> Seq<char> {
    if url.len() > 0 {
        url
    } else {
        text
    }
}

/// The text shown for an image and whether it is underlined, given whether
/// its source names an existing file: a missing file shows its source
/// underlined; an existing one shows its alternative text (its source when
/// that is empty); an empty source shows the alternative text.
pub open spec fn image_label(alt: Seq<char>, src: Seq<char>, src_is_file: bool) -> (Seq<char>, bool) {
    if src.len() == 0 {
        (alt, false)
    } else if src_is_file {
        if alt.len() == 0 {
            (src, false)
        } else {
            (alt, false)
        }
    } else {
        (src, true)
    }
}

/// How a span is laid out: its style class and its text.
pub open spec fn kind_and_text(s: SpanView, image_is_file: bool) -> (SpanKind, Seq<char>) {
    match s {
        SpanView::Normal(t) => (SpanKind::Normal, t),
        SpanView::Bold(t) => (SpanKind::Bold, t),
        SpanView::Italic(t) => (SpanKind::Italic, t),
        SpanView::BoldItalic(t) => (SpanKind::BoldItalic, t),
        SpanView::InlineCode(t) => (SpanKind::InlineCode, t),
        SpanView::Link { text, url } => (SpanKind::Normal, link_label(text, url)),
        SpanView::Image { alt, src } => {
            let (label, underline) = image_label(alt, src, image_is_file);
            (if underline {
                SpanKind::Underline
            } else {
                SpanKind::Normal
            }, label)
        },
    }
}

/// The text shown for a link.
pub fn resolve_link_text(text: &str, url: &str) -> (r: String)
    ensures
        r@ == link_label(text@, url@),
{
    proof {
        broadcast use vstd::string::group_string_axioms;
    }
    if !url.is_empty() {
        return url.to_string();
    }
    text.to_string()
}

/// The text shown for an image and whether it is underlined, given whether
/// its source names an existing file.
pub fn resolve_image_text(alt: &str, src: &str, src_is_file: bool) -> (r: (String, bool))
    ensures
        (r.0@, r.1) == image_label(alt@, src@, src_is_file),
{
    proof {
        broadcast use vstd::string::group_string_axioms;
    }
    if src.is_empty() {
        return (alt.to_string(), false);
    }
    if src_is_file {
        if alt.is_empty() {
            return (src.to_string(), false);
        }
        return (alt.to_string(), false);
    }
    (src.to_string(), true)
}

/// How a span is laid out, given whether its image source (for an image)
/// names an existing file.
pub fn span_to_kind_and_text(span: &TextSpan, image_is_file: bool) -> (r: (SpanKind, String))
    ensures
        (r.0, r.1@) == kind_and_text(span@, image_is_file),
{
    match span {
        TextSpan::Normal(text) => (SpanKind::Normal, text.clone()),
        TextSpan::Bold(text) => (SpanKind::Bold, text.clone()),
        TextSpan::Italic(text) => (SpanKind::Italic, text.clone()),
        TextSpan::BoldItalic(text) => (SpanKind::BoldItalic, text.clone()),
        TextSpan::InlineCode(text) => (SpanKind::InlineCode, text.clone()),
        TextSpan::Link { text, url } => (SpanKind::Normal, resolve_link_text(text.as_str(), url.as_str())),
        TextSpan::Image { alt, src } => {
            let (label, underline) = resolve_image_text(alt.as_str(), src.as_str(), image_is_file);
            if underline {
                (SpanKind::Underline, label)
            } else {
                (SpanKind::Normal, label)
            }
        },
    }
}

/// The sum of the display widths of the texts of `parts`.
pub open spec fn parts_width(parts: Seq<(SpanKind, Seq<char>)>) -> int
    decreases parts.len(),
{
    if parts.len() == 0 {
        0
    } else {
        parts_width(parts.drop_last()) + str_width_of(parts.last().1)
    }
}

/// The total display width of laid-out pieces (at most `usize::MAX`).
pub fn inline_width(parts: &Vec<(SpanKind, String)>) -> (w: usize)
    ensures
        w as int == if parts_width(parts_view(parts@)) <= usize::MAX {
            parts_width(parts_view(parts@))
        } else {
            usize::MAX as int
        },
{
    let mut w: usize = 0;
    let mut k: usize = 0;
    let ghost pv = parts_view(parts@);
    while k < parts.len()
        invariant
            k <= parts.len(),
            pv == parts_view(parts@),
            w as int == if parts_width(pv.take(k as int)) <= usize::MAX {
                parts_width(pv.take(k as int))
            } else {
                usize::MAX as int
            },
            parts_width(pv.take(k as int)) >= 0,
        decreases parts.len() - k,
    {
        assert(pv.take(k + 1).drop_last() =~= pv.take(k as int));
        let x = str_width(parts[k].1.as_str());
        w = w.saturating_add(x);
        k = k + 1;
    }
    assert(pv.take(k as int) =~= pv);
    w
}


/// Where and how lines break: the available width, the columns already
/// taken at the start of a continuation line, and how many columns must be
/// taken (on the first line, on later lines) before a break is allowed.
pub struct WrapGeom {
    pub max: int,
    pub reset: int,
    pub first_threshold: int,
    pub cont_threshold: int,
}

/// The state of line wrapping: the finished lines, the pieces of the line
/// under way, the columns it takes, and whether it is the first line.
pub struct WrapModel {
    pub lines: Seq<Seq<(SpanKind, Seq<char>)>>,
    pub current: Seq<(SpanKind, Seq<char>)>,
    pub used: int,
    pub first: bool,
}

/// The state before any text, with `start` columns taken.
pub open spec fn wrap_start(start: int) -> WrapModel {
    WrapModel { lines: Seq::empty(), current: Seq::empty(), used: start, first: true }
}

/// Lays out one more character `c` of a piece of kind `kind` whose text so
/// far on this line is `chunk`: when it would overflow a line that already
/// has more than its threshold of columns, the line is finished first.
pub open spec fn char_step(m: WrapModel, chunk: Seq<char>, kind: SpanKind, c: char, g: WrapGeom) -> (
    WrapModel,
    Seq<char>,
) {
    let w = cols(c);
    let th = if m.first {
        g.first_threshold
    } else {
        g.cont_threshold
    };
    if m.used + w > g.max && m.used > th {
        let cur = if chunk.len() > 0 {
            m.current.push((kind, chunk))
        } else {
            m.current
        };
        (WrapModel { lines: m.lines.push(cur), current: Seq::empty(), used: g.reset + w, first: false }, seq![c])
    } else {
        (WrapModel { used: m.used + w, ..m }, chunk.push(c))
    }
}

/// The state after laying out the first `n` characters of `text`.
pub open spec fn text_run(m: WrapModel, kind: SpanKind, text: Seq<char>, n: int, g: WrapGeom) -> (
    WrapModel,
    Seq<char>,
)
    decreases n,
{
    if n <= 0 {
        (m, Seq::empty())
    } else {
        let (m1, c1) = text_run(m, kind, text, n - 1, g);
        char_step(m1, c1, kind, text[n - 1], g)
    }
}

/// The state after laying out one more piece.
pub open spec fn part_step(m: WrapModel, part: (SpanKind, Seq<char>), g: WrapGeom) -> WrapModel {
    let (m1, chunk) = text_run(m, part.0, part.1, part.1.len() as int, g);
    if chunk.len() > 0 {
        WrapModel { current: m1.current.push((part.0, chunk)), ..m1 }
    } else {
        m1
    }
}

/// The state after laying out the first `n` pieces.
pub open spec fn parts_run(m: WrapModel, parts: Seq<(SpanKind, Seq<char>)>, n: int, g: WrapGeom) -> WrapModel
    decreases n,
{
    if n <= 0 {
        m
    } else {
        part_step(parts_run(m, parts, n - 1, g), parts[n - 1], g)
    }
}

/// The lines of `parts` wrapped to `max` columns.
pub open spec fn wrap_spans_spec(parts: Seq<(SpanKind, Seq<char>)>, max: int) -> Seq<
    Seq<(SpanKind, Seq<char>)>,
> {
    let g = WrapGeom { max, reset: 0, first_threshold: 0, cont_threshold: 0 };
    let m = parts_run(wrap_start(0), parts, parts.len() as int, g);
    let ls = if m.current.len() > 0 {
        m.lines.push(m.current)
    } else {
        m.lines
    };
    if ls.len() == 0 {
        seq![Seq::empty()]
    } else {
        ls
    }
}

/// The lines of `parts` wrapped to `max` columns, the first after the prefix
/// `first`, the others after the prefix `cont`, each paired with its prefix.
pub open spec fn wrap_with_prefix_spec(
    parts: Seq<(SpanKind, Seq<char>)>,
    first: Seq<char>,
    cont: Seq<char>,
    max: int,
) -> Seq<(Seq<char>, Seq<(SpanKind, Seq<char>)>)> {
    let fw = str_width_of(first) as int;
    let cw = str_width_of(cont) as int;
    let g = WrapGeom { max, reset: cw, first_threshold: fw, cont_threshold: cw };
    let m = parts_run(wrap_start(fw), parts, parts.len() as int, g);
    let ls = m.lines.push(m.current);
    Seq::new(ls.len(), |k: int| (if k == 0 { first } else { cont }, ls[k]))
}

/// The executable state of line wrapping.
struct Wrapper {
    lines: Vec<Vec<(SpanKind, String)>>,
    current: Vec<(SpanKind, String)>,
    used: u128,
    first: bool,
}

impl Wrapper {
    closed spec fn model(&self) -> WrapModel {
        WrapModel {
            lines: lines_view(self.lines@),
            current: parts_view(self.current@),
            used: self.used as int,
            first: self.first,
        }
    }

    /// Lays out the piece `(kind, text)`.
    fn add_part(&mut self, kind: SpanKind, text: &String, max_width: usize, reset: usize, first_th: usize, cont_th: usize)
        requires
            old(self).used <= 2 * (usize::MAX as u128),
        ensures
            final(self).model() == part_step(
                old(self).model(),
                (kind, text@),
                WrapGeom {
                    max: max_width as int,
                    reset: reset as int,
                    first_threshold: first_th as int,
                    cont_threshold: cont_th as int,
                },
            ),
            final(self).used <= 2 * (usize::MAX as u128),
    {
        let ghost g = WrapGeom {
            max: max_width as int,
            reset: reset as int,
            first_threshold: first_th as int,
            cont_threshold: cont_th as int,
        };
        let ghost m0 = self.model();
        let chars = chars_of(text.as_str());
        let mut chunk: Vec<char> = Vec::new();
        let mut k: usize = 0;
        while k < chars.len()
            invariant
                k <= chars.len(),
                chars@ == text@,
                g == (WrapGeom {
                    max: max_width as int,
                    reset: reset as int,
                    first_threshold: first_th as int,
                    cont_threshold: cont_th as int,
                }),
                self.used <= 2 * (usize::MAX as u128),
                (self.model(), chunk@) == text_run(m0, kind, text@, k as int, g),
            decreases chars.len() - k,
        {
            let c = chars[k];
            let w: usize = match char_width(c) {
                Some(x) => x,
                None => 0,
            };
            let th: usize = if self.first {
                first_th
            } else {
                cont_th
            };
            let ghost mb = self.model();
            let ghost cb = chunk@;
            if self.used + (w as u128) > (max_width as u128) && self.used > (th as u128) {
                if chunk.len() > 0 {
                    let piece = (kind, string_of(&chunk));
                    let ghost before = self.current@;
                    self.current.push(piece);
                    assert(parts_view(self.current@) =~= parts_view(before).push((kind, cb)));
                }
                let mut cur: Vec<(SpanKind, String)> = Vec::new();
                std::mem::swap(&mut cur, &mut self.current);
                let ghost lb = self.lines@;
                let ghost curv = parts_view(cur@);
                self.lines.push(cur);
                assert(lines_view(self.lines@) =~= lines_view(lb).push(curv));
                assert(parts_view(self.current@) =~= Seq::<(SpanKind, Seq<char>)>::empty());
                self.first = false;
                self.used = (reset as u128) + (w as u128);
                chunk = Vec::new();
                chunk.push(c);
                assert(chunk@ =~= seq![c]);
            } else {
                chunk.push(c);
                self.used = self.used + (w as u128);
            }
            assert(w as int == cols(c));
            assert((self.model(), chunk@) == char_step(mb, cb, kind, c, g));
            k = k + 1;
        }
        if chunk.len() > 0 {
            let piece = (kind, string_of(&chunk));
            let ghost before = self.current@;
            let ghost cb = chunk@;
            self.current.push(piece);
            assert(parts_view(self.current@) =~= parts_view(before).push((kind, cb)));
        }
    }
}

/// Wraps `parts` from a line with `start` columns taken.
fn wrap_core(
    parts: &Vec<(SpanKind, String)>,
    max_width: usize,
    start: usize,
    reset: usize,
    first_th: usize,
    cont_th: usize,
) -> (r: Wrapper)
    ensures
        r.model() == parts_run(
            wrap_start(start as int),
            parts_view(parts@),
            parts@.len() as int,
            WrapGeom {
                max: max_width as int,
                reset: reset as int,
                first_threshold: first_th as int,
                cont_threshold: cont_th as int,
            },
        ),
{
    let mut w = Wrapper { lines: Vec::new(), current: Vec::new(), used: start as u128, first: true };
    assert(w.model() =~= wrap_start(start as int)) by {
        assert(lines_view(w.lines@) =~= Seq::<Seq<(SpanKind, Seq<char>)>>::empty());
        assert(parts_view(w.current@) =~= Seq::<(SpanKind, Seq<char>)>::empty());
    }
    let mut p: usize = 0;
    while p < parts.len()
        invariant
            p <= parts.len(),
            w.used <= 2 * (usize::MAX as u128),
            w.model() == parts_run(
                wrap_start(start as int),
                parts_view(parts@),
                p as int,
                WrapGeom {
                    max: max_width as int,
                    reset: reset as int,
                    first_threshold: first_th as int,
                    cont_threshold: cont_th as int,
                },
            ),
        decreases parts.len() - p,
    {
        let kind = parts[p].0;
        w.add_part(kind, &parts[p].1, max_width, reset, first_th, cont_th);
        p = p + 1;
    }
    w
}

/// Wraps laid-out pieces into lines of at most `max_width` columns; a line
/// holds at least one character before it may break.
pub fn wrap_spans(parts: &Vec<(SpanKind, String)>, max_width: usize) -> (lines: Vec<Vec<(SpanKind, String)>>)
    ensures
        lines_view(lines@) == wrap_spans_spec(parts_view(parts@), max_width as int),
{
    let w = wrap_core(parts, max_width, 0, 0, 0, 0);
    let mut lines = w.lines;
    if w.current.len() > 0 {
        let ghost lb = lines@;
        let ghost cv = parts_view(w.current@);
        lines.push(w.current);
        assert(lines_view(lines@) =~= lines_view(lb).push(cv));
    }
    if lines.len() == 0 {
        let e: Vec<(SpanKind, String)> = Vec::new();
        assert(parts_view(e@) =~= Seq::<(SpanKind, Seq<char>)>::empty());
        lines.push(e);
        assert(lines_view(lines@) =~= seq![Seq::<(SpanKind, Seq<char>)>::empty()]);
    }
    lines
}

/// Wraps laid-out pieces after a prefix: `first_prefix` before the first
/// line and `cont_prefix` before the others, both counted in the width.
pub fn wrap_with_prefix(
    parts: &Vec<(SpanKind, String)>,
    first_prefix: &str,
    cont_prefix: &str,
    max_width: usize,
) -> (lines: Vec<(String, Vec<(SpanKind, String)>)>)
    ensures
        lines@.map_values(|l: (String, Vec<(SpanKind, String)>)| (l.0@, parts_view(l.1@)))
            == wrap_with_prefix_spec(parts_view(parts@), first_prefix@, cont_prefix@, max_width as int),
{
    let fw = str_width(first_prefix);
    let cw = str_width(cont_prefix);
    let w = wrap_core(parts, max_width, fw, cw, fw, cw);
    let mut body = w.lines;
    let ghost lb = body@;
    let ghost cv = parts_view(w.current@);
    body.push(w.current);
    assert(lines_view(body@) =~= lines_view(lb).push(cv));
    let ghost full = lines_view(body@);
    let mut out: Vec<(String, Vec<(SpanKind, String)>)> = Vec::new();
    let n = body.len();
    let mut k: usize = 0;
    proof {
        broadcast use vstd::string::group_string_axioms;
    }
    while k < n
        invariant
            n == full.len(),
            k <= n,
            body@.len() == n - k,
            lines_view(body@) == full.skip(k as int),
            out@.len() == k,
            forall|m: int|
                0 <= m < k ==> (#[trigger] out@[m]).0@ == (if m == 0 {
                    first_prefix@
                } else {
                    cont_prefix@
                }) && parts_view(out@[m].1@) == full[m],
        decreases n - k,
    {
        let ghost bv = body@;
        let line = body.remove(0);
        assert(parts_view(line@) == full[k as int]) by {
            assert(lines_view(bv)[0] == full.skip(k as int)[0]);
        }
        assert(lines_view(body@) =~= full.skip(k + 1)) by {
            assert(body@ =~= bv.subrange(1, bv.len() as int));
            assert forall|m: int| 0 <= m < body@.len() implies lines_view(body@)[m] == full.skip(k + 1)[m] by {
                assert(body@[m] == bv[m + 1]);
                assert(lines_view(bv)[m + 1] == full.skip(k as int)[m + 1]);
            }
        }
        let prefix = if k == 0 {
            first_prefix.to_string()
        } else {
            cont_prefix.to_string()
        };
        out.push((prefix, line));
        k = k + 1;
    }
    assert(out@.map_values(|l: (String, Vec<(SpanKind, String)>)| (l.0@, parts_view(l.1@)))
        =~= wrap_with_prefix_spec(parts_view(parts@), first_prefix@, cont_prefix@, max_width as int));
    out
}


/// The texts of laid-out pieces, one after the other.
pub open spec fn pieces_text(ps: Seq<(SpanKind, Seq<char>)>) -> Seq<char>
    decreases ps.len(),
{
    if ps.len() == 0 {
        Seq::empty()
    } else {
        pieces_text(ps.drop_last()) + ps.last().1
    }
}

/// The texts of laid-out lines, one after the other.
pub open spec fn lines_text(ls: Seq<Seq<(SpanKind, Seq<char>)>>) -> Seq<char>
    decreases ls.len(),
{
    if ls.len() == 0 {
        Seq::empty()
    } else {
        lines_text(ls.drop_last()) + pieces_text(ls.last())
    }
}

/// The columns that the characters of `s` take.
pub open spec fn cols_of(s: Seq<char>) -> int
    decreases s.len(),
{
    if s.len() == 0 {
        0
    } else {
        cols_of(s.drop_last()) + cols(s.last())
    }
}

/// A line of text `t` after a prefix of `pw` columns fits in `max` columns,
/// or it is one character too wide for them, after zero-width characters only.
pub open spec fn line_fits(t: Seq<char>, pw: int, max: int) -> bool {
    pw + cols_of(t) <= max || t.len() == 0 || cols_of(t.drop_last()) == 0
}

/// The prefix width of the line under way.
pub open spec fn prefix_cols(m: WrapModel, g: WrapGeom) -> int {
    if m.first {
        g.first_threshold
    } else {
        g.cont_threshold
    }
}

/// The text that follows finished line `k`: the next finished line, or the
/// line under way.
pub open spec fn text_after(m: WrapModel, chunk: Seq<char>, k: int) -> Seq<char> {
    if k + 1 < m.lines.len() {
        pieces_text(m.lines[k + 1])
    } else {
        pieces_text(m.current) + chunk
    }
}

/// A line of text `t` after a prefix of `pw` columns was ended only because
/// the next character, the first of `next`, would not fit beside it in `max`
/// columns, and not before it held some text.
pub open spec fn broke_when_full(t: Seq<char>, next: Seq<char>, pw: int, max: int) -> bool {
    &&& next.len() > 0
    &&& cols_of(t) > 0
    &&& pw + cols_of(t) + cols(next[0]) > max
}

/// What wrapping keeps true: `done` is all text laid out so far, the
/// columns taken are the prefix and the text of the line under way, and every
/// line fits.
pub open spec fn wrap_inv(m: WrapModel, chunk: Seq<char>, g: WrapGeom, done: Seq<char>) -> bool {
    let t = pieces_text(m.current) + chunk;
    &&& lines_text(m.lines) + t == done
    &&& (m.first <==> m.lines.len() == 0)
    &&& m.used == prefix_cols(m, g) + cols_of(t)
    &&& line_fits(t, prefix_cols(m, g), g.max)
    &&& forall|k: int|
        0 <= k < m.lines.len() ==> line_fits(
            pieces_text(#[trigger] m.lines[k]),
            if k == 0 {
                g.first_threshold
            } else {
                g.cont_threshold
            },
            g.max,
        )
    &&& forall|k: int|
        0 <= k < m.lines.len() ==> broke_when_full(
            pieces_text(#[trigger] m.lines[k]),
            text_after(m, chunk, k),
            if k == 0 {
                g.first_threshold
            } else {
                g.cont_threshold
            },
            g.max,
        )
}

proof fn lemma_cols_nonneg(s: Seq<char>)
    ensures
        cols_of(s) >= 0,
    decreases s.len(),
{
    if s.len() > 0 {
        lemma_cols_nonneg(s.drop_last());
    }
}

proof fn lemma_char_step_inv(m: WrapModel, chunk: Seq<char>, kind: SpanKind, c: char, g: WrapGeom, done: Seq<char>)
    requires
        wrap_inv(m, chunk, g, done),
        g.reset == g.cont_threshold,
    ensures
        wrap_inv(char_step(m, chunk, kind, c, g).0, char_step(m, chunk, kind, c, g).1, g, done.push(c)),
{
    let t = pieces_text(m.current) + chunk;
    let (m2, c2) = char_step(m, chunk, kind, c, g);
    lemma_cols_nonneg(t);
    let w = cols(c);
    let th = prefix_cols(m, g);
    if m.used + w > g.max && m.used > th {
        let cur = if chunk.len() > 0 {
            m.current.push((kind, chunk))
        } else {
            m.current
        };
        if chunk.len() > 0 {
            assert(m.current.push((kind, chunk)).drop_last() =~= m.current);
        } else {
            assert(t =~= pieces_text(m.current));
        }
        assert(pieces_text(cur) == t);
        assert(m2.lines.drop_last() =~= m.lines);
        assert(lines_text(m2.lines) == lines_text(m.lines) + t);
        assert(pieces_text(m2.current) + c2 =~= seq![c]);
        assert(seq![c].drop_last() =~= Seq::<char>::empty());
        assert(cols_of(seq![c]) == cols_of(Seq::<char>::empty()) + w);
        assert(lines_text(m2.lines) + (pieces_text(m2.current) + c2) =~= done.push(c));
        assert forall|k: int| 0 <= k < m2.lines.len() implies line_fits(
            pieces_text(#[trigger] m2.lines[k]),
            if k == 0 {
                g.first_threshold
            } else {
                g.cont_threshold
            },
            g.max,
        ) by {
            if k < m.lines.len() {
                assert(m2.lines[k] == m.lines[k]);
            }
        }
    } else {
        let t2 = pieces_text(m2.current) + c2;
        assert(t2 =~= t.push(c));
        assert(t2.drop_last() =~= t);
        assert(lines_text(m2.lines) + t2 =~= done.push(c));
    }
}

proof fn lemma_text_run_inv(m: WrapModel, kind: SpanKind, text: Seq<char>, n: int, g: WrapGeom, done: Seq<char>)
    requires
        wrap_inv(m, Seq::empty(), g, done),
        g.reset == g.cont_threshold,
        0 <= n <= text.len(),
    ensures
        wrap_inv(text_run(m, kind, text, n, g).0, text_run(m, kind, text, n, g).1, g, done + text.take(n)),
    decreases n,
{
    if n == 0 {
        assert(done + text.take(0) =~= done);
    } else {
        lemma_text_run_inv(m, kind, text, n - 1, g, done);
        let (m1, c1) = text_run(m, kind, text, n - 1, g);
        lemma_char_step_inv(m1, c1, kind, text[n - 1], g, done + text.take(n - 1));
        assert((done + text.take(n - 1)).push(text[n - 1]) =~= done + text.take(n));
    }
}

proof fn lemma_part_step_inv(m: WrapModel, part: (SpanKind, Seq<char>), g: WrapGeom, done: Seq<char>)
    requires
        wrap_inv(m, Seq::empty(), g, done),
        g.reset == g.cont_threshold,
    ensures
        wrap_inv(part_step(m, part, g), Seq::empty(), g, done + part.1),
{
    lemma_text_run_inv(m, part.0, part.1, part.1.len() as int, g, done);
    assert(part.1.take(part.1.len() as int) =~= part.1);
    let (m1, chunk) = text_run(m, part.0, part.1, part.1.len() as int, g);
    let m2 = part_step(m, part, g);
    if chunk.len() > 0 {
        assert(m1.current.push((part.0, chunk)).drop_last() =~= m1.current);
        assert(pieces_text(m2.current) + Seq::<char>::empty() =~= pieces_text(m1.current) + chunk);
    } else {
        assert(pieces_text(m2.current) + Seq::<char>::empty() =~= pieces_text(m1.current) + chunk);
    }
}

proof fn lemma_parts_run_inv(m: WrapModel, parts: Seq<(SpanKind, Seq<char>)>, n: int, g: WrapGeom)
    requires
        wrap_inv(m, Seq::empty(), g, Seq::empty()),
        g.reset == g.cont_threshold,
        0 <= n <= parts.len(),
    ensures
        wrap_inv(parts_run(m, parts, n, g), Seq::empty(), g, pieces_text(parts.take(n))),
    decreases n,
{
    if n == 0 {
        assert(parts.take(0) =~= Seq::<(SpanKind, Seq<char>)>::empty());
    } else {
        lemma_parts_run_inv(m, parts, n - 1, g);
        lemma_part_step_inv(parts_run(m, parts, n - 1, g), parts[n - 1], g, pieces_text(parts.take(n - 1)));
        assert(parts.take(n).drop_last() =~= parts.take(n - 1));
    }
}

proof fn lemma_start_inv(start: int, g: WrapGeom)
    requires
        start == g.first_threshold,
    ensures
        wrap_inv(wrap_start(start), Seq::empty(), g, Seq::empty()),
{
    let m = wrap_start(start);
    assert(pieces_text(m.current) + Seq::<char>::empty() =~= Seq::<char>::empty());
    assert(lines_text(m.lines) + (pieces_text(m.current) + Seq::<char>::empty()) =~= Seq::<char>::empty());
}

/// Wrapping keeps every character, in order: the lines' texts put together
/// are the pieces' texts put together; every line fits in the width, or
/// holds a single character too wide for it (after zero-width characters
/// only); and a line ends only once it holds text and the first character of
/// the next line would not fit beside it.
pub proof fn lemma_wrap_spans_laws(parts: Seq<(SpanKind, Seq<char>)>, max: int)
    ensures
        lines_text(wrap_spans_spec(parts, max)) == pieces_text(parts),
        forall|k: int|
            0 <= k < wrap_spans_spec(parts, max).len() ==> line_fits(
                pieces_text(#[trigger] wrap_spans_spec(parts, max)[k]),
                0,
                max,
            ),
        forall|k: int|
            0 <= k && k + 1 < wrap_spans_spec(parts, max).len() ==> broke_when_full(
                pieces_text(#[trigger] wrap_spans_spec(parts, max)[k]),
                pieces_text(wrap_spans_spec(parts, max)[k + 1]),
                0,
                max,
            ),
{
    let g = WrapGeom { max, reset: 0, first_threshold: 0, cont_threshold: 0 };
    lemma_start_inv(0, g);
    lemma_parts_run_inv(wrap_start(0), parts, parts.len() as int, g);
    assert(parts.take(parts.len() as int) =~= parts);
    let m = parts_run(wrap_start(0), parts, parts.len() as int, g);
    assert(pieces_text(m.current) + Seq::<char>::empty() =~= pieces_text(m.current));
    let ls = if m.current.len() > 0 {
        m.lines.push(m.current)
    } else {
        m.lines
    };
    if m.current.len() > 0 {
        assert(ls.drop_last() =~= m.lines);
    } else {
        assert(lines_text(m.lines) + pieces_text(m.current) =~= lines_text(m.lines));
    }
    if ls.len() == 0 {
        let e = seq![Seq::<(SpanKind, Seq<char>)>::empty()];
        assert(e.drop_last() =~= Seq::<Seq<(SpanKind, Seq<char>)>>::empty());
        assert(lines_text(e) =~= Seq::<char>::empty());
    } else {
        assert forall|k: int| 0 <= k < ls.len() implies line_fits(pieces_text(#[trigger] ls[k]), 0, max) by {
            if k < m.lines.len() {
                assert(ls[k] == m.lines[k]);
            }
        }
        if m.lines.len() > 0 {
            assert(text_after(m, Seq::empty(), m.lines.len() - 1).len() > 0);
            assert(m.current.len() > 0);
        }
        assert forall|k: int| 0 <= k && k + 1 < ls.len() implies broke_when_full(
            pieces_text(#[trigger] ls[k]),
            pieces_text(ls[k + 1]),
            0,
            max,
        ) by {
            assert(ls[k] == m.lines[k]);
            assert(pieces_text(ls[k + 1]) == text_after(m, Seq::empty(), k));
        }
    }
}

/// Wrapping after prefixes keeps every character, in order; every line
/// fits in the width together with its prefix, or holds a single character
/// too wide for it (after zero-width characters only); and a line ends only
/// once it holds text and the first character of the next line would not fit
/// beside it and its prefix.
pub proof fn lemma_wrap_with_prefix_laws(
    parts: Seq<(SpanKind, Seq<char>)>,
    first: Seq<char>,
    cont: Seq<char>,
    max: int,
)
    ensures
        ({
            let out = wrap_with_prefix_spec(parts, first, cont, max);
            &&& lines_text(out.map_values(|l: (Seq<char>, Seq<(SpanKind, Seq<char>)>)| l.1)) == pieces_text(parts)
            &&& forall|k: int|
                0 <= k < out.len() ==> line_fits(
                    pieces_text((#[trigger] out[k]).1),
                    str_width_of(out[k].0) as int,
                    max,
                )
            &&& forall|k: int|
                0 <= k && k + 1 < out.len() ==> broke_when_full(
                    pieces_text((#[trigger] out[k]).1),
                    pieces_text(out[k + 1].1),
                    str_width_of(out[k].0) as int,
                    max,
                )
        }),
{
    let fw = str_width_of(first) as int;
    let cw = str_width_of(cont) as int;
    let g = WrapGeom { max, reset: cw, first_threshold: fw, cont_threshold: cw };
    lemma_start_inv(fw, g);
    lemma_parts_run_inv(wrap_start(fw), parts, parts.len() as int, g);
    assert(parts.take(parts.len() as int) =~= parts);
    let m = parts_run(wrap_start(fw), parts, parts.len() as int, g);
    let ls = m.lines.push(m.current);
    let out = wrap_with_prefix_spec(parts, first, cont, max);
    assert(out.map_values(|l: (Seq<char>, Seq<(SpanKind, Seq<char>)>)| l.1) =~= ls);
    assert(ls.drop_last() =~= m.lines);
    assert(pieces_text(m.current) + Seq::<char>::empty() =~= pieces_text(m.current));
    assert forall|k: int| 0 <= k < out.len() implies line_fits(
        pieces_text((#[trigger] out[k]).1),
        str_width_of(out[k].0) as int,
        max,
    ) by {
        if k < m.lines.len() {
            assert(ls[k] == m.lines[k]);
        }
    }
    assert forall|k: int| 0 <= k && k + 1 < out.len() implies broke_when_full(
        pieces_text((#[trigger] out[k]).1),
        pieces_text(out[k + 1].1),
        str_width_of(out[k].0) as int,
        max,
    ) by {
        assert(out[k].1 == m.lines[k]);
        assert(pieces_text(out[k + 1].1) == text_after(m, Seq::empty(), k));
    }
}

} // verus!
