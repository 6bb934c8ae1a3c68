//! The inline Markdown parser: bold, italic, bold-italic, inline code,
//! links, images and backslash escapes within one line of text.

use vstd::prelude::*;
use crate::parser::{
    plain_all, plain_of, pushed_all, spans_view, InlineSpanCollector, PlainTextCollector, SpanView,
    TextSpan,
};
use crate::text::{chars_of, has_non_ws, is_whitespace, is_ws, string_of, slice_vec};

verus! {

/// The characters that a backslash turns into literal text.
pub open spec fn is_escapable(c: char) -> bool {
    c == '*' || c == '`' || c == '[' || c == ']' || c == '(' || c == ')' || c == '!' || c == '_'
        || c == '\\'
}

/// A backtick at `i` that has no backtick right before or right after it.
pub open spec fn single_backtick_at(s: Seq<char>, i: int) -> bool {
    &&& !(0 < i && i - 1 < s.len() && s[i - 1] == '`')
    &&& !(0 <= i + 1 < s.len() && s[i + 1] == '`')
}

/// The first single backtick at or after `k`.
pub open spec fn closing_backtick(s: Seq<char>, k: int) -> Option<int>
    decreases s.len() - k,
{
    if k < 0 || k >= s.len() {
        None
    } else if s[k] == '`' && single_backtick_at(s, k) {
        Some(k)
    } else {
        closing_backtick(s, k + 1)
    }
}

/// The position of the delimiter that closes an emphasis opened before `k`:
/// `**` when `double` holds (one place later when three stars stand there),
/// else a lone `*`; inline code spans are skipped, and an unclosed one ends
/// the search.
pub open spec fn closing_delim(s: Seq<char>, k: int, double: bool) -> Option<int>
    decreases s.len() - k,
{
    if k < 0 || k >= s.len() {
        None
    } else if s[k] == '`' {
        proof {
            lemma_closing_backtick(s, k + 1);
        }
        match closing_backtick(s, k + 1) {
            Some(e) => closing_delim(s, e + 1, double),
            None => None,
        }
    } else if double {
        if k + 1 < s.len() && s[k] == '*' && s[k + 1] == '*' {
            if k + 2 < s.len() && s[k + 2] == '*' {
                Some(k + 1)
            } else {
                Some(k)
            }
        } else {
            closing_delim(s, k + 1, double)
        }
    } else if s[k] == '*' {
        if k + 1 < s.len() && s[k + 1] == '*' {
            closing_delim(s, k + 2, double)
        } else {
            Some(k)
        }
    } else {
        closing_delim(s, k + 1, double)
    }
}

/// The number of backslashes that directly precede index `i`.
pub open spec fn backslash_run(s: Seq<char>, i: int) -> int
    decreases i,
{
    if i <= 0 || i > s.len() {
        0
    } else if s[i - 1] == '\\' {
        1 + backslash_run(s, i - 1)
    } else {
        0
    }
}

/// Whether the character at `i` is escaped by an odd run of backslashes.
pub open spec fn escaped_at(s: Seq<char>, i: int) -> bool {
    backslash_run(s, i) % 2 == 1
}

/// The first index at or after `k` holding an unescaped `c` (the length when none).
pub open spec fn scan_unescaped(s: Seq<char>, k: int, c: char) -> int
    decreases s.len() - k,
{
    if k < 0 || k >= s.len() {
        k
    } else if s[k] == c && !escaped_at(s, k) {
        k
    } else {
        scan_unescaped(s, k + 1, c)
    }
}

/// `[text](url)` starting with the bracket at `ob`: the text, the URL and
/// the index of the closing parenthesis.
pub open spec fn link_like(s: Seq<char>, ob: int) -> Option<(Seq<char>, Seq<char>, int)> {
    let i = scan_unescaped(s, ob + 1, ']');
    if i >= s.len() || !(i + 1 < s.len() && s[i + 1] == '(') {
        None
    } else {
        let j = scan_unescaped(s, i + 2, ')');
        if j >= s.len() {
            None
        } else {
            Some((s.subrange(ob + 1, i), s.subrange(i + 2, j), j))
        }
    }
}

/// An image `![alt](src)` with a non-empty source starts at `i`.
pub open spec fn image_at(s: Seq<char>, i: int) -> bool {
    &&& s[i] == '!'
    &&& i + 1 < s.len()
    &&& s[i + 1] == '['
    &&& link_like(s, i + 1) matches Some((_, src, _))
    &&& src.len() > 0
}

/// A link `[text](url)` with a non-empty URL starts at `i`.
pub open spec fn link_at(s: Seq<char>, i: int) -> bool {
    &&& s[i] == '['
    &&& link_like(s, i) matches Some((_, url, _))
    &&& url.len() > 0
}

/// An inline code span with some non-whitespace content opens at `i`.
pub open spec fn code_at(s: Seq<char>, i: int) -> bool {
    &&& single_backtick_at(s, i)
    &&& closing_backtick(s, i + 1) matches Some(end)
    &&& end > i + 1
    &&& has_non_ws(s.subrange(i + 1, end))
}

/// A bold span `**...**` with some non-whitespace content opens at `i`.
pub open spec fn strong_at(s: Seq<char>, i: int) -> bool {
    &&& closing_delim(s, i + 2, true) matches Some(end)
    &&& end > i + 2
    &&& has_non_ws(s.subrange(i + 2, end))
}

/// An italic span `*...*` with some non-whitespace content opens at `i`.
pub open spec fn emph_at(s: Seq<char>, i: int) -> bool {
    &&& closing_delim(s, i + 1, false) matches Some(end)
    &&& end > i + 1
    &&& has_non_ws(s.subrange(i + 1, end))
}

/// The pending plain text, as a span when there is any.
pub open spec fn flush(buf: Seq<char>) -> Seq<SpanView> {
    if buf.len() == 0 {
        Seq::empty()
    } else {
        seq![SpanView::Normal(buf)]
    }
}

/// A span seen inside `**...**`.
pub open spec fn bold_of(s: SpanView) -> SpanView {
    match s {
        SpanView::Normal(t) => SpanView::Bold(t),
        SpanView::Italic(t) => SpanView::BoldItalic(t),
        _ => s,
    }
}

/// A span seen inside `*...*`.
pub open spec fn italic_of(s: SpanView) -> SpanView {
    match s {
        SpanView::Normal(t) => SpanView::Italic(t),
        SpanView::Bold(t) => SpanView::BoldItalic(t),
        _ => s,
    }
}

pub open spec fn bold_all(s: Seq<SpanView>) -> Seq<SpanView> {
    s.map_values(|x: SpanView| bold_of(x))
}

pub open spec fn italic_all(s: Seq<SpanView>) -> Seq<SpanView> {
    s.map_values(|x: SpanView| italic_of(x))
}

/// The spans of `s` from index `i` on, with `buf` the plain text read so far
/// and not yet emitted.
pub open spec fn parse_from(s: Seq<char>, i: int, buf: Seq<char>) -> Seq<SpanView>
    decreases s.len(), s.len() - i,
{
    if i < 0 || i >= s.len() {
        flush(buf)
    } else {
        proof {
            lemma_link_like(s, i);
            lemma_link_like(s, i + 1);
            lemma_closing_backtick(s, i + 1);
            lemma_closing_delim(s, i + 1, false);
            lemma_closing_delim(s, i + 2, true);
        }
        let c = s[i];
        if c == '\\' {
            if i + 1 < s.len() && is_escapable(s[i + 1]) {
                parse_from(s, i + 2, buf.push(s[i + 1]))
            } else {
                parse_from(s, i + 1, buf.push('\\'))
            }
        } else if c == '!' && image_at(s, i) {
            let (alt, src, end) = link_like(s, i + 1).unwrap();
            flush(buf) + seq![SpanView::Image { alt, src }] + parse_from(s, end + 1, Seq::empty())
        } else if c == '[' && link_at(s, i) {
            let (text, url, end) = link_like(s, i).unwrap();
            flush(buf) + seq![SpanView::Link { text, url }] + parse_from(s, end + 1, Seq::empty())
        } else if c == '`' {
            if i + 1 < s.len() && s[i + 1] == '`' {
                parse_from(s, i + 2, buf + seq!['`', '`'])
            } else if code_at(s, i) {
                let end = closing_backtick(s, i + 1).unwrap();
                flush(buf) + seq![SpanView::InlineCode(s.subrange(i + 1, end))] + parse_from(
                    s,
                    end + 1,
                    Seq::empty(),
                )
            } else {
                parse_from(s, i + 1, buf.push('`'))
            }
        } else if c == '*' {
            if i + 1 < s.len() && s[i + 1] == '*' {
                if strong_at(s, i) {
                    let end = closing_delim(s, i + 2, true).unwrap();
                    flush(buf) + bold_all(parse_from(s.subrange(i + 2, end), 0, Seq::empty()))
                        + parse_from(s, end + 2, Seq::empty())
                } else {
                    parse_from(s, i + 2, buf + seq!['*', '*'])
                }
            } else if emph_at(s, i) {
                let end = closing_delim(s, i + 1, false).unwrap();
                flush(buf) + italic_all(parse_from(s.subrange(i + 1, end), 0, Seq::empty()))
                    + parse_from(s, end + 1, Seq::empty())
            } else {
                parse_from(s, i + 1, buf.push('*'))
            }
        } else {
            parse_from(s, i + 1, buf.push(c))
        }
    }
}

/// The inline spans of the text `s`.
pub open spec fn parse_inline_spec(s: Seq<char>) -> Seq<SpanView> {
    parse_from(s, 0, Seq::empty())
}

pub proof fn lemma_closing_backtick(s: Seq<char>, k: int)
    ensures
        closing_backtick(s, k) matches Some(e) ==> k <= e < s.len() && s[e] == '`'
            && single_backtick_at(s, e),
    decreases s.len() - k,
{
    if 0 <= k < s.len() && !(s[k] == '`' && single_backtick_at(s, k)) {
        lemma_closing_backtick(s, k + 1);
    }
}

pub proof fn lemma_closing_delim(s: Seq<char>, k: int, double: bool)
    ensures
        closing_delim(s, k, double) matches Some(e) ==> {
            &&& k <= e
            &&& double ==> e + 1 < s.len() && s[e] == '*' && s[e + 1] == '*'
            &&& !double ==> e < s.len() && s[e] == '*'
        },
    decreases s.len() - k,
{
    if 0 <= k < s.len() {
        if s[k] == '`' {
            lemma_closing_backtick(s, k + 1);
            if let Some(e) = closing_backtick(s, k + 1) {
                lemma_closing_delim(s, e + 1, double);
            }
        } else if double {
            if !(k + 1 < s.len() && s[k] == '*' && s[k + 1] == '*') {
                lemma_closing_delim(s, k + 1, double);
            }
        } else if s[k] == '*' {
            if k + 1 < s.len() && s[k + 1] == '*' {
                lemma_closing_delim(s, k + 2, double);
            }
        } else {
            lemma_closing_delim(s, k + 1, double);
        }
    }
}

pub proof fn lemma_scan_unescaped(s: Seq<char>, k: int, c: char)
    requires
        0 <= k,
    ensures
        k <= scan_unescaped(s, k, c),
        scan_unescaped(s, k, c) < s.len() ==> s[scan_unescaped(s, k, c)] == c,
        k <= s.len() ==> scan_unescaped(s, k, c) <= s.len(),
    decreases s.len() - k,
{
    if k < s.len() && !(s[k] == c && !escaped_at(s, k)) {
        lemma_scan_unescaped(s, k + 1, c);
    }
}

pub proof fn lemma_link_like(s: Seq<char>, ob: int)
    ensures
        0 <= ob ==> (link_like(s, ob) matches Some((t, u, j)) ==> ob + 2 < j < s.len()),
{
    if 0 <= ob {
        lemma_scan_unescaped(s, ob + 1, ']');
        let i = scan_unescaped(s, ob + 1, ']');
        if i < s.len() && i + 1 < s.len() && s[i + 1] == '(' {
            lemma_scan_unescaped(s, i + 2, ')');
        }
    }
}

/// An optional index as a machine integer.
pub open spec fn opt_usize(o: Option<int>) -> Option<usize> {
    match o {
        Some(e) => Some(e as usize),
        None => None,
    }
}

/// Whether a backslash turns `c` into literal text.
fn is_escaped_char(c: char) -> (b: bool)
    ensures
        b == is_escapable(c),
{
    c == '*' || c == '`' || c == '[' || c == ']' || c == '(' || c == ')' || c == '!' || c == '_'
        || c == '\\'
}

/// Whether the backtick at `i` stands alone.
fn is_single_backtick(chars: &Vec<char>, i: usize) -> (b: bool)
    ensures
        b == single_backtick_at(chars@, i as int),
{
    let prev_is_tick = i > 0 && i - 1 < chars.len() && chars[i - 1] == '`';
    let next_is_tick = chars.len() > 0 && i < chars.len() - 1 && chars[i + 1] == '`';
    !prev_is_tick && !next_is_tick
}

/// The next single backtick at or after `i`.
fn find_closing_backtick(chars: &Vec<char>, start: usize) -> (r: Option<usize>)
    ensures
        r == (match closing_backtick(chars@, start as int) {
            Some(e) => Some(e as usize),
            None => None::<usize>,
        }),
{
    let mut i = start;
    while i < chars.len()
        invariant
            closing_backtick(chars@, i as int) == closing_backtick(chars@, start as int),
        decreases chars.len() - i,
    {
        if chars[i] == '`' && is_single_backtick(chars, i) {
            return Some(i);
        }
        i = i + 1;
    }
    None
}


/// Where the emphasis opened before `start` closes (see [`closing_delim`]).
fn find_closing(chars: &Vec<char>, start: usize, double: bool) -> (r: Option<usize>)
    ensures
        r == opt_usize(closing_delim(chars@, start as int, double)),
{
    let n = chars.len();
    let mut i = start;
    while i < n
        invariant
            n == chars.len(),
            closing_delim(chars@, i as int, double) == closing_delim(chars@, start as int, double),
        decreases n - i,
    {
        if chars[i] == '`' {
            proof {
                lemma_closing_backtick(chars@, i + 1);
            }
            match find_closing_backtick(chars, i + 1) {
                Some(end) => {
                    i = end + 1;
                    continue ;
                },
                None => {
                    return None;
                },
            }
        }
        if double {
            if i + 1 < n && chars[i] == '*' && chars[i + 1] == '*' {
                if i + 2 < n && chars[i + 2] == '*' {
                    return Some(i + 1);
                }
                return Some(i);
            }
        } else if chars[i] == '*' {
            if i + 1 < n && chars[i + 1] == '*' {
                i = i + 2;
                continue ;
            }
            return Some(i);
        }
        i = i + 1;
    }
    None
}

/// Whether the character at `i` follows an odd run of backslashes.
fn is_escaped(chars: &Vec<char>, i: usize) -> (b: bool)
    requires
        i <= chars.len(),
    ensures
        b == escaped_at(chars@, i as int),
{
    if i == 0 {
        return false;
    }
    let mut backslashes: usize = 0;
    let mut idx: usize = i;
    while idx > 0 && chars[idx - 1] == '\\'
        invariant
            idx <= i <= chars.len(),
            backslashes + idx == i,
            backslashes + backslash_run(chars@, idx as int) == backslash_run(chars@, i as int),
        decreases idx,
    {
        backslashes = backslashes + 1;
        idx = idx - 1;
    }
    backslashes % 2 == 1
}

/// The first unescaped `c` at or after `start` (the length when none).
fn scan_unescaped_vec(chars: &Vec<char>, start: usize, c: char) -> (r: usize)
    requires
        start <= chars.len(),
    ensures
        r as int == scan_unescaped(chars@, start as int, c),
        start <= r <= chars.len(),
{
    let mut i = start;
    while i < chars.len()
        invariant
            start <= i <= chars.len(),
            scan_unescaped(chars@, i as int, c) == scan_unescaped(chars@, start as int, c),
        decreases chars.len() - i,
    {
        if chars[i] == c && !is_escaped(chars, i) {
            return i;
        }
        i = i + 1;
    }
    i
}

/// `[text](url)` opening at `open_bracket`: its text, its URL and the index
/// of its closing parenthesis.
fn parse_link_like(chars: &Vec<char>, open_bracket: usize) -> (r: Option<(Vec<char>, Vec<char>, usize)>)
    requires
        open_bracket < chars.len(),
    ensures
        match link_like(chars@, open_bracket as int) {
            Some((t, u, j)) => r matches Some((rt, ru, rj)) && rt@ == t && ru@ == u && rj == j,
            None => r is None,
        },
{
    let n = chars.len();
    let i = scan_unescaped_vec(chars, open_bracket + 1, ']');
    if i >= n || !(i + 1 < n && chars[i + 1] == '(') {
        return None;
    }
    let text = slice_vec(chars, open_bracket + 1, i);
    proof {
        lemma_scan_unescaped(chars@, open_bracket + 1, ']');
    }
    let j = scan_unescaped_vec(chars, i + 2, ')');
    if j >= n {
        return None;
    }
    let url = slice_vec(chars, i + 2, j);
    Some((text, url, j))
}

/// Whether `chars[lo..hi]` holds a non-whitespace character.
fn has_non_whitespace(chars: &Vec<char>, lo: usize, hi: usize) -> (b: bool)
    requires
        lo <= hi <= chars.len(),
    ensures
        b == has_non_ws(chars@.subrange(lo as int, hi as int)),
{
    let mut k = lo;
    while k < hi
        invariant
            lo <= k <= hi <= chars.len(),
            forall|m: int| lo <= m < k ==> is_ws(#[trigger] chars@[m]),
        decreases hi - k,
    {
        if !is_whitespace(chars[k]) {
            assert(!is_ws(chars@.subrange(lo as int, hi as int)[k - lo]));
            return true;
        }
        k = k + 1;
    }
    assert forall|m: int| 0 <= m < hi - lo implies is_ws(#[trigger] chars@.subrange(lo as int, hi as int)[m]) by {
        assert(chars@.subrange(lo as int, hi as int)[m] == chars@[lo + m]);
    }
    false
}

/// A copy of a span.
fn copy_span(s: &TextSpan) -> (r: TextSpan)
    ensures
        r@ == s@,
{
    match s {
        TextSpan::Normal(t) => TextSpan::Normal(t.clone()),
        TextSpan::Bold(t) => TextSpan::Bold(t.clone()),
        TextSpan::Italic(t) => TextSpan::Italic(t.clone()),
        TextSpan::BoldItalic(t) => TextSpan::BoldItalic(t.clone()),
        TextSpan::InlineCode(t) => TextSpan::InlineCode(t.clone()),
        TextSpan::Link { text, url } => TextSpan::Link { text: text.clone(), url: url.clone() },
        TextSpan::Image { alt, src } => TextSpan::Image { alt: alt.clone(), src: src.clone() },
    }
}

/// The spans seen inside `**...**`: plain text becomes bold, italic
/// becomes bold-italic, the rest is kept.
fn apply_bold(spans: Vec<TextSpan>) -> (r: Vec<TextSpan>)
    ensures
        spans_view(r@) == bold_all(spans_view(spans@)),
{
    let mut r: Vec<TextSpan> = Vec::new();
    let mut k: usize = 0;
    while k < spans.len()
        invariant
            k <= spans.len(),
            spans_view(r@) == bold_all(spans_view(spans@)).take(k as int),
        decreases spans.len() - k,
    {
        let s = match &spans[k] {
            TextSpan::Normal(t) => TextSpan::Bold(t.clone()),
            TextSpan::Italic(t) => TextSpan::BoldItalic(t.clone()),
            other => copy_span(other),
        };
        let ghost old_r = r@;
        r.push(s);
        assert(spans_view(r@) =~= spans_view(old_r).push(s@));
        assert(bold_all(spans_view(spans@)).take(k + 1) =~= bold_all(spans_view(spans@)).take(
            k as int,
        ).push(bold_of(spans@[k as int]@)));
        k = k + 1;
    }
    assert(bold_all(spans_view(spans@)).take(k as int) =~= bold_all(spans_view(spans@)));
    r
}

/// The spans seen inside `*...*`: plain text becomes italic, bold becomes
/// bold-italic, the rest is kept.
fn apply_italic(spans: Vec<TextSpan>) -> (r: Vec<TextSpan>)
    ensures
        spans_view(r@) == italic_all(spans_view(spans@)),
{
    let mut r: Vec<TextSpan> = Vec::new();
    let mut k: usize = 0;
    while k < spans.len()
        invariant
            k <= spans.len(),
            spans_view(r@) == italic_all(spans_view(spans@)).take(k as int),
        decreases spans.len() - k,
    {
        let s = match &spans[k] {
            TextSpan::Normal(t) => TextSpan::Italic(t.clone()),
            TextSpan::Bold(t) => TextSpan::BoldItalic(t.clone()),
            other => copy_span(other),
        };
        let ghost old_r = r@;
        r.push(s);
        assert(spans_view(r@) =~= spans_view(old_r).push(s@));
        assert(italic_all(spans_view(spans@)).take(k + 1) =~= italic_all(spans_view(spans@)).take(
            k as int,
        ).push(italic_of(spans@[k as int]@)));
        k = k + 1;
    }
    assert(italic_all(spans_view(spans@)).take(k as int) =~= italic_all(spans_view(spans@)));
    r
}

/// Emits the pending plain text as a span, if there is any.
fn flush_normal(spans: &mut Vec<TextSpan>, buffer: &mut Vec<char>)
    ensures
        spans_view(final(spans)@) == spans_view(old(spans)@) + flush(old(buffer)@),
        final(buffer)@ == Seq::<char>::empty(),
{
    if buffer.len() > 0 {
        let ghost before = spans@;
        spans.push(TextSpan::Normal(string_of(buffer)));
        assert(spans_view(spans@) =~= spans_view(before) + flush(old(buffer)@));
        *buffer = Vec::new();
    } else {
        assert(spans_view(spans@) =~= spans_view(spans@) + flush(buffer@));
    }
}

/// Appends `more` to `spans`.
fn append_spans(spans: &mut Vec<TextSpan>, more: Vec<TextSpan>)
    ensures
        spans_view(final(spans)@) == spans_view(old(spans)@) + spans_view(more@),
{
    let mut more = more;
    let ghost m = more@;
    spans.append(&mut more);
    assert(spans_view(spans@) =~= spans_view(old(spans)@) + spans_view(m));
}


/// The inline spans of `chars`.
#[verifier::rlimit(50)]
pub(crate) fn parse_inline_with(chars: &Vec<char>) -> (spans: Vec<TextSpan>)
    ensures
        spans_view(spans@) == parse_inline_spec(chars@),
    decreases chars@.len(),
{
    let ghost s = chars@;
    let n = chars.len();
    let mut spans: Vec<TextSpan> = Vec::new();
    let mut buffer: Vec<char> = Vec::new();
    let mut i: usize = 0;
    while i < n
        invariant
            n == chars.len(),
            s == chars@,
            i <= n,
            spans_view(spans@) + parse_from(s, i as int, buffer@) == parse_inline_spec(s),
        decreases n - i,
    {
        let ch = chars[i];
        let ghost buf0 = buffer@;
        let ghost sp0 = spans_view(spans@);
        proof {
            lemma_link_like(s, i as int);
            lemma_link_like(s, i + 1);
            lemma_closing_backtick(s, i + 1);
            lemma_closing_delim(s, i + 1, false);
            lemma_closing_delim(s, i + 2, true);
        }
        if ch == '\\' {
            if i + 1 < n && is_escaped_char(chars[i + 1]) {
                buffer.push(chars[i + 1]);
                i = i + 2;
            } else {
                buffer.push('\\');
                i = i + 1;
            }
            continue ;
        }
        if ch == '!' && i + 1 < n && chars[i + 1] == '[' {
            if let Some((alt, src, end)) = parse_link_like(chars, i + 1) {
                if src.len() > 0 {
                    flush_normal(&mut spans, &mut buffer);
                    let span = TextSpan::Image { alt: string_of(&alt), src: string_of(&src) };
                    let ghost sp1 = spans@;
                    spans.push(span);
                    assert(spans_view(spans@) =~= spans_view(sp1).push(span@));
                    assert(spans_view(spans@) + parse_from(s, end + 1, Seq::empty()) =~= sp0 + (
                    flush(buf0) + seq![span@] + parse_from(s, end + 1, Seq::empty())));
                    i = end + 1;
                    continue ;
                }
            }
        }
        if ch == '[' {
            if let Some((text, url, end)) = parse_link_like(chars, i) {
                if url.len() > 0 {
                    flush_normal(&mut spans, &mut buffer);
                    let span = TextSpan::Link { text: string_of(&text), url: string_of(&url) };
                    let ghost sp1 = spans@;
                    spans.push(span);
                    assert(spans_view(spans@) =~= spans_view(sp1).push(span@));
                    assert(spans_view(spans@) + parse_from(s, end + 1, Seq::empty()) =~= sp0 + (
                    flush(buf0) + seq![span@] + parse_from(s, end + 1, Seq::empty())));
                    i = end + 1;
                    continue ;
                }
            }
        }
        if ch == '`' {
            if i + 1 < n && chars[i + 1] == '`' {
                buffer.push('`');
                buffer.push('`');
                assert(buffer@ =~= buf0 + seq!['`', '`']);
                i = i + 2;
                continue ;
            }
            if is_single_backtick(chars, i) {
                if let Some(end) = find_closing_backtick(chars, i + 1) {
                    if end > i + 1 && has_non_whitespace(chars, i + 1, end) {
                        flush_normal(&mut spans, &mut buffer);
                        let code = slice_vec(chars, i + 1, end);
                        let span = TextSpan::InlineCode(string_of(&code));
                        let ghost sp1 = spans@;
                        spans.push(span);
                        assert(spans_view(spans@) =~= spans_view(sp1).push(span@));
                        assert(spans_view(spans@) + parse_from(s, end + 1, Seq::empty()) =~= sp0
                            + (flush(buf0) + seq![span@] + parse_from(s, end + 1, Seq::empty())));
                        i = end + 1;
                        continue ;
                    }
                }
            }
            buffer.push('`');
            i = i + 1;
            continue ;
        }
        if ch == '*' {
            if i + 1 < n && chars[i + 1] == '*' {
                if let Some(end) = find_closing(chars, i + 2, true) {
                    if end > i + 2 && has_non_whitespace(chars, i + 2, end) {
                        flush_normal(&mut spans, &mut buffer);
                        let inner = slice_vec(chars, i + 2, end);
                        let inner_spans = parse_inline_with(&inner);
                        let bold = apply_bold(inner_spans);
                        let ghost b = spans_view(bold@);
                        append_spans(&mut spans, bold);
                        assert(spans_view(spans@) + parse_from(s, end + 2, Seq::empty()) =~= sp0 + (
                        flush(buf0) + b + parse_from(s, end + 2, Seq::empty())));
                        i = end + 2;
                        continue ;
                    }
                }
                buffer.push('*');
                buffer.push('*');
                assert(buffer@ =~= buf0 + seq!['*', '*']);
                i = i + 2;
                continue ;
            }
            if let Some(end) = find_closing(chars, i + 1, false) {
                if end > i + 1 && has_non_whitespace(chars, i + 1, end) {
                    flush_normal(&mut spans, &mut buffer);
                    let inner = slice_vec(chars, i + 1, end);
                    let inner_spans = parse_inline_with(&inner);
                    let italic = apply_italic(inner_spans);
                    let ghost b = spans_view(italic@);
                    append_spans(&mut spans, italic);
                    assert(spans_view(spans@) + parse_from(s, end + 1, Seq::empty()) =~= sp0 + (
                    flush(buf0) + b + parse_from(s, end + 1, Seq::empty())));
                    i = end + 1;
                    continue ;
                }
            }
            buffer.push('*');
            i = i + 1;
            continue ;
        }
        buffer.push(ch);
        i = i + 1;
    }
    let ghost sp0 = spans_view(spans@);
    let ghost buf0 = buffer@;
    flush_normal(&mut spans, &mut buffer);
    assert(sp0 + parse_from(s, i as int, buf0) == parse_inline_spec(s));
    spans
}

/// The inline spans of one line of Markdown text.
pub fn parse_inline(text: &str) -> (spans: Vec<TextSpan>)
    ensures
        spans_view(spans@) == parse_inline_spec(text@),
{
    let chars = chars_of(text);
    parse_inline_with(&chars)
}

/// The readable text of one line of Markdown, its formatting dropped.
pub fn parse_inline_to_plain(text: &str) -> (plain: String)
    ensures
        plain@ == plain_all(parse_inline_spec(text@)),
{
    let collector = parse_inline_into(text, PlainTextCollector::default());
    proof {
        lemma_pushed_all_plain(parse_inline_spec(text@));
    }
    collector.into_string()
}

proof fn lemma_pushed_all_plain(spans: Seq<SpanView>)
    ensures
        pushed_all::<PlainTextCollector>(Seq::<char>::empty(), spans) == plain_all(spans),
    decreases spans.len(),
{
    if spans.len() > 0 {
        lemma_pushed_all_plain(spans.drop_last());
    }
}

/// Hands the spans `spans` to `collector`, one after the other.
pub fn collect_spans<C: InlineSpanCollector>(spans: &Vec<TextSpan>, collector: &mut C)
    ensures
        final(collector).model() == pushed_all::<C>(old(collector).model(), spans_view(spans@)),
{
    let ghost start = collector.model();
    let ghost sv = spans_view(spans@);
    let mut k: usize = 0;
    while k < spans.len()
        invariant
            k <= spans.len(),
            sv == spans_view(spans@),
            collector.model() == pushed_all::<C>(start, sv.take(k as int)),
        decreases spans.len() - k,
    {
        let span = copy_span(&spans[k]);
        collector.push_span(span);
        assert(sv.take(k + 1).drop_last() =~= sv.take(k as int));
        k = k + 1;
    }
    assert(sv.take(k as int) =~= sv);
}

/// Parses one line of inline Markdown into `collector`: the collector
/// receives the spans of [`parse_inline`], in order, and is handed back.
pub fn parse_inline_into<C: InlineSpanCollector>(text: &str, collector: C) -> (r: C)
    ensures
        r.model() == pushed_all::<C>(collector.model(), parse_inline_spec(text@)),
{
    let spans = parse_inline(text);
    let mut c = collector;
    collect_spans(&spans, &mut c);
    c
}


/// A character that can begin inline markup.
pub open spec fn is_markup_char(c: char) -> bool {
    c == '\\' || c == '!' || c == '[' || c == '`' || c == '*'
}

/// No span of `s` is an empty plain-text span.
pub open spec fn no_empty_normal(s: Seq<SpanView>) -> bool {
    forall|k: int| 0 <= k < s.len() ==> (#[trigger] s[k] matches SpanView::Normal(t) ==> t.len() > 0)
}

/// No two neighbouring spans of `s` are both plain text.
pub open spec fn no_adjacent_normal(s: Seq<SpanView>) -> bool {
    forall|k: int| 0 <= k < s.len() - 1 ==> !(#[trigger] s[k] is Normal && s[k + 1] is Normal)
}

proof fn lemma_plain_from(s: Seq<char>, i: int, buf: Seq<char>)
    requires
        0 <= i <= s.len(),
        forall|k: int| 0 <= k < s.len() ==> !is_markup_char(#[trigger] s[k]),
    ensures
        parse_from(s, i, buf) == flush(buf + s.subrange(i, s.len() as int)),
    decreases s.len() - i,
{
    if i < s.len() {
        assert(!is_markup_char(s[i]));
        lemma_plain_from(s, i + 1, buf.push(s[i]));
        assert(buf.push(s[i]) + s.subrange(i + 1, s.len() as int) =~= buf + s.subrange(
            i,
            s.len() as int,
        ));
    } else {
        assert(buf + s.subrange(i, s.len() as int) =~= buf);
    }
}

/// Text without any of the markup characters `\`, `!`, `[`, `` ` `` and `*`
/// is one plain span holding all of it (no span when it is empty).
pub proof fn lemma_plain_text_is_one_span(s: Seq<char>)
    requires
        forall|k: int| 0 <= k < s.len() ==> !is_markup_char(#[trigger] s[k]),
    ensures
        s.len() == 0 ==> parse_inline_spec(s) == Seq::<SpanView>::empty(),
        s.len() > 0 ==> parse_inline_spec(s) == seq![SpanView::Normal(s)],
        plain_all(parse_inline_spec(s)) == s,
{
    lemma_plain_from(s, 0, Seq::empty());
    assert(Seq::<char>::empty() + s.subrange(0, s.len() as int) =~= s);
    if s.len() > 0 {
        let r = seq![SpanView::Normal(s)];
        assert(r.drop_last() =~= Seq::<SpanView>::empty());
        assert(plain_all(r) == plain_all(r.drop_last()) + plain_of(r.last()));
        assert(plain_all(Seq::<SpanView>::empty()) + s =~= s);
    } else {
        assert(s =~= Seq::<char>::empty());
    }
}

proof fn lemma_parse_from_nonempty(s: Seq<char>, i: int, buf: Seq<char>)
    requires
        0 <= i,
        i < s.len() || buf.len() > 0,
    ensures
        parse_from(s, i, buf).len() > 0,
    decreases s.len() - i,
{
    if i < s.len() {
        lemma_link_like(s, i);
        lemma_link_like(s, i + 1);
        lemma_closing_backtick(s, i + 1);
        lemma_closing_delim(s, i + 1, false);
        lemma_closing_delim(s, i + 2, true);
        let c = s[i];
        if c == '\\' {
            if i + 1 < s.len() && is_escapable(s[i + 1]) {
                lemma_parse_from_nonempty(s, i + 2, buf.push(s[i + 1]));
            } else {
                lemma_parse_from_nonempty(s, i + 1, buf.push('\\'));
            }
        } else if c == '!' && image_at(s, i) {
        } else if c == '[' && link_at(s, i) {
        } else if c == '`' {
            if i + 1 < s.len() && s[i + 1] == '`' {
                lemma_parse_from_nonempty(s, i + 2, buf + seq!['`', '`']);
            } else if code_at(s, i) {
            } else {
                lemma_parse_from_nonempty(s, i + 1, buf.push('`'));
            }
        } else if c == '*' {
            if i + 1 < s.len() && s[i + 1] == '*' {
                if strong_at(s, i) {
                    let end = closing_delim(s, i + 2, true).unwrap();
                    let inner = s.subrange(i + 2, end);
                    lemma_parse_from_nonempty(inner, 0, Seq::empty());
                } else {
                    lemma_parse_from_nonempty(s, i + 2, buf + seq!['*', '*']);
                }
            } else if emph_at(s, i) {
                let end = closing_delim(s, i + 1, false).unwrap();
                let inner = s.subrange(i + 1, end);
                lemma_parse_from_nonempty(inner, 0, Seq::empty());
            } else {
                lemma_parse_from_nonempty(s, i + 1, buf.push('*'));
            }
        } else {
            lemma_parse_from_nonempty(s, i + 1, buf.push(c));
        }
    }
}

proof fn lemma_wf_concat(a: Seq<SpanView>, b: Seq<SpanView>)
    requires
        no_empty_normal(a),
        no_adjacent_normal(a),
        no_empty_normal(b),
        no_adjacent_normal(b),
        a.len() > 0 && b.len() > 0 ==> !(a.last() is Normal && b[0] is Normal),
    ensures
        no_empty_normal(a + b),
        no_adjacent_normal(a + b),
{
    let c = a + b;
    assert forall|k: int| 0 <= k < c.len() implies (#[trigger] c[k] matches SpanView::Normal(t)
        ==> t.len() > 0) by {
        if k < a.len() {
            assert(c[k] == a[k]);
        } else {
            assert(c[k] == b[k - a.len()]);
        }
    }
    assert forall|k: int| 0 <= k < c.len() - 1 implies !(#[trigger] c[k] is Normal && c[k
        + 1] is Normal) by {
        if k + 1 < a.len() {
            assert(c[k] == a[k] && c[k + 1] == a[k + 1]);
        } else if k >= a.len() {
            assert(c[k] == b[k - a.len()] && c[k + 1] == b[k + 1 - a.len()]);
        } else {
            assert(c[k] == a.last() && c[k + 1] == b[0]);
        }
    }
}

proof fn lemma_marked_all_wf(s: Seq<SpanView>, bold: bool)
    ensures
        ({
            let m = if bold {
                bold_all(s)
            } else {
                italic_all(s)
            };
            &&& no_empty_normal(m)
            &&& no_adjacent_normal(m)
            &&& forall|k: int| 0 <= k < m.len() ==> !(#[trigger] m[k] is Normal)
        }),
{
}

proof fn lemma_parse_from_wf(s: Seq<char>, i: int, buf: Seq<char>)
    requires
        0 <= i,
    ensures
        no_empty_normal(parse_from(s, i, buf)),
        no_adjacent_normal(parse_from(s, i, buf)),
    decreases s.len() - i,
{
    let e: Seq<char> = Seq::empty();
    if i >= s.len() {
        if buf.len() > 0 {
            assert(flush(buf)[0] == SpanView::Normal(buf));
        }
    } else {
        lemma_link_like(s, i);
        lemma_link_like(s, i + 1);
        lemma_closing_backtick(s, i + 1);
        lemma_closing_delim(s, i + 1, false);
        lemma_closing_delim(s, i + 2, true);
        let c = s[i];
        if buf.len() > 0 {
            assert(flush(buf)[0] == SpanView::Normal(buf));
        }
        if c == '\\' {
            if i + 1 < s.len() && is_escapable(s[i + 1]) {
                lemma_parse_from_wf(s, i + 2, buf.push(s[i + 1]));
            } else {
                lemma_parse_from_wf(s, i + 1, buf.push('\\'));
            }
        } else if c == '!' && image_at(s, i) {
            let (alt, src, end) = link_like(s, i + 1).unwrap();
            lemma_parse_from_wf(s, end + 1, e);
            let x = seq![SpanView::Image { alt, src }];
            lemma_wf_concat(flush(buf), x);
            lemma_wf_concat(flush(buf) + x, parse_from(s, end + 1, e));
        } else if c == '[' && link_at(s, i) {
            let (text, url, end) = link_like(s, i).unwrap();
            lemma_parse_from_wf(s, end + 1, e);
            let x = seq![SpanView::Link { text, url }];
            lemma_wf_concat(flush(buf), x);
            lemma_wf_concat(flush(buf) + x, parse_from(s, end + 1, e));
        } else if c == '`' {
            if i + 1 < s.len() && s[i + 1] == '`' {
                lemma_parse_from_wf(s, i + 2, buf + seq!['`', '`']);
            } else if code_at(s, i) {
                let end = closing_backtick(s, i + 1).unwrap();
                lemma_parse_from_wf(s, end + 1, e);
                let x = seq![SpanView::InlineCode(s.subrange(i + 1, end))];
                lemma_wf_concat(flush(buf), x);
                lemma_wf_concat(flush(buf) + x, parse_from(s, end + 1, e));
            } else {
                lemma_parse_from_wf(s, i + 1, buf.push('`'));
            }
        } else if c == '*' {
            if i + 1 < s.len() && s[i + 1] == '*' {
                if strong_at(s, i) {
                    let end = closing_delim(s, i + 2, true).unwrap();
                    let inner = s.subrange(i + 2, end);
                    lemma_parse_from_nonempty(inner, 0, e);
                    lemma_parse_from_wf(s, end + 2, e);
                    let x = bold_all(parse_from(inner, 0, e));
                    lemma_marked_all_wf(parse_from(inner, 0, e), true);
                    lemma_wf_concat(flush(buf), x);
                    assert((flush(buf) + x).last() == x.last());
                    lemma_wf_concat(flush(buf) + x, parse_from(s, end + 2, e));
                } else {
                    lemma_parse_from_wf(s, i + 2, buf + seq!['*', '*']);
                }
            } else if emph_at(s, i) {
                let end = closing_delim(s, i + 1, false).unwrap();
                let inner = s.subrange(i + 1, end);
                lemma_parse_from_nonempty(inner, 0, e);
                lemma_parse_from_wf(s, end + 1, e);
                let x = italic_all(parse_from(inner, 0, e));
                lemma_marked_all_wf(parse_from(inner, 0, e), false);
                lemma_wf_concat(flush(buf), x);
                assert((flush(buf) + x).last() == x.last());
                lemma_wf_concat(flush(buf) + x, parse_from(s, end + 1, e));
            } else {
                lemma_parse_from_wf(s, i + 1, buf.push('*'));
            }
        } else {
            lemma_parse_from_wf(s, i + 1, buf.push(c));
        }
    }
}

/// The spans of any text hold no empty plain-text span, and no two plain-text
/// spans stand next to each other: plain text is always gathered into one span.
pub proof fn lemma_inline_spans_well_formed(s: Seq<char>)
    ensures
        no_empty_normal(parse_inline_spec(s)),
        no_adjacent_normal(parse_inline_spec(s)),
{
    lemma_parse_from_wf(s, 0, Seq::empty());
}

/// Non-empty text always yields at least one span.
pub proof fn lemma_inline_nonempty(s: Seq<char>)
    requires
        s.len() > 0,
    ensures
        parse_inline_spec(s).len() > 0,
{
    lemma_parse_from_nonempty(s, 0, Seq::empty());
}

/// A span seen inside both `**...**` and `*...*`: plain, bold and italic
/// text become bold-italic, the rest is kept.
pub open spec fn bold_italic_of(s: SpanView) -> SpanView {
    match s {
        SpanView::Normal(t) => SpanView::BoldItalic(t),
        SpanView::Bold(t) => SpanView::BoldItalic(t),
        SpanView::Italic(t) => SpanView::BoldItalic(t),
        _ => s,
    }
}

/// Bold inside bold changes nothing, italic inside italic changes nothing,
/// and bold and italic nest either way round to the same spans: plain, bold
/// and italic text all become bold-italic.
pub proof fn lemma_emphasis_laws(s: Seq<SpanView>)
    ensures
        bold_all(bold_all(s)) == bold_all(s),
        italic_all(italic_all(s)) == italic_all(s),
        bold_all(italic_all(s)) == italic_all(bold_all(s)),
        bold_all(italic_all(s)) == s.map_values(|x: SpanView| bold_italic_of(x)),
{
    assert(bold_all(bold_all(s)) =~= bold_all(s));
    assert(italic_all(italic_all(s)) =~= italic_all(s));
    assert(bold_all(italic_all(s)) =~= italic_all(bold_all(s)));
    assert(bold_all(italic_all(s)) =~= s.map_values(|x: SpanView| bold_italic_of(x)));
}


/// A backslash before one of the escapable characters makes it literal text.
pub proof fn lemma_escape_is_literal(c: char)
    requires
        is_escapable(c),
    ensures
        parse_inline_spec(seq!['\\', c]) == seq![SpanView::Normal(seq![c])],
{
    let s = seq!['\\', c];
    let e: Seq<char> = Seq::empty();
    assert(parse_from(s, 0, e) == parse_from(s, 2, e.push(c)));
    assert(e.push(c) =~= seq![c]);
}

} // verus!
