//! The slide model and the Markdown slide parser: a document is cut into
//! slides at `---` lines, and each line becomes a heading, list item, code
//! block, paragraph, empty line or speaker note.

use vstd::prelude::*;
pub use crate::inline::{parse_inline, parse_inline_to_plain};
use crate::error::PrismError;
use crate::inline::{parse_inline_spec, parse_inline_with};
use crate::text::{
    chars_of, find_from, find_vec, join_lines, join_lines_vec, lines, rfind_below, rfind_vec,
    slice_vec, split_lines, starts_with, starts_with_vec, string_of, strip_prefixes_from, trim,
    trim_start_matches, trim_start_matches_vec, trim_vec, vecs_view, lemma_lines_concat, trim_start, trim_start_vec, lemma_trim_start_head, lemma_trim_keeps_head, lemma_lines_single,
};

verus! {

/// A piece of inline text together with its formatting.
#[derive(Debug, Clone, PartialEq)]
pub enum TextSpan {
    Normal(String),
    Bold(String),
    Italic(String),
    BoldItalic(String),
    InlineCode(String),
    Link { text: String, url: String },
    Image { alt: String, src: String },
}

/// The mathematical value of a [`TextSpan`]: its variant and its characters.
pub enum SpanView {
    Normal(Seq<char>),
    Bold(Seq<char>),
    Italic(Seq<char>),
    BoldItalic(Seq<char>),
    InlineCode(Seq<char>),
    Link { text: Seq<char>, url: Seq<char> },
    Image { alt: Seq<char>, src: Seq<char> },
}

impl View for TextSpan {
    type V = SpanView;

    open spec fn view(&self) -> SpanView {
        match self {
            TextSpan::Normal(t) => SpanView::Normal(t@),
            TextSpan::Bold(t) => SpanView::Bold(t@),
            TextSpan::Italic(t) => SpanView::Italic(t@),
            TextSpan::BoldItalic(t) => SpanView::BoldItalic(t@),
            TextSpan::InlineCode(t) => SpanView::InlineCode(t@),
            TextSpan::Link { text, url } => SpanView::Link { text: text@, url: url@ },
            TextSpan::Image { alt, src } => SpanView::Image { alt: alt@, src: src@ },
        }
    }
}

/// The values of a sequence of spans.
pub open spec fn spans_view(s: Seq<TextSpan>) -> Seq<SpanView> {
    s.map_values(|t: TextSpan| t@)
}

/// The readable text of a span once its formatting is dropped: a link reads
/// as its URL (its text when the URL is empty), an image as its alternative
/// text (its source when that is empty).
pub open spec fn plain_of(s: SpanView) -> Seq<char> {
    match s {
        SpanView::Normal(t) => t,
        SpanView::Bold(t) => t,
        SpanView::Italic(t) => t,
        SpanView::BoldItalic(t) => t,
        SpanView::InlineCode(t) => t,
        SpanView::Link { text, url } => if url.len() == 0 { text } else { url },
        SpanView::Image { alt, src } => if alt.len() == 0 { src } else { alt },
    }
}

/// The readable text of a sequence of spans, one after the other.
pub open spec fn plain_all(s: Seq<SpanView>) -> Seq<char>
    decreases s.len(),
{
    if s.len() == 0 {
        Seq::empty()
    } else {
        plain_all(s.drop_last()) + plain_of(s.last())
    }
}

/// A receiver of parsed inline spans.
///
/// An implementation describes what it keeps by a model: `model` gives the
/// model of a collector, and `pushed` the model after one more span.
pub trait InlineSpanCollector {
    /// What a collector keeps, as a mathematical value.
    type Model;

    spec fn model(&self) -> Self::Model;

    spec fn pushed(m: Self::Model, span: SpanView) -> Self::Model;

    fn push_span(&mut self, span: TextSpan)
        ensures
            final(self).model() == Self::pushed(old(self).model(), span@),
    ;
}

/// The model of a collector after it has received `spans` in order.
pub open spec fn pushed_all<C: InlineSpanCollector>(m: C::Model, spans: Seq<SpanView>) -> C::Model
    decreases spans.len(),
{
    if spans.len() == 0 {
        m
    } else {
        C::pushed(pushed_all::<C>(m, spans.drop_last()), spans.last())
    }
}

impl InlineSpanCollector for Vec<TextSpan> {
    type Model = Seq<SpanView>;

    open spec fn model(&self) -> Seq<SpanView> {
        spans_view(self@)
    }

    open spec fn pushed(m: Seq<SpanView>, span: SpanView) -> Seq<SpanView> {
        m.push(span)
    }

    fn push_span(&mut self, span: TextSpan) {
        let ghost before = self@;
        self.push(span);
        assert(spans_view(self@) =~= spans_view(before).push(span@));
    }
}

/// A collector that keeps only the readable text of the spans it receives.
#[derive(Debug, Clone)]
pub struct PlainTextCollector {
    pub text: String,
}

impl Default for PlainTextCollector {
    fn default() -> (c: Self)
        ensures
            c.text@ == Seq::<char>::empty(),
    {
        PlainTextCollector { text: String::new() }
    }
}

impl PlainTextCollector {
    /// The text collected so far.
    pub fn into_string(self) -> (s: String)
        ensures
            s@ == self.text@,
    {
        self.text
    }
}

impl InlineSpanCollector for PlainTextCollector {
    type Model = Seq<char>;

    open spec fn model(&self) -> Seq<char> {
        self.text@
    }

    open spec fn pushed(m: Seq<char>, span: SpanView) -> Seq<char> {
        m + plain_of(span)
    }

    fn push_span(&mut self, span: TextSpan) {
        match span {
            TextSpan::Normal(t) | TextSpan::Bold(t) | TextSpan::Italic(t) | TextSpan::BoldItalic(t)
            | TextSpan::InlineCode(t) => {
                self.text.append(t.as_str());
            },
            TextSpan::Link { text, url } => {
                if url.as_str().is_empty() {
                    self.text.append(text.as_str());
                } else {
                    self.text.append(url.as_str());
                }
            },
            TextSpan::Image { alt, src } => {
                if alt.as_str().is_empty() {
                    self.text.append(src.as_str());
                } else {
                    self.text.append(alt.as_str());
                }
            },
        }
    }
}


/// One visual element of a slide.
#[derive(Debug, Clone, PartialEq)]
pub enum SlideElement {
    /// A heading: its level and its text.
    Heading(u8, Vec<TextSpan>),
    /// An item of an unordered list.
    ListItem(Vec<TextSpan>),
    /// A fenced code block, its lines joined by line feeds.
    CodeBlock(String),
    /// A line of ordinary text.
    Paragraph(Vec<TextSpan>),
    /// An empty line, kept for spacing.
    EmptyLine,
    /// A speaker note, from an HTML comment `<!-- ... -->`.
    Note(String),
}

/// The mathematical value of a [`SlideElement`].
pub enum ElementView {
    Heading(u8, Seq<SpanView>),
    ListItem(Seq<SpanView>),
    CodeBlock(Seq<char>),
    Paragraph(Seq<SpanView>),
    EmptyLine,
    Note(Seq<char>),
}

impl View for SlideElement {
    type V = ElementView;

    open spec fn view(&self) -> ElementView {
        match self {
            SlideElement::Heading(level, spans) => ElementView::Heading(*level, spans_view(spans@)),
            SlideElement::ListItem(spans) => ElementView::ListItem(spans_view(spans@)),
            SlideElement::CodeBlock(code) => ElementView::CodeBlock(code@),
            SlideElement::Paragraph(spans) => ElementView::Paragraph(spans_view(spans@)),
            SlideElement::EmptyLine => ElementView::EmptyLine,
            SlideElement::Note(note) => ElementView::Note(note@),
        }
    }
}

/// The values of a sequence of elements.
pub open spec fn elements_view(s: Seq<SlideElement>) -> Seq<ElementView> {
    s.map_values(|e: SlideElement| e@)
}

/// One slide of the deck.
#[derive(Debug, Clone, PartialEq)]
pub struct Slide {
    pub elements: Vec<SlideElement>,
}

impl View for Slide {
    type V = Seq<ElementView>;

    open spec fn view(&self) -> Seq<ElementView> {
        elements_view(self.elements@)
    }
}

/// The values of a sequence of slides.
pub open spec fn slides_view(s: Seq<Slide>) -> Seq<Seq<ElementView>> {
    s.map_values(|sl: Slide| sl@)
}

/// The line that separates two slides.
pub open spec fn separator() -> Seq<char> {
    seq!['-', '-', '-']
}

/// The fence that opens and closes a code block.
pub open spec fn fence() -> Seq<char> {
    seq!['`', '`', '`']
}

/// The start of an HTML comment.
pub open spec fn note_open() -> Seq<char> {
    seq!['<', '!', '-', '-']
}

/// The end of an HTML comment.
pub open spec fn note_close() -> Seq<char> {
    seq!['-', '-', '>']
}

/// The state of the slide parser between two lines.
pub struct ParseModel {
    /// The slides completed so far.
    pub slides: Seq<Seq<ElementView>>,
    /// The elements of the slide under way.
    pub current: Seq<ElementView>,
    /// Inside a fenced code block.
    pub in_code: bool,
    /// The lines of the code block under way.
    pub code_lines: Seq<Seq<char>>,
    /// Inside a multi-line note.
    pub in_note: bool,
    /// The lines of the note under way.
    pub note_lines: Seq<Seq<char>>,
}

/// The state before the first line.
pub open spec fn initial_model() -> ParseModel {
    ParseModel {
        slides: Seq::empty(),
        current: Seq::empty(),
        in_code: false,
        code_lines: Seq::empty(),
        in_note: false,
        note_lines: Seq::empty(),
    }
}

/// The element of an ordinary line `line`, whose trimmed form is `t`: a
/// heading when `t` starts with `#` and the `#`s that begin `line` after its
/// leading whitespace (at most six) are followed by a space, a list item when `t` starts with `- ` or
/// `* `, an empty line when `t` is empty, and a paragraph otherwise.
pub open spec fn line_element(line: Seq<char>, t: Seq<char>) -> ElementView {
    if t.len() > 0 && t[0] == '#' {
        let s = trim_start(line);
        let level = strip_prefixes_from(s, seq!['#'], 0);
        let content = s.subrange(level, s.len() as int);
        if content.len() > 0 && content[0] == ' ' && level <= 6 {
            ElementView::Heading(level as u8, parse_inline_spec(trim(content)))
        } else {
            ElementView::Paragraph(parse_inline_spec(line))
        }
    } else if starts_with(t, seq!['-', ' ']) || starts_with(t, seq!['*', ' ']) {
        ElementView::ListItem(parse_inline_spec(trim(t.subrange(2, t.len() as int))))
    } else if t.len() == 0 {
        ElementView::EmptyLine
    } else {
        ElementView::Paragraph(parse_inline_spec(line))
    }
}

/// `current` with a note holding `content`, when `content` is not empty.
pub open spec fn push_note(current: Seq<ElementView>, content: Seq<char>) -> Seq<ElementView> {
    if content.len() > 0 {
        current.push(ElementView::Note(content))
    } else {
        current
    }
}

/// The parser state after reading `line` in state `st`.
pub open spec fn step(st: ParseModel, line: Seq<char>) -> ParseModel {
    let t = trim(line);
    if st.in_code {
        if starts_with(t, fence()) {
            ParseModel {
                current: st.current.push(ElementView::CodeBlock(join_lines(st.code_lines))),
                in_code: false,
                code_lines: Seq::empty(),
                ..st
            }
        } else {
            ParseModel { code_lines: st.code_lines.push(line), ..st }
        }
    } else if st.in_note {
        match find_from(t, note_close(), 0) {
            Some(p) => {
                let last = trim(t.subrange(0, p));
                let ls = if last.len() > 0 {
                    st.note_lines.push(last)
                } else {
                    st.note_lines
                };
                ParseModel {
                    current: push_note(st.current, trim(join_lines(ls))),
                    in_note: false,
                    note_lines: Seq::empty(),
                    ..st
                }
            },
            None => ParseModel { note_lines: st.note_lines.push(line), ..st },
        }
    } else if t == separator() {
        if st.current.len() > 0 {
            ParseModel { slides: st.slides.push(st.current), current: Seq::empty(), ..st }
        } else {
            st
        }
    } else if starts_with(t, note_open()) {
        let inner = trim(trim_start_matches(t, note_open()));
        match rfind_below(inner, note_close(), inner.len() as int) {
            Some(p) => ParseModel { current: push_note(st.current, trim(inner.subrange(0, p))), ..st },
            None => ParseModel {
                in_note: true,
                note_lines: if inner.len() > 0 {
                    st.note_lines.push(inner)
                } else {
                    st.note_lines
                },
                ..st
            },
        }
    } else if starts_with(t, fence()) {
        ParseModel { in_code: true, ..st }
    } else {
        ParseModel { current: st.current.push(line_element(line, t)), ..st }
    }
}

/// The parser state after reading the lines `ls`.
pub open spec fn run(ls: Seq<Seq<char>>) -> ParseModel
    decreases ls.len(),
{
    if ls.len() == 0 {
        initial_model()
    } else {
        step(run(ls.drop_last()), ls.last())
    }
}

/// The slides once the input has ended: an open code block or note is
/// closed, the slide under way is kept when it has elements, and there is no
/// result when no slide has any.
pub open spec fn finish(st: ParseModel) -> Option<Seq<Seq<ElementView>>> {
    let cur1 = if st.in_code {
        st.current.push(ElementView::CodeBlock(join_lines(st.code_lines)))
    } else {
        st.current
    };
    let cur2 = if st.in_note {
        push_note(cur1, trim(join_lines(st.note_lines)))
    } else {
        cur1
    };
    let slides = if cur2.len() > 0 {
        st.slides.push(cur2)
    } else {
        st.slides
    };
    if slides.len() == 0 {
        None
    } else {
        Some(slides)
    }
}

/// The slides of the Markdown text `content`, if it has any.
pub open spec fn parse_spec(content: Seq<char>) -> Option<Seq<Seq<ElementView>>> {
    finish(run(lines(content)))
}

/// The message of the error for a document without slides.
pub open spec fn no_content_message() -> Seq<char> {
    "Markdown 文件未包含有效内容，解析失败！"@
}

/// The executable state of the slide parser.
struct ParseState {
    slides: Vec<Slide>,
    current: Vec<SlideElement>,
    in_code: bool,
    code_lines: Vec<Vec<char>>,
    in_note: bool,
    note_lines: Vec<Vec<char>>,
}

impl View for ParseState {
    type V = ParseModel;

    closed spec fn view(&self) -> ParseModel {
        ParseModel {
            slides: slides_view(self.slides@),
            current: elements_view(self.current@),
            in_code: self.in_code,
            code_lines: vecs_view(self.code_lines@),
            in_note: self.in_note,
            note_lines: vecs_view(self.note_lines@),
        }
    }
}

/// The element of an ordinary line (see [`line_element`]).
fn make_line_element(line: &Vec<char>, t: &Vec<char>) -> (e: SlideElement)
    ensures
        e@ == line_element(line@, t@),
{
    if t.len() > 0 && t[0] == '#' {
        let s = trim_start_vec(line);
        let n = s.len();
        let mut level: usize = 0;
        while level < n && s[level] == '#'
            invariant
                level <= n == s.len(),
                strip_prefixes_from(s@, seq!['#'], level as int) == strip_prefixes_from(
                    s@,
                    seq!['#'],
                    0,
                ),
            decreases n - level,
        {
            assert(s@.subrange(level as int, level + 1) =~= seq!['#']);
            level = level + 1;
        }
        if level < n {
            assert(s@.subrange(level as int, level + 1) =~= seq![s@[level as int]]);
        }
        let content = slice_vec(&s, level, n);
        if content.len() > 0 && content[0] == ' ' && level <= 6 {
            let inner = trim_vec(&content);
            SlideElement::Heading(level as u8, parse_inline_with(&inner))
        } else {
            SlideElement::Paragraph(parse_inline_with(line))
        }
    } else {
        let dash = vec!['-', ' '];
        let star = vec!['*', ' '];
        if starts_with_vec(t, &dash) || starts_with_vec(t, &star) {
            let rest = slice_vec(t, 2, t.len());
            let item = trim_vec(&rest);
            SlideElement::ListItem(parse_inline_with(&item))
        } else if t.len() == 0 {
            SlideElement::EmptyLine
        } else {
            SlideElement::Paragraph(parse_inline_with(line))
        }
    }
}

/// Whether `t` is the slide separator `---`.
fn is_separator(t: &Vec<char>) -> (b: bool)
    ensures
        b == (t@ == separator()),
{
    let b = t.len() == 3 && t[0] == '-' && t[1] == '-' && t[2] == '-';
    if b {
        assert(t@ =~= separator());
    }
    b
}

impl ParseState {
    fn new() -> (st: Self)
        ensures
            st@ == initial_model(),
    {
        let st = ParseState {
            slides: Vec::new(),
            current: Vec::new(),
            in_code: false,
            code_lines: Vec::new(),
            in_note: false,
            note_lines: Vec::new(),
        };
        assert(st@.slides =~= Seq::<Seq<ElementView>>::empty());
        assert(st@.current =~= Seq::<ElementView>::empty());
        assert(st@.code_lines =~= Seq::<Seq<char>>::empty());
        assert(st@.note_lines =~= Seq::<Seq<char>>::empty());
        st
    }

    /// Adds an element to the slide under way.
    fn push_element(&mut self, e: SlideElement)
        ensures
            final(self)@ == (ParseModel { current: old(self)@.current.push(e@), ..old(self)@ }),
    {
        let ghost before = self.current@;
        self.current.push(e);
        assert(elements_view(self.current@) =~= elements_view(before).push(e@));
    }

    /// Adds a note holding `content` when `content` is not empty.
    fn push_note_vec(&mut self, content: &Vec<char>)
        ensures
            final(self)@ == (ParseModel { current: push_note(old(self)@.current, content@), ..old(self)@ }),
    {
        if content.len() > 0 {
            self.push_element(SlideElement::Note(string_of(content)));
        }
    }

    /// Reads one line.
    fn step(&mut self, line: &Vec<char>)
        ensures
            final(self)@ == step(old(self)@, line@),
    {
        let t = trim_vec(line);
        let fence_v = vec!['`', '`', '`'];
        assert(fence_v@ =~= fence());
        if self.in_code {
            if starts_with_vec(&t, &fence_v) {
                let code = join_lines_vec(&self.code_lines);
                self.push_element(SlideElement::CodeBlock(string_of(&code)));
                self.in_code = false;
                self.code_lines = Vec::new();
                assert(self@.code_lines =~= Seq::<Seq<char>>::empty());
            } else {
                let ghost before = self.code_lines@;
                self.code_lines.push(slice_vec(line, 0, line.len()));
                assert(line@.subrange(0, line@.len() as int) =~= line@);
                assert(vecs_view(self.code_lines@) =~= vecs_view(before).push(line@));
            }
            return ;
        }
        let close_v = vec!['-', '-', '>'];
        assert(close_v@ =~= note_close());
        if self.in_note {
            match find_vec(&t, &close_v) {
                Some(p) => {
                    let head = slice_vec(&t, 0, p);
                    let last = trim_vec(&head);
                    if last.len() > 0 {
                        let ghost before = self.note_lines@;
                        self.note_lines.push(last);
                        assert(vecs_view(self.note_lines@) =~= vecs_view(before).push(last@));
                    }
                    let joined = join_lines_vec(&self.note_lines);
                    let content = trim_vec(&joined);
                    self.push_note_vec(&content);
                    self.in_note = false;
                    self.note_lines = Vec::new();
                    assert(self@.note_lines =~= Seq::<Seq<char>>::empty());
                },
                None => {
                    let ghost before = self.note_lines@;
                    self.note_lines.push(slice_vec(line, 0, line.len()));
                    assert(line@.subrange(0, line@.len() as int) =~= line@);
                    assert(vecs_view(self.note_lines@) =~= vecs_view(before).push(line@));
                },
            }
            return ;
        }
        if is_separator(&t) {
            if self.current.len() > 0 {
                let mut cur: Vec<SlideElement> = Vec::new();
                std::mem::swap(&mut cur, &mut self.current);
                let ghost before = self.slides@;
                self.slides.push(Slide { elements: cur });
                assert(slides_view(self.slides@) =~= slides_view(before).push(elements_view(cur@)));
                assert(elements_view(self.current@) =~= Seq::<ElementView>::empty());
            }
            return ;
        }
        let open_v = vec!['<', '!', '-', '-'];
        assert(open_v@ =~= note_open());
        if starts_with_vec(&t, &open_v) {
            let stripped = trim_start_matches_vec(&t, &open_v);
            let inner = trim_vec(&stripped);
            match rfind_vec(&inner, &close_v) {
                Some(p) => {
                    let head = slice_vec(&inner, 0, p);
                    let note = trim_vec(&head);
                    self.push_note_vec(&note);
                },
                None => {
                    self.in_note = true;
                    if inner.len() > 0 {
                        let ghost before = self.note_lines@;
                        let ghost iv = inner@;
                        self.note_lines.push(inner);
                        assert(vecs_view(self.note_lines@) =~= vecs_view(before).push(iv));
                    }
                },
            }
            return ;
        }
        if starts_with_vec(&t, &fence_v) {
            self.in_code = true;
            return ;
        }
        let e = make_line_element(line, &t);
        self.push_element(e);
    }

    /// Ends the input (see [`finish`]).
    fn finish(self) -> (r: Result<Vec<Slide>, PrismError>)
        ensures
            match finish(self@) {
                Some(ss) => r matches Ok(slides) && slides_view(slides@) == ss,
                None => r matches Err(PrismError::ParseError { line, message }) && line == 0
                    && message@ == no_content_message(),
            },
    {
        let mut st = self;
        if st.in_code {
            let code = join_lines_vec(&st.code_lines);
            st.push_element(SlideElement::CodeBlock(string_of(&code)));
        }
        if st.in_note {
            let joined = join_lines_vec(&st.note_lines);
            let content = trim_vec(&joined);
            st.push_note_vec(&content);
        }
        let mut slides = st.slides;
        if st.current.len() > 0 {
            let ghost before = slides@;
            let ghost cur = st.current@;
            slides.push(Slide { elements: st.current });
            assert(slides_view(slides@) =~= slides_view(before).push(elements_view(cur)));
        }
        if slides.len() == 0 {
            let message = "Markdown 文件未包含有效内容，解析失败！".to_string();
            proof {
                broadcast use vstd::string::group_string_axioms;
            }
            return Err(PrismError::ParseError { line: 0, message });
        }
        Ok(slides)
    }
}

/// The Markdown slide parser.
pub struct Parser;

impl Parser {
    /// Cuts the Markdown text `content` into slides.
    pub fn parse(content: &str) -> (r: Result<Vec<Slide>, PrismError>)
        ensures
            r matches Ok(slides) ==> deck_ok(slides_view(slides@)),
            match parse_spec(content@) {
                Some(ss) => r matches Ok(slides) && slides_view(slides@) == ss,
                None => r matches Err(PrismError::ParseError { line, message }) && line == 0
                    && message@ == no_content_message(),
            },
    {
        let chars = chars_of(content);
        let ls = split_lines(&chars);
        let mut st = ParseState::new();
        let mut k: usize = 0;
        while k < ls.len()
            invariant
                k <= ls.len(),
                vecs_view(ls@) == lines(chars@),
                st@ == run(vecs_view(ls@).take(k as int)),
            decreases ls.len() - k,
        {
            st.step(&ls[k]);
            assert(vecs_view(ls@).take(k + 1).drop_last() =~= vecs_view(ls@).take(k as int));
            k = k + 1;
        }
        assert(vecs_view(ls@).take(k as int) =~= vecs_view(ls@));
        proof {
            lemma_parse_deck_ok(content@);
        }
        st.finish()
    }
}


/// The contents of a sequence of strings.
pub open spec fn strings_view(v: Seq<String>) -> Seq<Seq<char>> {
    v.map_values(|s: String| s@)
}

/// The texts of the speaker notes among `es`, in order.
pub open spec fn notes_of(es: Seq<ElementView>) -> Seq<Seq<char>>
    decreases es.len(),
{
    if es.len() == 0 {
        Seq::empty()
    } else {
        notes_of(es.drop_last()) + match es.last() {
            ElementView::Note(c) => seq![c],
            _ => Seq::empty(),
        }
    }
}

/// The non-empty image sources among `spans`, in order.
pub open spec fn image_srcs(spans: Seq<SpanView>) -> Seq<Seq<char>>
    decreases spans.len(),
{
    if spans.len() == 0 {
        Seq::empty()
    } else {
        image_srcs(spans.drop_last()) + match spans.last() {
            SpanView::Image { alt, src } => if src.len() > 0 {
                seq![src]
            } else {
                Seq::empty()
            },
            _ => Seq::empty(),
        }
    }
}

/// The spans of an element that holds inline text (none for the others).
pub open spec fn element_spans(e: ElementView) -> Seq<SpanView> {
    match e {
        ElementView::Heading(_, spans) => spans,
        ElementView::ListItem(spans) => spans,
        ElementView::Paragraph(spans) => spans,
        _ => Seq::empty(),
    }
}

/// The non-empty image sources of headings, list items and paragraphs of
/// `es`, in order, repeats included.
pub open spec fn element_image_srcs(es: Seq<ElementView>) -> Seq<Seq<char>>
    decreases es.len(),
{
    if es.len() == 0 {
        Seq::empty()
    } else {
        element_image_srcs(es.drop_last()) + image_srcs(element_spans(es.last()))
    }
}

/// `s` with every repeat of an earlier item left out.
pub open spec fn dedup(s: Seq<Seq<char>>) -> Seq<Seq<char>>
    decreases s.len(),
{
    if s.len() == 0 {
        Seq::empty()
    } else if dedup(s.drop_last()).contains(s.last()) {
        dedup(s.drop_last())
    } else {
        dedup(s.drop_last()).push(s.last())
    }
}

/// Extracts the texts of all speaker notes of a slide.
pub fn collect_slide_notes(slide: &Slide) -> (notes: Vec<String>)
    ensures
        strings_view(notes@) == notes_of(slide@),
{
    let mut notes: Vec<String> = Vec::new();
    let mut k: usize = 0;
    while k < slide.elements.len()
        invariant
            k <= slide.elements.len(),
            strings_view(notes@) == notes_of(elements_view(slide.elements@).take(k as int)),
        decreases slide.elements.len() - k,
    {
        let ghost es = elements_view(slide.elements@);
        assert(es.take(k + 1).drop_last() =~= es.take(k as int));
        match &slide.elements[k] {
            SlideElement::Note(content) => {
                let ghost before = notes@;
                notes.push(content.clone());
                assert(strings_view(notes@) =~= strings_view(before).push(content@));
            },
            _ => {
                assert(notes_of(es.take(k + 1)) =~= notes_of(es.take(k as int)));
            },
        }
        k = k + 1;
    }
    assert(elements_view(slide.elements@).take(k as int) =~= slide@);
    notes
}

/// The speaker notes shown beside a slide: its notes when the speaker panel
/// is on, none otherwise.
pub fn presenter_notes(slide: &Slide, presenter: bool) -> (r: Option<Vec<String>>)
    ensures
        presenter ==> (r matches Some(n) && strings_view(n@) == notes_of(slide@)),
        !presenter ==> r is None,
{
    if presenter {
        Some(collect_slide_notes(slide))
    } else {
        None
    }
}

/// Whether `images` holds a string equal to `src`.
pub(crate) fn contains_string(images: &Vec<String>, src: &String) -> (b: bool)
    ensures
        b == strings_view(images@).contains(src@),
{
    let mut k: usize = 0;
    while k < images.len()
        invariant
            k <= images.len(),
            forall|m: int| 0 <= m < k ==> images@[m]@ != src@,
        decreases images.len() - k,
    {
        if images[k] == *src {
            assert(strings_view(images@)[k as int] == src@);
            return true;
        }
        k = k + 1;
    }
    assert forall|m: int| 0 <= m < strings_view(images@).len() implies strings_view(images@)[m] != src@ by {
        assert(strings_view(images@)[m] == images@[m]@);
    }
    false
}

/// Adds the new non-empty image sources of `spans` to `images`.
fn collect_images_from_spans(spans: &Vec<TextSpan>, images: &mut Vec<String>)
    ensures
        forall|prev: Seq<Seq<char>>|
            strings_view(old(images)@) == #[trigger] dedup(prev) ==> strings_view(final(images)@) == dedup(
                prev + image_srcs(spans_view(spans@)),
            ),
{
    let ghost start = strings_view(images@);
    let mut k: usize = 0;
    while k < spans.len()
        invariant
            k <= spans.len(),
            forall|prev: Seq<Seq<char>>|
                start == #[trigger] dedup(prev) ==> strings_view(images@) == dedup(
                    prev + image_srcs(spans_view(spans@).take(k as int)),
                ),
        decreases spans.len() - k,
    {
        let ghost sv = spans_view(spans@);
        assert(sv.take(k + 1).drop_last() =~= sv.take(k as int));
        let ghost before = images@;
        match &spans[k] {
            TextSpan::Image { alt: _, src } => {
                if !src.as_str().is_empty() && !contains_string(images, src) {
                    images.push(src.clone());
                    assert(strings_view(images@) =~= strings_view(before).push(src@));
                }
                assert forall|prev: Seq<Seq<char>>| start == #[trigger] dedup(prev) implies strings_view(
                    images@,
                ) == dedup(prev + image_srcs(sv.take(k + 1))) by {
                    let p1 = prev + image_srcs(sv.take(k as int));
                    if src@.len() > 0 {
                        assert(image_srcs(sv.take(k + 1)) =~= image_srcs(sv.take(k as int)).push(src@));
                        assert(prev + image_srcs(sv.take(k + 1)) =~= p1.push(src@));
                        assert((p1.push(src@)).drop_last() =~= p1);
                    } else {
                        assert(image_srcs(sv.take(k + 1)) =~= image_srcs(sv.take(k as int)));
                    }
                }
            },
            _ => {
                assert(image_srcs(sv.take(k + 1)) =~= image_srcs(sv.take(k as int)));
            },
        }
        k = k + 1;
    }
    assert(spans_view(spans@).take(k as int) =~= spans_view(spans@));
}

/// The distinct non-empty image sources of the headings, list items and
/// paragraphs of a slide, in the order they first appear.
pub fn collect_slide_images(slide: &Slide) -> (images: Vec<String>)
    ensures
        strings_view(images@) == dedup(element_image_srcs(slide@)),
{
    let mut images: Vec<String> = Vec::new();
    let mut k: usize = 0;
    assert(strings_view(images@) =~= dedup(Seq::<Seq<char>>::empty()));
    while k < slide.elements.len()
        invariant
            k <= slide.elements.len(),
            strings_view(images@) == dedup(element_image_srcs(elements_view(slide.elements@).take(k as int))),
        decreases slide.elements.len() - k,
    {
        let ghost es = elements_view(slide.elements@);
        assert(es.take(k + 1).drop_last() =~= es.take(k as int));
        let ghost prev = element_image_srcs(es.take(k as int));
        match &slide.elements[k] {
            SlideElement::Heading(_, spans) | SlideElement::ListItem(spans) | SlideElement::Paragraph(spans) => {
                collect_images_from_spans(spans, &mut images);
            },
            _ => {
                assert(prev + image_srcs(Seq::<SpanView>::empty()) =~= prev);
            },
        }
        k = k + 1;
    }
    assert(elements_view(slide.elements@).take(k as int) =~= slide@);
    images
}


/// Headings have a level from one to six, and notes are never empty.
pub open spec fn element_ok(e: ElementView) -> bool {
    match e {
        ElementView::Heading(level, _) => 1 <= level <= 6,
        ElementView::Note(content) => content.len() > 0,
        _ => true,
    }
}

pub open spec fn elements_ok(es: Seq<ElementView>) -> bool {
    forall|k: int| 0 <= k < es.len() ==> element_ok(#[trigger] es[k])
}

/// Every slide has at least one element, and every element is well formed.
pub open spec fn deck_ok(ss: Seq<Seq<ElementView>>) -> bool {
    forall|k: int| 0 <= k < ss.len() ==> (#[trigger] ss[k]).len() > 0 && elements_ok(ss[k])
}

pub open spec fn model_ok(st: ParseModel) -> bool {
    deck_ok(st.slides) && elements_ok(st.current)
}

proof fn lemma_strip_prefixes_lower(s: Seq<char>, p: Seq<char>, i: int)
    ensures
        i <= strip_prefixes_from(s, p, i),
    decreases s.len() - i,
{
    if p.len() > 0 && i >= 0 && crate::text::matches_at(s, i, p) {
        lemma_strip_prefixes_lower(s, p, i + p.len());
    }
}

proof fn lemma_push_ok(es: Seq<ElementView>, e: ElementView)
    requires
        elements_ok(es),
        element_ok(e),
    ensures
        elements_ok(es.push(e)),
{
    assert forall|k: int| 0 <= k < es.push(e).len() implies element_ok(#[trigger] es.push(e)[k]) by {
        if k < es.len() {
            assert(es.push(e)[k] == es[k]);
        }
    }
}

proof fn lemma_push_note_ok(es: Seq<ElementView>, c: Seq<char>)
    requires
        elements_ok(es),
    ensures
        elements_ok(push_note(es, c)),
{
    if c.len() > 0 {
        lemma_push_ok(es, ElementView::Note(c));
    }
}

proof fn lemma_step_ok(st: ParseModel, line: Seq<char>)
    requires
        model_ok(st),
    ensures
        model_ok(step(st, line)),
{
    let t = trim(line);
    if st.in_code {
        if starts_with(t, fence()) {
            lemma_push_ok(st.current, ElementView::CodeBlock(join_lines(st.code_lines)));
        }
    } else if st.in_note {
        match find_from(t, note_close(), 0) {
            Some(p) => {
                let last = trim(t.subrange(0, p));
                let ls = if last.len() > 0 {
                    st.note_lines.push(last)
                } else {
                    st.note_lines
                };
                lemma_push_note_ok(st.current, trim(join_lines(ls)));
            },
            None => {},
        }
    } else if t == separator() {
        if st.current.len() > 0 {
            let ss = st.slides.push(st.current);
            assert forall|k: int| 0 <= k < ss.len() implies (#[trigger] ss[k]).len() > 0
                && elements_ok(ss[k]) by {
                if k < st.slides.len() {
                    assert(ss[k] == st.slides[k]);
                }
            }
            assert(elements_ok(Seq::<ElementView>::empty()));
        }
    } else if starts_with(t, note_open()) {
        let inner = trim(trim_start_matches(t, note_open()));
        match rfind_below(inner, note_close(), inner.len() as int) {
            Some(p) => {
                lemma_push_note_ok(st.current, trim(inner.subrange(0, p)));
            },
            None => {},
        }
    } else if starts_with(t, fence()) {
    } else {
        let e = line_element(line, t);
        if t.len() > 0 && t[0] == '#' {
            let s = trim_start(line);
            lemma_trim_start_head(line);
            assert(s.subrange(0, 1) =~= seq!['#']);
            lemma_strip_prefixes_lower(s, seq!['#'], 1);
        }
        lemma_push_ok(st.current, e);
    }
}

proof fn lemma_run_ok(ls: Seq<Seq<char>>)
    ensures
        model_ok(run(ls)),
    decreases ls.len(),
{
    if ls.len() == 0 {
        assert(elements_ok(Seq::<ElementView>::empty()));
    } else {
        lemma_run_ok(ls.drop_last());
        lemma_step_ok(run(ls.drop_last()), ls.last());
    }
}

/// Every slide that the parser produces has at least one element, every
/// heading has a level from one to six, and every note has some text.
pub proof fn lemma_parse_deck_ok(content: Seq<char>)
    ensures
        parse_spec(content) matches Some(ss) ==> deck_ok(ss),
{
    let st = run(lines(content));
    lemma_run_ok(lines(content));
    let cur1 = if st.in_code {
        st.current.push(ElementView::CodeBlock(join_lines(st.code_lines)))
    } else {
        st.current
    };
    if st.in_code {
        lemma_push_ok(st.current, ElementView::CodeBlock(join_lines(st.code_lines)));
    }
    let cur2 = if st.in_note {
        push_note(cur1, trim(join_lines(st.note_lines)))
    } else {
        cur1
    };
    if st.in_note {
        lemma_push_note_ok(cur1, trim(join_lines(st.note_lines)));
    }
    if cur2.len() > 0 {
        let ss = st.slides.push(cur2);
        assert forall|k: int| 0 <= k < ss.len() implies (#[trigger] ss[k]).len() > 0 && elements_ok(
            ss[k],
        ) by {
            if k < st.slides.len() {
                assert(ss[k] == st.slides[k]);
            }
        }
    }
}


proof fn lemma_contains_push(a: Seq<Seq<char>>, e: Seq<char>, x: Seq<char>)
    ensures
        a.push(e).contains(x) <==> (a.contains(x) || x == e),
{
    if a.contains(x) {
        let k = choose|k: int| 0 <= k < a.len() && a[k] == x;
        assert(a.push(e)[k] == x);
    }
    if x == e {
        assert(a.push(e)[a.len() as int] == e);
    }
    if a.push(e).contains(x) {
        let k = choose|k: int| 0 <= k < a.len() + 1 && a.push(e)[k] == x;
        if k < a.len() {
            assert(a[k] == x);
        }
    }
}

proof fn lemma_dedup_props(s: Seq<Seq<char>>)
    ensures
        forall|i: int, j: int| 0 <= i < j < dedup(s).len() ==> dedup(s)[i] != dedup(s)[j],
        forall|x: Seq<char>| #[trigger] s.contains(x) <==> dedup(s).contains(x),
    decreases s.len(),
{
    if s.len() > 0 {
        let t = s.drop_last();
        let l = s.last();
        lemma_dedup_props(t);
        let d = dedup(t);
        assert(s =~= t.push(l));
        assert forall|x: Seq<char>| #[trigger] s.contains(x) <==> dedup(s).contains(x) by {
            lemma_contains_push(t, l, x);
            lemma_contains_push(d, l, x);
            assert(t.contains(x) <==> d.contains(x));
        }
        if !d.contains(l) {
            let r = d.push(l);
            assert forall|i: int, j: int| 0 <= i < j < r.len() implies r[i] != r[j] by {
                if j == d.len() {
                    assert(r[j] == l);
                    assert(r[i] == d[i]);
                } else {
                    assert(r[i] == d[i] && r[j] == d[j]);
                }
            }
        }
    }
}

proof fn lemma_image_srcs_nonempty(spans: Seq<SpanView>)
    ensures
        forall|k: int| 0 <= k < image_srcs(spans).len() ==> (#[trigger] image_srcs(spans)[k]).len() > 0,
    decreases spans.len(),
{
    if spans.len() > 0 {
        lemma_image_srcs_nonempty(spans.drop_last());
        let a = image_srcs(spans.drop_last());
        let b = image_srcs(spans);
        assert forall|k: int| 0 <= k < b.len() implies (#[trigger] b[k]).len() > 0 by {
            if k < a.len() {
                assert(b[k] == a[k]);
            }
        }
    }
}

proof fn lemma_element_image_srcs_nonempty(es: Seq<ElementView>)
    ensures
        forall|k: int|
            0 <= k < element_image_srcs(es).len() ==> (#[trigger] element_image_srcs(es)[k]).len() > 0,
    decreases es.len(),
{
    if es.len() > 0 {
        lemma_element_image_srcs_nonempty(es.drop_last());
        lemma_image_srcs_nonempty(element_spans(es.last()));
        let a = element_image_srcs(es.drop_last());
        let c = image_srcs(element_spans(es.last()));
        let b = element_image_srcs(es);
        assert forall|k: int| 0 <= k < b.len() implies (#[trigger] b[k]).len() > 0 by {
            if k < a.len() {
                assert(b[k] == a[k]);
            } else {
                assert(b[k] == c[k - a.len()]);
            }
        }
    }
}

/// The images collected from a slide are distinct, none has an empty
/// source, and every non-empty image source of its headings, list items and
/// paragraphs is among them.
pub proof fn lemma_collected_images(es: Seq<ElementView>)
    ensures
        ({
            let r = dedup(element_image_srcs(es));
            &&& forall|i: int, j: int| 0 <= i < j < r.len() ==> r[i] != r[j]
            &&& forall|k: int| 0 <= k < r.len() ==> (#[trigger] r[k]).len() > 0
            &&& forall|x: Seq<char>| element_image_srcs(es).contains(x) ==> r.contains(x)
        }),
{
    let s = element_image_srcs(es);
    lemma_dedup_props(s);
    lemma_element_image_srcs_nonempty(es);
    let r = dedup(s);
    assert forall|k: int| 0 <= k < r.len() implies (#[trigger] r[k]).len() > 0 by {
        assert(r.contains(r[k]));
        assert(s.contains(r[k]));
        let m = choose|m: int| 0 <= m < s.len() && s[m] == r[k];
        assert(s[m].len() > 0);
    }
}


/// The parser state after reading the lines `ls` from state `st`.
pub open spec fn run_from(st: ParseModel, ls: Seq<Seq<char>>) -> ParseModel
    decreases ls.len(),
{
    if ls.len() == 0 {
        st
    } else {
        step(run_from(st, ls.drop_last()), ls.last())
    }
}

proof fn lemma_run_is_run_from(ls: Seq<Seq<char>>)
    ensures
        run(ls) == run_from(initial_model(), ls),
    decreases ls.len(),
{
    if ls.len() > 0 {
        lemma_run_is_run_from(ls.drop_last());
    }
}

proof fn lemma_run_from_concat(st: ParseModel, xs: Seq<Seq<char>>, ys: Seq<Seq<char>>)
    ensures
        run_from(st, xs + ys) == run_from(run_from(st, xs), ys),
    decreases ys.len(),
{
    if ys.len() == 0 {
        assert(xs + ys =~= xs);
    } else {
        lemma_run_from_concat(st, xs, ys.drop_last());
        assert((xs + ys).drop_last() =~= xs + ys.drop_last());
        assert((xs + ys).last() == ys.last());
    }
}

/// Neither a code block nor a note is open, and no lines of either wait.
pub open spec fn quiet(st: ParseModel) -> bool {
    &&& !st.in_code
    &&& !st.in_note
    &&& st.code_lines == Seq::<Seq<char>>::empty()
    &&& st.note_lines == Seq::<Seq<char>>::empty()
}

/// A line that opens neither a code block nor a note.
pub open spec fn plain_line(line: Seq<char>) -> bool {
    !starts_with(trim(line), fence()) && !starts_with(trim(line), note_open())
}

proof fn lemma_run_quiet(st: ParseModel, ls: Seq<Seq<char>>)
    requires
        quiet(st),
        forall|k: int| 0 <= k < ls.len() ==> plain_line(#[trigger] ls[k]),
    ensures
        quiet(run_from(st, ls)),
    decreases ls.len(),
{
    if ls.len() > 0 {
        lemma_run_quiet(st, ls.drop_last());
        assert(plain_line(ls[ls.len() - 1]));
    }
}

proof fn lemma_fence_line_trim(line: Seq<char>)
    requires
        starts_with(line, fence()),
    ensures
        starts_with(trim(line), fence()),
        trim(line) != separator(),
        !starts_with(trim(line), note_open()),
{
    assert(line.subrange(0, 3) == fence());
    assert(line[0] == '`' && line[1] == '`' && line[2] == '`') by {
        assert(line[0] == line.subrange(0, 3)[0]);
        assert(line[1] == line.subrange(0, 3)[1]);
        assert(line[2] == line.subrange(0, 3)[2]);
    }
    lemma_trim_keeps_head(line, 3);
    let t = trim(line);
    assert(t.subrange(0, 3) =~= fence()) by {
        assert(t.subrange(0, 3) == line.subrange(0, 3));
    }
    assert(t[0] == '`') by {
        assert(t[0] == t.subrange(0, 3)[0]);
    }
    assert(t != separator()) by {
        assert(separator()[0] == '-');
    }
    if starts_with(t, note_open()) {
        assert(t.subrange(0, 4)[0] == t[0]);
        assert(note_open()[0] == '<');
    }
}

/// A line that starts with three backticks opens a code block, whatever
/// follows them (a language name, say): a fence line, one line of code and
/// a closing fence make one slide holding one code block with that line.
pub proof fn lemma_fence_opens_code_block(info: Seq<char>, body: Seq<char>)
    requires
        forall|k: int| 0 <= k < info.len() ==> #[trigger] info[k] != '\n' && info[k] != '\r',
        body.len() > 0,
        forall|k: int| 0 <= k < body.len() ==> #[trigger] body[k] != '\n' && body[k] != '\r',
        !starts_with(trim(body), fence()),
    ensures
        parse_spec(fence() + info + seq!['\n'] + body + seq!['\n'] + fence()) == Some(
            seq![seq![ElementView::CodeBlock(body)]],
        ),
{
    let open = fence() + info;
    let close = fence();
    let content = fence() + info + seq!['\n'] + body + seq!['\n'] + fence();
    let rest = body + seq!['\n'] + close;
    assert(content =~= open + seq!['\n'] + rest);
    assert(open.last() != '\n' && open.last() != '\r') by {
        if info.len() > 0 {
            assert(open.last() == info[info.len() - 1]);
        }
    }
    lemma_lines_concat(open, rest);
    lemma_lines_concat(body, close);
    assert forall|k: int| 0 <= k < open.len() implies #[trigger] open[k] != '\n' by {
        if k >= 3 {
            assert(open[k] == info[k - 3]);
        }
    }
    lemma_lines_single(open);
    lemma_lines_single(body);
    lemma_lines_single(close);
    let ls = seq![open, body, close];
    assert(lines(content) =~= ls);
    assert(open.subrange(0, 3) =~= fence());
    assert(close.subrange(0, 3) =~= fence());
    lemma_fence_line_trim(open);
    lemma_fence_line_trim(close);
    assert(ls.drop_last() =~= seq![open, body]);
    assert(ls.drop_last().drop_last() =~= seq![open]);
    assert(seq![open].drop_last() =~= Seq::<Seq<char>>::empty());
    let s1 = step(initial_model(), open);
    assert(run(Seq::<Seq<char>>::empty()) == initial_model());
    assert(seq![open].last() == open);
    assert(run(seq![open]) == s1);
    assert(s1.in_code && !s1.in_note && s1.code_lines.len() == 0 && s1.current.len() == 0);
    let s2 = step(s1, body);
    assert(s2.code_lines =~= seq![body]);
    let s3 = step(s2, close);
    assert(s3.current =~= seq![ElementView::CodeBlock(body)]);
    assert(run(seq![open, body]) == s2) by {
        assert(seq![open, body].drop_last() =~= seq![open]);
        assert(seq![open, body].last() == body);
    }
    assert(ls.last() == close);
    assert(run(ls) == s3);
    assert(finish(s3) == Some(seq![seq![ElementView::CodeBlock(body)]])) by {
        assert(Seq::<Seq<ElementView>>::empty().push(s3.current) =~= seq![seq![ElementView::CodeBlock(body)]]);
    }
}

/// `st` with the slides `p` before its own.
pub open spec fn with_prefix(st: ParseModel, p: Seq<Seq<ElementView>>) -> ParseModel {
    ParseModel { slides: p + st.slides, ..st }
}

proof fn lemma_step_prefix(st: ParseModel, p: Seq<Seq<ElementView>>, line: Seq<char>)
    ensures
        step(with_prefix(st, p), line) == with_prefix(step(st, line), p),
{
    let t = trim(line);
    if !st.in_code && !st.in_note && t == separator() && st.current.len() > 0 {
        assert((p + st.slides).push(st.current) =~= p + st.slides.push(st.current));
    }
}

proof fn lemma_run_prefix(st: ParseModel, p: Seq<Seq<ElementView>>, ls: Seq<Seq<char>>)
    ensures
        run_from(with_prefix(st, p), ls) == with_prefix(run_from(st, ls), p),
    decreases ls.len(),
{
    if ls.len() > 0 {
        lemma_run_prefix(st, p, ls.drop_last());
        lemma_step_prefix(run_from(st, ls.drop_last()), p, ls.last());
    }
}

/// A `---` line splits a deck in two: when `a` ends in neither a line feed
/// nor a carriage return and none of its lines opens a code block or a note,
/// the slides of `a`, a separator line and `b` are the slides of `a`
/// followed by those of `b`, none merged or dropped.
pub proof fn lemma_separator_splits(a: Seq<char>, b: Seq<char>)
    requires
        parse_spec(a) is Some,
        parse_spec(b) is Some,
        a.len() > 0,
        a.last() != '\n',
        a.last() != '\r',
        forall|k: int| 0 <= k < lines(a).len() ==> plain_line(#[trigger] lines(a)[k]),
    ensures
        parse_spec(a + seq!['\n', '-', '-', '-', '\n'] + b) == Some(
            parse_spec(a).unwrap() + parse_spec(b).unwrap(),
        ),
{
    let rest = seq!['-', '-', '-', '\n'] + b;
    assert(a + seq!['\n', '-', '-', '-', '\n'] + b =~= a + seq!['\n'] + rest);
    lemma_lines_concat(a, rest);
    let dash = seq!['-', '-', '-'];
    lemma_lines_concat(dash, b);
    assert(dash + seq!['\n'] + b =~= rest);
    let ld = lines(dash);
    assert(ld =~= seq![dash]) by {
        assert(crate::text::next_newline(dash, 0) == 3) by {
            assert(crate::text::next_newline(dash, 3) == 3);
            assert(crate::text::next_newline(dash, 2) == 3);
            assert(crate::text::next_newline(dash, 1) == 3);
        }
        assert(crate::text::line_body(dash, 0, 3) =~= dash);
    }
    let la = lines(a);
    let lb = lines(b);
    let all = la + (seq![dash] + lb);
    assert(lines(a + seq!['\n', '-', '-', '-', '\n'] + b) == all);
    lemma_run_is_run_from(all);
    lemma_run_is_run_from(la);
    lemma_run_is_run_from(lb);
    lemma_run_from_concat(initial_model(), la, seq![dash] + lb);
    let sa = run(la);
    lemma_run_quiet(initial_model(), la);
    lemma_run_from_concat(sa, seq![dash], lb);
    assert(seq![dash].drop_last() =~= Seq::<Seq<char>>::empty());
    let s1 = step(sa, dash);
    assert(trim(dash) =~= dash) by {
        assert(crate::text::first_non_ws(dash, 0) == 0);
        assert(crate::text::end_non_ws(dash, 3) == 3);
    }
    assert(dash == separator());
    let pa = parse_spec(a).unwrap();
    assert(s1 == with_prefix(initial_model(), pa)) by {
        assert(s1.current =~= Seq::<ElementView>::empty());
        if sa.current.len() > 0 {
            assert(pa == sa.slides.push(sa.current));
        } else {
            assert(pa == sa.slides);
        }
        assert(pa + Seq::<Seq<ElementView>>::empty() =~= pa);
    }
    lemma_run_prefix(initial_model(), pa, lb);
    let sb = run(lb);
    let pb = parse_spec(b).unwrap();
    let fin = with_prefix(sb, pa);
    assert(run_from(sa, seq![dash]) == s1) by {
        let one = seq![dash];
        assert(one.drop_last() =~= Seq::<Seq<char>>::empty());
        assert(run_from(sa, one.drop_last()) == sa);
        assert(one.last() == dash);
    }
    assert(run_from(initial_model(), all) == run_from(s1, lb));
    assert(run(all) == fin);
    assert(finish(fin) == Some(pa + pb)) by {
        let cur1 = if sb.in_code {
            sb.current.push(ElementView::CodeBlock(join_lines(sb.code_lines)))
        } else {
            sb.current
        };
        let cur2 = if sb.in_note {
            push_note(cur1, trim(join_lines(sb.note_lines)))
        } else {
            cur1
        };
        if cur2.len() > 0 {
            assert((pa + sb.slides).push(cur2) =~= pa + sb.slides.push(cur2));
        }
    }
}

} // verus!
