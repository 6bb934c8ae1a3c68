use prism::config::Config;
use prism::inline::parse_inline_into;
use prism::error::PrismError;
use prism::parser::{collect_slide_images, presenter_notes, PlainTextCollector, parse_inline, parse_inline_to_plain, Parser, Slide, SlideElement, TextSpan};
use prism::player::{KeyInput, Player, PlayerAction};
use prism::render::{
    element_rows_exec, goto_status, notes_image_sources, page_title, presenter_panel_rows,
    slide_image_sources, slide_rows_exec, SpanStyle, StyledText,
};
use prism::theme::{TextStyle, ThemeColor, ThemeStyles};
use prism::ui::{
    format_seconds, inline_width, resolve_image_text, resolve_link_text,
    span_to_kind_and_text, wrap_spans, wrap_with_prefix, SpanKind,
};

fn part(kind: SpanKind, text: &str) -> (SpanKind, String) {
    (kind, text.to_string())
}

fn texts(line: &[(SpanKind, String)]) -> String {
    line.iter().map(|p| p.1.as_str()).collect()
}

fn row_text(row: &[StyledText]) -> String {
    row.iter().map(|p| p.text.as_str()).collect()
}

// ---------- inline parsing laws on concrete values ----------

#[test]
fn plain_text_is_one_span() {
    assert_eq!(parse_inline("just words, no markup"), vec![TextSpan::Normal("just words, no markup".to_string())]);
    assert_eq!(parse_inline_to_plain("just words"), "just words");
}

#[test]
fn plain_text_is_gathered_into_one_span() {
    let spans = parse_inline("a ** b *c* d");
    for pair in spans.windows(2) {
        assert!(!(matches!(pair[0], TextSpan::Normal(_)) && matches!(pair[1], TextSpan::Normal(_))));
    }
    for s in &spans {
        if let TextSpan::Normal(t) = s {
            assert!(!t.is_empty());
        }
    }
    assert_eq!(
        spans,
        vec![TextSpan::Normal("a ** b ".to_string()), TextSpan::Italic("c".to_string()), TextSpan::Normal(" d".to_string())]
    );
}

#[test]
fn emphasis_nests_either_way() {
    assert_eq!(parse_inline("***x***"), vec![TextSpan::BoldItalic("x".to_string())]);
    assert_eq!(parse_inline("**a *b***"), vec![TextSpan::Bold("a ".to_string()), TextSpan::BoldItalic("b".to_string())]);
}

#[test]
fn escaped_link_and_image_markers_stay_literal() {
    assert_eq!(parse_inline(r"\!\[x\](y)"), vec![TextSpan::Normal("![x](y)".to_string())]);
    assert_eq!(parse_inline(r"\q"), vec![TextSpan::Normal(r"\q".to_string())]);
}

#[test]
fn code_span_skips_emphasis_search() {
    assert_eq!(
        parse_inline("*a `*` b*"),
        vec![TextSpan::Italic("a ".to_string()), TextSpan::InlineCode("*".to_string()), TextSpan::Italic(" b".to_string())]
    );
}

// ---------- slide parsing ----------

#[test]
fn parse_error_reports_message_and_line_zero() {
    match Parser::parse("---\n---\n") {
        Err(PrismError::ParseError { line, message }) => {
            assert_eq!(line, 0);
            assert_eq!(message, "Markdown 文件未包含有效内容，解析失败！");
        }
        _ => panic!("expected a parse error"),
    }
}

#[test]
fn parsed_slides_are_never_empty_and_headings_are_shallow() {
    let slides = Parser::parse("---\n# a\n---\n---\n####### b\n<!-- -->\n---\n").unwrap();
    assert_eq!(slides.len(), 2);
    for slide in &slides {
        assert!(!slide.elements.is_empty());
        for e in &slide.elements {
            match e {
                SlideElement::Heading(level, _) => assert!(*level <= 6),
                SlideElement::Note(n) => assert!(!n.is_empty()),
                _ => {}
            }
        }
    }
}

#[test]
fn indented_heading_counts_the_hashes_after_the_indent() {
    let slides = Parser::parse("  ## x").unwrap();
    assert_eq!(slides[0].elements, vec![SlideElement::Heading(2, vec![TextSpan::Normal("x".to_string())])]);
    let slides = Parser::parse("  #x").unwrap();
    assert!(matches!(slides[0].elements[0], SlideElement::Paragraph(_)));
}

#[test]
fn heading_with_nothing_after_the_space() {
    let slides = Parser::parse("# \n##   \n  # \n#").unwrap();
    assert_eq!(
        slides[0].elements,
        vec![
            SlideElement::Heading(1, vec![]),
            SlideElement::Heading(2, vec![]),
            SlideElement::Heading(1, vec![]),
            SlideElement::Paragraph(vec![TextSpan::Normal("#".to_string())]),
        ]
    );
}

#[test]
fn crlf_lines_and_code_blocks() {
    let slides = Parser::parse("```\r\nlet x = 1;\r\n  y\r\n```\r\n- item").unwrap();
    assert_eq!(
        slides[0].elements,
        vec![
            SlideElement::CodeBlock("let x = 1;\n  y".to_string()),
            SlideElement::ListItem(vec![TextSpan::Normal("item".to_string())]),
        ]
    );
}

#[test]
fn multiline_note_keeps_inner_lines_and_trims_the_whole() {
    let slides = Parser::parse("<!--  first\n  middle  \nlast -->").unwrap();
    assert_eq!(slides[0].elements, vec![SlideElement::Note("first\n  middle  \nlast".to_string())]);
}

#[test]
fn note_opening_markers_repeat() {
    let slides = Parser::parse("<!--<!-- x -->").unwrap();
    assert_eq!(slides[0].elements, vec![SlideElement::Note("x".to_string())]);
}

#[test]
fn collect_images_keeps_first_occurrence_order() {
    let slide = Slide {
        elements: vec![
            SlideElement::Paragraph(parse_inline("![a](b.png) ![c](a.png) ![d](b.png)")),
            SlideElement::Note("![e](z.png)".to_string()),
            SlideElement::ListItem(parse_inline("![f](c.png) ![g]()")),
        ],
    };
    assert_eq!(collect_slide_images(&slide), vec!["b.png", "a.png", "c.png"]);
}

// ---------- errors and configuration ----------

#[test]
fn error_messages() {
    assert_eq!(PrismError::ConfigError("x".to_string()).to_message(), "配置参数有误: x");
    assert_eq!(
        PrismError::ParseError { line: 0, message: "m".to_string() }.to_message(),
        "Markdown 解析异常: m"
    );
    assert_eq!(PrismError::TerminalError("t".to_string()).to_message(), "终端渲染失败: t");
    let io = std::io::Error::new(std::io::ErrorKind::NotFound, "gone");
    let e: PrismError = io.into();
    assert!(matches!(e, PrismError::IoError(_)));
    assert_eq!(e.to_message(), "文件读取失败: gone");
}

#[test]
fn config_check() {
    let c = Config { file_path: "deck.md".to_string(), theme: "default".to_string(), presenter: true };
    assert_eq!(Config::parse_args(c.clone(), true).unwrap(), c);
    match Config::parse_args(c, false) {
        Err(PrismError::ConfigError(m)) => assert_eq!(m, "指定的文件不存在或无法访问: \"deck.md\""),
        _ => panic!("expected a configuration error"),
    }
    let q = Config { file_path: "a\"b".to_string(), theme: String::new(), presenter: false };
    match Config::parse_args(q, false) {
        Err(PrismError::ConfigError(m)) => assert_eq!(m, "指定的文件不存在或无法访问: \"a\\\"b\""),
        _ => panic!("expected a configuration error"),
    }
    let r = Config { file_path: "it's.md".to_string(), theme: String::new(), presenter: false };
    match Config::parse_args(r, false) {
        Err(PrismError::ConfigError(m)) => assert_eq!(m, "指定的文件不存在或无法访问: \"it's.md\""),
        _ => panic!("expected a configuration error"),
    }
}

// ---------- themes ----------

#[test]
fn theme_names_ignore_case() {
    let m = ThemeStyles::new("MaTrIx");
    assert_eq!(m.border_color, ThemeColor::Green);
    assert_eq!(m.heading_style, TextStyle { fg: Some(ThemeColor::Green), bg: None, bold: true });
    let d = ThemeStyles::new("DRACULA");
    assert_eq!(d.bg_color, ThemeColor::Rgb(40, 42, 54));
    assert_eq!(d.border_color, ThemeColor::Rgb(98, 114, 164));
    let other = ThemeStyles::new("solarized");
    assert_eq!(other.border_color, ThemeColor::Blue);
    assert_eq!(other.paragraph_style.fg, Some(ThemeColor::White));
}

// ---------- layout ----------

#[test]
fn format_seconds_exact() {
    assert_eq!(format_seconds(0), "00:00");
    assert_eq!(format_seconds(359999), "99:59:59");
    assert_eq!(format_seconds(360000), "100:00:00");
}

#[test]
fn inline_widths() {
    assert_eq!(inline_width(&vec![part(SpanKind::Bold, "ab"), part(SpanKind::Normal, "你")]), 4);
}

#[test]
fn labels() {
    assert_eq!(resolve_link_text("t", "u"), "u");
    assert_eq!(resolve_link_text("t", ""), "t");
    assert_eq!(resolve_image_text("a", "s", true), ("a".to_string(), false));
    assert_eq!(resolve_image_text("", "s", true), ("s".to_string(), false));
    assert_eq!(resolve_image_text("a", "s", false), ("s".to_string(), true));
    assert_eq!(resolve_image_text("a", "", false), ("a".to_string(), false));
    let img = TextSpan::Image { alt: "a".to_string(), src: "s".to_string() };
    assert_eq!(span_to_kind_and_text(&img, false), (SpanKind::Underline, "s".to_string()));
    assert_eq!(span_to_kind_and_text(&img, true), (SpanKind::Normal, "a".to_string()));
}

#[test]
fn wrap_breaks_at_the_width_and_keeps_every_character() {
    let parts = vec![part(SpanKind::Normal, "hello "), part(SpanKind::Bold, "world")];
    let lines = wrap_spans(&parts, 5);
    assert_eq!(
        lines,
        vec![
            vec![part(SpanKind::Normal, "hello")],
            vec![part(SpanKind::Normal, " "), part(SpanKind::Bold, "worl")],
            vec![part(SpanKind::Bold, "d")],
        ]
    );
    let all: String = lines.iter().map(|l| texts(l)).collect();
    assert_eq!(all, "hello world");
}

#[test]
fn wrap_wide_characters() {
    let lines = wrap_spans(&vec![part(SpanKind::Normal, "你好世")], 3);
    assert_eq!(lines.len(), 3);
    for l in &lines {
        assert_eq!(texts(l).chars().count(), 1);
    }
    let narrow = wrap_spans(&vec![part(SpanKind::Normal, "你好")], 1);
    assert_eq!(narrow.len(), 2);
    assert_eq!(wrap_spans(&vec![], 10), vec![Vec::<(SpanKind, String)>::new()]);
}

#[test]
fn wrap_after_prefixes() {
    let parts = vec![part(SpanKind::Normal, "abcdefgh")];
    let lines = wrap_with_prefix(&parts, "  • ", "    ", 7);
    assert_eq!(
        lines,
        vec![
            ("  • ".to_string(), vec![part(SpanKind::Normal, "abc")]),
            ("    ".to_string(), vec![part(SpanKind::Normal, "def")]),
            ("    ".to_string(), vec![part(SpanKind::Normal, "gh")]),
        ]
    );
    let empty = wrap_with_prefix(&vec![], "", "", 5);
    assert_eq!(empty, vec![(String::new(), vec![])]);
}

// ---------- the presentation loop ----------

#[test]
fn navigation_stays_in_the_deck() {
    let mut p = Player::new(3);
    assert_eq!(p.handle_key(KeyInput::Left), PlayerAction::Nothing);
    assert_eq!(p.current_page, 0);
    p.handle_key(KeyInput::Right);
    p.handle_key(KeyInput::Char(' '));
    p.handle_key(KeyInput::Right);
    assert_eq!(p.current_page, 2);
    p.handle_key(KeyInput::Left);
    assert_eq!(p.current_page, 1);
    assert_eq!(p.handle_key(KeyInput::Char('O')), PlayerAction::OpenImage(1));
    p.handle_key(KeyInput::Char('q'));
    assert!(p.should_quit);
    let mut shifted = Player::new(2);
    shifted.handle_key(KeyInput::Char('Q'));
    assert!(shifted.should_quit);
}

#[test]
fn next_then_previous_returns() {
    let mut p = Player::new(5);
    p.handle_key(KeyInput::Right);
    let before = p.current_page;
    p.handle_key(KeyInput::Right);
    p.handle_key(KeyInput::Left);
    assert_eq!(p.current_page, before);
}

#[test]
fn goto_mode() {
    let mut p = Player::new(4);
    p.handle_key(KeyInput::Char('g'));
    assert_eq!(p.goto_input(), Some(String::new()));
    p.handle_key(KeyInput::Char('3'));
    p.handle_key(KeyInput::Char('x'));
    assert_eq!(p.goto_input(), Some("3".to_string()));
    p.handle_key(KeyInput::Enter);
    assert_eq!(p.current_page, 2);
    assert_eq!(p.goto_input(), None);
    p.handle_key(KeyInput::Char('G'));
    p.handle_key(KeyInput::Char('9'));
    p.handle_key(KeyInput::Char('9'));
    p.handle_key(KeyInput::Backspace);
    p.handle_key(KeyInput::Enter);
    assert_eq!(p.current_page, 3);
    p.handle_key(KeyInput::Char('g'));
    p.handle_key(KeyInput::Char('0'));
    p.handle_key(KeyInput::Enter);
    assert_eq!(p.current_page, 0);
    p.handle_key(KeyInput::Char('g'));
    for _ in 0..30 {
        p.handle_key(KeyInput::Char('9'));
    }
    p.handle_key(KeyInput::Enter);
    assert_eq!(p.current_page, 0);
    p.handle_key(KeyInput::Char('g'));
    p.handle_key(KeyInput::Char('2'));
    p.handle_key(KeyInput::Esc);
    assert_eq!(p.current_page, 0);
    assert!(!p.should_quit);
    p.handle_key(KeyInput::Esc);
    assert!(p.should_quit);
}

// ---------- drawing ----------

#[test]
fn stage_rows() {
    let theme = ThemeStyles::new("default");
    let slides = Parser::parse("## Hi **you**\n- item\n\n```\nab\n```").unwrap();
    let rows = slide_rows_exec(&slides[0], &theme, 40, &vec![]);
    let shown: Vec<String> = rows.iter().map(|r| row_text(r)).collect();
    assert_eq!(
        shown,
        vec![
            "", "Hi you", "", "  • item", "", "", "  ┌────────┐", "  │ ab     │", "  └────────┘", "",
        ]
    );
    let heading = &rows[1];
    assert!(heading.iter().all(|p| p.style.bold));
    assert_eq!(heading[0].style.fg, Some(ThemeColor::Cyan));
}

#[test]
fn heading_indent_and_images() {
    let theme = ThemeStyles::new("matrix");
    let e = SlideElement::Heading(3, parse_inline("see ![logo](logo.png)"));
    let missing = element_rows_exec(&e, &theme, 80, &vec![]);
    assert_eq!(row_text(&missing[0]), "  see logo.png");
    assert!(missing[0].last().unwrap().style.underlined);
    let found = element_rows_exec(&e, &theme, 80, &vec!["logo.png".to_string()]);
    assert_eq!(row_text(&found[0]), "  see logo");
    let slide = Slide { elements: vec![e, SlideElement::CodeBlock("`![x](y.png)`".to_string())] };
    assert_eq!(slide_image_sources(&slide), vec!["logo.png", "y.png"]);
}

#[test]
fn speaker_panel() {
    let theme = ThemeStyles::new("default");
    let none = presenter_panel_rows(&vec![], 65, &theme, 20, &vec![]);
    let shown: Vec<String> = none.iter().map(|r| row_text(r)).collect();
    assert_eq!(shown, vec![" ⏱  01:05", " ──────────────────────────", "", " （无备注）"]);
    let notes = vec!["**bold** note".to_string()];
    let rows = presenter_panel_rows(&notes, 0, &theme, 8, &vec![]);
    let shown: Vec<String> = rows.iter().map(|r| row_text(r)).collect();
    assert_eq!(shown, vec![" ⏱  00:00", " ──────────────────────────", "", "bold n", "ote", ""]);
    assert_eq!(rows[3][0].style, SpanStyle { fg: Some(ThemeColor::White), bg: None, bold: true, italic: false, underlined: false });
    assert_eq!(notes_image_sources(&vec!["![a](b)".to_string()]), vec!["b"]);
}

#[test]
fn titles_and_status() {
    assert_eq!(page_title(0, 12), " Prism Presentation | 第 1/12 页 ");
    assert_eq!(goto_status(""), " 跳转到: _  (输入页码后按 Enter，Esc 取消)");
    assert_eq!(goto_status("42"), " 跳转到: 42_  (Enter 确认，Esc 取消)");
}


#[test]
fn collectors_receive_the_spans_in_order() {
    let text = "a **b** `c` [d](e) f";
    let spans: Vec<TextSpan> = parse_inline_into(text, Vec::new());
    assert_eq!(spans, parse_inline(text));
    let earlier = vec![TextSpan::InlineCode("z".to_string())];
    let more = parse_inline_into(text, earlier.clone());
    let mut expected = earlier;
    expected.extend(parse_inline(text));
    assert_eq!(more, expected);
    let plain = parse_inline_into(text, PlainTextCollector::default()).into_string();
    assert_eq!(plain, parse_inline_to_plain(text));
    assert_eq!(plain, "a b c e f");
}

#[test]
fn separator_splits_the_deck_in_two() {
    let a = "# One\n- item\n<!-- note -->";
    let b = "Two *x*\n\n---\nThree";
    let joined = format!("{}\n---\n{}", a, b);
    let mut expected = Parser::parse(a).unwrap();
    expected.extend(Parser::parse(b).unwrap());
    assert_eq!(Parser::parse(&joined).unwrap(), expected);
    assert_eq!(expected.len(), 3);
}

#[test]
fn wrap_breaks_only_when_the_next_character_overflows() {
    assert_eq!(
        wrap_spans(&vec![part(SpanKind::Normal, "ab你")], 3),
        vec![vec![part(SpanKind::Normal, "ab")], vec![part(SpanKind::Normal, "你")]]
    );
    assert_eq!(wrap_spans(&vec![part(SpanKind::Normal, "a你")], 3), vec![vec![part(SpanKind::Normal, "a你")]]);
    assert_eq!(
        wrap_with_prefix(&vec![part(SpanKind::Normal, "ab你c")], "> ", "> ", 5),
        vec![
            ("> ".to_string(), vec![part(SpanKind::Normal, "ab")]),
            ("> ".to_string(), vec![part(SpanKind::Normal, "你c")]),
        ]
    );
}

#[test]
fn notes_reach_the_panel_only_when_it_is_on() {
    let slide = Parser::parse("# T\n<!-- say hi -->\ntext").unwrap().remove(0);
    assert_eq!(presenter_notes(&slide, true), Some(vec!["say hi".to_string()]));
    assert_eq!(presenter_notes(&slide, false), None);
}
