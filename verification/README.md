# Prism

A terminal Markdown slide presenter. A Markdown file is cut into slides at
`---` lines; each line becomes a heading, list item, code block, paragraph,
empty line or speaker note (`<!-- ... -->`), and inline text is parsed for
bold, italic, inline code, links, images and backslash escapes.

Layout:

- `src/` — the verified library (Verus):
  - `text.rs`: whitespace, trimming, search, line splitting and joining;
  - `inline.rs`: the inline parser, with laws on its spans;
  - `parser.rs`: the slide model, the slide parser as a state machine over
    lines, and note and image collection;
  - `ui.rs`: time formatting, display widths (through `unicode-width`) and
    line wrapping, with laws on wrapped lines;
  - `render.rs`: the styled lines of the main stage and the speaker panel;
  - `player.rs`: the page and key decisions of the presentation loop;
  - `theme.rs`, `config.rs`, `error.rs`: themes, settings, errors.
- `app/` — the terminal program: clap, crossterm, ratatui, files and the
  event loop.
- `tests/` — the tests.
