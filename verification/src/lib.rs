//! Prism: a terminal Markdown slide presenter. This library holds its
//! verified core: the slide and inline Markdown parsers, the themes, the
//! text layout, the drawn lines of a slide and of the speaker panel, the
//! decisions of the presentation loop, and the error type.

pub mod config;
pub mod error;
pub mod inline;
pub mod parser;
pub mod player;
pub mod render;
pub mod text;
pub mod theme;
pub mod ui;
