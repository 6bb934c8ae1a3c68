//! The colour themes of the presentation.

use vstd::prelude::*;
use crate::text::chars_of;

verus! {

/// A terminal colour.
#[derive(Debug, Clone, Copy, PartialEq, Eq)]
pub enum ThemeColor {
    Black,
    Green,
    Yellow,
    Cyan,
    White,
    Blue,
    DarkGray,
    Rgb(u8, u8, u8),
}

/// How a piece of text is drawn: its colours and whether it is bold.
#[derive(Debug, Clone, Copy, PartialEq, Eq)]
pub struct TextStyle {
    pub fg: Option<ThemeColor>,
    pub bg: Option<ThemeColor>,
    pub bold: bool,
}

/// The styles of every kind of slide element under one theme.
#[derive(Debug, Clone, Copy, PartialEq, Eq)]
pub struct ThemeStyles {
    /// The background of the whole terminal.
    pub bg_color: ThemeColor,
    /// Headings.
    pub heading_style: TextStyle,
    /// Paragraph text.
    pub paragraph_style: TextStyle,
    /// List bullets.
    pub list_style: TextStyle,
    /// Code blocks (text and background).
    pub code_style: TextStyle,
    /// The frame around the slide.
    pub border_color: ThemeColor,
}

/// A style with a foreground colour only.
pub open spec fn fg_style(c: ThemeColor) -> TextStyle {
    TextStyle { fg: Some(c), bg: None, bold: false }
}

/// A bold style with a foreground colour.
pub open spec fn bold_style(c: ThemeColor) -> TextStyle {
    TextStyle { fg: Some(c), bg: None, bold: true }
}

/// A style with both colours.
pub open spec fn fg_bg_style(fg: ThemeColor, bg: ThemeColor) -> TextStyle {
    TextStyle { fg: Some(fg), bg: Some(bg), bold: false }
}

/// The "matrix" theme: fluorescent green on black.
pub open spec fn matrix_theme() -> ThemeStyles {
    ThemeStyles {
        bg_color: ThemeColor::Black,
        heading_style: bold_style(ThemeColor::Green),
        paragraph_style: fg_style(ThemeColor::Green),
        list_style: fg_style(ThemeColor::Yellow),
        code_style: fg_bg_style(ThemeColor::Yellow, ThemeColor::Black),
        border_color: ThemeColor::Green,
    }
}

/// The "dracula" theme: dark purple.
pub open spec fn dracula_theme() -> ThemeStyles {
    ThemeStyles {
        bg_color: ThemeColor::Rgb(40, 42, 54),
        heading_style: bold_style(ThemeColor::Rgb(189, 147, 249)),
        paragraph_style: fg_style(ThemeColor::Rgb(248, 248, 242)),
        list_style: fg_style(ThemeColor::Yellow),
        code_style: fg_bg_style(ThemeColor::Yellow, ThemeColor::Rgb(40, 42, 54)),
        border_color: ThemeColor::Rgb(98, 114, 164),
    }
}

/// The default theme: cyan headings on black.
pub open spec fn default_theme() -> ThemeStyles {
    ThemeStyles {
        bg_color: ThemeColor::Black,
        heading_style: bold_style(ThemeColor::Cyan),
        paragraph_style: fg_style(ThemeColor::White),
        list_style: fg_style(ThemeColor::Yellow),
        code_style: fg_bg_style(ThemeColor::Yellow, ThemeColor::Black),
        border_color: ThemeColor::Blue,
    }
}

/// What `str::to_lowercase` returns for a string (Unicode lowercase mapping).
pub uninterp spec fn lowercase(s: Seq<char>) -> Seq<char>;

/// An ASCII character in lower case: `A`–`Z` become `a`–`z`, the others stay.
pub open spec fn ascii_lower(c: char) -> char {
    if 'A' <= c && c <= 'Z' {
        ((c as int) + 32) as char
    } else {
        c
    }
}

/// Whether every character of `s` is ASCII.
pub open spec fn all_ascii(s: Seq<char>) -> bool {
    forall|k: int| 0 <= k < s.len() ==> (#[trigger] s[k]) < '\u{80}'
}

/// `str::to_lowercase`: the contract names the result after the text and
/// states the Unicode lowercase mapping of ASCII text (`A`–`Z` to `a`–`z`,
/// the rest unchanged).
#[verifier::external_body]
fn to_lowercase(s: &str) -> (r: String)
    ensures
        r@ == lowercase(s@),
        all_ascii(s@) ==> r@ == s@.map_values(|c: char| ascii_lower(c)),
{
    s.to_lowercase()
}

/// The theme that a lower-case name selects: "matrix", "dracula", or the
/// default theme for any other name.
pub open spec fn theme_by_lower_name(l: Seq<char>) -> ThemeStyles {
    if l == "matrix"@ {
        matrix_theme()
    } else if l == "dracula"@ {
        dracula_theme()
    } else {
        default_theme()
    }
}

/// The theme that a name selects, whatever its letter case.
pub open spec fn theme_for(name: Seq<char>) -> ThemeStyles {
    theme_by_lower_name(lowercase(name))
}

/// Whether `v` spells `word`.
fn chars_equal(v: &Vec<char>, word: &Vec<char>) -> (b: bool)
    ensures
        b == (v@ == word@),
{
    if v.len() != word.len() {
        return false;
    }
    let mut k: usize = 0;
    while k < v.len()
        invariant
            v.len() == word.len(),
            k <= v.len(),
            forall|m: int| 0 <= m < k ==> v@[m] == word@[m],
        decreases v.len() - k,
    {
        if v[k] != word[k] {
            return false;
        }
        k = k + 1;
    }
    assert(v@ =~= word@);
    true
}

impl ThemeStyles {
    /// The styles of the theme named `theme_name` (see [`theme_for`]).
    pub fn new(theme_name: &str) -> (t: Self)
        ensures
            t == theme_for(theme_name@),
            all_ascii(theme_name@) ==> t == theme_by_lower_name(ascii_lowercase(theme_name@)),
    {
        let lower = to_lowercase(theme_name);
        let name = chars_of(lower.as_str());
        let matrix = chars_of("matrix");
        let dracula = chars_of("dracula");
        proof {
            reveal_strlit("matrix");
            reveal_strlit("dracula");
        }
        if chars_equal(&name, &matrix) {
            ThemeStyles {
                bg_color: ThemeColor::Black,
                heading_style: TextStyle { fg: Some(ThemeColor::Green), bg: None, bold: true },
                paragraph_style: TextStyle { fg: Some(ThemeColor::Green), bg: None, bold: false },
                list_style: TextStyle { fg: Some(ThemeColor::Yellow), bg: None, bold: false },
                code_style: TextStyle {
                    fg: Some(ThemeColor::Yellow),
                    bg: Some(ThemeColor::Black),
                    bold: false,
                },
                border_color: ThemeColor::Green,
            }
        } else if chars_equal(&name, &dracula) {
            ThemeStyles {
                bg_color: ThemeColor::Rgb(40, 42, 54),
                heading_style: TextStyle {
                    fg: Some(ThemeColor::Rgb(189, 147, 249)),
                    bg: None,
                    bold: true,
                },
                paragraph_style: TextStyle {
                    fg: Some(ThemeColor::Rgb(248, 248, 242)),
                    bg: None,
                    bold: false,
                },
                list_style: TextStyle { fg: Some(ThemeColor::Yellow), bg: None, bold: false },
                code_style: TextStyle {
                    fg: Some(ThemeColor::Yellow),
                    bg: Some(ThemeColor::Rgb(40, 42, 54)),
                    bold: false,
                },
                border_color: ThemeColor::Rgb(98, 114, 164),
            }
        } else {
            ThemeStyles {
                bg_color: ThemeColor::Black,
                heading_style: TextStyle { fg: Some(ThemeColor::Cyan), bg: None, bold: true },
                paragraph_style: TextStyle { fg: Some(ThemeColor::White), bg: None, bold: false },
                list_style: TextStyle { fg: Some(ThemeColor::Yellow), bg: None, bold: false },
                code_style: TextStyle {
                    fg: Some(ThemeColor::Yellow),
                    bg: Some(ThemeColor::Black),
                    bold: false,
                },
                border_color: ThemeColor::Blue,
            }
        }
    }
}


/// `s` with its ASCII capitals made lower case.
pub open spec fn ascii_lowercase(s: Seq<char>) -> Seq<char> {
    s.map_values(|c: char| ascii_lower(c))
}

/// The three palettes, colour by colour, by the lower-cased theme name (see
/// the contract of [`ThemeStyles::new`]): "matrix" gives bold green headings
/// and green text on black; "dracula" gives bold purple headings and
/// near-white text on dark purple; every other name gives bold cyan headings
/// and white text on black.
pub proof fn lemma_theme_palettes(lower: Seq<char>)
    ensures
        ({
            let t = theme_by_lower_name(lower);
            let yellow = TextStyle { fg: Some(ThemeColor::Yellow), bg: None, bold: false };
            if lower == "matrix"@ {
                &&& t.bg_color == ThemeColor::Black
                &&& t.heading_style == TextStyle { fg: Some(ThemeColor::Green), bg: None, bold: true }
                &&& t.paragraph_style == TextStyle { fg: Some(ThemeColor::Green), bg: None, bold: false }
                &&& t.list_style == yellow
                &&& t.code_style == TextStyle {
                    fg: Some(ThemeColor::Yellow),
                    bg: Some(ThemeColor::Black),
                    bold: false,
                }
                &&& t.border_color == ThemeColor::Green
            } else if lower == "dracula"@ {
                &&& t.bg_color == ThemeColor::Rgb(40, 42, 54)
                &&& t.heading_style == TextStyle {
                    fg: Some(ThemeColor::Rgb(189, 147, 249)),
                    bg: None,
                    bold: true,
                }
                &&& t.paragraph_style == TextStyle {
                    fg: Some(ThemeColor::Rgb(248, 248, 242)),
                    bg: None,
                    bold: false,
                }
                &&& t.list_style == yellow
                &&& t.code_style == TextStyle {
                    fg: Some(ThemeColor::Yellow),
                    bg: Some(ThemeColor::Rgb(40, 42, 54)),
                    bold: false,
                }
                &&& t.border_color == ThemeColor::Rgb(98, 114, 164)
            } else {
                &&& t.bg_color == ThemeColor::Black
                &&& t.heading_style == TextStyle { fg: Some(ThemeColor::Cyan), bg: None, bold: true }
                &&& t.paragraph_style == TextStyle { fg: Some(ThemeColor::White), bg: None, bold: false }
                &&& t.list_style == yellow
                &&& t.code_style == TextStyle {
                    fg: Some(ThemeColor::Yellow),
                    bg: Some(ThemeColor::Black),
                    bold: false,
                }
                &&& t.border_color == ThemeColor::Blue
            }
        }),
{
}

/// For names written in ASCII, lowering the case again changes nothing, so
/// a name and its lower-case form select the same theme (see the contract
/// of [`ThemeStyles::new`]).
pub proof fn lemma_theme_ignores_case(name: Seq<char>)
    requires
        all_ascii(name),
    ensures
        all_ascii(ascii_lowercase(name)),
        ascii_lowercase(ascii_lowercase(name)) == ascii_lowercase(name),
        theme_by_lower_name(ascii_lowercase(ascii_lowercase(name))) == theme_by_lower_name(
            ascii_lowercase(name),
        ),
{
    let l = ascii_lowercase(name);
    assert forall|k: int| 0 <= k < l.len() implies (#[trigger] l[k]) < '\u{80}' by {
        assert(l[k] == ascii_lower(name[k]));
    }
    assert(ascii_lowercase(l) =~= l);
}

} // verus!
