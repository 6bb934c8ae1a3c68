//! The settings a presentation runs with.

use vstd::prelude::*;
use crate::error::PrismError;

verus! {

/// The command-line settings of a presentation.
#[derive(Debug, Clone, PartialEq)]
pub struct Config {
    /// The Markdown file to present.
    pub file_path: String,
    /// The theme name (`default`, `matrix` or `dracula`).
    pub theme: String,
    /// Whether the speaker panel is shown.
    pub presenter: bool,
}

/// What `Debug` writes for the path spelled `s`: the path in double quotes,
/// with quotes, backslashes and non-printable characters escaped.
pub uninterp spec fn path_debug_text(s: Seq<char>) -> Seq<char>;

/// The `Debug` rendering of the path spelled `s`, as
/// `format!("{:?}", Path::new(s))` writes it; the contract names the result
/// and says nothing more of it.
#[verifier::external_body]
fn path_debug(s: &str) -> (t: String)
    ensures
        t@ == path_debug_text(s@),
{
    format!("{:?}", std::path::Path::new(s))
}

/// The message for a Markdown file that cannot be found.
pub open spec fn missing_file_message(path: Seq<char>) -> Seq<char> {
    "指定的文件不存在或无法访问: "@ + path_debug_text(path)
}

impl Config {
    /// Checks parsed command-line settings: they are kept when the file they
    /// name exists, and refused with a configuration error otherwise.
    pub fn parse_args(parsed: Config, file_exists: bool) -> (r: Result<Config, PrismError>)
        ensures
            file_exists ==> r == Ok::<Config, PrismError>(parsed),
            !file_exists ==> (r matches Err(PrismError::ConfigError(m)) && m@
                == missing_file_message(parsed.file_path@)),
    {
        if !file_exists {
            let shown = path_debug(parsed.file_path.as_str());
            let mut m = "指定的文件不存在或无法访问: ".to_string();
            proof {
                broadcast use vstd::string::group_string_axioms;
            }
            m.append(shown.as_str());
            return Err(PrismError::ConfigError(m));
        }
        Ok(parsed)
    }
}

} // verus!
