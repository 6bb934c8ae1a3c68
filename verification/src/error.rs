//! The error type of the presenter.

use vstd::prelude::*;

verus! {

#[verifier::external_type_specification]
#[verifier::external_body]
pub struct ExIoError(std::io::Error);

/// What can go wrong while presenting a slide deck.
#[derive(Debug)]
pub enum PrismError {
    /// The Markdown file could not be read.
    IoError(std::io::Error),
    /// The command-line arguments are unusable.
    ConfigError(String),
    /// The Markdown text holds no slide; `line` is 0 for an error about the
    /// whole file.
    ParseError { line: usize, message: String },
    /// Drawing on the terminal failed.
    TerminalError(String),
}


impl From<std::io::Error> for PrismError {
    fn from(err: std::io::Error) -> (e: Self) {
        PrismError::IoError(err)
    }
}

impl vstd::std_specs::convert::FromSpecImpl<std::io::Error> for PrismError {
    open spec fn obeys_from_spec() -> bool {
        true
    }

    open spec fn from_spec(v: std::io::Error) -> Self {
        PrismError::IoError(v)
    }
}

/// The text that `std::io::Error`'s `Display` impl writes for `e`.
///
/// Nothing is stated of it: an operating-system error reads as the system's
/// own message for its code, which depends on the machine.
#[verifier::external_body]
fn io_error_text(e: &std::io::Error) -> String {
    e.to_string()
}

impl PrismError {
    /// The message shown to the user for this error.
    pub fn to_message(&self) -> (m: String)
        ensures
            match self {
                PrismError::IoError(_) => exists|t: Seq<char>| m@ == "文件读取失败: "@ + t,
                PrismError::ConfigError(msg) => m@ == "配置参数有误: "@ + msg@,
                PrismError::ParseError { line: _, message } => m@ == "Markdown 解析异常: "@ + message@,
                PrismError::TerminalError(msg) => m@ == "终端渲染失败: "@ + msg@,
            },
    {
        match self {
            PrismError::IoError(e) => {
                let t = io_error_text(e);
                let mut m = "文件读取失败: ".to_string();
                proof {
                    broadcast use vstd::string::group_string_axioms;
                }
                m.append(t.as_str());
                m
            },
            PrismError::ConfigError(msg) => {
                let mut m = "配置参数有误: ".to_string();
                proof {
                    broadcast use vstd::string::group_string_axioms;
                }
                m.append(msg.as_str());
                m
            },
            PrismError::ParseError { line: _, message } => {
                let mut m = "Markdown 解析异常: ".to_string();
                proof {
                    broadcast use vstd::string::group_string_axioms;
                }
                m.append(message.as_str());
                m
            },
            PrismError::TerminalError(msg) => {
                let mut m = "终端渲染失败: ".to_string();
                proof {
                    broadcast use vstd::string::group_string_axioms;
                }
                m.append(msg.as_str());
                m
            },
        }
    }
}

} // verus!
