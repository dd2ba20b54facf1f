//! Errors.
use crate::text::{append_str, chars_of, string_of};
use vstd::prelude::*;

verus! {

/// Why a request could not be served.
#[derive(Debug)]
pub enum ToolCallError {
    /// The text of a pythonic call is no Python expression; the Python parser says
    /// why.
    PythonSyntax(String),
    /// The text of a pythonic call is longer than the Python parser takes.
    PythonSourceTooLong,
    /// No stream parser has the given family name.
    UnknownFamily(String),
    /// The named tool is not among the tools.
    UnknownTool(String),
}

impl ToolCallError {
    /// The error in words.
    pub open spec fn words(self) -> Seq<char> {
        match self {
            ToolCallError::PythonSyntax(reason) => reason@,
            ToolCallError::PythonSourceTooLong => "the calls are too long to be parsed"@,
            ToolCallError::UnknownFamily(name) => "no Dynamo parser v2 for family '"@ + name@
                + "'"@,
            ToolCallError::UnknownTool(name) => "no tool is named '"@ + name@ + "'"@,
        }
    }

    /// The error in words.
    pub fn message(&self) -> (text: String)
        ensures
            text@ == self.words(),
    {
        match self {
            ToolCallError::PythonSyntax(reason) => reason.as_str().to_owned(),
            ToolCallError::PythonSourceTooLong => "the calls are too long to be parsed".to_owned(),
            ToolCallError::UnknownFamily(name) => quoting(
                "no Dynamo parser v2 for family '",
                name.as_str(),
            ),
            ToolCallError::UnknownTool(name) => quoting("no tool is named '", name.as_str()),
        }
    }
}

/// A beginning that ends with an open quote, a name, and the closing quote.
fn quoting(start: &str, name: &str) -> (text: String)
    ensures
        text@ == start@ + name@ + "'"@,
{
    let mut text = chars_of(start);
    append_str(&mut text, name);
    append_str(&mut text, "'");
    string_of(text.as_slice())
}

} // verus!
