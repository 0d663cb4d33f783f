//! Reading a whole description and saying what went wrong.

use vstd::prelude::*;
use vstd::string::StringExecFns;
use crate::data::DataSpec;
use crate::parser::nodes::{full_graph_spec, records_are, spec_full_graph_spec};

verus! {

/// Why a description could not be read.
#[derive(Debug, PartialEq, Eq, Clone)]
pub enum ParserError {
    /// Text is left over after the last record that could be read.
    NotAllParsed,
    /// The text could not be got at all; the reason as its source gave it.
    IoErr(String),
}

impl ParserError {
    /// What the error says.
    pub open spec fn spec_description(&self) -> Seq<char> {
        match self {
            ParserError::NotAllParsed => "parsing failed as not all input was parsed"@,
            ParserError::IoErr(_) => "parsing failed due to an I/O error"@,
        }
    }

    /// What the error says.
    pub fn description(&self) -> (text: String)
        ensures
            text@ == self.spec_description(),
    {
        match self {
            ParserError::NotAllParsed => String::from_str(
                "parsing failed as not all input was parsed",
            ),
            ParserError::IoErr(_) => String::from_str("parsing failed due to an I/O error"),
        }
    }

    /// The reason behind the error, where it has one.
    pub fn cause(&self) -> (reason: Option<String>)
        ensures
            match reason {
                Some(text) => self matches ParserError::IoErr(inner) && text@ == inner@,
                None => !(self is IoErr),
            },
    {
        match self {
            ParserError::IoErr(inner) => Some(inner.clone()),
            ParserError::NotAllParsed => None,
        }
    }
}

/// Reads a description: the records of the text, provided that the text
/// holds nothing but records and the separators between them.
pub fn read_to_specification(text: &[u8]) -> (read: Result<Vec<DataSpec>, ParserError>)
    ensures
        match read {
            Ok(records) => spec_full_graph_spec(text@).0 == text@.len() && records_are(
                records@,
                spec_full_graph_spec(text@).1,
            ),
            Err(error) => spec_full_graph_spec(text@).0 != text@.len() && error
                == ParserError::NotAllParsed,
        },
{
    let (rest, records) = full_graph_spec(text);
    if rest.len() > 0 {
        Err(ParserError::NotAllParsed)
    } else {
        Ok(records)
    }
}

} // verus!
