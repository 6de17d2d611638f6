//! The error taxonomy and the text of each error.

use crate::parser::ParseDiagnostic;
use crate::text::{decimal, decimal_text};
use vstd::prelude::*;
use vstd::string::StringExecFns;

verus! {

/// What can go wrong between obtaining a source text and finishing its run.
#[derive(Debug, PartialEq, Eq)]
pub enum InterpreterError {
    /// The source text could not be read from the path held.
    SourcePathError(String),
    /// The source text is structurally faulty; the message says where.
    ParseCodeError(String),
    /// A cell would leave the range of a byte.
    MemoryOverflow,
    /// The data pointer would leave the tape.
    PointerOverflow,
    /// The input source failed; the message is its own.
    StdinError(String),
}

impl InterpreterError {
    /// The text of this error.
    pub open spec fn message_text(self) -> Seq<char> {
        match self {
            InterpreterError::SourcePathError(path) => "Error: Could not read source code from "@
                + path@,
            InterpreterError::ParseCodeError(what) => "Error: Could not interpret source code, "@
                + what@,
            InterpreterError::MemoryOverflow => "Error: Memory overflow"@,
            InterpreterError::PointerOverflow => "Error: Pointer overflow"@,
            InterpreterError::StdinError(what) => "Error: Could not read from stdin, "@ + what@,
        }
    }

    /// Renders this error for a reader.
    pub fn message(&self) -> (text: String)
        ensures
            text@ == self.message_text(),
    {
        match self {
            InterpreterError::SourcePathError(path) => {
                String::from_str("Error: Could not read source code from ").concat(path.as_str())
            },
            InterpreterError::ParseCodeError(what) => {
                String::from_str("Error: Could not interpret source code, ").concat(what.as_str())
            },
            InterpreterError::MemoryOverflow => String::from_str("Error: Memory overflow"),
            InterpreterError::PointerOverflow => String::from_str("Error: Pointer overflow"),
            InterpreterError::StdinError(what) => {
                String::from_str("Error: Could not read from stdin, ").concat(what.as_str())
            },
        }
    }
}

impl ParseDiagnostic {
    /// What this fault says, without the prefix that every error carries.
    pub open spec fn description_text(self) -> Seq<char> {
        match self {
            ParseDiagnostic::LoopEndWithoutStart(at) => "loop ending at #"@ + decimal(at as nat)
                + " has no start"@,
            ParseDiagnostic::LoopStartWithoutEnd(at) => "loop starting at #"@ + decimal(
                at as nat,
            ) + " has no end"@,
        }
    }

    /// Describes this fault.
    pub fn description(&self) -> (text: String)
        ensures
            text@ == self.description_text(),
    {
        match self {
            ParseDiagnostic::LoopEndWithoutStart(at) => {
                let number = decimal_text(*at);
                String::from_str("loop ending at #").concat(number.as_str()).concat(
                    " has no start",
                )
            },
            ParseDiagnostic::LoopStartWithoutEnd(at) => {
                let number = decimal_text(*at);
                String::from_str("loop starting at #").concat(number.as_str()).concat(
                    " has no end",
                )
            },
        }
    }

    /// This fault as an error.
    pub fn to_error(&self) -> (error: InterpreterError)
        ensures
            error matches InterpreterError::ParseCodeError(what) && what@
                == self.description_text(),
    {
        InterpreterError::ParseCodeError(self.description())
    }
}

} // verus!
