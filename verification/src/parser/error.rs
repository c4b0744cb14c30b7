use vstd::prelude::*;
use crate::text::{decimal_usize, spec_decimal};

verus! {

/// Why OpenQASM text could not be read.
#[derive(Debug)]
pub enum ParseError {
    UnexpectedToken { line: usize, message: String },
    UnknownGate(String),
    UndefinedRegister(String),
    IndexOutOfBounds { register: String, index: usize, size: usize },
    InvalidParameter(String),
    Other(String),
}

/// A parse error, with its texts as character sequences.
pub enum SpecParseError {
    UnexpectedToken { line: usize, message: Seq<char> },
    UnknownGate(Seq<char>),
    UndefinedRegister(Seq<char>),
    IndexOutOfBounds { register: Seq<char>, index: usize, size: usize },
    InvalidParameter(Seq<char>),
    Other(Seq<char>),
}

impl View for ParseError {
    type V = SpecParseError;

    open spec fn view(&self) -> SpecParseError {
        match self {
            ParseError::UnexpectedToken { line, message } => SpecParseError::UnexpectedToken { line: *line, message: message@ },
            ParseError::UnknownGate(s) => SpecParseError::UnknownGate(s@),
            ParseError::UndefinedRegister(s) => SpecParseError::UndefinedRegister(s@),
            ParseError::IndexOutOfBounds { register, index, size } => SpecParseError::IndexOutOfBounds {
                register: register@,
                index: *index,
                size: *size,
            },
            ParseError::InvalidParameter(s) => SpecParseError::InvalidParameter(s@),
            ParseError::Other(s) => SpecParseError::Other(s@),
        }
    }
}

/// The text that describes a parse error.
pub open spec fn error_text(e: SpecParseError) -> Seq<char> {
    match e {
        SpecParseError::UnexpectedToken { line, message } =>
            "unexpected token at line "@ + spec_decimal(line as int) + ": "@ + message,
        SpecParseError::UnknownGate(s) => "unknown gate: "@ + s,
        SpecParseError::UndefinedRegister(s) => "undefined register: "@ + s,
        SpecParseError::IndexOutOfBounds { register, index, size } =>
            "index out of bounds: "@ + register + "["@ + spec_decimal(index as int) + "] (size "@
                + spec_decimal(size as int) + ")"@,
        SpecParseError::InvalidParameter(s) => "invalid parameter: "@ + s,
        SpecParseError::Other(s) => s,
    }
}

impl ParseError {
    /// The text that describes this error.
    pub fn message(&self) -> (s: String)
        ensures
            s@ == error_text(self@),
    {
        match self {
            ParseError::UnexpectedToken { line, message } => {
                let mut s = String::from_str("unexpected token at line ");
                s.append(decimal_usize(*line).as_str());
                s.append(": ");
                s.append(message.as_str());
                s
            },
            ParseError::UnknownGate(n) => {
                let mut s = String::from_str("unknown gate: ");
                s.append(n.as_str());
                s
            },
            ParseError::UndefinedRegister(n) => {
                let mut s = String::from_str("undefined register: ");
                s.append(n.as_str());
                s
            },
            ParseError::IndexOutOfBounds { register, index, size } => {
                let mut s = String::from_str("index out of bounds: ");
                s.append(register.as_str());
                s.append("[");
                s.append(decimal_usize(*index).as_str());
                s.append("] (size ");
                s.append(decimal_usize(*size).as_str());
                s.append(")");
                s
            },
            ParseError::InvalidParameter(n) => {
                let mut s = String::from_str("invalid parameter: ");
                s.append(n.as_str());
                s
            },
            ParseError::Other(n) => n.clone(),
        }
    }
}

} // verus!
