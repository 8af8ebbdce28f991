//! Error types of the library.

use vstd::prelude::*;

use crate::text::{decimal, decimal_string};

verus! {

/// `std::io::Error`, carried through opaquely.
#[verifier::external_type_specification]
#[verifier::external_body]
pub struct ExIoError(std::io::Error);

/// `std::str::Utf8Error`, carried through opaquely.
#[verifier::external_type_specification]
#[verifier::external_body]
pub struct ExUtf8Error(std::str::Utf8Error);

/// Error type of the filesystem and extraction operations.
#[derive(Debug)]
pub enum ExtractionError {
    /// The target file could not be memory mapped.
    MmapFailed(std::io::Error),
    /// An I/O error occurred.
    IoError(std::io::Error),
    /// A source file held invalid UTF-8.
    Utf8Error(std::str::Utf8Error),
    /// An allowed-extension pattern did not compile.
    RegexError(regex::Error),
}

/// Error type of the conversion operations.
#[derive(Debug)]
pub enum ConversionError {
    /// An I/O error occurred.
    Io(std::io::Error),
    /// An outside converter failed; holds its message.
    ExternalCrate(String),
    /// Processing failed; holds the reason.
    ProcessError(String),
}

/// Error type of the `.study` text parser.
#[derive(Debug, PartialEq, Eq, Structural)]
pub enum ParseError {
    /// A line lacked a required prefix such as `T:`; holds the line number.
    MissingPrefix(usize),
    /// The text ended while a page was being read; holds the page number.
    UnexpectedEof(u32),
}

impl ParseError {
    /// The text of the message for the error.
    pub open spec fn spec_message(self) -> Seq<char> {
        match self {
            ParseError::MissingPrefix(line) => "missing required line prefix (e.g., 'T:') at line "@
                + decimal(line as nat),
            ParseError::UnexpectedEof(page) => "unexpected end of file while parsing page "@
                + decimal(page as nat),
        }
    }

    /// The message for the error.
    pub fn message(&self) -> (r: String)
        ensures
            r@ == self.spec_message(),
    {
        match self {
            ParseError::MissingPrefix(line) => {
                let mut r = String::from_str("missing required line prefix (e.g., 'T:') at line ");
                r.append(decimal_string(*line as u64).as_str());
                r
            },
            ParseError::UnexpectedEof(page) => {
                let mut r = String::from_str("unexpected end of file while parsing page ");
                r.append(decimal_string(*page as u64).as_str());
                r
            },
        }
    }
}

} // verus!
