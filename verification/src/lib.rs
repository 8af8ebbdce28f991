//! Verified core of the file helper: the study-text page parser, the
//! extension rules of the converter and the extraction filters.

pub mod error;
pub mod parser;
pub mod text;
pub mod extensions;
pub mod pattern;
pub mod convert;
