//! The regular expressions that select which files an extraction copies.

use vstd::prelude::*;

use regex::Regex;

use crate::error::ExtractionError;

verus! {

/// `regex::Regex`, carried through opaquely.
#[verifier::external_type_specification]
#[verifier::external_body]
pub struct ExRegex(regex::Regex);

/// `regex::Error`, carried through opaquely.
#[verifier::external_type_specification]
#[verifier::external_body]
pub struct ExRegexError(regex::Error);

/// Whether `regex::Regex::new` accepts a pattern: it is valid syntax and its
/// compiled form stays within the default size limit.
pub uninterp spec fn regex_compiles(pattern: Seq<char>) -> bool;

/// Whether the regular expression `pattern` matches somewhere in `haystack`,
/// as `regex::Regex::is_match` decides it.
pub uninterp spec fn regex_finds_match(pattern: Seq<char>, haystack: Seq<char>) -> bool;

/// A compiled extraction pattern together with the text it was compiled from.
/// Only `compile_regex` builds one, so the two always belong together.
#[derive(Debug)]
pub struct ExtensionPattern {
    source: String,
    regex: Regex,
}

impl View for ExtensionPattern {
    type V = Seq<char>;

    /// The pattern text.
    closed spec fn view(&self) -> Seq<char> {
        self.source@
    }
}

/// Calls `regex::Regex::new` on `source`, which succeeds exactly on the
/// patterns that `regex_compiles` names; the compiled expression is kept with
/// a copy of `source`.
#[verifier::external_body]
fn compile_regex(source: &str) -> (r: Result<ExtensionPattern, regex::Error>)
    ensures
        r is Ok <==> regex_compiles(source@),
        r matches Ok(p) ==> p@ == source@,
{
    match Regex::new(source) {
        Ok(regex) => Ok(ExtensionPattern { source: source.to_string(), regex }),
        Err(e) => Err(e),
    }
}

/// Calls `regex::Regex::is_match` of the compiled pattern on `haystack`; the
/// result is what `regex_finds_match` names for the pattern text.
#[verifier::external_body]
fn regex_is_match(pattern: &ExtensionPattern, haystack: &str) -> (r: bool)
    ensures
        r == regex_finds_match(pattern@, haystack@),
{
    pattern.regex.is_match(haystack)
}

/// Compiles the allowed-extension patterns of an extraction, in order; fails
/// with the error of the first pattern that does not compile.
pub fn compile_extension_patterns(allowed_extensions: &[&str]) -> (r: Result<
    Vec<ExtensionPattern>,
    ExtractionError,
>)
    ensures
        r is Ok <==> forall|i: int|
            0 <= i < allowed_extensions@.len() ==> regex_compiles(
                #[trigger] allowed_extensions@[i]@,
            ),
        r matches Ok(ps) ==> ps@.len() == allowed_extensions@.len() && forall|i: int|
            0 <= i < ps@.len() ==> #[trigger] ps@[i]@ == allowed_extensions@[i]@,
        r matches Err(e) ==> e is RegexError && exists|i: int|
            0 <= i < allowed_extensions@.len() && !regex_compiles(
                #[trigger] allowed_extensions@[i]@,
            ) && forall|j: int| 0 <= j < i ==> regex_compiles(#[trigger] allowed_extensions@[j]@),
{
    let mut compiled: Vec<ExtensionPattern> = Vec::new();
    let mut i: usize = 0;
    while i < allowed_extensions.len()
        invariant
            i <= allowed_extensions@.len(),
            compiled@.len() == i,
            forall|j: int| 0 <= j < i ==> regex_compiles(#[trigger] allowed_extensions@[j]@),
            forall|j: int| 0 <= j < i ==> #[trigger] compiled@[j]@ == allowed_extensions@[j]@,
        decreases allowed_extensions.len() - i,
    {
        match compile_regex(allowed_extensions[i]) {
            Ok(p) => compiled.push(p),
            Err(e) => {
                assert(!regex_compiles(allowed_extensions@[i as int]@));
                return Err(ExtractionError::RegexError(e));
            },
        }
        i = i + 1;
    }
    Ok(compiled)
}

/// Whether any of the patterns matches the file name: the files an
/// extraction copies.
pub fn matches_any_pattern(patterns: &[ExtensionPattern], file_name: &str) -> (r: bool)
    ensures
        r == exists|i: int|
            0 <= i < patterns@.len() && regex_finds_match(#[trigger] patterns@[i]@, file_name@),
{
    let mut i: usize = 0;
    while i < patterns.len()
        invariant
            i <= patterns@.len(),
            forall|j: int| 0 <= j < i ==> !regex_finds_match(#[trigger] patterns@[j]@, file_name@),
        decreases patterns.len() - i,
    {
        if regex_is_match(&patterns[i], file_name) {
            return true;
        }
        i = i + 1;
    }
    false
}

} // verus!
