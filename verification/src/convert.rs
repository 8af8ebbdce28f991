//! The decisions of a batch conversion: which converter handles a file, whether
//! a file is skipped, copied or converted, how converted files are named, and
//! the messages of failures.

use vstd::prelude::*;

use crate::extensions::{docx, is_image_format, is_literal_text, md, odt, pdf, pptx, text_eq, txt};
use crate::text::{decimal, decimal_value, decimal_string, lemma_decimal_digits, lemma_decimal_injective};

verus! {

/// The converter that a batch conversion hands a file to.
#[derive(Debug, Clone, Copy, PartialEq, Eq, Structural)]
pub enum Route {
    /// Markdown rendered to PDF.
    MarkdownToPdf,
    /// Office document rendered to PDF.
    OfficeToPdf,
    /// Text extracted from a PDF.
    PdfToText,
    /// Text extracted from a Word document.
    DocxToText,
    /// Text extracted from an OpenDocument text.
    OdtToText,
    /// Text extracted from a PowerPoint presentation.
    PptxToText,
    /// Text requested from a format it cannot be extracted from.
    UnsupportedTextSource,
    /// Image decoded and encoded in the target image format.
    Image,
    /// A target format that no converter produces.
    UnsupportedTarget,
}

/// The converter for a target format and a (lowercase) source extension.
pub open spec fn route_for(target: Seq<char>, source_ext: Seq<char>) -> Route {
    if target == pdf() {
        if source_ext == md() {
            Route::MarkdownToPdf
        } else {
            Route::OfficeToPdf
        }
    } else if target == txt() {
        if source_ext == pdf() {
            Route::PdfToText
        } else if source_ext == docx() {
            Route::DocxToText
        } else if source_ext == odt() {
            Route::OdtToText
        } else if source_ext == pptx() {
            Route::PptxToText
        } else {
            Route::UnsupportedTextSource
        }
    } else if is_image_format(target) {
        Route::Image
    } else {
        Route::UnsupportedTarget
    }
}

/// Chooses the converter for a file with (lowercase) extension `source_ext`
/// and the target format, which is matched as given.
pub fn conversion_route(target_format: &str, source_ext: &str) -> (r: Route)
    ensures
        r == route_for(target_format@, source_ext@),
{
    if is_literal_text(target_format, "pdf") {
        if is_literal_text(source_ext, "md") {
            Route::MarkdownToPdf
        } else {
            Route::OfficeToPdf
        }
    } else if is_literal_text(target_format, "txt") {
        if is_literal_text(source_ext, "pdf") {
            Route::PdfToText
        } else if is_literal_text(source_ext, "docx") {
            Route::DocxToText
        } else if is_literal_text(source_ext, "odt") {
            Route::OdtToText
        } else if is_literal_text(source_ext, "pptx") {
            Route::PptxToText
        } else {
            Route::UnsupportedTextSource
        }
    } else if is_literal_text(target_format, "png") || is_literal_text(target_format, "jpg")
        || is_literal_text(target_format, "jpeg") || is_literal_text(target_format, "webp") {
        Route::Image
    } else {
        Route::UnsupportedTarget
    }
}

/// The converters, by target format as given and lowercase source extension:
/// to `pdf`, Markdown is rendered and everything else goes to the office
/// converter; to `txt`, text is extracted from PDF, Word, OpenDocument text and
/// PowerPoint files and from nothing else; every image target (`png`, `jpg`,
/// `jpeg`, `webp`) goes to the image converter, whatever the source; any other
/// target has no converter.
pub proof fn law_conversion_routes(target: Seq<char>, source_ext: Seq<char>)
    ensures
        target == seq!['p', 'd', 'f'] ==> route_for(target, source_ext) == if source_ext
            == seq!['m', 'd'] {
            Route::MarkdownToPdf
        } else {
            Route::OfficeToPdf
        },
        target == seq!['t', 'x', 't'] ==> route_for(target, source_ext) == if source_ext
            == seq!['p', 'd', 'f'] {
            Route::PdfToText
        } else if source_ext == seq!['d', 'o', 'c', 'x'] {
            Route::DocxToText
        } else if source_ext == seq!['o', 'd', 't'] {
            Route::OdtToText
        } else if source_ext == seq!['p', 'p', 't', 'x'] {
            Route::PptxToText
        } else {
            Route::UnsupportedTextSource
        },
        target == seq!['p', 'n', 'g'] || target == seq!['j', 'p', 'g'] || target == seq![
            'j',
            'p',
            'e',
            'g',
        ] || target == seq!['w', 'e', 'b', 'p'] ==> route_for(target, source_ext) == Route::Image,
        target != seq!['p', 'd', 'f'] && target != seq!['t', 'x', 't'] && target != seq![
            'p',
            'n',
            'g',
        ] && target != seq!['j', 'p', 'g'] && target != seq!['j', 'p', 'e', 'g'] && target
            != seq!['w', 'e', 'b', 'p'] ==> route_for(target, source_ext) == Route::UnsupportedTarget,
{
}

/// What a batch conversion does with one file.
#[derive(Debug, Clone, Copy, PartialEq, Eq, Structural)]
pub enum FileAction {
    /// Leave the file alone.
    Skip,
    /// Copy the file to the default target path.
    Copy,
    /// Convert the file with `route`; to a fresh `converted_from_...` name when
    /// `fresh_name` holds, else to the default target path.
    Convert { route: Route, fresh_name: bool },
}

/// The action for a file with (lowercase) extension `source_ext`, given
/// whether duplicates are removed and whether the default target path (the
/// file's stem with the target extension, in the target folder) exists.
///
/// A file already in the target format is copied, unless duplicates are
/// removed and the target exists. Any other file is converted: to the default
/// path when duplicates are removed (and skipped if that path exists), else to
/// a fresh name.
pub open spec fn plan_for(
    source_ext: Seq<char>,
    target: Seq<char>,
    remove_duplicates: bool,
    default_target_exists: bool,
) -> FileAction {
    if source_ext == target {
        if remove_duplicates && default_target_exists {
            FileAction::Skip
        } else {
            FileAction::Copy
        }
    } else if remove_duplicates {
        if default_target_exists {
            FileAction::Skip
        } else {
            FileAction::Convert { route: route_for(target, source_ext), fresh_name: false }
        }
    } else {
        FileAction::Convert { route: route_for(target, source_ext), fresh_name: true }
    }
}

/// Decides what to do with one file of a batch conversion.
pub fn plan_file(
    source_ext: &str,
    target_format: &str,
    remove_duplicates: bool,
    default_target_exists: bool,
) -> (r: FileAction)
    ensures
        r == plan_for(source_ext@, target_format@, remove_duplicates, default_target_exists),
{
    if text_eq(source_ext, target_format) {
        if remove_duplicates && default_target_exists {
            FileAction::Skip
        } else {
            FileAction::Copy
        }
    } else if remove_duplicates {
        if default_target_exists {
            FileAction::Skip
        } else {
            FileAction::Convert {
                route: conversion_route(target_format, source_ext),
                fresh_name: false,
            }
        }
    } else {
        FileAction::Convert { route: conversion_route(target_format, source_ext), fresh_name: true }
    }
}

/// The plan for a file, in full: a file already in the target format is
/// copied unless duplicates are removed and its default target exists, in
/// which case it is skipped; any other file is skipped when duplicates are
/// removed and its default target exists, converted to its default target when
/// duplicates are removed and it does not exist, and converted to a fresh name
/// when duplicates are kept; a conversion uses the route for the target and
/// the source extension.
pub proof fn law_plan_table(
    source_ext: Seq<char>,
    target: Seq<char>,
    remove_duplicates: bool,
    default_target_exists: bool,
)
    ensures
        source_ext == target && !(remove_duplicates && default_target_exists) ==> plan_for(
            source_ext,
            target,
            remove_duplicates,
            default_target_exists,
        ) == FileAction::Copy,
        remove_duplicates && default_target_exists ==> plan_for(
            source_ext,
            target,
            remove_duplicates,
            default_target_exists,
        ) == FileAction::Skip,
        source_ext != target && remove_duplicates && !default_target_exists ==> plan_for(
            source_ext,
            target,
            remove_duplicates,
            default_target_exists,
        ) == (FileAction::Convert { route: route_for(target, source_ext), fresh_name: false }),
        source_ext != target && !remove_duplicates ==> plan_for(
            source_ext,
            target,
            remove_duplicates,
            default_target_exists,
        ) == (FileAction::Convert { route: route_for(target, source_ext), fresh_name: true }),
{
}

/// When duplicates are removed, a file whose default target exists is never
/// written: it is skipped.
pub proof fn law_remove_duplicates_skips_existing(source_ext: Seq<char>, target: Seq<char>)
    ensures
        plan_for(source_ext, target, true, true) == FileAction::Skip,
{
}

/// When duplicates are kept, every file is copied or converted; a conversion
/// then goes to a fresh name, never over an existing file.
pub proof fn law_keep_duplicates_never_skips(
    source_ext: Seq<char>,
    target: Seq<char>,
    default_target_exists: bool,
)
    ensures
        plan_for(source_ext, target, false, default_target_exists) != FileAction::Skip,
        plan_for(source_ext, target, false, default_target_exists) matches FileAction::Convert {
            fresh_name,
            ..
        } ==> fresh_name,
{
}

/// The file stem of the `attempt`-th candidate name of a converted file:
/// `converted_from_{ext}_{stem}`, then `converted_from_{ext}_{stem}_{attempt}`.
pub open spec fn converted_stem_text(source_ext: Seq<char>, stem: Seq<char>, attempt: nat) -> Seq<
    char,
> {
    let base = seq!['c', 'o', 'n', 'v', 'e', 'r', 't', 'e', 'd', '_', 'f', 'r', 'o', 'm', '_']
        + source_ext + seq!['_'] + stem;
    if attempt == 0 {
        base
    } else {
        base + seq!['_'] + decimal(attempt)
    }
}

/// A candidate stem holds the whole source extension and file stem: it is
/// `converted_from_`, the extension, `_` and the stem, and for a later attempt
/// `_` and the attempt number in decimal digits follow.
pub proof fn law_candidate_stem_shape(source_ext: Seq<char>, stem: Seq<char>, attempt: nat)
    ensures
        ({
            let base = seq![
                'c',
                'o',
                'n',
                'v',
                'e',
                'r',
                't',
                'e',
                'd',
                '_',
                'f',
                'r',
                'o',
                'm',
                '_',
            ] + source_ext + seq!['_'] + stem;
            let name = converted_stem_text(source_ext, stem, attempt);
            &&& base.len() == 16 + source_ext.len() + stem.len()
            &&& name.subrange(0, base.len() as int) == base
            &&& attempt == 0 ==> name == base
            &&& attempt > 0 ==> name.len() > base.len() + 1 && name[base.len() as int] == '_'
                && decimal_value(name.subrange(base.len() + 1int, name.len() as int)) == attempt
        }),
{
    let base = seq!['c', 'o', 'n', 'v', 'e', 'r', 't', 'e', 'd', '_', 'f', 'r', 'o', 'm', '_']
        + source_ext + seq!['_'] + stem;
    let name = converted_stem_text(source_ext, stem, attempt);
    assert(name.subrange(0, base.len() as int) =~= base);
    if attempt > 0 {
        crate::text::lemma_decimal_len(attempt);
        crate::text::lemma_decimal_value(attempt);
        assert(name.subrange(base.len() + 1int, name.len() as int) =~= decimal(attempt));
    }
}

/// Builds the `attempt`-th candidate stem for a converted file.
pub fn converted_stem(source_ext: &str, stem: &str, attempt: u32) -> (r: String)
    ensures
        r@ == converted_stem_text(source_ext@, stem@, attempt as nat),
{
    let mut r = String::from_str("converted_from_");
    r.append(source_ext);
    r.append("_");
    r.append(stem);
    if attempt > 0 {
        r.append("_");
        r.append(decimal_string(attempt as u64).as_str());
    }
    proof {
        reveal_strlit("converted_from_");
        reveal_strlit("_");
    }
    assert(r@ =~= converted_stem_text(source_ext@, stem@, attempt as nat));
    r
}

/// Different attempts give different candidate stems.
pub proof fn law_candidate_stems_distinct(source_ext: Seq<char>, stem: Seq<char>, a: nat, b: nat)
    requires
        a != b,
    ensures
        converted_stem_text(source_ext, stem, a) != converted_stem_text(source_ext, stem, b),
{
    let base = converted_stem_text(source_ext, stem, 0);
    crate::text::lemma_decimal_len(a);
    crate::text::lemma_decimal_len(b);
    if a != 0 && b != 0 {
        let na = converted_stem_text(source_ext, stem, a);
        let nb = converted_stem_text(source_ext, stem, b);
        if na == nb {
            assert(na.skip(base.len() + 1int) =~= decimal(a));
            assert(nb.skip(base.len() + 1int) =~= decimal(b));
            lemma_decimal_injective(a, b);
        }
    }
}

/// The index of the last `.` of `name` before index `i`, or -1.
pub open spec fn last_dot_before(name: Seq<char>, i: int) -> int
    decreases i,
{
    if i <= 0 {
        -1
    } else if name[i - 1] == '.' {
        i - 1
    } else {
        last_dot_before(name, i - 1)
    }
}

proof fn lemma_last_dot_before(name: Seq<char>, i: int)
    requires
        0 <= i <= name.len(),
    ensures
        -1 <= last_dot_before(name, i) < i,
        last_dot_before(name, i) >= 0 ==> name[last_dot_before(name, i)] == '.',
        (forall|j: int| 0 <= j < i ==> name[j] != '.') ==> last_dot_before(name, i) == -1,
    decreases i,
{
    if i > 0 && name[i - 1] != '.' {
        lemma_last_dot_before(name, i - 1);
    }
}

/// A file name with its extension set, as `Path::with_extension` sets it on a
/// path whose last component is `name`: what follows the last dot of `name`
/// (unless that dot starts the name) is its extension, which is replaced by
/// `ext`, or dropped with its dot when `ext` is empty.
pub open spec fn with_extension_text(name: Seq<char>, ext: Seq<char>) -> Seq<char> {
    let k = last_dot_before(name, name.len() as int);
    let base = if k > 0 {
        name.subrange(0, k)
    } else {
        name
    };
    base + if ext.len() == 0 {
        Seq::<char>::empty()
    } else {
        seq!['.'] + ext
    }
}

/// Setting an extension keeps the name up to its last dot (all of it when it
/// has no dot, or only a leading one) and adds a dot and the extension, unless
/// the extension is empty.
pub proof fn law_set_extension(name: Seq<char>, ext: Seq<char>, k: int)
    ensures
        (forall|j: int| 0 <= j < name.len() ==> name[j] != '.') ==> with_extension_text(name, ext)
            == name + if ext.len() == 0 {
            Seq::<char>::empty()
        } else {
            seq!['.'] + ext
        },
        0 < k < name.len() && name[k] == '.' && (forall|j: int| k < j < name.len() ==> name[j]
            != '.') ==> with_extension_text(name, ext) == name.take(k) + if ext.len() == 0 {
            Seq::<char>::empty()
        } else {
            seq!['.'] + ext
        },
{
    lemma_last_dot_before(name, name.len() as int);
    if 0 < k < name.len() && name[k] == '.' && (forall|j: int|
        k < j < name.len() ==> name[j] != '.') {
        lemma_last_dot_at(name, name.len() as int, k);
    }
}

proof fn lemma_last_dot_at(name: Seq<char>, i: int, k: int)
    requires
        0 <= k < i <= name.len(),
        name[k] == '.',
        forall|j: int| k < j < i ==> name[j] != '.',
    ensures
        last_dot_before(name, i) == k,
    decreases i,
{
    if i - 1 > k {
        lemma_last_dot_at(name, i - 1, k);
    }
}

/// Sets the extension of a file name, as `with_extension_text` describes.
pub fn set_extension(name: &str, ext: &str) -> (r: String)
    ensures
        r@ == with_extension_text(name@, ext@),
{
    let chars = crate::text::chars_of(name);
    let mut k: usize = chars.len();
    while k > 0 && chars[k - 1] != '.'
        invariant
            chars@ == name@,
            k <= chars@.len(),
            last_dot_before(name@, k as int) == last_dot_before(name@, name@.len() as int),
        decreases k,
    {
        k = k - 1;
    }
    proof {
        lemma_last_dot_before(name@, name@.len() as int);
    }
    let mut r = if k > 1 {
        String::from_str(name.substring_char(0, k - 1))
    } else {
        String::from_str(name)
    };
    if !ext.is_empty() {
        r.append(".");
        r.append(ext);
    }
    proof {
        reveal_strlit(".");
    }
    assert(r@ =~= with_extension_text(name@, ext@));
    r
}

/// The `attempt`-th candidate file name of a converted file: the candidate
/// stem with its extension set to the target format, as
/// `target_dir.join(stem).with_extension(target)` names it. A stem or source
/// extension with a dot loses what follows its last dot.
pub open spec fn converted_file_name_text(
    source_ext: Seq<char>,
    stem: Seq<char>,
    target: Seq<char>,
    attempt: nat,
) -> Seq<char> {
    with_extension_text(converted_stem_text(source_ext, stem, attempt), target)
}

/// Builds the `attempt`-th candidate file name for a converted file.
pub fn converted_file_name(source_ext: &str, stem: &str, target_format: &str, attempt: u32) -> (r:
    String)
    ensures
        r@ == converted_file_name_text(source_ext@, stem@, target_format@, attempt as nat),
{
    let candidate = converted_stem(source_ext, stem, attempt);
    set_extension(candidate.as_str(), target_format)
}

/// For a stem and a source extension without dots, different attempts give
/// different candidate file names, so probing for a free name never tries the
/// same name twice and ends once it passes the names that exist.
pub proof fn law_candidate_names_distinct(
    source_ext: Seq<char>,
    stem: Seq<char>,
    target: Seq<char>,
    a: nat,
    b: nat,
)
    requires
        a != b,
        !source_ext.contains('.'),
        !stem.contains('.'),
    ensures
        converted_file_name_text(source_ext, stem, target, a) != converted_file_name_text(
            source_ext,
            stem,
            target,
            b,
        ),
{
    let sa = converted_stem_text(source_ext, stem, a);
    let sb = converted_stem_text(source_ext, stem, b);
    law_candidate_stems_distinct(source_ext, stem, a, b);
    lemma_stem_has_no_dot(source_ext, stem, a);
    lemma_stem_has_no_dot(source_ext, stem, b);
    lemma_last_dot_before(sa, sa.len() as int);
    lemma_last_dot_before(sb, sb.len() as int);
    let na = converted_file_name_text(source_ext, stem, target, a);
    let nb = converted_file_name_text(source_ext, stem, target, b);
    let sfx = if target.len() == 0 {
        Seq::<char>::empty()
    } else {
        seq!['.'] + target
    };
    assert(na == sa + sfx);
    assert(nb == sb + sfx);
    if na == nb {
        assert(na.len() == sa.len() + sfx.len());
        assert(sa.len() == sb.len());
        assert(na.subrange(0, sa.len() as int) =~= sa);
        assert(nb.subrange(0, sb.len() as int) =~= sb);
    }
}

proof fn lemma_stem_has_no_dot(source_ext: Seq<char>, stem: Seq<char>, attempt: nat)
    requires
        !source_ext.contains('.'),
        !stem.contains('.'),
    ensures
        forall|j: int|
            0 <= j < converted_stem_text(source_ext, stem, attempt).len() ==> #[trigger] converted_stem_text(
                source_ext,
                stem,
                attempt,
            )[j] != '.',
{
    let prefix = seq!['c', 'o', 'n', 'v', 'e', 'r', 't', 'e', 'd', '_', 'f', 'r', 'o', 'm', '_'];
    let base = prefix + source_ext + seq!['_'] + stem;
    assert forall|j: int| 0 <= j < base.len() implies #[trigger] base[j] != '.' by {
        if j >= prefix.len() && j < prefix.len() + source_ext.len() {
            assert(base[j] == source_ext[j - prefix.len()]);
        } else if j > prefix.len() + source_ext.len() {
            assert(base[j] == stem[j - prefix.len() - source_ext.len() - 1]);
        }
    }
    if attempt > 0 {
        let d = decimal(attempt);
        lemma_decimal_digits(attempt);
        let full = base + seq!['_'] + d;
        assert forall|j: int| 0 <= j < full.len() implies #[trigger] full[j] != '.' by {
            if j < base.len() {
                assert(full[j] == base[j]);
            } else if j > base.len() {
                assert(full[j] == d[j - base.len() - 1]);
            }
        }
    }
}

/// The text of a failure entry of the conversion log.
pub open spec fn failure_text(file_name: Seq<char>, detail: Seq<char>) -> Seq<char> {
    seq!['F', 'a', 'i', 'l', 'e', 'd', ' ', '['] + file_name + seq![']', ':', ' '] + detail
}

/// A failure entry names the file in brackets after `Failed ` and ends with
/// the detail, whole.
pub proof fn law_failure_text(file_name: Seq<char>, detail: Seq<char>)
    ensures
        ({
            let m = failure_text(file_name, detail);
            &&& m.len() == file_name.len() + detail.len() + 11
            &&& m.take(8) == seq!['F', 'a', 'i', 'l', 'e', 'd', ' ', '[']
            &&& m.subrange(8, 8 + file_name.len() as int) == file_name
            &&& m.subrange(8 + file_name.len() as int, 11 + file_name.len() as int) == seq![']', ':', ' ']
            &&& m.skip(11 + file_name.len() as int) == detail
        }),
{
    let m = failure_text(file_name, detail);
    assert(m.take(8) =~= seq!['F', 'a', 'i', 'l', 'e', 'd', ' ', '[']);
    assert(m.subrange(8, 8 + file_name.len() as int) =~= file_name);
    assert(m.subrange(8 + file_name.len() as int, 11 + file_name.len() as int) =~= seq![']', ':', ' ']);
    assert(m.skip(11 + file_name.len() as int) =~= detail);
}

/// Builds the log entry `Failed [{file_name}]: {detail}`.
pub fn failure_message(file_name: &str, detail: &str) -> (r: String)
    ensures
        r@ == failure_text(file_name@, detail@),
{
    let mut r = String::from_str("Failed [");
    r.append(file_name);
    r.append("]: ");
    r.append(detail);
    proof {
        reveal_strlit("Failed [");
        reveal_strlit("]: ");
    }
    assert(r@ =~= failure_text(file_name@, detail@));
    r
}

/// Builds the log entry `Failed to collect paths from [{input}]: {error}`.
pub fn collect_failure_message(input: &str, error: &str) -> (r: String)
    ensures
        r@ == "Failed to collect paths from ["@ + input@ + "]: "@ + error@,
{
    let mut r = String::from_str("Failed to collect paths from [");
    r.append(input);
    r.append("]: ");
    r.append(error);
    r
}

impl Route {
    /// The failure detail of a route that has no converter, if any.
    pub open spec fn spec_unsupported_reason(self) -> Option<Seq<char>> {
        match self {
            Route::UnsupportedTextSource => Some("Unsupported txt extraction source"@),
            Route::UnsupportedTarget => Some("Unsupported target format"@),
            _ => None,
        }
    }

    /// The failure detail of a route that has no converter, if any.
    pub fn unsupported_reason(&self) -> (r: Option<String>)
        ensures
            r matches Some(t) ==> self.spec_unsupported_reason() == Some(t@),
            r is None <==> self.spec_unsupported_reason() is None,
    {
        match self {
            Route::UnsupportedTextSource => Some(
                String::from_str("Unsupported txt extraction source"),
            ),
            Route::UnsupportedTarget => Some(String::from_str("Unsupported target format")),
            _ => None,
        }
    }
}

/// How one selected file of a batch conversion ended.
pub enum FileOutcome {
    /// The file was converted or copied.
    Converted,
    /// The file was left alone.
    Skipped,
    /// The conversion failed; holds the log entry.
    Failed(String),
}

/// The counts of a tally; never more files are processed than were selected.
struct TallyCounts {
    total: usize,
    converted: usize,
    skipped: usize,
    failed: usize,
}

impl TallyCounts {
    #[verifier::type_invariant]
    spec fn within_total(self) -> bool {
        self.converted + self.skipped + self.failed <= self.total
    }
}

/// The running tally of a batch conversion over `total` selected files.
pub struct BatchTally {
    counts: TallyCounts,
    log: Vec<String>,
}

/// The value of a tally: how many files there are, how many were processed,
/// and how each of these ended, with the failure log.
///
/// Every tally accounts for each processed file exactly once
/// (`accounts_for_every_file`): after one `record` per selected file, the
/// converted, skipped and failed files add up to the selected ones.
pub struct TallyView {
    pub total: nat,
    pub processed: nat,
    pub converted: nat,
    pub skipped: nat,
    pub failed: nat,
    pub log: Seq<Seq<char>>,
}

/// Converted, skipped and failed files add up to the processed ones, which
/// never exceed the selected ones.
pub open spec fn accounts_for_every_file(v: TallyView) -> bool {
    &&& v.converted + v.skipped + v.failed == v.processed
    &&& v.processed <= v.total
}

impl View for BatchTally {
    type V = TallyView;

    closed spec fn view(&self) -> TallyView {
        TallyView {
            total: self.counts.total as nat,
            processed: (self.counts.converted + self.counts.skipped + self.counts.failed) as nat,
            converted: self.counts.converted as nat,
            skipped: self.counts.skipped as nat,
            failed: self.counts.failed as nat,
            log: self.log@.map_values(|t: String| t@),
        }
    }
}

impl BatchTally {
    /// A tally of `total` selected files, none processed yet.
    pub fn new(total: usize) -> (t: Self)
        ensures
            t@ == (TallyView {
                total: total as nat,
                processed: 0,
                converted: 0,
                skipped: 0,
                failed: 0,
                log: Seq::empty(),
            }),
            accounts_for_every_file(t@),
    {
        let t = BatchTally {
            counts: TallyCounts { total, converted: 0, skipped: 0, failed: 0 },
            log: Vec::new(),
        };
        assert(t@.log =~= Seq::<Seq<char>>::empty());
        t
    }

    /// Whether every selected file has been processed.
    pub fn is_complete(&self) -> (r: bool)
        ensures
            r == (self@.processed == self@.total),
    {
        proof {
            use_type_invariant(&self.counts);
        }
        self.counts.converted + self.counts.skipped + self.counts.failed == self.counts.total
    }

    /// Records how one more file ended: its count grows by one, and a failure
    /// adds its entry to the log.
    pub fn record(&mut self, outcome: FileOutcome)
        requires
            old(self)@.processed < old(self)@.total,
        ensures
            accounts_for_every_file(final(self)@),
            final(self)@.total == old(self)@.total,
            final(self)@.processed == old(self)@.processed + 1,
            final(self)@.converted == old(self)@.converted + if outcome is Converted {
                1nat
            } else {
                0nat
            },
            final(self)@.skipped == old(self)@.skipped + if outcome is Skipped {
                1nat
            } else {
                0nat
            },
            final(self)@.failed == old(self)@.failed + if outcome is Failed {
                1nat
            } else {
                0nat
            },
            final(self)@.log == match outcome {
                FileOutcome::Failed(entry) => old(self)@.log.push(entry@),
                _ => old(self)@.log,
            },
    {
        proof {
            use_type_invariant(&self.counts);
        }
        let ghost old_log = self@.log;
        match outcome {
            FileOutcome::Converted => {
                self.counts.converted = self.counts.converted + 1;
            },
            FileOutcome::Skipped => {
                self.counts.skipped = self.counts.skipped + 1;
            },
            FileOutcome::Failed(entry) => {
                self.log.push(entry);
                self.counts.failed = self.counts.failed + 1;
            },
        }
        assert(self@.log =~= match outcome {
            FileOutcome::Failed(entry) => old_log.push(entry@),
            _ => old_log,
        });
    }

    /// Adds a log entry that belongs to no single file (a folder that could not
    /// be read); the counts stay.
    pub fn record_collect_failure(&mut self, entry: String)
        ensures
            accounts_for_every_file(final(self)@),
            final(self)@.total == old(self)@.total,
            final(self)@.processed == old(self)@.processed,
            final(self)@.converted == old(self)@.converted,
            final(self)@.skipped == old(self)@.skipped,
            final(self)@.failed == old(self)@.failed,
            final(self)@.log == old(self)@.log.push(entry@),
    {
        proof {
            use_type_invariant(&self.counts);
        }
        let ghost old_log = self@.log;
        self.log.push(entry);
        assert(self@.log =~= old_log.push(entry@));
    }

    /// The result of the batch: the number of converted files and the log.
    pub fn finish(self) -> (r: (usize, Vec<String>))
        ensures
            r.0 == self@.converted,
            r.1@.map_values(|t: String| t@) == self@.log,
    {
        (self.counts.converted, self.log)
    }
}

} // verus!
