use file_help::convert::{
    collect_failure_message, conversion_route, converted_file_name, converted_stem,
    failure_message, plan_file, set_extension, BatchTally, FileAction, FileOutcome, Route,
};
use std::path::Path;
use file_help::text::decimal_string;

#[test]
fn routes() {
    assert_eq!(conversion_route("pdf", "md"), Route::MarkdownToPdf);
    assert_eq!(conversion_route("pdf", "docx"), Route::OfficeToPdf);
    assert_eq!(conversion_route("txt", "pdf"), Route::PdfToText);
    assert_eq!(conversion_route("txt", "docx"), Route::DocxToText);
    assert_eq!(conversion_route("txt", "odt"), Route::OdtToText);
    assert_eq!(conversion_route("txt", "pptx"), Route::PptxToText);
    assert_eq!(conversion_route("txt", "xlsx"), Route::UnsupportedTextSource);
    assert_eq!(conversion_route("webp", "png"), Route::Image);
    assert_eq!(conversion_route("PDF", "md"), Route::UnsupportedTarget);
    assert_eq!(conversion_route("mp3", "wav"), Route::UnsupportedTarget);
}

#[test]
fn plans() {
    assert_eq!(plan_file("pdf", "pdf", true, true), FileAction::Skip);
    assert_eq!(plan_file("pdf", "pdf", true, false), FileAction::Copy);
    assert_eq!(plan_file("pdf", "pdf", false, true), FileAction::Copy);
    assert_eq!(plan_file("docx", "pdf", true, true), FileAction::Skip);
    assert_eq!(
        plan_file("docx", "pdf", true, false),
        FileAction::Convert { route: Route::OfficeToPdf, fresh_name: false }
    );
    assert_eq!(
        plan_file("md", "pdf", false, true),
        FileAction::Convert { route: Route::MarkdownToPdf, fresh_name: true }
    );
}

#[test]
fn candidate_stems() {
    assert_eq!(converted_stem("pdf", "notes", 0), "converted_from_pdf_notes");
    assert_eq!(converted_stem("pdf", "notes", 1), "converted_from_pdf_notes_1");
    assert_eq!(converted_stem("docx", "a b", 12), "converted_from_docx_a b_12");
}

#[test]
fn messages() {
    assert_eq!(failure_message("a.pdf", "boom"), "Failed [a.pdf]: boom");
    assert_eq!(
        collect_failure_message("/tmp/x", "denied"),
        "Failed to collect paths from [/tmp/x]: denied"
    );
    assert_eq!(
        Route::UnsupportedTextSource.unsupported_reason(),
        Some("Unsupported txt extraction source".to_string())
    );
    assert_eq!(
        Route::UnsupportedTarget.unsupported_reason(),
        Some("Unsupported target format".to_string())
    );
    assert_eq!(Route::Image.unsupported_reason(), None);
}

#[test]
fn decimal_numerals() {
    assert_eq!(decimal_string(0), "0");
    assert_eq!(decimal_string(7), "7");
    assert_eq!(decimal_string(10), "10");
    assert_eq!(decimal_string(12345), "12345");
    assert_eq!(decimal_string(u64::MAX), u64::MAX.to_string());
}

#[test]
fn candidate_stems_differ_between_attempts() {
    let names: Vec<String> = (0..30).map(|k| converted_stem("md", "n", k)).collect();
    for i in 0..names.len() {
        for j in 0..names.len() {
            if i != j {
                assert_ne!(names[i], names[j]);
            }
        }
    }
}

#[test]
fn removing_duplicates_never_writes_over_an_existing_target() {
    for ext in ["pdf", "md", "docx", "png"] {
        assert_eq!(plan_file(ext, "pdf", true, true), FileAction::Skip);
        assert_ne!(plan_file(ext, "pdf", false, true), FileAction::Skip);
    }
}

#[test]
fn candidate_file_names_follow_with_extension() {
    assert_eq!(converted_file_name("md", "notes", "pdf", 0), "converted_from_md_notes.pdf");
    assert_eq!(converted_file_name("md", "notes", "pdf", 3), "converted_from_md_notes_3.pdf");
    assert_eq!(converted_file_name("md", "n", "", 1), "converted_from_md_n_1");
    // A dotted stem loses what follows its last dot, for every attempt.
    assert_eq!(converted_file_name("docx", "v1.2", "pdf", 0), "converted_from_docx_v1.pdf");
    assert_eq!(converted_file_name("docx", "v1.2", "pdf", 2), "converted_from_docx_v1.pdf");
    let names: Vec<String> = (0..20).map(|k| converted_file_name("md", "xy", "pdf", k)).collect();
    for i in 0..names.len() {
        for j in 0..names.len() {
            if i != j {
                assert_ne!(names[i], names[j]);
            }
        }
    }
}

#[test]
fn set_extension_agrees_with_path_with_extension() {
    let names = ["a", "a.b", "a.b.c", ".hidden", ".hidden.x", "a.", "x_1.2_3", "é.ü"];
    let exts = ["pdf", "", "tar.gz", "ü"];
    for name in names {
        for ext in exts {
            let expected = Path::new(name).with_extension(ext);
            assert_eq!(set_extension(name, ext), expected.to_str().unwrap(), "{name} {ext}");
        }
    }
}

#[test]
fn tally_counts_every_file_once() {
    let mut tally = BatchTally::new(4);
    tally.record_collect_failure("Failed to collect paths from [d]: e".to_string());
    assert!(!tally.is_complete());
    tally.record(FileOutcome::Converted);
    tally.record(FileOutcome::Skipped);
    tally.record(FileOutcome::Failed("Failed [b.md]: boom".to_string()));
    assert!(!tally.is_complete());
    tally.record(FileOutcome::Converted);
    assert!(tally.is_complete());
    let (count, log) = tally.finish();
    assert_eq!(count, 2);
    assert_eq!(
        log,
        vec![
            "Failed to collect paths from [d]: e".to_string(),
            "Failed [b.md]: boom".to_string()
        ]
    );
}

#[test]
fn empty_batch_is_complete_at_once() {
    let tally = BatchTally::new(0);
    assert!(tally.is_complete());
    assert_eq!(tally.finish(), (0, vec![]));
}
