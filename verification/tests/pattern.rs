use file_help::error::ExtractionError;
use file_help::pattern::{compile_extension_patterns, matches_any_pattern};

#[test]
fn extraction_patterns_select_by_file_name() {
    let patterns = compile_extension_patterns(&[r"\.pdf$", r"\.docx$"]).unwrap();
    assert_eq!(patterns.len(), 2);
    assert!(matches_any_pattern(&patterns, "test_note.pdf"));
    assert!(matches_any_pattern(&patterns, "assignment.docx"));
    assert!(!matches_any_pattern(&patterns, "image.png"));
    assert!(!matches_any_pattern(&patterns, "notes.txt"));
    assert!(!matches_any_pattern(&patterns, "fake_pdf.pdf.tmp"));
}

#[test]
fn no_patterns_select_nothing() {
    let patterns = compile_extension_patterns(&[]).unwrap();
    assert!(!matches_any_pattern(&patterns, "a.pdf"));
}

#[test]
fn a_bad_pattern_is_a_regex_error() {
    match compile_extension_patterns(&[r"\.pdf$", "foo(bar"]) {
        Err(ExtractionError::RegexError(_)) => {}
        other => panic!("expected a regex error, got {:?}", other.map(|v| v.len())),
    }
}

#[test]
fn the_first_bad_pattern_stops_compilation() {
    match compile_extension_patterns(&["(", r"\.pdf$", "["]) {
        Err(ExtractionError::RegexError(e)) => assert!(e.to_string().contains("unclosed group")),
        other => panic!("expected a regex error, got {:?}", other.map(|v| v.len())),
    }
}
