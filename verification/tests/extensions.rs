use file_help::extensions::{
    accepts_input, can_convert, extension_pattern, lex_less, scan_convertible_extensions,
    scan_unique_extensions, text_eq,
};

fn strings(v: &[&str]) -> Vec<String> {
    v.iter().map(|s| s.to_string()).collect()
}

#[test]
fn same_format_converts_whatever_the_case() {
    assert!(can_convert("PDF", "pdf"));
    assert!(can_convert("zip", "ZIP"));
    assert!(can_convert("", ""));
}

#[test]
fn conversion_table() {
    assert!(can_convert("docx", "PDF"));
    assert!(can_convert("Md", "pdf"));
    assert!(can_convert("xlsx", "pdf"));
    assert!(!can_convert("txt", "pdf"));
    assert!(can_convert("odt", "txt"));
    assert!(can_convert("PDF", "txt"));
    assert!(!can_convert("xlsx", "txt"));
    assert!(can_convert("PNG", "webp"));
    assert!(can_convert("jpeg", "jpg"));
    assert!(!can_convert("gif", "png"));
    assert!(!can_convert("png", "gif"));
    assert!(!can_convert("abc", "mp3"));
}

#[test]
fn unique_extensions_are_lowercased_sorted_and_deduplicated() {
    let found = strings(&["pdf", "PDF", "docx", "txt", "Docx"]);
    assert_eq!(scan_unique_extensions(&found), strings(&["docx", "pdf", "txt"]));
    assert!(scan_unique_extensions(&[]).is_empty());
}

#[test]
fn unique_extensions_sort_by_code_point() {
    let found = strings(&["é", "z", "a", "Z", "ab"]);
    assert_eq!(scan_unique_extensions(&found), strings(&["a", "ab", "z", "é"]));
}

#[test]
fn convertible_extensions_keep_only_convertible_ones() {
    let found = strings(&["DOCX", "md", "txt", "docx", "png", "pdf"]);
    assert_eq!(scan_convertible_extensions(&found, "pdf"), strings(&["docx", "md", "pdf"]));
    assert_eq!(scan_convertible_extensions(&found, "PNG"), strings(&["png"]));
    assert!(scan_convertible_extensions(&found, "mp3").is_empty());
}

#[test]
fn inputs_must_be_allowed_and_convertible() {
    let allowed = strings(&["docx", "md"]);
    assert!(accepts_input("DOCX", &allowed, "pdf"));
    assert!(accepts_input("md", &allowed, "pdf"));
    assert!(!accepts_input("pptx", &allowed, "pdf"));
    assert!(!accepts_input("md", &allowed, "txt"));
    assert!(!accepts_input("docx", &[], "pdf"));
}

#[test]
fn extraction_pattern_for_an_extension() {
    assert_eq!(extension_pattern("pdf"), r"\.pdf$");
    assert_eq!(extension_pattern(""), r"\.$");
}

#[test]
fn text_comparisons() {
    assert!(text_eq("abc", "abc"));
    assert!(!text_eq("abc", "abd"));
    assert!(lex_less("ab", "abc"));
    assert!(lex_less("abc", "abd"));
    assert!(!lex_less("abc", "abc"));
    assert!(!lex_less("b", "abc"));
    assert!(lex_less("", "a"));
}

#[test]
fn listings_depend_only_on_which_extensions_occur() {
    let a = strings(&["txt", "PDF", "docx", "pdf"]);
    let b = strings(&["Docx", "TXT", "pdf"]);
    assert_eq!(scan_unique_extensions(&a), scan_unique_extensions(&b));
    assert_eq!(
        scan_convertible_extensions(&a, "pdf"),
        scan_convertible_extensions(&b, "PDF")
    );
}

#[test]
fn images_convert_among_themselves_only() {
    for input in ["png", "JPG", "jpeg", "WebP"] {
        for target in ["png", "jpg", "JPEG", "webp"] {
            assert!(can_convert(input, target));
        }
    }
    for input in ["pdf", "docx", "gif", "bmp"] {
        assert!(!can_convert(input, "png"));
    }
}

#[test]
fn convertible_listing_is_the_unique_listing_filtered() {
    let found = strings(&["DOCX", "md", "txt", "Md", "png", "pdf", "xlsx", "odt"]);
    for target in ["pdf", "TXT", "png", "md", "mp3"] {
        let unique = scan_unique_extensions(&found);
        let filtered: Vec<String> =
            unique.into_iter().filter(|e| can_convert(e, target)).collect();
        assert_eq!(scan_convertible_extensions(&found, target), filtered);
    }
}
