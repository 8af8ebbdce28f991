use file_help::error::ParseError;
use file_help::parser::{parse_study_text, StudyPage};

#[test]
fn test_valid_multi_page() {
    let input = "T: Page 1\ncontent 1\n---\ncontent 2\nT: Page 3\ncontent 3";
    let pages = parse_study_text(input).unwrap();

    assert_eq!(pages.len(), 3);

    assert_eq!(pages[0].title, Some("Page 1"));
    assert_eq!(pages[0].content, "content 1");
    assert_eq!(pages[0].page_number, 1);

    assert_eq!(pages[1].title, None);
    assert_eq!(pages[1].content, "content 2");
    assert_eq!(pages[1].page_number, 2);

    assert_eq!(pages[2].title, Some("Page 3"));
    assert_eq!(pages[2].content, "content 3");
    assert_eq!(pages[2].page_number, 2);
}

#[test]
fn test_empty_string() {
    let pages = parse_study_text("").unwrap();
    assert!(pages.is_empty());
}

#[test]
fn test_zero_allocation() {
    let input = String::from("T: Title\nSome content");
    let parsed = parse_study_text(&input).unwrap();
    assert_eq!(parsed[0].title, Some("Title"));
    assert_eq!(parsed[0].content, "Some content");
}

fn lies_within(part: &str, whole: &str) -> bool {
    let start = whole.as_ptr() as usize;
    let end = start + whole.len();
    let p = part.as_ptr() as usize;
    part.is_empty() || (start <= p && p + part.len() <= end)
}

#[test]
fn titles_and_contents_borrow_from_the_text() {
    let input = String::from("T:  Intro \n  first line\n\n  second line  \n---\nmore");
    let pages = parse_study_text(&input).unwrap();
    assert_eq!(pages.len(), 2);
    for page in &pages {
        assert!(lies_within(page.content, &input));
        if let Some(t) = page.title {
            assert!(lies_within(t, &input));
        }
    }
    assert_eq!(pages[0].title, Some("Intro"));
    assert_eq!(pages[0].content, "first line\n\n  second line");
    assert_eq!(pages[1].content, "more");
}

#[test]
fn content_keeps_inner_lines_and_is_trimmed() {
    let pages = parse_study_text("\u{3000} a \n b \t\n\n").unwrap();
    assert_eq!(pages.len(), 1);
    assert_eq!(pages[0].title, None);
    assert_eq!(pages[0].content, "a \n b");
    assert_eq!(pages[0].page_number, 1);
}

#[test]
fn leading_break_starts_at_page_two() {
    let pages = parse_study_text("---\nx\n---\n---\ny").unwrap();
    assert_eq!(pages.len(), 3);
    assert_eq!(pages[0], StudyPage::new(None, "x", 2));
    assert_eq!(pages[1], StudyPage::new(None, "", 3));
    assert_eq!(pages[2], StudyPage::new(None, "y", 4));
}

#[test]
fn title_line_with_no_content_still_makes_a_page() {
    let pages = parse_study_text("T: A\nT: B").unwrap();
    assert_eq!(pages.len(), 2);
    assert_eq!(pages[0], StudyPage::new(Some("A"), "", 1));
    assert_eq!(pages[1], StudyPage::new(Some("B"), "", 1));
}

#[test]
fn carriage_returns_before_line_feeds_are_dropped() {
    let pages = parse_study_text("T: One\r\nbody\r\n  ---  \r\nT:\r\nend\r").unwrap();
    assert_eq!(pages.len(), 3);
    assert_eq!(pages[0], StudyPage::new(Some("One"), "body", 1));
    assert_eq!(pages[1], StudyPage::new(None, "", 2));
    assert_eq!(pages[2], StudyPage::new(Some(""), "end", 2));
}

#[test]
fn break_needs_exactly_three_dashes() {
    let pages = parse_study_text("a\n----\n--\nb").unwrap();
    assert_eq!(pages.len(), 1);
    assert_eq!(pages[0].content, "a\n----\n--\nb");
    assert_eq!(pages[0].page_number, 1);
}

#[test]
fn only_blank_lines_make_an_empty_page() {
    let pages = parse_study_text("\n").unwrap();
    assert_eq!(pages, vec![StudyPage::new(None, "", 1)]);
}

#[test]
fn parse_error_messages() {
    assert_eq!(
        ParseError::MissingPrefix(12).message(),
        "missing required line prefix (e.g., 'T:') at line 12"
    );
    assert_eq!(
        ParseError::UnexpectedEof(3).message(),
        "unexpected end of file while parsing page 3"
    );
}

#[test]
fn one_page_per_marker_line_plus_the_leading_page() {
    let pages = parse_study_text("intro\nT: A\n---").unwrap();
    assert_eq!(pages.len(), 3);
    assert_eq!(pages[0], StudyPage::new(None, "intro", 1));
    assert_eq!(pages[1], StudyPage::new(Some("A"), "", 1));
    assert_eq!(pages[2], StudyPage::new(None, "", 2));
    for page in &pages {
        assert!(!page.title.unwrap_or("").contains('\n'));
    }
}
