//! The `.study` text format: pages separated by `---` lines, each page
//! optionally titled by a `T:` line.

use vstd::prelude::*;

use crate::error::ParseError;
use crate::text::{is_ws, trimmed, lemma_trimmed_range, no_line_feed_in, lemma_lines_from_shape, chars_of, lines, lines_from, trim_bounds, trim_span, lemma_trim_span, lemma_lines_from_bounds, lemma_line_feed_from, line_feed_from, line_end};

verus! {

/// One page of a study text; its title and content are slices of the text.
#[derive(Debug, Clone, PartialEq, Eq)]
pub struct StudyPage<'a> {
    pub title: Option<&'a str>,
    pub content: &'a str,
    pub page_number: u32,
}

/// The mathematical value of a page.
pub struct PageModel {
    pub title: Option<Seq<char>>,
    pub content: Seq<char>,
    pub page_number: int,
}

impl<'a> View for StudyPage<'a> {
    type V = PageModel;

    open spec fn view(&self) -> PageModel {
        PageModel {
            title: match self.title {
                Some(t) => Some(t@),
                None => None,
            },
            content: self.content@,
            page_number: self.page_number as int,
        }
    }
}

/// The values of a sequence of pages.
pub open spec fn pages_view<'a>(pages: Seq<StudyPage<'a>>) -> Seq<PageModel> {
    pages.map_values(|p: StudyPage<'a>| p@)
}

impl<'a> StudyPage<'a> {
    /// Builds a page from its parts.
    pub fn new(title: Option<&'a str>, content: &'a str, page_number: u32) -> (page: Self)
        ensures
            page.title == title,
            page.content == content,
            page.page_number == page_number,
    {
        StudyPage { title, content, page_number }
    }
}

/// The text of the range `sp` of `s`.
pub open spec fn span_text(s: Seq<char>, sp: (int, int)) -> Seq<char> {
    s.subrange(sp.0, sp.1)
}

/// A line whose trimmed text starts with `T:` opens a titled page.
pub open spec fn is_title_line(s: Seq<char>, line: (int, int)) -> bool {
    let t = trim_span(s, line.0, line.1);
    &&& t.1 - t.0 >= 2
    &&& s[t.0] == 'T'
    &&& s[t.0 + 1] == ':'
}

/// A line whose trimmed text is `---` opens an untitled page with the next
/// page number.
pub open spec fn is_break_line(s: Seq<char>, line: (int, int)) -> bool {
    let t = trim_span(s, line.0, line.1);
    &&& t.1 - t.0 == 3
    &&& s[t.0] == '-'
    &&& s[t.0 + 1] == '-'
    &&& s[t.0 + 2] == '-'
}

/// The title of a title line: what follows `T:`, trimmed.
pub open spec fn title_span(s: Seq<char>, line: (int, int)) -> (int, int) {
    let t = trim_span(s, line.0, line.1);
    trim_span(s, t.0 + 2, t.1)
}

/// What the parser knows after some lines: the finished pages, and the title,
/// number, and first and last content line of the page being read.
pub struct ParseState {
    pub pages: Seq<PageModel>,
    pub title: Option<(int, int)>,
    pub page_number: int,
    pub has_data: bool,
    pub content_start: Option<int>,
    pub content_end: int,
}

pub open spec fn initial_state() -> ParseState {
    ParseState {
        pages: Seq::empty(),
        title: None,
        page_number: 1,
        has_data: false,
        content_start: None,
        content_end: 0,
    }
}

/// The page being read: its content runs from its first content line to its
/// last, trimmed.
pub open spec fn current_page(s: Seq<char>, st: ParseState) -> PageModel {
    PageModel {
        title: match st.title {
            Some(sp) => Some(span_text(s, sp)),
            None => None,
        },
        content: match st.content_start {
            Some(a) => span_text(s, trim_span(s, a, st.content_end)),
            None => Seq::empty(),
        },
        page_number: st.page_number,
    }
}

/// How one line changes the state: a title or break line closes the page
/// being read (if any line was seen since the start or the last such line)
/// and opens a new one; any other line extends the content.
pub open spec fn step(s: Seq<char>, st: ParseState, line: (int, int)) -> ParseState {
    if is_title_line(s, line) || is_break_line(s, line) {
        let pages = if st.has_data {
            st.pages.push(current_page(s, st))
        } else {
            st.pages
        };
        if is_title_line(s, line) {
            ParseState {
                pages,
                title: Some(title_span(s, line)),
                page_number: st.page_number,
                has_data: true,
                content_start: None,
                content_end: 0,
            }
        } else {
            ParseState {
                pages,
                title: None,
                page_number: st.page_number + 1,
                has_data: true,
                content_start: None,
                content_end: 0,
            }
        }
    } else {
        ParseState {
            pages: st.pages,
            title: st.title,
            page_number: st.page_number,
            has_data: true,
            content_start: if st.content_start is Some {
                st.content_start
            } else {
                Some(line.0)
            },
            content_end: line.1,
        }
    }
}

/// The state after the given lines, read in order.
pub open spec fn state_after(s: Seq<char>, ls: Seq<(int, int)>) -> ParseState
    decreases ls.len(),
{
    if ls.len() == 0 {
        initial_state()
    } else {
        step(s, state_after(s, ls.drop_last()), ls.last())
    }
}

/// The pages of a study text.
pub open spec fn study_pages(s: Seq<char>) -> Seq<PageModel> {
    let st = state_after(s, lines(s));
    if st.has_data {
        st.pages.push(current_page(s, st))
    } else {
        st.pages
    }
}

/// The number of break lines among the given lines.
pub open spec fn break_count(s: Seq<char>, ls: Seq<(int, int)>) -> nat
    decreases ls.len(),
{
    if ls.len() == 0 {
        0
    } else {
        break_count(s, ls.drop_last()) + if is_break_line(s, ls.last()) {
            1nat
        } else {
            0nat
        }
    }
}

/// The number of break lines of a study text.
pub open spec fn break_line_count(s: Seq<char>) -> nat {
    break_count(s, lines(s))
}

pub proof fn lemma_break_count_concat(s: Seq<char>, a: Seq<(int, int)>, b: Seq<(int, int)>)
    ensures
        break_count(s, a + b) == break_count(s, a) + break_count(s, b),
    decreases b.len(),
{
    if b.len() > 0 {
        assert((a + b).drop_last() =~= a + b.drop_last());
        lemma_break_count_concat(s, a, b.drop_last());
    } else {
        assert(a + b =~= a);
    }
}

pub proof fn lemma_page_number(s: Seq<char>, ls: Seq<(int, int)>)
    ensures
        state_after(s, ls).page_number == 1 + break_count(s, ls),
    decreases ls.len(),
{
    if ls.len() > 0 {
        lemma_page_number(s, ls.drop_last());
    }
}

/// `t` is the text of some range of `s`.
pub open spec fn is_slice_of(t: Seq<char>, s: Seq<char>) -> bool {
    exists|a: int, b: int| 0 <= a <= b <= s.len() && t == #[trigger] s.subrange(a, b)
}

/// `t` is empty or neither starts nor ends with whitespace.
pub open spec fn is_trimmed(t: Seq<char>) -> bool {
    t.len() == 0 || (!is_ws(t[0]) && !is_ws(t[t.len() - 1]))
}

/// A page whose title and content are trimmed slices of `s` and whose number
/// is positive.
pub open spec fn page_ok(s: Seq<char>, p: PageModel) -> bool {
    &&& is_slice_of(p.content, s)
    &&& is_trimmed(p.content)
    &&& (p.title matches Some(t) ==> is_slice_of(t, s) && is_trimmed(t) && has_no_line_feed(t))
    &&& p.page_number >= 1
}

/// A page may follow another only with the same number, or with the next
/// number and no title.
pub open spec fn follows(prev: PageModel, next: PageModel) -> bool {
    ||| next.page_number == prev.page_number
    ||| (next.page_number == prev.page_number + 1 && next.title is None)
}

/// Every range lies inside `s`.
pub open spec fn spans_in(s: Seq<char>, ls: Seq<(int, int)>) -> bool {
    &&& forall|k: int| 0 <= k < ls.len() ==> 0 <= #[trigger] ls[k].0 <= ls[k].1 <= s.len()
    &&& forall|k: int| 0 <= k < ls.len() - 1 ==> #[trigger] ls[k].1 <= ls[k + 1].0
    &&& forall|k: int| 0 <= k < ls.len() ==> no_line_feed_in(s, #[trigger] ls[k].0, ls[k].1)
}

/// `t` holds no line feed.
pub open spec fn has_no_line_feed(t: Seq<char>) -> bool {
    forall|j: int| 0 <= j < t.len() ==> t[j] != '\n'
}

/// What holds of every state the parser passes through.
pub open spec fn state_ok(s: Seq<char>, st: ParseState) -> bool {
    &&& (st.title matches Some(t) ==> 0 <= t.0 <= t.1 <= s.len() && is_trimmed(
        s.subrange(t.0, t.1),
    ) && no_line_feed_in(s, t.0, t.1))
    &&& (st.content_start matches Some(a) ==> 0 <= a <= st.content_end <= s.len())
    &&& st.page_number >= 1
    &&& (st.pages.len() > 0 ==> st.has_data)
    &&& forall|k: int| 0 <= k < st.pages.len() ==> page_ok(s, #[trigger] st.pages[k])
    &&& forall|k: int| 0 <= k < st.pages.len() ==> #[trigger] st.pages[k].page_number <= st.page_number
    &&& forall|k: int|
        0 <= k < st.pages.len() - 1 ==> follows(#[trigger] st.pages[k], st.pages[k + 1])
    &&& (st.pages.len() > 0 ==> follows(st.pages.last(), current_page(s, st)))
}

proof fn lemma_trimmed_slice(s: Seq<char>, a: int, b: int)
    requires
        0 <= a <= b <= s.len(),
    ensures
        is_slice_of(span_text(s, trim_span(s, a, b)), s),
        is_trimmed(span_text(s, trim_span(s, a, b))),
{
    lemma_trim_span(s, a, b);
    let t = trim_span(s, a, b);
    assert(0 <= t.0 <= t.1 <= s.len() && span_text(s, t) == s.subrange(t.0, t.1));
}

proof fn lemma_current_page_ok(s: Seq<char>, st: ParseState)
    requires
        state_ok(s, st),
    ensures
        page_ok(s, current_page(s, st)),
{
    let p = current_page(s, st);
    match st.content_start {
        Some(a) => {
            lemma_trimmed_slice(s, a, st.content_end);
        },
        None => {
            assert(p.content =~= s.subrange(0, 0));
        },
    }
    match st.title {
        Some(t) => {
            assert(0 <= t.0 <= t.1 <= s.len() && span_text(s, t) == s.subrange(t.0, t.1));
        },
        None => {},
    }
}

proof fn lemma_step_ok(s: Seq<char>, st: ParseState, line: (int, int))
    requires
        state_ok(s, st),
        0 <= line.0 <= line.1 <= s.len(),
        no_line_feed_in(s, line.0, line.1),
        st.content_end <= line.0,
    ensures
        state_ok(s, step(s, st, line)),
        step(s, st, line).content_end <= line.1,
        step(s, st, line).has_data,
{
    let nx = step(s, st, line);
    lemma_trim_span(s, line.0, line.1);
    lemma_current_page_ok(s, st);
    if is_title_line(s, line) {
        let t = trim_span(s, line.0, line.1);
        lemma_trim_span(s, t.0 + 2, t.1);
    }
    if is_title_line(s, line) || is_break_line(s, line) {
        if st.has_data {
            let cur = current_page(s, st);
            assert forall|k: int| 0 <= k < nx.pages.len() implies page_ok(
                s,
                #[trigger] nx.pages[k],
            ) by {
                if k < st.pages.len() {
                    assert(nx.pages[k] == st.pages[k]);
                }
            }
            assert forall|k: int|
                0 <= k < nx.pages.len() - 1 implies follows(
                #[trigger] nx.pages[k],
                nx.pages[k + 1],
            ) by {
                if k < st.pages.len() - 1 {
                    assert(nx.pages[k] == st.pages[k]);
                    assert(nx.pages[k + 1] == st.pages[k + 1]);
                } else {
                    assert(nx.pages[k] == st.pages.last());
                    assert(nx.pages[k + 1] == cur);
                }
            }
            assert forall|k: int| 0 <= k < nx.pages.len() implies #[trigger] nx.pages[k].page_number
                <= nx.page_number by {
                if k < st.pages.len() {
                    assert(nx.pages[k] == st.pages[k]);
                }
            }
        }
    }
}

/// Every state reached from the start by lines inside `s` satisfies
/// `state_ok`, and has read data exactly when some line was read.
proof fn lemma_state_after_ok(s: Seq<char>, ls: Seq<(int, int)>)
    requires
        spans_in(s, ls),
    ensures
        state_ok(s, state_after(s, ls)),
        state_after(s, ls).has_data <==> ls.len() > 0,
        ls.len() > 0 ==> state_after(s, ls).content_end <= ls.last().1,
        ls.len() == 0 ==> state_after(s, ls).content_end == 0,
    decreases ls.len(),
{
    if ls.len() > 0 {
        assert(spans_in(s, ls.drop_last()));
        lemma_state_after_ok(s, ls.drop_last());
        assert(0 <= ls[ls.len() - 1].0);
        assert(no_line_feed_in(s, ls[ls.len() - 1].0, ls[ls.len() - 1].1));
        if ls.len() > 1 {
            assert(ls.drop_last().last().1 <= ls.last().0);
        }
        lemma_step_ok(s, state_after(s, ls.drop_last()), ls.last());
    }
}

proof fn lemma_lines_in(s: Seq<char>)
    ensures
        spans_in(s, lines(s)),
        lines(s).len() == 0 <==> s.len() == 0,
        lines(s).len() <= s.len(),
{
    lemma_lines_from_bounds(s, 0);
    lemma_lines_from_shape(s, 0);
    if s.len() > 0 {
        lemma_line_feed_from(s, 0);
        assert(lines(s)[0] == (0int, line_end(s, 0, line_feed_from(s, 0))));
    }
}

/// The titles and contents of the pages are slices of the text, trimmed: none
/// of them starts or ends with whitespace.
pub proof fn law_pages_are_trimmed_slices(s: Seq<char>)
    ensures
        forall|k: int|
            0 <= k < study_pages(s).len() ==> {
                &&& is_slice_of(#[trigger] study_pages(s)[k].content, s)
                &&& is_trimmed(study_pages(s)[k].content)
                &&& (study_pages(s)[k].title matches Some(t) ==> is_slice_of(t, s) && is_trimmed(
                    t,
                ))
            },
{
    lemma_lines_in(s);
    lemma_state_after_ok(s, lines(s));
    let st = state_after(s, lines(s));
    lemma_current_page_ok(s, st);
    assert forall|k: int| 0 <= k < study_pages(s).len() implies page_ok(
        s,
        #[trigger] study_pages(s)[k],
    ) by {
        if k < st.pages.len() {
            assert(study_pages(s)[k] == st.pages[k]);
        }
    }
}

/// Page numbers start at one or more, and from one page to the next either stay
/// the same or grow by one, and grow only into an untitled page; no page number
/// exceeds one plus the number of break lines.
pub proof fn law_page_numbers(s: Seq<char>)
    ensures
        forall|k: int|
            0 <= k < study_pages(s).len() ==> 1 <= #[trigger] study_pages(s)[k].page_number <= 1
                + break_line_count(s),
        forall|k: int|
            0 <= k < study_pages(s).len() - 1 ==> follows(
                #[trigger] study_pages(s)[k],
                study_pages(s)[k + 1],
            ),
{
    lemma_lines_in(s);
    lemma_state_after_ok(s, lines(s));
    lemma_page_number(s, lines(s));
    let st = state_after(s, lines(s));
    let ps = study_pages(s);
    assert forall|k: int| 0 <= k < ps.len() implies 1 <= #[trigger] ps[k].page_number <= 1
        + break_line_count(s) by {
        if k < st.pages.len() {
            assert(ps[k] == st.pages[k]);
        }
    }
    assert forall|k: int| 0 <= k < ps.len() - 1 implies follows(#[trigger] ps[k], ps[k + 1]) by {
        if k < st.pages.len() - 1 {
            assert(ps[k] == st.pages[k]);
            assert(ps[k + 1] == st.pages[k + 1]);
        } else {
            assert(ps[k] == st.pages.last());
        }
    }
}

/// A text yields no pages exactly when it is empty; any line at all yields a
/// page.
pub proof fn law_no_pages_iff_empty(s: Seq<char>)
    ensures
        study_pages(s).len() == 0 <==> s.len() == 0,
{
    lemma_lines_in(s);
    lemma_state_after_ok(s, lines(s));
}

/// No title holds a line feed: a title is taken from its own line.
pub proof fn law_titles_have_no_line_feed(s: Seq<char>)
    ensures
        forall|k: int|
            0 <= k < study_pages(s).len() ==> (#[trigger] study_pages(s)[k].title matches Some(t)
                ==> has_no_line_feed(t)),
{
    lemma_lines_in(s);
    lemma_state_after_ok(s, lines(s));
    let st = state_after(s, lines(s));
    lemma_current_page_ok(s, st);
    assert forall|k: int| 0 <= k < study_pages(s).len() implies page_ok(
        s,
        #[trigger] study_pages(s)[k],
    ) by {
        if k < st.pages.len() {
            assert(study_pages(s)[k] == st.pages[k]);
        }
    }
}

proof fn lemma_break_count_le(s: Seq<char>, ls: Seq<(int, int)>)
    ensures
        break_count(s, ls) <= ls.len(),
    decreases ls.len(),
{
    if ls.len() > 0 {
        lemma_break_count_le(s, ls.drop_last());
    }
}

/// A text has no more break lines than characters, so a text of fewer than
/// `u32::MAX` characters (`str::unicode_len`) meets the requirement of
/// `parse_study_text`.
pub proof fn lemma_break_line_count_bound(s: Seq<char>)
    ensures
        break_line_count(s) <= s.len(),
{
    lemma_lines_in(s);
    lemma_break_count_le(s, lines(s));
}

/// A title or break line opens a page.
pub open spec fn is_marker_line(s: Seq<char>, line: (int, int)) -> bool {
    is_title_line(s, line) || is_break_line(s, line)
}

/// The number of title and break lines among the given lines.
pub open spec fn marker_count(s: Seq<char>, ls: Seq<(int, int)>) -> nat
    decreases ls.len(),
{
    if ls.len() == 0 {
        0
    } else {
        marker_count(s, ls.drop_last()) + if is_marker_line(s, ls.last()) {
            1nat
        } else {
            0nat
        }
    }
}

proof fn lemma_pages_pushed(s: Seq<char>, ls: Seq<(int, int)>)
    ensures
        ls.len() == 0 ==> state_after(s, ls).pages.len() == 0 && !state_after(s, ls).has_data,
        ls.len() > 0 ==> state_after(s, ls).has_data && state_after(s, ls).pages.len() + (
        if is_marker_line(s, ls[0]) {
            1int
        } else {
            0int
        }) == marker_count(s, ls),
    decreases ls.len(),
{
    if ls.len() > 0 {
        lemma_pages_pushed(s, ls.drop_last());
        if ls.len() > 1 {
            assert(ls.drop_last()[0] == ls[0]);
        }
    }
}

/// There is one page for each title or break line, and one more for the
/// lines before the first of them when the text starts with other lines.
pub proof fn law_page_count(s: Seq<char>)
    ensures
        study_pages(s).len() == marker_count(s, lines(s)) + if lines(s).len() > 0
            && !is_marker_line(s, lines(s)[0]) {
            1int
        } else {
            0int
        },
{
    lemma_pages_pushed(s, lines(s));
}

/// The index of the last title or break line among the given lines, or -1.
pub open spec fn last_marker(s: Seq<char>, ls: Seq<(int, int)>) -> int
    decreases ls.len(),
{
    if ls.len() == 0 {
        -1
    } else if is_marker_line(s, ls.last()) {
        ls.len() - 1
    } else {
        last_marker(s, ls.drop_last())
    }
}

/// The lines start with a line that is neither a title nor a break line, so
/// a page precedes the first title or break line.
pub open spec fn has_leading_page(s: Seq<char>, ls: Seq<(int, int)>) -> bool {
    ls.len() > 0 && !is_marker_line(s, ls[0])
}

/// The lines `m + 1 .. e` form the body of the page that line `m` opens (or,
/// for `m == -1`, of the leading page): line `m` is a title or break line,
/// line `e` (if any) is the next one, and none lies between.
pub open spec fn is_segment(s: Seq<char>, ls: Seq<(int, int)>, m: int, e: int) -> bool {
    &&& -1 <= m < e <= ls.len()
    &&& (m >= 0 ==> is_marker_line(s, ls[m]))
    &&& (e < ls.len() ==> is_marker_line(s, ls[e]))
    &&& forall|i: int| m < i < e ==> !is_marker_line(s, #[trigger] ls[i])
}

/// Where the page that line `m` opens stands among the pages: after the
/// leading page, if any, and after the pages of the earlier title and break
/// lines. The leading page (`m == -1`) stands first.
pub open spec fn page_index(s: Seq<char>, ls: Seq<(int, int)>, m: int) -> int {
    if m < 0 {
        0
    } else {
        (if has_leading_page(s, ls) {
            1int
        } else {
            0int
        }) + marker_count(s, ls.take(m))
    }
}

/// The page that line `m` opens, with body lines `m + 1 .. e`: titled by the
/// rest of a `T:` line and untitled after a break line (or as the leading
/// page); its content is the text from its first body line to its last,
/// trimmed, or empty without body lines; its number is one plus the break
/// lines up to line `m`.
pub open spec fn page_opened_at(s: Seq<char>, ls: Seq<(int, int)>, m: int, e: int) -> PageModel {
    PageModel {
        title: if m >= 0 && is_title_line(s, ls[m]) {
            Some(span_text(s, title_span(s, ls[m])))
        } else {
            None
        },
        content: if m + 1 < e {
            span_text(s, trim_span(s, ls[m + 1].0, ls[e - 1].1))
        } else {
            Seq::empty()
        },
        page_number: 1 + break_count(s, ls.take(m + 1)) as int,
    }
}

proof fn lemma_counts_of_prefix(s: Seq<char>, ls: Seq<(int, int)>, x: (int, int), j: int)
    requires
        0 <= j <= ls.len(),
    ensures
        ls.push(x).take(j) == ls.take(j),
        marker_count(s, ls.push(x).take(j)) == marker_count(s, ls.take(j)),
        break_count(s, ls.push(x).take(j)) == break_count(s, ls.take(j)),
{
    assert(ls.push(x).take(j) =~= ls.take(j));
}

proof fn lemma_take_all(ls: Seq<(int, int)>)
    ensures
        ls.take(ls.len() as int) == ls,
{
    assert(ls.take(ls.len() as int) =~= ls);
}

proof fn lemma_marker_count_step(s: Seq<char>, ls: Seq<(int, int)>, j: int)
    requires
        0 <= j < ls.len(),
    ensures
        marker_count(s, ls.take(j + 1)) == marker_count(s, ls.take(j)) + if is_marker_line(
            s,
            ls[j],
        ) {
            1int
        } else {
            0int
        },
        break_count(s, ls.take(j + 1)) == break_count(s, ls.take(j)) + if is_break_line(
            s,
            ls[j],
        ) {
            1int
        } else {
            0int
        },
{
    assert(ls.take(j + 1).drop_last() =~= ls.take(j));
}

/// Before the last title or break line come all the others.
proof fn lemma_last_marker(s: Seq<char>, ls: Seq<(int, int)>)
    ensures
        -1 <= last_marker(s, ls) < ls.len(),
        last_marker(s, ls) >= 0 ==> is_marker_line(s, ls[last_marker(s, ls)]),
        forall|i: int| last_marker(s, ls) < i < ls.len() ==> !is_marker_line(s, #[trigger] ls[i]),
        last_marker(s, ls) >= 0 ==> marker_count(s, ls) == marker_count(
            s,
            ls.take(last_marker(s, ls)),
        ) + 1,
        last_marker(s, ls) < 0 ==> marker_count(s, ls) == 0,
        last_marker(s, ls) >= 0 ==> break_count(s, ls) == break_count(
            s,
            ls.take(last_marker(s, ls) + 1),
        ),
        last_marker(s, ls) < 0 ==> break_count(s, ls) == 0,
    decreases ls.len(),
{
    if ls.len() > 0 {
        let p = ls.drop_last();
        lemma_last_marker(s, p);
        let m = last_marker(s, ls);
        if is_marker_line(s, ls.last()) {
            assert(p =~= ls.take(m));
            lemma_take_all(ls);
        } else {
            assert forall|i: int| m < i < ls.len() implies !is_marker_line(s, #[trigger] ls[i]) by {
                if i < ls.len() - 1 {
                    assert(ls[i] == p[i]);
                }
            }
            if m >= 0 {
                assert(p.take(m) =~= ls.take(m));
                assert(p.take(m + 1) =~= ls.take(m + 1));
            }
        }
    }
}

proof fn lemma_segment_at_end(s: Seq<char>, ls: Seq<(int, int)>, m: int)
    requires
        is_segment(s, ls, m, ls.len() as int),
    ensures
        m == last_marker(s, ls),
{
    lemma_last_marker(s, ls);
    let l = last_marker(s, ls);
    if m < l {
        assert(!is_marker_line(s, ls[l]));
    } else if l < m {
        assert(!is_marker_line(s, ls[m]));
    }
}

/// The fields of the page being read after the lines `ls`: the title of the
/// last title or break line, and the span of the lines after it.
spec fn fields_ok(s: Seq<char>, ls: Seq<(int, int)>, st: ParseState) -> bool {
    let m = last_marker(s, ls);
    &&& st.title == (if m >= 0 && is_title_line(s, ls[m]) {
        Some(title_span(s, ls[m]))
    } else {
        None
    })
    &&& st.content_start == (if m + 1 < ls.len() {
        Some(ls[m + 1].0)
    } else {
        None
    })
    &&& (m + 1 < ls.len() ==> st.content_end == ls[ls.len() - 1].1)
}

proof fn lemma_fields(s: Seq<char>, ls: Seq<(int, int)>)
    ensures
        fields_ok(s, ls, state_after(s, ls)),
    decreases ls.len(),
{
    if ls.len() > 0 {
        let p = ls.drop_last();
        let x = ls.last();
        let n = p.len() as int;
        lemma_fields(s, p);
        lemma_last_marker(s, p);
        let mp = last_marker(s, p);
        if !is_marker_line(s, x) {
            assert(last_marker(s, ls) == mp);
            if mp >= 0 {
                assert(ls[mp] == p[mp]);
            }
            if mp + 1 < n {
                assert(ls[mp + 1] == p[mp + 1]);
            }
        }
    }
}

proof fn lemma_current_is_opened(s: Seq<char>, ls: Seq<(int, int)>)
    requires
        ls.len() > 0,
    ensures
        current_page(s, state_after(s, ls)) == page_opened_at(
            s,
            ls,
            last_marker(s, ls),
            ls.len() as int,
        ),
{
    lemma_fields(s, ls);
    lemma_last_marker(s, ls);
    lemma_page_number(s, ls);
    let m = last_marker(s, ls);
    if m < 0 {
        assert(ls.take(0) =~= Seq::<(int, int)>::empty());
    }
    assert(current_page(s, state_after(s, ls)) =~~= page_opened_at(s, ls, m, ls.len() as int));
}

/// Segments and places of pages that end before the last line are the same in
/// the lines without it.
proof fn lemma_prefix_segments(s: Seq<char>, p: Seq<(int, int)>, x: (int, int))
    ensures
        forall|m: int, e: int|
            #[trigger] is_segment(s, p.push(x), m, e) && e <= p.len() ==> page_opened_at(
                s,
                p.push(x),
                m,
                e,
            ) == page_opened_at(s, p, m, e) && page_index(s, p.push(x), m) == page_index(
                s,
                p,
                m,
            ),
        forall|m: int, e: int|
            #[trigger] is_segment(s, p.push(x), m, e) && e < p.len() ==> is_segment(s, p, m, e),
{
    let ls = p.push(x);
    let n = p.len() as int;
    if n > 0 {
        assert(p[0] == ls[0]);
    }
    assert forall|m: int, e: int|
        #[trigger] is_segment(s, ls, m, e) && e <= n implies page_opened_at(s, ls, m, e)
        == page_opened_at(s, p, m, e) && page_index(s, ls, m) == page_index(s, p, m) by {
        if m >= 0 {
            lemma_counts_of_prefix(s, p, x, m + 1);
            lemma_counts_of_prefix(s, p, x, m);
            assert(ls[m] == p[m]);
        } else {
            lemma_counts_of_prefix(s, p, x, 0);
        }
        if m + 1 < e {
            assert(ls[m + 1] == p[m + 1]);
            assert(ls[e - 1] == p[e - 1]);
        }
    }
    assert forall|m: int, e: int| #[trigger] is_segment(s, ls, m, e) && e < n implies is_segment(
        s,
        p,
        m,
        e,
    ) by {
        if m >= 0 {
            assert(ls[m] == p[m]);
        }
        assert(ls[e] == p[e]);
        assert forall|i: int| m < i < e implies !is_marker_line(s, #[trigger] p[i]) by {
            assert(ls[i] == p[i]);
        }
    }
}

/// The pages closed so far are those that the title and break lines read so
/// far open, and the next page goes to the place of the last of them.
proof fn lemma_pages_by_segment(s: Seq<char>, ls: Seq<(int, int)>)
    ensures
        forall|m: int, e: int|
            #[trigger] is_segment(s, ls, m, e) && e < ls.len() && (m >= 0 || e > 0) ==> 0
                <= page_index(s, ls, m) < state_after(s, ls).pages.len() && state_after(
                s,
                ls,
            ).pages[page_index(s, ls, m)] == page_opened_at(s, ls, m, e),
        ls.len() > 0 ==> state_after(s, ls).pages.len() == page_index(s, ls, last_marker(s, ls)),
    decreases ls.len(),
{
    if ls.len() > 0 {
        let p = ls.drop_last();
        let x = ls.last();
        let n = p.len() as int;
        assert(p.push(x) =~= ls);
        lemma_pages_by_segment(s, p);
        lemma_last_marker(s, p);
        lemma_last_marker(s, ls);
        lemma_pages_pushed(s, p);
        lemma_prefix_segments(s, p, x);
        let st = state_after(s, p);
        let nx = state_after(s, ls);
        let mp = last_marker(s, p);
        if n > 0 {
            assert(p[0] == ls[0]);
        }
        if is_marker_line(s, x) {
            if n > 0 {
                lemma_current_is_opened(s, p);
                assert(is_segment(s, p, mp, n));
            }
            lemma_marker_count_step(s, ls, n);
            lemma_take_all(p);
            assert forall|m: int, e: int|
                #[trigger] is_segment(s, ls, m, e) && e < ls.len() && (m >= 0 || e > 0) implies 0
                <= page_index(s, ls, m) < nx.pages.len() && nx.pages[page_index(s, ls, m)]
                == page_opened_at(s, ls, m, e) by {
                if e < n {
                    assert(nx.pages[page_index(s, p, m)] == st.pages[page_index(s, p, m)]);
                } else {
                    assert forall|i: int| m < i < n implies !is_marker_line(s, #[trigger] p[i]) by {
                        assert(ls[i] == p[i]);
                    }
                    if m >= 0 {
                        assert(ls[m] == p[m]);
                    }
                    assert(is_segment(s, p, m, n));
                    lemma_segment_at_end(s, p, m);
                }
            }
        } else {
            assert forall|m: int, e: int|
                #[trigger] is_segment(s, ls, m, e) && e < ls.len() && (m >= 0 || e > 0) implies 0
                <= page_index(s, ls, m) < nx.pages.len() && nx.pages[page_index(s, ls, m)]
                == page_opened_at(s, ls, m, e) by {
                if e == n {
                    assert(!is_marker_line(s, ls[e]));
                }
            }
            if n > 0 {
                assert(last_marker(s, ls) == mp);
            }
        }
    }
}

/// The pages, line by line: the page that each title or break line opens (and
/// the leading page, if the text starts with other lines) stands at its place
/// among the pages, with the title of its opening line, the trimmed text of
/// its body lines as content, and one plus the break lines up to its opening
/// line as its number.
pub proof fn law_pages_by_opening_line(s: Seq<char>)
    ensures
        forall|m: int, e: int|
            #[trigger] is_segment(s, lines(s), m, e) && (m >= 0 || e > 0) ==> 0 <= page_index(
                s,
                lines(s),
                m,
            ) < study_pages(s).len() && study_pages(s)[page_index(s, lines(s), m)]
                == page_opened_at(s, lines(s), m, e),
{
    let ls = lines(s);
    lemma_pages_by_segment(s, ls);
    lemma_pages_pushed(s, ls);
    if ls.len() > 0 {
        lemma_current_is_opened(s, ls);
    }
    let st = state_after(s, ls);
    assert forall|m: int, e: int|
        #[trigger] is_segment(s, ls, m, e) && (m >= 0 || e > 0) implies 0 <= page_index(s, ls, m)
        < study_pages(s).len() && study_pages(s)[page_index(s, ls, m)]
        == page_opened_at(s, ls, m, e) by {
        if e < ls.len() {
            assert(study_pages(s)[page_index(s, ls, m)] == st.pages[page_index(s, ls, m)]);
        } else {
            lemma_segment_at_end(s, ls, m);
        }
    }
}

/// A line's role depends only on its trimmed text, whatever whitespace
/// surrounds it: it is a title line when its trimmed text starts with `T:`,
/// and then titles its page with the rest of the trimmed text, trimmed; it is
/// a break line when its trimmed text is `---`. So the page that any line opens
/// has that title, or none.
pub proof fn law_line_roles_by_trimmed_text(s: Seq<char>, line: (int, int))
    requires
        0 <= line.0 <= line.1 <= s.len(),
    ensures
        ({
            let t = trimmed(s.subrange(line.0, line.1));
            &&& is_title_line(s, line) <==> (t.len() >= 2 && t[0] == 'T' && t[1] == ':')
            &&& is_title_line(s, line) ==> span_text(s, title_span(s, line)) == trimmed(t.skip(2))
            &&& is_break_line(s, line) <==> t == seq!['-', '-', '-']
        }),
{
    lemma_trimmed_range(s, line.0, line.1);
    lemma_trim_span(s, line.0, line.1);
    let tt = trim_span(s, line.0, line.1);
    let t = trimmed(s.subrange(line.0, line.1));
    assert(t == s.subrange(tt.0, tt.1));
    if t.len() >= 2 {
        assert(t[0] == s[tt.0] && t[1] == s[tt.0 + 1]);
        assert(t.skip(2) =~= s.subrange(tt.0 + 2, tt.1));
        lemma_trimmed_range(s, tt.0 + 2, tt.1);
    }
    if t.len() == 3 {
        assert(t[2] == s[tt.0 + 2]);
        if t == seq!['-', '-', '-'] {
            assert(t[0] == '-' && t[1] == '-' && t[2] == '-');
        }
        if is_break_line(s, line) {
            assert(t =~= seq!['-', '-', '-']);
        }
    }
}

/// The page that a line of the text opens is titled by the rest of the line's
/// trimmed text after `T:`, trimmed, exactly when that trimmed text starts with
/// `T:`, however the line is indented.
pub proof fn law_title_of_opened_page(s: Seq<char>, m: int, e: int)
    requires
        0 <= m < lines(s).len(),
    ensures
        ({
            let l = lines(s)[m];
            let t = trimmed(s.subrange(l.0, l.1));
            page_opened_at(s, lines(s), m, e).title == if t.len() >= 2 && t[0] == 'T' && t[1]
                == ':' {
                Some(trimmed(t.skip(2)))
            } else {
                None
            }
        }),
{
    lemma_lines_in(s);
    let l = lines(s)[m];
    assert(0 <= l.0 <= l.1 <= s.len());
    law_line_roles_by_trimmed_text(s, l);
}

/// The parser state that the executable fields stand for.
pub open spec fn state_of<'a>(
    pages: Seq<StudyPage<'a>>,
    title: Option<(usize, usize)>,
    page_number: u32,
    has_data: bool,
    content_start: Option<usize>,
    content_end: usize,
) -> ParseState {
    ParseState {
        pages: pages_view(pages),
        title: match title {
            Some(t) => Some((t.0 as int, t.1 as int)),
            None => None,
        },
        page_number: page_number as int,
        has_data,
        content_start: match content_start {
            Some(a) => Some(a as int),
            None => None,
        },
        content_end: content_end as int,
    }
}

/// Builds the page being read, as `current_page` describes it.
fn close_page<'a>(
    text: &'a str,
    chars: &Vec<char>,
    title: Option<(usize, usize)>,
    content_start: Option<usize>,
    content_end: usize,
    page_number: u32,
) -> (page: StudyPage<'a>)
    requires
        chars@ == text@,
        title matches Some(t) ==> t.0 <= t.1 <= chars@.len(),
        content_start matches Some(a) ==> a <= content_end <= chars@.len(),
    ensures
        page@ == current_page(
            text@,
            state_of(Seq::empty(), title, page_number, true, content_start, content_end),
        ),
{
    let title_text = match title {
        Some(t) => Some(text.substring_char(t.0, t.1)),
        None => None,
    };
    let content = match content_start {
        Some(a) => {
            let (lo, hi) = trim_bounds(chars, a, content_end);
            text.substring_char(lo, hi)
        },
        None => text.substring_char(0, 0),
    };
    let page = StudyPage::new(title_text, content, page_number);
    assert(text@.subrange(0, 0) =~= Seq::<char>::empty());
    page
}

/// Splits a study text into pages.
///
/// A line whose trimmed text starts with `T:` starts a page titled by the
/// rest of that line; a line whose trimmed text is `---` starts an untitled
/// page with the next page number; all other lines are content. A page is
/// closed when the next one starts; a page is emitted only if some line was
/// read since the start or since the previous title or break line. The
/// content of a page runs from its first content line to its last, trimmed.
/// The titles and contents are slices of `text`.
pub fn parse_study_text<'a>(text: &'a str) -> (res: Result<Vec<StudyPage<'a>>, ParseError>)
    requires
        break_line_count(text@) < u32::MAX,
    ensures
        res matches Ok(pages) && pages_view(pages@) == study_pages(text@),
{
    let chars = chars_of(text);
    let n: usize = chars.len();
    let mut pages: Vec<StudyPage<'a>> = Vec::new();
    let mut title: Option<(usize, usize)> = None;
    let mut page_number: u32 = 1;
    let mut has_data = false;
    let mut content_start: Option<usize> = None;
    let mut content_end: usize = 0;
    let mut i: usize = 0;
    let ghost mut done: Seq<(int, int)> = Seq::empty();
    assert(done + lines_from(text@, 0) =~= lines(text@));
    assert(pages_view(pages@) =~= Seq::<PageModel>::empty());

    while i < n
        invariant
            chars@ == text@,
            n == chars@.len(),
            i <= n,
            lines(text@) == done + lines_from(text@, i as int),
            state_after(text@, done) == state_of(
                pages@,
                title,
                page_number,
                has_data,
                content_start,
                content_end,
            ),
            title matches Some(t) ==> t.0 <= t.1 <= n,
            content_start matches Some(a) ==> a <= content_end <= i,
            break_line_count(text@) < u32::MAX,
        decreases n - i,
    {
        let ghost s = text@;
        let ghost st = state_after(s, done);
        let mut j: usize = i;
        while j < n && chars[j] != '\n'
            invariant
                chars@ == text@,
                n == chars@.len(),
                i <= j <= n,
                line_feed_from(text@, j as int) == line_feed_from(text@, i as int),
            decreases n - j,
        {
            j = j + 1;
        }
        let end: usize = if j < n && i < j && chars[j - 1] == '\r' {
            j - 1
        } else {
            j
        };
        let ghost line = (i as int, end as int);
        let next: usize = if j < n {
            j + 1
        } else {
            n
        };
        proof {
            lemma_line_feed_from(s, i as int);
            assert(line_end(s, i as int, j as int) == end);
            assert(lines_from(s, i as int) == seq![line] + lines_from(s, j + 1));
            assert(lines_from(s, j + 1) == lines_from(s, next as int));
            assert(done + lines_from(s, i as int) =~= done.push(line) + lines_from(
                s,
                next as int,
            ));
            assert(done.push(line).drop_last() =~= done);
            lemma_page_number(s, done);
            lemma_page_number(s, done.push(line));
            lemma_break_count_concat(s, done.push(line), lines_from(s, next as int));
        }
        let (lo, hi) = trim_bounds(&chars, i, end);
        let is_title = hi - lo >= 2 && chars[lo] == 'T' && chars[lo + 1] == ':';
        let is_break = hi - lo == 3 && chars[lo] == '-' && chars[lo + 1] == '-' && chars[lo + 2]
            == '-';
        assert(is_title == is_title_line(s, line));
        assert(is_break == is_break_line(s, line));
        if is_title || is_break {
            if has_data {
                let page = close_page(
                    text,
                    &chars,
                    title,
                    content_start,
                    content_end,
                    page_number,
                );
                pages.push(page);
                assert(pages_view(pages@) =~= st.pages.push(current_page(s, st)));
            }
            has_data = true;
            content_start = None;
            content_end = 0;
            if is_title {
                title = Some(trim_bounds(&chars, lo + 2, hi));
            } else {
                title = None;
                page_number = page_number + 1;
            }
        } else {
            has_data = true;
            if content_start.is_none() {
                content_start = Some(i);
            }
            content_end = end;
        }
        proof {
            done = done.push(line);
        }
        i = next;
    }
    assert(lines_from(text@, i as int) =~= Seq::<(int, int)>::empty());
    assert(done =~= lines(text@));
    if has_data {
        let ghost st = state_after(text@, done);
        let page = close_page(text, &chars, title, content_start, content_end, page_number);
        pages.push(page);
        assert(pages_view(pages@) =~= st.pages.push(current_page(text@, st)));
    }
    Ok(pages)
}

} // verus!
