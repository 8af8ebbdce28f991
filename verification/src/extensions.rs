//! File extensions: which conversions the converter offers, and the sorted,
//! duplicate-free extension lists shown to the user.

use vstd::prelude::*;

use crate::text::chars_of;

verus! {

/// The lowercase form of a text, as `str::to_lowercase` computes it under the
/// Unicode lowercase mapping.
pub uninterp spec fn lowercase(s: Seq<char>) -> Seq<char>;

/// Every character of `s` is ASCII.
pub open spec fn is_ascii_text(s: Seq<char>) -> bool {
    forall|i: int| 0 <= i < s.len() ==> (#[trigger] s[i] as u32) < 128
}

/// ASCII lowercase: `A`..`Z` become `a`..`z`, every other character stays.
pub open spec fn ascii_lowercase(s: Seq<char>) -> Seq<char> {
    s.map_values(
        |c: char|
            if 'A' <= c && c <= 'Z' {
                ((c as u32) + 32) as char
            } else {
                c
            },
    )
}

/// Calls `str::to_lowercase`. Its result is named `lowercase` of the
/// argument; on ASCII text it is the ASCII lowercase of the argument, as the
/// Unicode mapping gives `a`..`z` for `A`..`Z` and leaves other ASCII alone.
#[verifier::external_body]
fn to_lowercase(s: &str) -> (r: String)
    ensures
        r@ == lowercase(s@),
        is_ascii_text(s@) ==> r@ == ascii_lowercase(s@),
{
    s.to_lowercase()
}

/// The lowercase form of a file's extension, by which a batch conversion
/// compares it with the target format and names the converted file.
pub fn source_extension(ext: &str) -> (r: String)
    ensures
        r@ == lowercase(ext@),
        is_ascii_text(ext@) ==> r@ == ascii_lowercase(ext@),
{
    to_lowercase(ext)
}

/// Whether two texts are equal.
pub fn text_eq(a: &str, b: &str) -> (r: bool)
    ensures
        r == (a@ == b@),
{
    let x = a.to_owned();
    let y = b.to_owned();
    x == y
}

pub open spec fn pdf() -> Seq<char> {
    seq!['p', 'd', 'f']
}

pub open spec fn txt() -> Seq<char> {
    seq!['t', 'x', 't']
}

pub open spec fn docx() -> Seq<char> {
    seq!['d', 'o', 'c', 'x']
}

pub open spec fn pptx() -> Seq<char> {
    seq!['p', 'p', 't', 'x']
}

pub open spec fn xlsx() -> Seq<char> {
    seq!['x', 'l', 's', 'x']
}

pub open spec fn md() -> Seq<char> {
    seq!['m', 'd']
}

pub open spec fn odt() -> Seq<char> {
    seq!['o', 'd', 't']
}

pub open spec fn png() -> Seq<char> {
    seq!['p', 'n', 'g']
}

pub open spec fn jpg() -> Seq<char> {
    seq!['j', 'p', 'g']
}

pub open spec fn jpeg() -> Seq<char> {
    seq!['j', 'p', 'e', 'g']
}

pub open spec fn webp() -> Seq<char> {
    seq!['w', 'e', 'b', 'p']
}

/// The image formats, which convert into one another.
pub open spec fn is_image_format(e: Seq<char>) -> bool {
    e == png() || e == jpg() || e == jpeg() || e == webp()
}

/// The conversion table, over lowercase extensions: every format converts to
/// itself; office documents and Markdown convert to PDF; PDF and office
/// documents convert to text; images convert among the image formats.
pub open spec fn converts_to(input: Seq<char>, target: Seq<char>) -> bool {
    if input == target {
        true
    } else if target == pdf() {
        input == docx() || input == pptx() || input == xlsx() || input == md()
    } else if target == txt() {
        input == pdf() || input == docx() || input == odt() || input == pptx()
    } else if is_image_format(target) {
        is_image_format(input)
    } else {
        false
    }
}

/// Whether files with extension `input` can be converted to `target`, with
/// case ignored in both.
pub open spec fn convertible(input: Seq<char>, target: Seq<char>) -> bool {
    converts_to(lowercase(input), lowercase(target))
}

/// Convertibility of ASCII names: the conversion table applied to their ASCII
/// lowercase forms.
pub open spec fn ascii_convertible(input: Seq<char>, target: Seq<char>) -> bool {
    converts_to(ascii_lowercase(input), ascii_lowercase(target))
}

/// Every text of `exts` is ASCII.
pub open spec fn all_ascii(exts: Seq<String>) -> bool {
    forall|i: int| 0 <= i < exts.len() ==> is_ascii_text(#[trigger] exts[i]@)
}

/// Whether the text `t` equals the literal `lit`, over the literals that the
/// conversion table names.
pub fn is_literal_text(t: &str, lit: &str) -> (r: bool)
    ensures
        r == (t@ == lit@),
        lit == "pdf" ==> r == (t@ == pdf()),
        lit == "txt" ==> r == (t@ == txt()),
        lit == "docx" ==> r == (t@ == docx()),
        lit == "pptx" ==> r == (t@ == pptx()),
        lit == "xlsx" ==> r == (t@ == xlsx()),
        lit == "md" ==> r == (t@ == md()),
        lit == "odt" ==> r == (t@ == odt()),
        lit == "png" ==> r == (t@ == png()),
        lit == "jpg" ==> r == (t@ == jpg()),
        lit == "jpeg" ==> r == (t@ == jpeg()),
        lit == "webp" ==> r == (t@ == webp()),
{
    proof {
        reveal_strlit("pdf");
        reveal_strlit("txt");
        reveal_strlit("docx");
        reveal_strlit("pptx");
        reveal_strlit("xlsx");
        reveal_strlit("md");
        reveal_strlit("odt");
        reveal_strlit("png");
        reveal_strlit("jpg");
        reveal_strlit("jpeg");
        reveal_strlit("webp");
        assert("pdf"@ =~= pdf());
        assert("txt"@ =~= txt());
        assert("docx"@ =~= docx());
        assert("pptx"@ =~= pptx());
        assert("xlsx"@ =~= xlsx());
        assert("md"@ =~= md());
        assert("odt"@ =~= odt());
        assert("png"@ =~= png());
        assert("jpg"@ =~= jpg());
        assert("jpeg"@ =~= jpeg());
        assert("webp"@ =~= webp());
    }
    text_eq(t, lit)
}

/// Checks if an input extension can be converted to the target format.
///
/// On ASCII names the answer is the conversion table applied to their ASCII
/// lowercase forms.
pub fn can_convert(input_ext: &str, target_format: &str) -> (b: bool)
    ensures
        b == convertible(input_ext@, target_format@),
        is_ascii_text(input_ext@) ==> lowercase(input_ext@) == ascii_lowercase(input_ext@),
        is_ascii_text(target_format@) ==> lowercase(target_format@) == ascii_lowercase(
            target_format@,
        ),
        is_ascii_text(input_ext@) && is_ascii_text(target_format@) ==> b == ascii_convertible(
            input_ext@,
            target_format@,
        ),
{
    let input = to_lowercase(input_ext);
    let target = to_lowercase(target_format);
    let (i, t) = (input.as_str(), target.as_str());
    if input == target {
        true
    } else if is_literal_text(t, "pdf") {
        is_literal_text(i, "docx") || is_literal_text(i, "pptx") || is_literal_text(i, "xlsx")
            || is_literal_text(i, "md")
    } else if is_literal_text(t, "txt") {
        is_literal_text(i, "pdf") || is_literal_text(i, "docx") || is_literal_text(i, "odt")
            || is_literal_text(i, "pptx")
    } else if is_literal_text(t, "png") || is_literal_text(t, "jpg") || is_literal_text(t, "jpeg")
        || is_literal_text(t, "webp") {
        is_literal_text(i, "png") || is_literal_text(i, "jpg") || is_literal_text(i, "jpeg")
            || is_literal_text(i, "webp")
    } else {
        false
    }
}

/// Every format converts to itself, whatever the case of either name.
pub proof fn law_same_format_convertible(input: Seq<char>, target: Seq<char>)
    requires
        lowercase(input) == lowercase(target),
    ensures
        convertible(input, target),
{
}

/// Convertibility ignores case: extensions and targets with the same
/// lowercase forms are treated alike.
pub proof fn law_convertible_ignores_case(
    input: Seq<char>,
    target: Seq<char>,
    input2: Seq<char>,
    target2: Seq<char>,
)
    requires
        lowercase(input) == lowercase(input2),
        lowercase(target) == lowercase(target2),
    ensures
        convertible(input, target) == convertible(input2, target2),
{
}

/// The image formats convert into one another, and only images convert to an
/// image format.
pub proof fn law_images_interconvert(input: Seq<char>, target: Seq<char>)
    requires
        is_image_format(lowercase(target)),
    ensures
        convertible(input, target) <==> is_image_format(lowercase(input)),
{
}

/// The conversion table, case ignored in both names: to PDF convert PDF, Word,
/// PowerPoint, Excel and Markdown files; to text convert text, PDF, Word,
/// OpenDocument text and PowerPoint files; to an image format (PNG, JPG, JPEG,
/// WebP) convert exactly the image files; to any other format only files
/// already in it.
pub proof fn law_conversion_table(input: Seq<char>, target: Seq<char>)
    ensures
        lowercase(target) == seq!['p', 'd', 'f'] ==> (convertible(input, target) <==> {
            let i = lowercase(input);
            ||| i == seq!['p', 'd', 'f']
            ||| i == seq!['d', 'o', 'c', 'x']
            ||| i == seq!['p', 'p', 't', 'x']
            ||| i == seq!['x', 'l', 's', 'x']
            ||| i == seq!['m', 'd']
        }),
        lowercase(target) == seq!['t', 'x', 't'] ==> (convertible(input, target) <==> {
            let i = lowercase(input);
            ||| i == seq!['t', 'x', 't']
            ||| i == seq!['p', 'd', 'f']
            ||| i == seq!['d', 'o', 'c', 'x']
            ||| i == seq!['o', 'd', 't']
            ||| i == seq!['p', 'p', 't', 'x']
        }),
        ({
            let t = lowercase(target);
            t == seq!['p', 'n', 'g'] || t == seq!['j', 'p', 'g'] || t == seq!['j', 'p', 'e', 'g']
                || t == seq!['w', 'e', 'b', 'p']
        }) ==> (convertible(input, target) <==> {
            let i = lowercase(input);
            ||| i == seq!['p', 'n', 'g']
            ||| i == seq!['j', 'p', 'g']
            ||| i == seq!['j', 'p', 'e', 'g']
            ||| i == seq!['w', 'e', 'b', 'p']
        }),
        ({
            let t = lowercase(target);
            t != seq!['p', 'd', 'f'] && t != seq!['t', 'x', 't'] && t != seq!['p', 'n', 'g'] && t
                != seq!['j', 'p', 'g'] && t != seq!['j', 'p', 'e', 'g'] && t != seq![
                'w',
                'e',
                'b',
                'p',
            ]
        }) ==> (convertible(input, target) <==> lowercase(input) == lowercase(target)),
{
}

/// Lexicographic order of texts by code point, the order of `String`'s `Ord`
/// (UTF-8 byte order and code point order agree).
pub open spec fn lex_lt(a: Seq<char>, b: Seq<char>) -> bool
    decreases a.len(),
{
    if a.len() == 0 {
        b.len() > 0
    } else if b.len() == 0 {
        false
    } else if a[0] != b[0] {
        (a[0] as u32) < (b[0] as u32)
    } else {
        lex_lt(a.drop_first(), b.drop_first())
    }
}

/// The order compares code points, first difference first, and a proper
/// prefix comes before the longer text.
pub proof fn law_lex_order_by_code_point(a: Seq<char>, b: Seq<char>, c: char, d: char)
    ensures
        lex_lt(seq![c], seq![d]) <==> (c as u32) < (d as u32),
        b.len() > 0 ==> lex_lt(a, a + b),
        (c as u32) < (d as u32) ==> lex_lt(a + seq![c] + b, a + seq![d]),
    decreases a.len(),
{
    assert(seq![c].drop_first() =~= Seq::<char>::empty());
    assert(seq![d].drop_first() =~= Seq::<char>::empty());
    if c == d {
        lemma_lex_irreflexive(seq![c]);
    }
    if a.len() > 0 {
        law_lex_order_by_code_point(a.drop_first(), b, c, d);
        assert((a + b).drop_first() =~= a.drop_first() + b);
        assert((a + seq![c] + b).drop_first() =~= a.drop_first() + seq![c] + b);
        assert((a + seq![d]).drop_first() =~= a.drop_first() + seq![d]);
    } else {
        assert(a + b =~= b);
        assert(a + seq![c] + b =~= seq![c] + b);
        assert(a + seq![d] =~= seq![d]);
        assert((seq![c] + b)[0] == c);
    }
}

pub proof fn lemma_lex_irreflexive(a: Seq<char>)
    ensures
        !lex_lt(a, a),
    decreases a.len(),
{
    if a.len() > 0 {
        lemma_lex_irreflexive(a.drop_first());
    }
}

pub proof fn lemma_lex_transitive(a: Seq<char>, b: Seq<char>, c: Seq<char>)
    requires
        lex_lt(a, b),
        lex_lt(b, c),
    ensures
        lex_lt(a, c),
    decreases a.len(),
{
    if a.len() > 0 && b.len() > 0 && c.len() > 0 {
        if a[0] == b[0] && b[0] == c[0] {
            lemma_lex_transitive(a.drop_first(), b.drop_first(), c.drop_first());
        }
    }
}

pub proof fn lemma_lex_total(a: Seq<char>, b: Seq<char>)
    ensures
        a == b || lex_lt(a, b) || lex_lt(b, a),
    decreases a.len(),
{
    if a.len() > 0 && b.len() > 0 {
        if a[0] == b[0] {
            lemma_lex_total(a.drop_first(), b.drop_first());
            if a.drop_first() == b.drop_first() {
                assert(a =~= seq![a[0]] + a.drop_first());
                assert(b =~= seq![b[0]] + b.drop_first());
            }
        } else {
            let u: u32 = a[0] as u32;
            if u == (b[0] as u32) {
                vstd::utf8::char_u32_cast(a[0], u);
                vstd::utf8::char_u32_cast(b[0], u);
                assert(a[0] == b[0]);
            }
        }
    } else if a.len() == 0 && b.len() == 0 {
        assert(a =~= b);
    }
}

/// Whether `a` comes before `b` in lexicographic order.
pub fn lex_less(a: &str, b: &str) -> (r: bool)
    ensures
        r == lex_lt(a@, b@),
{
    let x = chars_of(a);
    let y = chars_of(b);
    let mut i: usize = 0;
    assert(x@.skip(0) =~= x@);
    assert(y@.skip(0) =~= y@);
    while i < x.len() && i < y.len() && x[i] == y[i]
        invariant
            x@ == a@,
            y@ == b@,
            i <= x@.len(),
            i <= y@.len(),
            lex_lt(a@, b@) == lex_lt(x@.skip(i as int), y@.skip(i as int)),
        decreases x.len() - i,
    {
        assert(x@.skip(i as int).drop_first() =~= x@.skip(i + 1));
        assert(y@.skip(i as int).drop_first() =~= y@.skip(i + 1));
        i = i + 1;
    }
    if i == x.len() {
        i < y.len()
    } else if i == y.len() {
        false
    } else {
        (x[i] as u32) < (y[i] as u32)
    }
}

/// The texts of a sequence of strings.
pub open spec fn texts(v: Seq<String>) -> Seq<Seq<char>> {
    v.map_values(|t: String| t@)
}

/// Strictly increasing in lexicographic order: sorted, with no duplicates.
pub open spec fn strictly_sorted(v: Seq<Seq<char>>) -> bool {
    forall|i: int, j: int| 0 <= i < j < v.len() ==> lex_lt(#[trigger] v[i], #[trigger] v[j])
}

/// Adds `x` to a strictly sorted vector, where it belongs, unless it is there.
fn insert_sorted(v: &mut Vec<String>, x: String)
    requires
        strictly_sorted(texts(old(v)@)),
    ensures
        strictly_sorted(texts(final(v)@)),
        forall|t: Seq<char>| #[trigger]
            texts(final(v)@).contains(t) <==> texts(old(v)@).contains(t) || t == x@,
{
    let ghost old_v = texts(v@);
    let mut k: usize = 0;
    while k < v.len() && lex_less(v[k].as_str(), x.as_str())
        invariant
            texts(v@) == old_v,
            strictly_sorted(old_v),
            k <= v@.len(),
            forall|i: int| 0 <= i < k ==> lex_lt(#[trigger] old_v[i], x@),
        decreases v.len() - k,
    {
        assert(old_v[k as int] == v@[k as int]@);
        k = k + 1;
    }
    if k < v.len() && v[k] == x {
        assert(old_v[k as int] == x@);
        return;
    }
    proof {
        if k < v@.len() {
            lemma_lex_total(old_v[k as int], x@);
        }
        assert forall|j: int| k <= j < old_v.len() implies lex_lt(x@, #[trigger] old_v[j]) by {
            if j > k {
                lemma_lex_transitive(x@, old_v[k as int], old_v[j]);
            }
        }
    }
    v.insert(k, x);
    let ghost nv = texts(v@);
    assert(nv =~= old_v.insert(k as int, x@));
    assert forall|i: int, j: int| 0 <= i < j < nv.len() implies lex_lt(
        #[trigger] nv[i],
        #[trigger] nv[j],
    ) by {
        if j < k {
        } else if j == k {
        } else if i < k {
            assert(nv[j] == old_v[j - 1]);
            lemma_lex_transitive(nv[i], x@, nv[j]);
        } else if i == k {
            assert(nv[j] == old_v[j - 1]);
        } else {
            assert(nv[i] == old_v[i - 1]);
            assert(nv[j] == old_v[j - 1]);
        }
    }
    assert forall|t: Seq<char>| #[trigger] nv.contains(t) <==> old_v.contains(t) || t == x@ by {
        if old_v.contains(t) {
            let i = choose|i: int| 0 <= i < old_v.len() && old_v[i] == t;
            if i < k {
                assert(nv[i] == t);
            } else {
                assert(nv[i + 1] == t);
            }
        }
        if t == x@ {
            assert(nv[k as int] == t);
        }
        if nv.contains(t) {
            let i = choose|i: int| 0 <= i < nv.len() && nv[i] == t;
            if i < k {
                assert(old_v[i] == t);
            } else if i > k {
                assert(old_v[i - 1] == t);
            }
        }
    }
}

/// Two strictly sorted listings of the same texts are equal: a sorted,
/// duplicate-free list is determined by the set it lists, so the scans below
/// depend only on which extensions occur, not on their order or repetition.
pub proof fn law_sorted_listing_unique(v: Seq<Seq<char>>, w: Seq<Seq<char>>)
    requires
        strictly_sorted(v),
        strictly_sorted(w),
        forall|t: Seq<char>| v.contains(t) <==> w.contains(t),
    ensures
        v == w,
    decreases v.len(),
{
    if v.len() == 0 {
        if w.len() > 0 {
            assert(w.contains(w[0]));
        }
        assert(v =~= w);
    } else {
        assert(v.contains(v[0]));
        let j = choose|j: int| 0 <= j < w.len() && w[j] == v[0];
        assert(w.contains(w[0]));
        let i = choose|i: int| 0 <= i < v.len() && v[i] == w[0];
        if j > 0 {
            if i > 0 {
                assert(lex_lt(v[0], v[i]));
                assert(lex_lt(w[0], w[j]));
                lemma_lex_transitive(v[0], w[0], v[0]);
                lemma_lex_irreflexive(v[0]);
            } else {
                assert(lex_lt(w[0], w[j]));
                lemma_lex_irreflexive(v[0]);
            }
        }
        assert(w[0] == v[0]);
        let (v1, w1) = (v.drop_first(), w.drop_first());
        assert forall|t: Seq<char>| v1.contains(t) <==> w1.contains(t) by {
            if v1.contains(t) {
                let k = choose|k: int| 0 <= k < v1.len() && v1[k] == t;
                assert(lex_lt(v[0], v[k + 1]));
                lemma_lex_irreflexive(t);
                assert(w.contains(t));
                let m = choose|m: int| 0 <= m < w.len() && w[m] == t;
                assert(m != 0);
                assert(w1[m - 1] == t);
            }
            if w1.contains(t) {
                let k = choose|k: int| 0 <= k < w1.len() && w1[k] == t;
                assert(lex_lt(w[0], w[k + 1]));
                lemma_lex_irreflexive(t);
                assert(v.contains(t));
                let m = choose|m: int| 0 <= m < v.len() && v[m] == t;
                assert(m != 0);
                assert(v1[m - 1] == t);
            }
        }
        assert(strictly_sorted(v1)) by {
            assert forall|a: int, b: int| 0 <= a < b < v1.len() implies lex_lt(
                #[trigger] v1[a],
                #[trigger] v1[b],
            ) by {
                assert(v1[a] == v[a + 1] && v1[b] == v[b + 1]);
            }
        }
        assert(strictly_sorted(w1)) by {
            assert forall|a: int, b: int| 0 <= a < b < w1.len() implies lex_lt(
                #[trigger] w1[a],
                #[trigger] w1[b],
            ) by {
                assert(w1[a] == w[a + 1] && w1[b] == w[b + 1]);
            }
        }
        law_sorted_listing_unique(v1, w1);
        assert(v =~= seq![v[0]] + v1);
        assert(w =~= seq![w[0]] + w1);
    }
}

/// Some extension among the first `n` of `exts` has lowercase form `t`.
pub open spec fn lowercase_of_some(exts: Seq<String>, n: int, t: Seq<char>) -> bool {
    exists|i: int| 0 <= i < n && t == lowercase(#[trigger] exts[i]@)
}

/// Some extension among the first `n` of `exts` has ASCII lowercase form `t`.
pub open spec fn ascii_lowercase_of_some(exts: Seq<String>, n: int, t: Seq<char>) -> bool {
    exists|i: int| 0 <= i < n && t == ascii_lowercase(#[trigger] exts[i]@)
}

/// The extensions found in a scan, lowercased, without duplicates and sorted
/// alphabetically; ASCII extensions are listed in ASCII lowercase.
pub fn scan_unique_extensions(extensions: &[String]) -> (r: Vec<String>)
    ensures
        strictly_sorted(texts(r@)),
        forall|t: Seq<char>| #[trigger]
            texts(r@).contains(t) <==> lowercase_of_some(extensions@, extensions@.len() as int, t),
        all_ascii(extensions@) ==> forall|t: Seq<char>| #[trigger]
            texts(r@).contains(t) <==> ascii_lowercase_of_some(
                extensions@,
                extensions@.len() as int,
                t,
            ),
{
    let mut out: Vec<String> = Vec::new();
    let mut i: usize = 0;
    assert(texts(out@) =~= Seq::<Seq<char>>::empty());
    while i < extensions.len()
        invariant
            i <= extensions@.len(),
            strictly_sorted(texts(out@)),
            forall|t: Seq<char>| #[trigger]
                texts(out@).contains(t) <==> lowercase_of_some(extensions@, i as int, t),
            forall|j: int|
                0 <= j < i && is_ascii_text(#[trigger] extensions@[j]@) ==> lowercase(
                    extensions@[j]@,
                ) == ascii_lowercase(extensions@[j]@),
        decreases extensions.len() - i,
    {
        let lower = to_lowercase(extensions[i].as_str());
        let ghost prev = texts(out@);
        insert_sorted(&mut out, lower);
        assert forall|t: Seq<char>| #[trigger]
            texts(out@).contains(t) <==> lowercase_of_some(extensions@, i + 1, t) by {
            if lowercase_of_some(extensions@, i + 1, t) {
                let j = choose|j: int| 0 <= j < i + 1 && t == lowercase(#[trigger] extensions@[j]@);
                if j < i {
                    assert(lowercase_of_some(extensions@, i as int, t));
                }
            }
            if texts(out@).contains(t) && !prev.contains(t) {
                assert(t == lowercase(extensions@[i as int]@));
            }
            if prev.contains(t) {
                let j = choose|j: int| 0 <= j < i && t == lowercase(#[trigger] extensions@[j]@);
            }
        }
        i = i + 1;
    }
    proof {
        let n = extensions@.len() as int;
        if all_ascii(extensions@) {
            assert forall|t: Seq<char>|
                lowercase_of_some(extensions@, n, t) <==> ascii_lowercase_of_some(
                    extensions@,
                    n,
                    t,
                ) by {
                if lowercase_of_some(extensions@, n, t) {
                    let j = choose|j: int| 0 <= j < n && t == lowercase(#[trigger] extensions@[j]@);
                    assert(is_ascii_text(extensions@[j]@));
                }
                if ascii_lowercase_of_some(extensions@, n, t) {
                    let j = choose|j: int|
                        0 <= j < n && t == ascii_lowercase(#[trigger] extensions@[j]@);
                    assert(is_ascii_text(extensions@[j]@));
                }
            }
        }
    }
    out
}

/// Some extension among `exts` that converts to `target` has lowercase form
/// `t`.
pub open spec fn convertible_lowercase_of_some(
    exts: Seq<String>,
    n: int,
    target: Seq<char>,
    t: Seq<char>,
) -> bool {
    exists|i: int| 0 <= i < n && convertible(#[trigger] exts[i]@, target) && t == lowercase(exts[i]@)
}

/// Some ASCII extension among `exts` that converts to `target` has ASCII
/// lowercase form `t`.
pub open spec fn ascii_convertible_lowercase_of_some(
    exts: Seq<String>,
    n: int,
    target: Seq<char>,
    t: Seq<char>,
) -> bool {
    exists|i: int|
        0 <= i < n && ascii_convertible(#[trigger] exts[i]@, target) && t == ascii_lowercase(
            exts[i]@,
        )
}

/// The extensions found in a scan that can be converted to `target_format`,
/// lowercased, without duplicates and sorted alphabetically.
pub fn scan_convertible_extensions(extensions: &[String], target_format: &str) -> (r: Vec<String>)
    ensures
        strictly_sorted(texts(r@)),
        forall|t: Seq<char>| #[trigger]
            texts(r@).contains(t) <==> convertible_lowercase_of_some(
                extensions@,
                extensions@.len() as int,
                target_format@,
                t,
            ),
        all_ascii(extensions@) && is_ascii_text(target_format@) ==> forall|t: Seq<char>|
            #[trigger] texts(r@).contains(t) <==> ascii_convertible_lowercase_of_some(
                extensions@,
                extensions@.len() as int,
                target_format@,
                t,
            ),
{
    let mut out: Vec<String> = Vec::new();
    let mut i: usize = 0;
    assert(texts(out@) =~= Seq::<Seq<char>>::empty());
    while i < extensions.len()
        invariant
            i <= extensions@.len(),
            strictly_sorted(texts(out@)),
            forall|t: Seq<char>| #[trigger]
                texts(out@).contains(t) <==> convertible_lowercase_of_some(
                    extensions@,
                    i as int,
                    target_format@,
                    t,
                ),
            forall|j: int|
                0 <= j < i && is_ascii_text(#[trigger] extensions@[j]@) && is_ascii_text(
                    target_format@,
                ) ==> lowercase(extensions@[j]@) == ascii_lowercase(extensions@[j]@) && convertible(
                    extensions@[j]@,
                    target_format@,
                ) == ascii_convertible(extensions@[j]@, target_format@),
        decreases extensions.len() - i,
    {
        let ghost prev = texts(out@);
        if can_convert(extensions[i].as_str(), target_format) {
            let lower = to_lowercase(extensions[i].as_str());
            insert_sorted(&mut out, lower);
        }
        assert forall|t: Seq<char>| #[trigger]
            texts(out@).contains(t) <==> convertible_lowercase_of_some(
                extensions@,
                i + 1,
                target_format@,
                t,
            ) by {
            if convertible_lowercase_of_some(extensions@, i + 1, target_format@, t) {
                let j = choose|j: int|
                    0 <= j < i + 1 && convertible(#[trigger] extensions@[j]@, target_format@) && t
                        == lowercase(extensions@[j]@);
                if j < i {
                    assert(convertible_lowercase_of_some(extensions@, i as int, target_format@, t));
                }
            }
            if texts(out@).contains(t) && !prev.contains(t) {
                assert(t == lowercase(extensions@[i as int]@));
                assert(convertible(extensions@[i as int]@, target_format@));
            }
            if prev.contains(t) {
                let j = choose|j: int|
                    0 <= j < i && convertible(#[trigger] extensions@[j]@, target_format@) && t
                        == lowercase(extensions@[j]@);
            }
        }
        i = i + 1;
    }
    proof {
        let n = extensions@.len() as int;
        let tf = target_format@;
        if all_ascii(extensions@) && is_ascii_text(tf) {
            assert forall|t: Seq<char>|
                convertible_lowercase_of_some(extensions@, n, tf, t)
                    <==> ascii_convertible_lowercase_of_some(extensions@, n, tf, t) by {
                if convertible_lowercase_of_some(extensions@, n, tf, t) {
                    let j = choose|j: int|
                        0 <= j < n && convertible(#[trigger] extensions@[j]@, tf) && t == lowercase(
                            extensions@[j]@,
                        );
                    assert(is_ascii_text(extensions@[j]@));
                }
                if ascii_convertible_lowercase_of_some(extensions@, n, tf, t) {
                    let j = choose|j: int|
                        0 <= j < n && ascii_convertible(#[trigger] extensions@[j]@, tf) && t
                            == ascii_lowercase(extensions@[j]@);
                    assert(is_ascii_text(extensions@[j]@));
                }
            }
        }
    }
    out
}

proof fn lemma_ascii_lowercase_idempotent(s: Seq<char>)
    ensures
        ascii_lowercase(ascii_lowercase(s)) == ascii_lowercase(s),
{
    let once = ascii_lowercase(s);
    assert forall|i: int| 0 <= i < s.len() implies ascii_lowercase(once)[i] == once[i] by {
        let c = s[i];
        if 'A' <= c && c <= 'Z' {
            let u: u32 = ((c as u32) + 32) as u32;
            vstd::utf8::char_u32_cast(once[i], once[i] as u32);
            assert(97 <= u <= 122);
            assert(once[i] == (u as char));
            assert(!('A' <= once[i] && once[i] <= 'Z'));
        }
    }
    assert(ascii_lowercase(once) =~= once);
}

/// Filtering keeps a strictly sorted sequence strictly sorted, and keeps only
/// its elements.
proof fn lemma_filter_sorted(s: Seq<Seq<char>>, pred: spec_fn(Seq<char>) -> bool)
    requires
        strictly_sorted(s),
    ensures
        strictly_sorted(s.filter(pred)),
        forall|t: Seq<char>| s.filter(pred).contains(t) <==> s.contains(t) && pred(t),
    decreases s.len(),
{
    reveal(Seq::filter);
    if s.len() > 0 {
        let rest = s.drop_last();
        assert(strictly_sorted(rest)) by {
            assert forall|a: int, b: int| 0 <= a < b < rest.len() implies lex_lt(
                #[trigger] rest[a],
                #[trigger] rest[b],
            ) by {
                assert(rest[a] == s[a] && rest[b] == s[b]);
            }
        }
        lemma_filter_sorted(rest, pred);
        let f = s.filter(pred);
        let fr = rest.filter(pred);
        assert(f == if pred(s.last()) {
            fr.push(s.last())
        } else {
            fr
        });
        assert forall|t: Seq<char>| f.contains(t) <==> s.contains(t) && pred(t) by {
            if f.contains(t) {
                let k = choose|k: int| 0 <= k < f.len() && f[k] == t;
                if pred(s.last()) && k == f.len() - 1 {
                    assert(s[s.len() - 1] == t);
                } else {
                    assert(fr[k] == t);
                    assert(fr.contains(t));
                    assert(rest.contains(t));
                    let m = choose|m: int| 0 <= m < rest.len() && rest[m] == t;
                    assert(rest[m] == s[m]);
                    assert(s.contains(t));
                }
            }
            if s.contains(t) && pred(t) {
                let m = choose|m: int| 0 <= m < s.len() && s[m] == t;
                assert(f.contains(s[m]));
            }
        }
        if pred(s.last()) {
            assert forall|a: int, b: int| 0 <= a < b < f.len() implies lex_lt(
                #[trigger] f[a],
                #[trigger] f[b],
            ) by {
                assert(f[a] == fr[a]);
                if b < f.len() - 1 {
                    assert(f[b] == fr[b]);
                } else {
                    assert(fr.contains(fr[a]));
                    assert(rest.contains(fr[a]));
                    let m = choose|m: int| 0 <= m < rest.len() && rest[m] == fr[a];
                    assert(rest[m] == s[m]);
                    assert(f[b] == s[s.len() - 1]);
                    assert(lex_lt(s[m], s[s.len() - 1]));
                }
            }
        } else {
            assert(f == fr);
        }
    }
}

/// For ASCII extensions and an ASCII target, the convertible listing is the
/// unique listing with the entries that `can_convert` rejects removed: the two
/// scans of one folder agree. (`can_convert` on ASCII names is
/// `ascii_convertible`.)
pub proof fn law_convertible_listing_filters_unique_listing(
    exts: Seq<String>,
    target: Seq<char>,
    unique: Seq<Seq<char>>,
    convertible_listing: Seq<Seq<char>>,
)
    requires
        all_ascii(exts),
        is_ascii_text(target),
        strictly_sorted(unique),
        forall|t: Seq<char>| #[trigger]
            unique.contains(t) <==> ascii_lowercase_of_some(exts, exts.len() as int, t),
        strictly_sorted(convertible_listing),
        forall|t: Seq<char>| #[trigger]
            convertible_listing.contains(t) <==> ascii_convertible_lowercase_of_some(
                exts,
                exts.len() as int,
                target,
                t,
            ),
    ensures
        convertible_listing == unique.filter(|e: Seq<char>| ascii_convertible(e, target)),
{
    let pred = |e: Seq<char>| ascii_convertible(e, target);
    let f = unique.filter(pred);
    lemma_filter_sorted(unique, pred);
    let n = exts.len() as int;
    assert forall|t: Seq<char>| convertible_listing.contains(t) <==> f.contains(t) by {
        if convertible_listing.contains(t) {
            let i = choose|i: int|
                0 <= i < n && ascii_convertible(#[trigger] exts[i]@, target) && t == ascii_lowercase(
                    exts[i]@,
                );
            lemma_ascii_lowercase_idempotent(exts[i]@);
            assert(ascii_lowercase_of_some(exts, n, t));
            assert(unique.contains(t));
            assert(pred(t));
        }
        if f.contains(t) {
            assert(unique.contains(t) && pred(t));
            let i = choose|i: int| 0 <= i < n && t == ascii_lowercase(#[trigger] exts[i]@);
            lemma_ascii_lowercase_idempotent(exts[i]@);
            assert(ascii_convertible_lowercase_of_some(exts, n, target, t));
        }
    }
    law_sorted_listing_unique(convertible_listing, f);
}

/// Whether a file with extension `ext` is taken into a batch conversion to
/// `target_format`: its lowercase form is among the allowed extensions, and it
/// can be converted to the target.
pub fn accepts_input(ext: &str, allowed_input_extensions: &[String], target_format: &str) -> (r:
    bool)
    ensures
        r == ((exists|i: int|
            0 <= i < allowed_input_extensions@.len() && #[trigger] allowed_input_extensions@[i]@
                == lowercase(ext@)) && convertible(ext@, target_format@)),
        is_ascii_text(ext@) && is_ascii_text(target_format@) ==> r == ((exists|i: int|
            0 <= i < allowed_input_extensions@.len() && #[trigger] allowed_input_extensions@[i]@
                == ascii_lowercase(ext@)) && ascii_convertible(ext@, target_format@)),
{
    let lower = to_lowercase(ext);
    let mut found = false;
    let mut i: usize = 0;
    while i < allowed_input_extensions.len()
        invariant
            i <= allowed_input_extensions@.len(),
            lower@ == lowercase(ext@),
            found == (exists|j: int|
                0 <= j < i && #[trigger] allowed_input_extensions@[j]@ == lowercase(ext@)),
        decreases allowed_input_extensions.len() - i,
    {
        if allowed_input_extensions[i] == lower {
            found = true;
        }
        i = i + 1;
    }
    found && can_convert(ext, target_format)
}

/// The extraction pattern that selects the files with extension `ext`: a
/// regular expression for a name ending in `.` and `ext`.
pub fn extension_pattern(ext: &str) -> (r: String)
    ensures
        r@ == seq!['\\', '.'] + ext@ + seq!['$'],
{
    let mut r = String::from_str("\\.");
    r.append(ext);
    r.append("$");
    proof {
        reveal_strlit("\\.");
        reveal_strlit("$");
    }
    r
}

} // verus!
