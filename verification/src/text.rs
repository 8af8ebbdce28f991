//! Character-level text utilities: whitespace, trimming, line splitting,
//! text equality and ordering, and decimal numerals.

use vstd::prelude::*;

verus! {

/// Copies the characters of `s` into a vector.
pub fn chars_of(s: &str) -> (v: Vec<char>)
    ensures
        v@ == s@,
{
    let mut v: Vec<char> = Vec::new();
    for c in it: s.chars()
        invariant
            v@ == it.seq().take(it.index() as int),
            it.seq() == s@,
    {
        v.push(c);
    }
    v
}

/// The characters with the Unicode `White_Space` property, which is what
/// `char::is_whitespace` and therefore `str::trim` remove.
pub open spec fn is_ws(c: char) -> bool {
    let u: u32 = c as u32;
    ||| 0x09 <= u <= 0x0D
    ||| u == 0x20
    ||| u == 0x85
    ||| u == 0xA0
    ||| u == 0x1680
    ||| 0x2000 <= u <= 0x200A
    ||| u == 0x2028
    ||| u == 0x2029
    ||| u == 0x202F
    ||| u == 0x205F
    ||| u == 0x3000
}

/// Whether `c` is a whitespace character.
pub fn is_whitespace(c: char) -> (b: bool)
    ensures
        b == is_ws(c),
{
    let u: u32 = c as u32;
    (0x09 <= u && u <= 0x0D) || u == 0x20 || u == 0x85 || u == 0xA0 || u == 0x1680
        || (0x2000 <= u && u <= 0x200A) || u == 0x2028 || u == 0x2029 || u == 0x202F
        || u == 0x205F || u == 0x3000
}

/// The first index in `[i, b)` of `s` that holds no whitespace, or `b`.
pub open spec fn skip_ws(s: Seq<char>, i: int, b: int) -> int
    decreases b - i,
{
    if i < b && is_ws(s[i]) {
        skip_ws(s, i + 1, b)
    } else {
        i
    }
}

/// The end of `[a, j)` of `s` once trailing whitespace is dropped.
pub open spec fn drop_ws_back(s: Seq<char>, a: int, j: int) -> int
    decreases j - a,
{
    if a < j && is_ws(s[j - 1]) {
        drop_ws_back(s, a, j - 1)
    } else {
        j
    }
}

/// The bounds of the range `[a, b)` of `s` with leading and trailing
/// whitespace removed, as `str::trim` removes it.
pub open spec fn trim_span(s: Seq<char>, a: int, b: int) -> (int, int) {
    let lo: int = skip_ws(s, a, b);
    (lo, drop_ws_back(s, lo, b))
}

pub proof fn lemma_skip_ws(s: Seq<char>, i: int, b: int)
    requires
        0 <= i <= b <= s.len(),
    ensures
        i <= skip_ws(s, i, b) <= b,
        skip_ws(s, i, b) < b ==> !is_ws(s[skip_ws(s, i, b)]),
        forall|k: int| i <= k < skip_ws(s, i, b) ==> is_ws(#[trigger] s[k]),
    decreases b - i,
{
    if i < b && is_ws(s[i]) {
        lemma_skip_ws(s, i + 1, b);
    }
}

pub proof fn lemma_drop_ws_back(s: Seq<char>, a: int, j: int)
    requires
        0 <= a <= j <= s.len(),
    ensures
        a <= drop_ws_back(s, a, j) <= j,
        a < drop_ws_back(s, a, j) ==> !is_ws(s[drop_ws_back(s, a, j) - 1]),
        forall|k: int| drop_ws_back(s, a, j) <= k < j ==> is_ws(#[trigger] s[k]),
    decreases j - a,
{
    if a < j && is_ws(s[j - 1]) {
        lemma_drop_ws_back(s, a, j - 1);
    }
}

/// What a trimmed range satisfies: it lies inside the range, and is empty or
/// neither starts nor ends with whitespace.
pub proof fn lemma_trim_span(s: Seq<char>, a: int, b: int)
    requires
        0 <= a <= b <= s.len(),
    ensures
        a <= trim_span(s, a, b).0 <= trim_span(s, a, b).1 <= b,
        trim_span(s, a, b).0 < trim_span(s, a, b).1 ==> !is_ws(s[trim_span(s, a, b).0]) && !is_ws(
            s[trim_span(s, a, b).1 - 1],
        ),
{
    lemma_skip_ws(s, a, b);
    lemma_drop_ws_back(s, skip_ws(s, a, b), b);
}

/// `x` with leading and trailing whitespace removed, as `str::trim` gives it.
pub open spec fn trimmed(x: Seq<char>) -> Seq<char> {
    x.subrange(trim_span(x, 0, x.len() as int).0, trim_span(x, 0, x.len() as int).1)
}

proof fn lemma_skip_ws_shift(s: Seq<char>, a: int, b: int, i: int)
    requires
        0 <= a <= i <= b <= s.len(),
    ensures
        skip_ws(s.subrange(a, b), i - a, b - a) == skip_ws(s, i, b) - a,
    decreases b - i,
{
    if i < b {
        assert(s.subrange(a, b)[i - a] == s[i]);
        lemma_skip_ws_shift(s, a, b, i + 1);
    }
}

proof fn lemma_drop_ws_back_shift(s: Seq<char>, a: int, b: int, lo: int, j: int)
    requires
        0 <= a <= lo <= j <= b <= s.len(),
    ensures
        drop_ws_back(s.subrange(a, b), lo - a, j - a) == drop_ws_back(s, lo, j) - a,
    decreases j - lo,
{
    if lo < j {
        assert(s.subrange(a, b)[j - 1 - a] == s[j - 1]);
        lemma_drop_ws_back_shift(s, a, b, lo, j - 1);
    }
}

/// Trimming the text of a range of `s` gives the text of its trimmed range.
pub proof fn lemma_trimmed_range(s: Seq<char>, a: int, b: int)
    requires
        0 <= a <= b <= s.len(),
    ensures
        trimmed(s.subrange(a, b)) == s.subrange(trim_span(s, a, b).0, trim_span(s, a, b).1),
{
    let x = s.subrange(a, b);
    lemma_skip_ws_shift(s, a, b, a);
    lemma_skip_ws(s, a, b);
    let lo = skip_ws(s, a, b);
    lemma_drop_ws_back_shift(s, a, b, lo, b);
    lemma_trim_span(s, a, b);
    assert(x.len() == b - a);
    let t = trim_span(s, a, b);
    assert(trim_span(x, 0, x.len() as int) == (t.0 - a, t.1 - a));
    assert(trimmed(x) =~= s.subrange(t.0, t.1));
}

/// Computes `trim_span(s@, a, b)`.
pub fn trim_bounds(s: &Vec<char>, a: usize, b: usize) -> (r: (usize, usize))
    requires
        a <= b <= s@.len(),
    ensures
        r.0 as int == trim_span(s@, a as int, b as int).0,
        r.1 as int == trim_span(s@, a as int, b as int).1,
        a <= r.0 <= r.1 <= b,
{
    let mut lo: usize = a;
    while lo < b && is_whitespace(s[lo])
        invariant
            a <= lo <= b <= s@.len(),
            skip_ws(s@, lo as int, b as int) == skip_ws(s@, a as int, b as int),
        decreases b - lo,
    {
        lo = lo + 1;
    }
    let mut hi: usize = b;
    while lo < hi && is_whitespace(s[hi - 1])
        invariant
            a <= lo <= hi <= b <= s@.len(),
            drop_ws_back(s@, lo as int, hi as int) == drop_ws_back(s@, lo as int, b as int),
        decreases hi - lo,
    {
        hi = hi - 1;
    }
    (lo, hi)
}

/// The first index at or after `i` that holds a line feed, or the length.
pub open spec fn line_feed_from(s: Seq<char>, i: int) -> int
    decreases s.len() - i,
{
    if 0 <= i < s.len() && s[i] != '\n' {
        line_feed_from(s, i + 1)
    } else {
        i
    }
}

pub proof fn lemma_line_feed_from(s: Seq<char>, i: int)
    requires
        0 <= i <= s.len(),
    ensures
        i <= line_feed_from(s, i) <= s.len(),
        line_feed_from(s, i) < s.len() ==> s[line_feed_from(s, i)] == '\n',
        forall|k: int| i <= k < line_feed_from(s, i) ==> #[trigger] s[k] != '\n',
    decreases s.len() - i,
{
    if i < s.len() && s[i] != '\n' {
        lemma_line_feed_from(s, i + 1);
    }
}

/// Where the line that starts at `i` and whose line feed is at `lf` ends:
/// a carriage return just before the line feed is not part of the line.
pub open spec fn line_end(s: Seq<char>, i: int, lf: int) -> int {
    if lf < s.len() && i < lf && s[lf - 1] == '\r' {
        lf - 1
    } else {
        lf
    }
}

/// The lines of `s` from index `i` on, as `[start, end)` ranges of `s`,
/// split as `str::lines` splits: at each line feed, with one carriage return
/// before it dropped, and with no empty line after a final line feed.
pub open spec fn lines_from(s: Seq<char>, i: int) -> Seq<(int, int)>
    decreases s.len() + 1 - i,
{
    if i < 0 || i >= s.len() {
        Seq::empty()
    } else {
        let lf: int = line_feed_from(s, i);
        proof {
            lemma_line_feed_from(s, i);
        }
        seq![(i, line_end(s, i, lf))] + lines_from(s, lf + 1)
    }
}

/// The lines of `s`, as `str::lines` yields them.
pub open spec fn lines(s: Seq<char>) -> Seq<(int, int)> {
    lines_from(s, 0)
}

/// Every line range lies inside `s`, starts where it is after `i`, and
/// lines follow each other in order.
pub proof fn lemma_lines_from_bounds(s: Seq<char>, i: int)
    requires
        0 <= i,
    ensures
        forall|k: int|
            0 <= k < lines_from(s, i).len() ==> i <= #[trigger] lines_from(s, i)[k].0
                <= lines_from(s, i)[k].1 <= s.len() && lines_from(s, i)[k].0 < s.len(),
        forall|k: int|
            0 <= k < lines_from(s, i).len() - 1 ==> #[trigger] lines_from(s, i)[k].1 < lines_from(
                s,
                i,
            )[k + 1].0,
    decreases s.len() + 1 - i,
{
    if i < s.len() {
        let lf: int = line_feed_from(s, i);
        lemma_line_feed_from(s, i);
        lemma_lines_from_bounds(s, lf + 1);
        let rest = lines_from(s, lf + 1);
        assert forall|k: int| 0 <= k < lines_from(s, i).len() implies i <= #[trigger] lines_from(
            s,
            i,
        )[k].0 <= lines_from(s, i)[k].1 <= s.len() && lines_from(s, i)[k].0 < s.len() by {
            if k > 0 {
                assert(lines_from(s, i)[k] == rest[k - 1]);
            }
        }
        assert forall|k: int| 0 <= k < lines_from(s, i).len() - 1 implies #[trigger] lines_from(
            s,
            i,
        )[k].1 < lines_from(s, i)[k + 1].0 by {
            assert(lines_from(s, i)[k + 1] == rest[k]);
            if k > 0 {
                assert(lines_from(s, i)[k] == rest[k - 1]);
            }
        }
    }
}

/// No line feed lies in the range `[a, b)` of `s`.
pub open spec fn no_line_feed_in(s: Seq<char>, a: int, b: int) -> bool {
    forall|j: int| a <= j < b ==> s[j] != '\n'
}

/// Lines hold no line feed, and there are no more lines than characters
/// after `i`.
pub proof fn lemma_lines_from_shape(s: Seq<char>, i: int)
    requires
        0 <= i <= s.len(),
    ensures
        lines_from(s, i).len() <= s.len() - i,
        forall|k: int|
            0 <= k < lines_from(s, i).len() ==> no_line_feed_in(
                s,
                #[trigger] lines_from(s, i)[k].0,
                lines_from(s, i)[k].1,
            ),
    decreases s.len() + 1 - i,
{
    if i < s.len() {
        let lf = line_feed_from(s, i);
        lemma_line_feed_from(s, i);
        let rest = lines_from(s, lf + 1);
        if lf + 1 <= s.len() {
            lemma_lines_from_shape(s, lf + 1);
        }
        assert forall|k: int| 0 <= k < lines_from(s, i).len() implies no_line_feed_in(
            s,
            #[trigger] lines_from(s, i)[k].0,
            lines_from(s, i)[k].1,
        ) by {
            if k > 0 {
                assert(lines_from(s, i)[k] == rest[k - 1]);
            }
        }
    }
}

/// The decimal digits.
pub open spec fn digits() -> Seq<char> {
    seq!['0', '1', '2', '3', '4', '5', '6', '7', '8', '9']
}

/// The decimal numeral of `n`, as `to_string` writes an unsigned integer.
pub open spec fn decimal(n: nat) -> Seq<char>
    decreases n,
{
    if n < 10 {
        seq![digits()[n as int]]
    } else {
        decimal(n / 10).push(digits()[(n % 10) as int])
    }
}

/// The numeral of one digit.
fn digit_text(d: u64) -> (r: &'static str)
    requires
        d < 10,
    ensures
        r@ == seq![digits()[d as int]],
{
    proof {
        reveal_strlit("0");
        reveal_strlit("1");
        reveal_strlit("2");
        reveal_strlit("3");
        reveal_strlit("4");
        reveal_strlit("5");
        reveal_strlit("6");
        reveal_strlit("7");
        reveal_strlit("8");
        reveal_strlit("9");
    }
    let r = match d {
        0 => "0",
        1 => "1",
        2 => "2",
        3 => "3",
        4 => "4",
        5 => "5",
        6 => "6",
        7 => "7",
        8 => "8",
        _ => "9",
    };
    assert(r@ =~= seq![digits()[d as int]]);
    r
}

/// Writes `n` in decimal.
pub fn decimal_string(n: u64) -> (r: String)
    ensures
        r@ == decimal(n as nat),
    decreases n,
{
    if n < 10 {
        String::from_str(digit_text(n))
    } else {
        let mut r = decimal_string(n / 10);
        r.append(digit_text(n % 10));
        r
    }
}

/// The number that a sequence of decimal digits denotes.
pub open spec fn decimal_value(d: Seq<char>) -> int
    decreases d.len(),
{
    if d.len() == 0 {
        0
    } else {
        decimal_value(d.drop_last()) * 10 + ((d.last() as u32) - ('0' as u32))
    }
}

/// The numeral of `n` denotes `n`.
pub proof fn lemma_decimal_value(n: nat)
    ensures
        decimal_value(decimal(n)) == n,
    decreases n,
{
    let d = decimal(n);
    let k = (n % 10) as int;
    assert(digits()[k] as u32 - '0' as u32 == k) by {
        if k == 0 {
        } else if k == 1 {
        } else if k == 2 {
        } else if k == 3 {
        } else if k == 4 {
        } else if k == 5 {
        } else if k == 6 {
        } else if k == 7 {
        } else if k == 8 {
        } else {
        }
    }
    if n >= 10 {
        lemma_decimal_value(n / 10);
        assert(d.drop_last() =~= decimal(n / 10));
        assert(d.last() == digits()[k]);
        assert((n / 10) * 10 + n % 10 == n) by (nonlinear_arith);
        assert(decimal_value(d) == decimal_value(d.drop_last()) * 10 + ((d.last() as u32) - (
        '0' as u32)));
        assert(decimal_value(d) == (n / 10) as int * 10 + k);
    } else {
        assert(d.drop_last() =~= Seq::<char>::empty());
        assert(d.last() == digits()[k]);
        assert(decimal_value(d) == decimal_value(d.drop_last()) * 10 + ((d.last() as u32) - (
        '0' as u32)));
        assert(n % 10 == n);
    }
}

/// A numeral is made of decimal digits only.
pub proof fn lemma_decimal_digits(n: nat)
    ensures
        forall|j: int| 0 <= j < decimal(n).len() ==> digits().contains(#[trigger] decimal(n)[j]),
    decreases n,
{
    if n < 10 {
        assert(digits()[n as int] == decimal(n)[0]);
    } else {
        lemma_decimal_digits(n / 10);
        let d = decimal(n);
        assert forall|j: int| 0 <= j < d.len() implies digits().contains(#[trigger] d[j]) by {
            if j < d.len() - 1 {
                assert(d[j] == decimal(n / 10)[j]);
            } else {
                assert(d[j] == digits()[(n % 10) as int]);
            }
        }
    }
}

pub proof fn lemma_decimal_len(n: nat)
    ensures
        decimal(n).len() >= 1,
        n < 10 <==> decimal(n).len() == 1,
    decreases n,
{
    if n >= 10 {
        lemma_decimal_len(n / 10);
    }
}

/// Different numbers have different numerals.
pub proof fn lemma_decimal_injective(a: nat, b: nat)
    requires
        decimal(a) == decimal(b),
    ensures
        a == b,
    decreases a,
{
    lemma_decimal_len(a);
    lemma_decimal_len(b);
    if a < 10 {
        assert(decimal(a)[0] == digits()[a as int]);
        assert(decimal(b)[0] == digits()[b as int]);
    } else {
        let (da, db) = (decimal(a), decimal(b));
        assert(da.drop_last() =~= decimal(a / 10));
        assert(db.drop_last() =~= decimal(b / 10));
        lemma_decimal_injective(a / 10, b / 10);
        assert(da.last() == digits()[(a % 10) as int]);
        assert(db.last() == digits()[(b % 10) as int]);
    }
}

} // verus!
