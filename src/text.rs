use vstd::prelude::*;
use vstd::std_specs::iter::IteratorSpec;

verus! {

/// Relies on `String::push`: appends one character at the end.
#[verifier::external_body]
pub fn push_char(s: &mut String, c: char)
    ensures
        final(s)@ == old(s)@.push(c),
{
    s.push(c);
}

/// Relies on `String::push_str`: appends the characters of `t` at the end.
#[verifier::external_body]
pub fn push_str(s: &mut String, t: &str)
    ensures
        final(s)@ == old(s)@ + t@,
{
    s.push_str(t);
}

/// Relies on `==` on `str`: equal exactly when the characters are.
#[verifier::external_body]
pub fn str_eq(a: &str, b: &str) -> (r: bool)
    ensures
        r == (a@ == b@),
{
    a == b
}

/// The characters of `s`, in order.
pub fn chars_of(s: &str) -> (r: Vec<char>)
    ensures
        r@ == s@,
{
    let mut r: Vec<char> = Vec::new();
    let mut it = s.chars();
    broadcast use vstd::string::group_string_axioms;
    loop
        invariant
            it.obeys_prophetic_iter_laws(),
            r@ + it.remaining() == s@,
            it.decrease() is Some,
        ensures
            r@ == s@,
        decreases it.decrease()->0,
    {
        match it.next() {
            Some(c) => {
                r.push(c);
            }
            None => {
                assert(r@ + it.remaining() =~= r@);
                break;
            }
        }
    }
    r
}

/// The characters `t[lo..hi]` as a `String`.
pub fn string_of(t: &Vec<char>, lo: usize, hi: usize) -> (r: String)
    requires
        lo <= hi <= t@.len(),
    ensures
        r@ == t@.subrange(lo as int, hi as int),
{
    let mut r = String::new();
    let mut i = lo;
    while i < hi
        invariant
            lo <= i <= hi <= t@.len(),
            r@ == t@.subrange(lo as int, i as int),
        decreases hi - i,
    {
        push_char(&mut r, t[i]);
        assert(r@ =~= t@.subrange(lo as int, i + 1));
        i = i + 1;
    }
    r
}

/// The characters for which `char::is_whitespace` holds: Unicode `White_Space`.
pub open spec fn is_ws(c: char) -> bool {
    c == ' ' || ('\t' <= c <= '\r') || c == '\u{85}' || c == '\u{a0}' || c == '\u{1680}' || (
    '\u{2000}' <= c <= '\u{200a}') || c == '\u{2028}' || c == '\u{2029}' || c == '\u{202f}' || c
        == '\u{205f}' || c == '\u{3000}'
}

pub fn is_whitespace(c: char) -> (r: bool)
    ensures
        r == is_ws(c),
{
    c == ' ' || ('\t' <= c && c <= '\r') || c == '\u{85}' || c == '\u{a0}' || c == '\u{1680}' || (
    '\u{2000}' <= c && c <= '\u{200a}') || c == '\u{2028}' || c == '\u{2029}' || c == '\u{202f}'
        || c == '\u{205f}' || c == '\u{3000}'
}

/// The first index in `i..hi` that holds no whitespace, or `hi`.
pub open spec fn skip_ws_spec(s: Seq<char>, i: int, hi: int) -> int
    decreases hi - i,
{
    if i >= hi {
        i
    } else if is_ws(s[i]) {
        skip_ws_spec(s, i + 1, hi)
    } else {
        i
    }
}

/// The end of `s[lo..j]` without its trailing whitespace.
pub open spec fn trim_end_spec(s: Seq<char>, lo: int, j: int) -> int
    decreases j - lo,
{
    if j <= lo {
        j
    } else if is_ws(s[j - 1]) {
        trim_end_spec(s, lo, j - 1)
    } else {
        j
    }
}

pub proof fn lemma_skip_ws_bounds(s: Seq<char>, i: int, hi: int)
    requires
        i <= hi,
    ensures
        i <= skip_ws_spec(s, i, hi) <= hi,
    decreases hi - i,
{
    if i < hi && is_ws(s[i]) {
        lemma_skip_ws_bounds(s, i + 1, hi);
    }
}

pub proof fn lemma_trim_end_bounds(s: Seq<char>, lo: int, j: int)
    requires
        lo <= j,
    ensures
        lo <= trim_end_spec(s, lo, j) <= j,
    decreases j - lo,
{
    if j > lo && is_ws(s[j - 1]) {
        lemma_trim_end_bounds(s, lo, j - 1);
    }
}

/// Skips whitespace from `i`, not past `hi`.
pub fn skip_ws(t: &Vec<char>, i: usize, hi: usize) -> (r: usize)
    requires
        i <= hi <= t@.len(),
    ensures
        r == skip_ws_spec(t@, i as int, hi as int),
        i <= r <= hi,
{
    let mut j = i;
    while j < hi && is_whitespace(t[j])
        invariant
            i <= j <= hi <= t@.len(),
            skip_ws_spec(t@, i as int, hi as int) == skip_ws_spec(t@, j as int, hi as int),
        decreases hi - j,
    {
        j = j + 1;
    }
    j
}

/// The range `t[lo..hi]` without surrounding whitespace.
pub fn trim(t: &Vec<char>, lo: usize, hi: usize) -> (r: (usize, usize))
    requires
        lo <= hi <= t@.len(),
    ensures
        r.0 == skip_ws_spec(t@, lo as int, hi as int),
        r.1 == trim_end_spec(t@, r.0 as int, hi as int),
        lo <= r.0 <= r.1 <= hi,
{
    let a = skip_ws(t, lo, hi);
    let mut b = hi;
    while b > a && is_whitespace(t[b - 1])
        invariant
            a <= b <= hi <= t@.len(),
            trim_end_spec(t@, a as int, hi as int) == trim_end_spec(t@, a as int, b as int),
        decreases b,
    {
        b = b - 1;
    }
    (a, b)
}

/// The text `s[lo..hi]` without surrounding whitespace.
pub open spec fn trimmed(s: Seq<char>, lo: int, hi: int) -> Seq<char> {
    let a = skip_ws_spec(s, lo, hi);
    s.subrange(a, trim_end_spec(s, a, hi))
}

proof fn lemma_skip_shift(s: Seq<char>, base: int, end: int, i: int, h: int)
    requires
        0 <= base <= i <= h <= end <= s.len(),
    ensures
        skip_ws_spec(s.subrange(base, end), i - base, h - base) == skip_ws_spec(s, i, h) - base,
    decreases h - i,
{
    if i < h {
        assert(s.subrange(base, end)[i - base] == s[i]);
        lemma_skip_shift(s, base, end, i + 1, h);
    }
}

proof fn lemma_trim_end_shift(s: Seq<char>, base: int, end: int, a: int, j: int)
    requires
        0 <= base <= a <= j <= end <= s.len(),
    ensures
        trim_end_spec(s.subrange(base, end), a - base, j - base) == trim_end_spec(s, a, j) - base,
    decreases j - a,
{
    if j > a {
        assert(s.subrange(base, end)[j - 1 - base] == s[j - 1]);
        lemma_trim_end_shift(s, base, end, a, j - 1);
    }
}

/// Trimming inside a slice is trimming the same range of the whole.
pub proof fn lemma_trimmed_shift(s: Seq<char>, base: int, end: int, x: int, y: int)
    requires
        0 <= base <= x <= y <= end <= s.len(),
    ensures
        trimmed(s.subrange(base, end), x - base, y - base) == trimmed(s, x, y),
{
    lemma_skip_shift(s, base, end, x, y);
    lemma_skip_ws_bounds(s, x, y);
    let a = skip_ws_spec(s, x, y);
    lemma_trim_end_shift(s, base, end, a, y);
    lemma_trim_end_bounds(s, a, y);
    assert(s.subrange(base, end).subrange(a - base, trim_end_spec(s, a, y) - base) =~= s.subrange(
        a,
        trim_end_spec(s, a, y),
    ));
}

} // verus!
