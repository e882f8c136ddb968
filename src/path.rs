use vstd::prelude::*;
use crate::nodes::path_model;
use crate::text::push_char;

verus! {

pub open spec fn flush(parts: Seq<Seq<char>>, cur: Seq<char>) -> Seq<Seq<char>> {
    if cur.len() > 0 {
        parts.push(cur)
    } else {
        parts
    }
}

/// Splits `s[i..]` into path segments, given the segments found so far, the
/// segment being read and whether a bracket is open. Segments are separated
/// by `.` outside brackets, or written as `[seg]`; quote characters are
/// dropped, a `]` outside brackets is ignored, an empty segment counts only
/// between brackets.
pub open spec fn split_from(s: Seq<char>, i: int, parts: Seq<Seq<char>>, cur: Seq<char>, inb: bool) -> Seq<Seq<char>>
    decreases s.len() - i,
{
    if i >= s.len() || i < 0 {
        flush(parts, cur)
    } else {
        let c = s[i];
        if c == '[' {
            split_from(s, i + 1, flush(parts, cur), Seq::empty(), true)
        } else if c == ']' {
            if inb {
                split_from(s, i + 1, parts.push(cur), Seq::empty(), false)
            } else {
                split_from(s, i + 1, parts, cur, inb)
            }
        } else if c == '"' || c == '\'' {
            split_from(s, i + 1, parts, cur, inb)
        } else if c == '.' && !inb {
            split_from(s, i + 1, flush(parts, cur), Seq::empty(), inb)
        } else {
            split_from(s, i + 1, parts, cur.push(c), inb)
        }
    }
}

/// The segments of the path written as `s`.
pub open spec fn split_path(s: Seq<char>) -> Seq<Seq<char>> {
    split_from(s, 0, Seq::empty(), Seq::empty(), false)
}

fn flush_exec(parts: &mut Vec<String>, cur: String)
    ensures
        path_model(final(parts)@) == flush(path_model(old(parts)@), cur@),
{
    if !cur.as_str().is_empty() {
        parts.push(cur);
        assert(path_model(parts@) =~= path_model(old(parts)@).push(cur@));
    }
}

/// The segments of the path written as `t[lo..hi]`.
pub fn parse_variable_path(t: &Vec<char>, lo: usize, hi: usize) -> (r: Vec<String>)
    requires
        lo <= hi <= t@.len(),
    ensures
        path_model(r@) == split_path(t@.subrange(lo as int, hi as int)),
{
    let ghost s = t@.subrange(lo as int, hi as int);
    let mut parts: Vec<String> = Vec::new();
    let mut cur = String::new();
    let mut inb = false;
    let mut i = lo;
    assert(path_model(parts@) =~= Seq::<Seq<char>>::empty());
    while i < hi
        invariant
            lo <= i <= hi <= t@.len(),
            s == t@.subrange(lo as int, hi as int),
            split_from(s, i - lo, path_model(parts@), cur@, inb) == split_path(s),
        decreases hi - i,
    {
        let c = t[i];
        assert(s[i - lo] == c);
        if c == '[' {
            flush_exec(&mut parts, cur);
            cur = String::new();
            inb = true;
        } else if c == ']' {
            if inb {
                let ghost prev = parts@;
                let ghost cm = cur@;
                parts.push(cur);
                assert(path_model(parts@) =~= path_model(prev).push(cm));
                cur = String::new();
                inb = false;
            }
        } else if c == '"' || c == '\'' {
        } else if c == '.' && !inb {
            flush_exec(&mut parts, cur);
            cur = String::new();
        } else {
            push_char(&mut cur, c);
        }
        i = i + 1;
    }
    flush_exec(&mut parts, cur);
    parts
}

} // verus!
