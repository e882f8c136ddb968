use vstd::prelude::*;
use crate::expr::{condition_of, is_quoted, parse_bool_expr};
use crate::nodes::{Condition, ForLoop, If, Include, LocalModel, LocalValue, Node, NodeModel,
    ConditionModel, condition_model, lemma_branches_model_push, lemma_nodes_model_push, list_model, branches_model, locals_model, local_model, path_model, node_model};
use crate::number::{first_index_of, literal_number, parse_number};
use crate::path::{parse_variable_path, split_path};
use crate::text::{chars_of, is_whitespace, is_ws, push_char, skip_ws, skip_ws_spec, string_of, trim,
    trimmed, lemma_trimmed_shift};
use crate::value::{Value, ValueModel};

verus! {

broadcast use vstd::std_specs::vec::group_vec_axioms;

/// Whether `w` occurs in `s` at `i`.
pub open spec fn starts_at(s: Seq<char>, i: int, w: Seq<char>) -> bool {
    0 <= i && i + w.len() <= s.len() && s.subrange(i, i + w.len()) == w
}

#[verifier::loop_isolation(false)]
fn starts_with_at(t: &Vec<char>, i: usize, w: &str) -> (r: bool)
    requires
        i <= t@.len(),
    ensures
        r == starts_at(t@, i as int, w@),
{
    let wc = chars_of(w);
    if wc.len() > t.len() - i {
        return false;
    }
    let mut k: usize = 0;
    while k < wc.len()
        invariant
            wc@ == w@,
            i + wc@.len() <= t@.len(),
            k <= wc@.len(),
            forall|j: int| 0 <= j < k ==> t@[i + j] == wc@[j],
        decreases wc@.len() - k,
    {
        if t[i + k] != wc[k] {
            assert(t@.subrange(i as int, i + wc@.len())[k as int] != w@[k as int]);
            return false;
        }
        k = k + 1;
    }
    assert(t@.subrange(i as int, i + wc@.len()) =~= w@);
    true
}

/// Where whitespace from `i` ends.
pub open spec fn ws_end(s: Seq<char>, i: int) -> int {
    skip_ws_spec(s, i, s.len() as int)
}

/// Skips whitespace, then the character `c` where it stands there.
pub open spec fn expect_at(s: Seq<char>, i: int, c: char) -> int {
    let j = ws_end(s, i);
    if 0 <= j < s.len() && s[j] == c {
        j + 1
    } else {
        j
    }
}

/// The index of the `)` that closes a group opened before `i`, counting
/// nested parentheses; `s.len()` when there is none.
pub open spec fn close_paren(s: Seq<char>, i: int, depth: nat) -> int
    decreases s.len() - i,
{
    if i >= s.len() || i < 0 {
        s.len() as int
    } else if s[i] == '(' {
        close_paren(s, i + 1, depth + 1)
    } else if s[i] == ')' {
        if depth == 0 {
            i
        } else {
            close_paren(s, i + 1, (depth - 1) as nat)
        }
    } else {
        close_paren(s, i + 1, depth)
    }
}

/// Just past the group's closing `)`, or the end of the text.
pub open spec fn after_close(s: Seq<char>, k: int) -> int {
    if k < s.len() {
        k + 1
    } else {
        s.len() as int
    }
}

/// The index of the first `}}` at or after `i`, or `s.len()`.
pub open spec fn close_braces(s: Seq<char>, i: int) -> int
    decreases s.len() - i,
{
    if i >= s.len() || i < 0 {
        s.len() as int
    } else if starts_at(s, i, "}}"@) {
        i
    } else {
        close_braces(s, i + 1)
    }
}

/// `{{ path }}` at `i`: the path and the position after it. Without a closing
/// `}}` the path runs to the end of the text.
pub open spec fn variable_at(s: Seq<char>, i: int) -> (Seq<Seq<char>>, int) {
    let p = i + 2;
    let k = close_braces(s, p);
    (split_path(trimmed(s, p, k)), if k < s.len() {
        k + 2
    } else {
        s.len() as int
    })
}

/// The first index at which `w` occurs in `s`, or -1.
pub open spec fn find_sub(s: Seq<char>, w: Seq<char>, i: int) -> int
    decreases s.len() - i,
{
    if i < 0 || i >= s.len() || i + w.len() > s.len() {
        -1
    } else if starts_at(s, i, w) {
        i
    } else {
        find_sub(s, w, i + 1)
    }
}

/// `NAME in PATH`, split on the first ` in `: the name and the container's text.
pub open spec fn for_parts(s: Seq<char>) -> (Seq<char>, Seq<char>) {
    let t = trimmed(s, 0, s.len() as int);
    let k = find_sub(t, " in "@, 0);
    if k < 0 {
        (trimmed(t, 0, t.len() as int), Seq::empty())
    } else {
        (trimmed(t, 0, k), trimmed(t, k + 4, t.len() as int))
    }
}

/// A local's value as written: a quoted string, `true`, `false`, `null`, a
/// number literal, or else a path in the caller's context.
pub open spec fn local_of(v: Seq<char>) -> LocalModel {
    if is_quoted(v) {
        LocalModel::Literal(ValueModel::Str(v.subrange(1, v.len() - 1)))
    } else if v == "true"@ {
        LocalModel::Literal(ValueModel::Bool(true))
    } else if v == "false"@ {
        LocalModel::Literal(ValueModel::Bool(false))
    } else if v == "null"@ {
        LocalModel::Literal(ValueModel::Null)
    } else if literal_number(v) is Some {
        LocalModel::Literal(ValueModel::Number(literal_number(v)->0))
    } else {
        LocalModel::Path(split_path(v))
    }
}

/// Adds the pair a word `key=value` gives; a word without `=` gives none.
pub open spec fn add_pair(acc: Seq<(Seq<char>, LocalModel)>, w: Seq<char>) -> Seq<(Seq<char>, LocalModel)> {
    let e = first_index_of(w, '=');
    if w.len() == 0 || e < 0 {
        acc
    } else {
        acc.push((w.subrange(0, e), local_of(w.subrange(e + 1, w.len() as int))))
    }
}

/// The `key=value` pairs of `s[i..]`; words are separated by whitespace or `;`.
pub open spec fn pairs_from(s: Seq<char>, i: int, cur: Seq<char>, acc: Seq<(Seq<char>, LocalModel)>) -> Seq<(Seq<char>, LocalModel)>
    decreases s.len() - i,
{
    if i >= s.len() || i < 0 {
        add_pair(acc, cur)
    } else if is_ws(s[i]) || s[i] == ';' {
        pairs_from(s, i + 1, Seq::empty(), add_pair(acc, cur))
    } else {
        pairs_from(s, i + 1, cur.push(s[i]), acc)
    }
}

pub open spec fn pairs_of(s: Seq<char>) -> Seq<(Seq<char>, LocalModel)> {
    pairs_from(s, 0, Seq::empty(), Seq::empty())
}

fn expect_char(t: &Vec<char>, i: usize, c: char) -> (r: usize)
    requires
        i <= t@.len(),
    ensures
        r == expect_at(t@, i as int, c),
        i <= r <= t@.len(),
{
    let j = skip_ws(t, i, t.len());
    if j < t.len() && t[j] == c {
        j + 1
    } else {
        j
    }
}

/// Reads up to the `)` that closes the group: its index and the position after it.
fn read_until_unbalanced(t: &Vec<char>, i: usize) -> (r: (usize, usize))
    requires
        i <= t@.len(),
    ensures
        r.0 == close_paren(t@, i as int, 0),
        r.1 == after_close(t@, r.0 as int),
        i <= r.0 <= t@.len(),
        i <= r.1 <= t@.len(),
{
    let mut k = i;
    let mut depth: usize = 0;
    while k < t.len()
        invariant
            i <= k <= t@.len(),
            depth <= k - i,
            close_paren(t@, k as int, depth as nat) == close_paren(t@, i as int, 0),
        decreases t@.len() - k,
    {
        let c = t[k];
        if c == '(' {
            depth = depth + 1;
        } else if c == ')' {
            if depth == 0 {
                return (k, k + 1);
            }
            depth = depth - 1;
        }
        k = k + 1;
    }
    (k, k)
}

fn close_braces_exec(t: &Vec<char>, i: usize) -> (r: usize)
    requires
        i <= t@.len(),
    ensures
        r == close_braces(t@, i as int),
        i <= r <= t@.len(),
{
    let mut k = i;
    while k < t.len() && !(t[k] == '}' && k + 1 < t.len() && t[k + 1] == '}')
        invariant
            i <= k <= t@.len(),
            close_braces(t@, k as int) == close_braces(t@, i as int),
        decreases t@.len() - k,
    {
        proof {
            reveal_strlit("}}");
            if starts_at(t@, k as int, "}}"@) {
                assert(t@.subrange(k as int, k + 2)[0] == '}');
                assert(t@.subrange(k as int, k + 2)[1] == '}');
            }
        }
        k = k + 1;
    }
    proof {
        reveal_strlit("}}");
        if k < t@.len() {
            assert(t@.subrange(k as int, k + 2) =~= "}}"@);
        }
    }
    k
}

/// `{{ path }}` at `i`.
fn parse_variable(t: &Vec<char>, i: usize) -> (r: (Vec<String>, usize))
    requires
        i + 2 <= t@.len(),
    ensures
        path_model(r.0@) == variable_at(t@, i as int).0,
        r.1 == variable_at(t@, i as int).1,
        i < r.1 <= t@.len(),
{
    let n = t.len();
    let k = close_braces_exec(t, i + 2);
    proof {
        lemma_close_braces(t@, i + 2);
        reveal_strlit("}}");
    }
    let (a, b) = trim(t, i + 2, k);
    let p = parse_variable_path(t, a, b);
    let next = if k < t.len() {
        k + 2
    } else {
        t.len()
    };
    proof {
        reveal_strlit("}}");
    }
    (p, next)
}

proof fn lemma_close_braces(s: Seq<char>, i: int)
    requires
        0 <= i <= s.len(),
    ensures
        i <= close_braces(s, i) <= s.len(),
        close_braces(s, i) < s.len() ==> starts_at(s, close_braces(s, i), "}}"@),
    decreases s.len() - i,
{
    if i < s.len() && !starts_at(s, i, "}}"@) {
        lemma_close_braces(s, i + 1);
    }
}

fn find_sub_exec(t: &Vec<char>, lo: usize, hi: usize, w: &str) -> (r: Option<usize>)
    requires
        lo <= hi <= t@.len(),
    ensures
        match r {
            Some(k) => lo <= k && k + w@.len() <= hi && find_sub(t@.subrange(lo as int, hi as int), w@, 0) == k - lo,
            None => find_sub(t@.subrange(lo as int, hi as int), w@, 0) == -1,
        },
{
    let ghost s = t@.subrange(lo as int, hi as int);
    let wc = chars_of(w);
    let mut k = lo;
    while k < hi && wc.len() <= hi - k
        invariant
            lo <= k <= hi <= t@.len(),
            wc@ == w@,
            s == t@.subrange(lo as int, hi as int),
            find_sub(s, w@, k - lo) == find_sub(s, w@, 0),
        decreases hi - k,
    {
        let mut j: usize = 0;
        let mut ok = true;
        while j < wc.len()
            invariant
                k + wc@.len() <= hi <= t@.len(),
                wc@ == w@,
                j <= wc@.len(),
                ok ==> forall|m: int| 0 <= m < j ==> t@[k + m] == wc@[m],
                !ok ==> !starts_at(s, k - lo, w@),
                s == t@.subrange(lo as int, hi as int),
                lo <= k,
            decreases wc@.len() - j,
        {
            if ok && t[k + j] != wc[j] {
                ok = false;
                assert(s.subrange(k - lo, k - lo + w@.len())[j as int] == t@[k + j]);
            }
            j = j + 1;
        }
        if ok {
            assert(s.subrange(k - lo, k - lo + w@.len()) =~= w@);
            return Some(k);
        }
        k = k + 1;
    }
    None
}

fn local_exec(t: &Vec<char>, lo: usize, hi: usize) -> (r: LocalValue)
    requires
        lo <= hi <= t@.len(),
    ensures
        local_model(r) == local_of(t@.subrange(lo as int, hi as int)),
{
    let ghost v = t@.subrange(lo as int, hi as int);
    let n = hi - lo;
    proof {
        reveal_strlit("true");
        reveal_strlit("false");
        reveal_strlit("null");
    }
    if n >= 2 && ((t[lo] == '"' && t[hi - 1] == '"') || (t[lo] == '\'' && t[hi - 1] == '\'')) {
        assert(v.subrange(1, v.len() - 1) =~= t@.subrange(lo + 1, hi - 1));
        return LocalValue::Literal(Value::String(string_of(t, lo + 1, hi - 1)));
    }
    if starts_with_at(t, lo, "true") && n == 4 {
        assert(t@.subrange(lo as int, lo + 4) == v);
        return LocalValue::Literal(Value::Bool(true));
    }
    if starts_with_at(t, lo, "false") && n == 5 {
        assert(t@.subrange(lo as int, lo + 5) == v);
        return LocalValue::Literal(Value::Bool(false));
    }
    if starts_with_at(t, lo, "null") && n == 4 {
        assert(t@.subrange(lo as int, lo + 4) == v);
        return LocalValue::Literal(Value::Null);
    }
    proof {
        reveal_strlit("true");
        reveal_strlit("false");
        reveal_strlit("null");
        if v == "true"@ {
            assert(t@.subrange(lo as int, lo + 4) == v);
        }
        if v == "false"@ {
            assert(t@.subrange(lo as int, lo + 5) == v);
        }
        if v == "null"@ {
            assert(t@.subrange(lo as int, lo + 4) == v);
        }
    }
    match parse_number(t, lo, hi) {
        Some(num) => LocalValue::Literal(Value::Number(num)),
        None => LocalValue::Path(parse_variable_path(t, lo, hi)),
    }
}

fn add_pair_exec(acc: &mut Vec<(String, LocalValue)>, t: &Vec<char>, lo: usize, hi: usize)
    requires
        lo <= hi <= t@.len(),
    ensures
        locals_model(final(acc)@) == add_pair(locals_model(old(acc)@), t@.subrange(lo as int, hi as int)),
{
    if lo == hi {
        return;
    }
    let ghost w = t@.subrange(lo as int, hi as int);
    match find_sub_exec(t, lo, hi, "=") {
        None => {
            proof {
                reveal_strlit("=");
                assert("="@ =~= seq!['=']);
                lemma_find_one(w, '=');
            }
        },
        Some(e) => {
            proof {
                reveal_strlit("=");
                assert("="@ =~= seq!['=']);
                lemma_find_one(w, '=');
                assert(w.subrange(0, e - lo) =~= t@.subrange(lo as int, e as int));
                assert(w.subrange(e - lo + 1, w.len() as int) =~= t@.subrange(e + 1, hi as int));
            }
            let k = string_of(t, lo, e);
            let v = local_exec(t, e + 1, hi);
            let ghost prev = acc@;
            acc.push((k, v));
            assert(locals_model(acc@) =~= locals_model(prev).push((k@, local_model(v))));
        },
    }
}

proof fn lemma_find_one(w: Seq<char>, c: char)
    ensures
        find_sub(w, seq![c], 0) == first_index_of(w, c),
{
    lemma_find_one_from(w, c, 0);
    assert(w.subrange(0, w.len() as int) =~= w);
}

proof fn lemma_find_one_from(w: Seq<char>, c: char, i: int)
    requires
        0 <= i <= w.len(),
    ensures
        find_sub(w, seq![c], i) == {
            let r = first_index_of(w.subrange(i, w.len() as int), c);
            if r < 0 {
                -1
            } else {
                r + i
            }
        },
    decreases w.len() - i,
{
    let u = w.subrange(i, w.len() as int);
    if i < w.len() {
        assert(u.drop_first() =~= w.subrange(i + 1, w.len() as int));
        lemma_find_one_from(w, c, i + 1);
        if w[i] == c {
            assert(w.subrange(i, i + 1) =~= seq![c]);
        } else {
            assert(w.subrange(i, i + 1)[0] != c);
        }
    }
    if i == 0 {
        assert(u =~= w);
    }
}

/// The `key=value` pairs of `t[lo..hi]`.
fn parse_kv_pairs(t: &Vec<char>, lo: usize, hi: usize) -> (r: Vec<(String, LocalValue)>)
    requires
        lo <= hi <= t@.len(),
    ensures
        locals_model(r@) == pairs_of(t@.subrange(lo as int, hi as int)),
{
    let ghost s = t@.subrange(lo as int, hi as int);
    let mut acc: Vec<(String, LocalValue)> = Vec::new();
    let mut cs = lo;
    let mut i = lo;
    assert(locals_model(acc@) =~= Seq::<(Seq<char>, LocalModel)>::empty());
    assert(t@.subrange(lo as int, lo as int) =~= Seq::<char>::empty());
    while i < hi
        invariant
            lo <= cs <= i <= hi <= t@.len(),
            s == t@.subrange(lo as int, hi as int),
            pairs_from(s, i - lo, t@.subrange(cs as int, i as int), locals_model(acc@)) == pairs_of(
                s,
            ),
        decreases hi - i,
    {
        let c = t[i];
        assert(s[i - lo] == c);
        if is_whitespace(c) || c == ';' {
            add_pair_exec(&mut acc, t, cs, i);
            i = i + 1;
            cs = i;
            assert(t@.subrange(cs as int, i as int) =~= Seq::<char>::empty());
        } else {
            assert(t@.subrange(cs as int, i + 1) =~= t@.subrange(cs as int, i as int).push(c));
            i = i + 1;
        }
    }
    add_pair_exec(&mut acc, t, cs, i);
    acc
}

/// `NAME in PATH`: the loop variable and the container's path.
fn parse_for_expression(t: &Vec<char>, lo: usize, hi: usize) -> (r: (String, Vec<String>))
    requires
        lo <= hi <= t@.len(),
    ensures
        r.0@ == for_parts(t@.subrange(lo as int, hi as int)).0,
        path_model(r.1@) == split_path(for_parts(t@.subrange(lo as int, hi as int)).1),
{
    let ghost s = t@.subrange(lo as int, hi as int);
    let (a, b) = trim(t, lo, hi);
    proof {
        lemma_trimmed_shift(t@, lo as int, hi as int, lo as int, hi as int);
    }
    let ghost tt = t@.subrange(a as int, b as int);
    assert(trimmed(s, 0, s.len() as int) == tt);
    match find_sub_exec(t, a, b, " in ") {
        None => {
            let (c, d) = trim(t, a, b);
            proof {
                lemma_trimmed_shift(t@, a as int, b as int, a as int, b as int);
            }
            let e: Vec<String> = Vec::new();
            assert(path_model(e@) =~= split_path(Seq::empty()));
            (string_of(t, c, d), e)
        },
        Some(k) => {
            proof {
                reveal_strlit(" in ");
            }
            let (c, d) = trim(t, a, k);
            proof {
                lemma_trimmed_shift(t@, a as int, b as int, a as int, k as int);
            }
            let (e, f) = trim(t, k + 4, b);
            proof {
                lemma_trimmed_shift(t@, a as int, b as int, k + 4, b as int);
            }
            (string_of(t, c, d), parse_variable_path(t, e, f))
        },
    }
}

pub open spec fn flush_text(acc: Seq<NodeModel>, buf: Seq<char>) -> Seq<NodeModel> {
    if buf.len() > 0 {
        acc.push(NodeModel::Text(buf))
    } else {
        acc
    }
}

/// The length of the content-slot marker at `i` (`@content`,
/// `<content-slot>` or `<slot>`), or 0.
pub open spec fn slot_len(s: Seq<char>, i: int) -> int {
    if starts_at(s, i, "@content"@) {
        8
    } else if starts_at(s, i, "<content-slot>"@) {
        14
    } else if starts_at(s, i, "<slot>"@) {
        6
    } else {
        0
    }
}

/// Parses nodes from `i` until the end of the text or, when `end` is given,
/// up to and past that character: the nodes and the position reached. `buf`
/// is text read but not yet emitted; `acc` the nodes so far. At each position
/// the terminator is tested first, then `{{`, `@include`, `@if`, `@for` and the
/// slot marker; any other character is text.
pub open spec fn nodes_from(s: Seq<char>, i: int, end: Option<char>, buf: Seq<char>, acc: Seq<NodeModel>, d: nat) -> (Seq<NodeModel>, int)
    decreases s.len() - i, 1int,
{
    if i < 0 || i >= s.len() {
        (flush_text(acc, buf), s.len() as int)
    } else if end is Some && s[i] == end->0 {
        (flush_text(acc, buf), i + 1)
    } else if starts_at(s, i, "{{"@) {
        let (p, j) = variable_at(s, i);
        if i < j <= s.len() {
            nodes_from(s, j, end, Seq::empty(), flush_text(acc, buf).push(NodeModel::Var(p)), d)
        } else {
            (flush_text(acc, buf), j)
        }
    } else if d > 0 && starts_at(s, i, "@include"@) {
        let (n, j) = include_at(s, i, (d - 1) as nat);
        if i < j <= s.len() {
            nodes_from(s, j, end, Seq::empty(), flush_text(acc, buf).push(n), d)
        } else {
            (flush_text(acc, buf), j)
        }
    } else if d > 0 && starts_at(s, i, "@if"@) {
        let (n, j) = if_at(s, i, (d - 1) as nat);
        if i < j <= s.len() {
            nodes_from(s, j, end, Seq::empty(), flush_text(acc, buf).push(n), d)
        } else {
            (flush_text(acc, buf), j)
        }
    } else if d > 0 && starts_at(s, i, "@for"@) {
        let (n, j) = for_at(s, i, (d - 1) as nat);
        if i < j <= s.len() {
            nodes_from(s, j, end, Seq::empty(), flush_text(acc, buf).push(n), d)
        } else {
            (flush_text(acc, buf), j)
        }
    } else if slot_len(s, i) > 0 && i + slot_len(s, i) <= s.len() {
        nodes_from(s, i + slot_len(s, i), end, Seq::empty(), flush_text(acc, buf).push(NodeModel::Slot), d)
    } else {
        nodes_from(s, i + 1, end, buf.push(s[i]), acc, d)
    }
}

/// `@include ( PATH ( ; PAIRS )? ) ( { BODY } )?` at `i`.
pub open spec fn include_at(s: Seq<char>, i: int, d: nat) -> (NodeModel, int)
    decreases s.len() - i, 0int,
{
    let p = expect_at(s, i + 8, '(');
    let k = close_paren(s, p, 0);
    let semi = first_index_of(s.subrange(p, k), ';');
    let path = if semi < 0 {
        trimmed(s, p, k)
    } else {
        trimmed(s, p, p + semi)
    };
    let locals = if semi < 0 {
        Seq::empty()
    } else {
        pairs_of(s.subrange(p + semi + 1, k))
    };
    let b = ws_end(s, after_close(s, k));
    if i < b < s.len() && s[b] == '{' {
        let (body, r) = nodes_from(s, b + 1, Some('}'), Seq::empty(), Seq::empty(), d);
        (NodeModel::Include(path, body, locals), r)
    } else {
        (NodeModel::Include(path, Seq::empty(), locals), b)
    }
}

/// `@if ( EXPR ) { BODY }` at `i`, then its `@else` clauses.
pub open spec fn if_at(s: Seq<char>, i: int, d: nat) -> (NodeModel, int)
    decreases s.len() - i, 0int,
{
    let p = expect_at(s, i + 3, '(');
    let k = close_paren(s, p, 0);
    let c = condition_of(s.subrange(p, k));
    let q = expect_at(s, after_close(s, k), '{');
    if i < q <= s.len() {
        let (body, r) = nodes_from(s, q, Some('}'), Seq::empty(), Seq::empty(), d);
        if i < r <= s.len() {
            else_chain(s, r, seq![(c, body)], d)
        } else {
            (NodeModel::If(seq![(c, body)], None), r)
        }
    } else {
        (NodeModel::If(seq![(c, Seq::empty())], None), q)
    }
}

/// After the guards `branches`, ending at `r`: whitespace, then either
/// `@else if ( EXPR ) { BODY }` and more, `@else { BODY }`, or nothing.
pub open spec fn else_chain(s: Seq<char>, r: int, branches: Seq<(ConditionModel, Seq<NodeModel>)>, d: nat) -> (NodeModel, int)
    decreases s.len() - r, 0int,
{
    let r1 = ws_end(s, r);
    if starts_at(s, r1, "@else"@) {
        let r2 = ws_end(s, r1 + 5);
        if starts_at(s, r2, "if"@) {
            let p = expect_at(s, r2 + 2, '(');
            let k = close_paren(s, p, 0);
            let c = condition_of(s.subrange(p, k));
            let q = expect_at(s, after_close(s, k), '{');
            if r < q <= s.len() {
                let (body, r3) = nodes_from(s, q, Some('}'), Seq::empty(), Seq::empty(), d);
                if r < r3 <= s.len() {
                    else_chain(s, r3, branches.push((c, body)), d)
                } else {
                    (NodeModel::If(branches.push((c, body)), None), r3)
                }
            } else {
                (NodeModel::If(branches, None), q)
            }
        } else {
            let q = expect_at(s, r2, '{');
            if r < q <= s.len() {
                let (body, r3) = nodes_from(s, q, Some('}'), Seq::empty(), Seq::empty(), d);
                (NodeModel::If(branches, Some(body)), r3)
            } else {
                (NodeModel::If(branches, None), q)
            }
        }
    } else {
        (NodeModel::If(branches, None), r1)
    }
}

/// `@for ( NAME in PATH ) { BODY }` at `i`.
pub open spec fn for_at(s: Seq<char>, i: int, d: nat) -> (NodeModel, int)
    decreases s.len() - i, 0int,
{
    let p = expect_at(s, i + 4, '(');
    let k = close_paren(s, p, 0);
    let (name, cont) = for_parts(s.subrange(p, k));
    let q = expect_at(s, after_close(s, k), '{');
    if i < q <= s.len() {
        let (body, r) = nodes_from(s, q, Some('}'), Seq::empty(), Seq::empty(), d);
        (NodeModel::For(name, split_path(cont), body), r)
    } else {
        (NodeModel::For(name, split_path(cont), Seq::empty()), q)
    }
}

/// How deep `@if`, `@for` and `@include` blocks may nest in a template.
pub const MAX_NESTING: usize = 64;

/// The nodes of a whole template.
pub open spec fn template_of(s: Seq<char>) -> Seq<NodeModel> {
    nodes_from(s, 0, None, Seq::empty(), Seq::empty(), MAX_NESTING as nat).0
}

fn flush_text_exec(nodes: &mut Vec<Node>, buf: String)
    ensures
        list_model(*final(nodes)) == flush_text(list_model(*old(nodes)), buf@),
{
    if !buf.as_str().is_empty() {
        let ghost prev = nodes@;
        let n = Node::Text(buf);
        proof {
            lemma_nodes_model_push(prev, n);
        }
        nodes.push(n);
    }
}

fn push_node(nodes: &mut Vec<Node>, n: Node)
    ensures
        list_model(*final(nodes)) == list_model(*old(nodes)).push(node_model(n)),
{
    proof {
        lemma_nodes_model_push(nodes@, n);
    }
    nodes.push(n);
}

/// The position of the first `;` in `t[lo..hi]`, as `first_index_of` gives it.
fn find_semicolon(t: &Vec<char>, lo: usize, hi: usize) -> (r: Option<usize>)
    requires
        lo <= hi <= t@.len(),
    ensures
        match r {
            Some(k) => lo <= k < hi && first_index_of(t@.subrange(lo as int, hi as int), ';') == k
                - lo,
            None => first_index_of(t@.subrange(lo as int, hi as int), ';') < 0,
        },
{
    let r = find_sub_exec(t, lo, hi, ";");
    proof {
        reveal_strlit(";");
        assert(";"@ =~= seq![';']);
        lemma_find_one(t@.subrange(lo as int, hi as int), ';');
    }
    r
}

/// Parses nodes from `i0`; with `end`, up to and past that character.
#[verifier::loop_isolation(false)]
fn parse_nodes(t: &Vec<char>, i0: usize, end: Option<char>, d: usize) -> (r: (Vec<Node>, usize))
    requires
        i0 <= t@.len(),
    ensures
        list_model(r.0) == nodes_from(t@, i0 as int, end, Seq::empty(), Seq::empty(), d as nat).0,
        r.1 == nodes_from(t@, i0 as int, end, Seq::empty(), Seq::empty(), d as nat).1,
        i0 <= r.1 <= t@.len(),
    decreases t@.len() - i0, 1int,
{
    let ghost s = t@;
    let ghost goal = nodes_from(s, i0 as int, end, Seq::empty(), Seq::empty(), d as nat);
    let mut nodes: Vec<Node> = Vec::new();
    let mut buf = String::new();
    let mut i = i0;
    proof {
        reveal_strlit("{{");
        reveal_strlit("@include");
        reveal_strlit("@if");
        reveal_strlit("@for");
        reveal_strlit("@content");
        reveal_strlit("<content-slot>");
        reveal_strlit("<slot>");
        assert(list_model(nodes) =~= Seq::<NodeModel>::empty());
    }
    while i < t.len()
        invariant
            i0 <= i <= t@.len(),
            s == t@,
            nodes_from(s, i as int, end, buf@, list_model(nodes), d as nat) == goal,
        decreases t@.len() - i,
    {
        let c = t[i];
        let at_end = match end {
            Some(e) => c == e,
            None => false,
        };
        if at_end {
            flush_text_exec(&mut nodes, buf);
            return (nodes, i + 1);
        }
        if starts_with_at(t, i, "{{") {
            let (p, j) = parse_variable(t, i);
            flush_text_exec(&mut nodes, buf);
            push_node(&mut nodes, Node::VariableBlock(p));
            buf = String::new();
            i = j;
            continue;
        }
        if d > 0 && starts_with_at(t, i, "@include") {
            let (n, j) = parse_include(t, i, d - 1);
            flush_text_exec(&mut nodes, buf);
            push_node(&mut nodes, n);
            buf = String::new();
            i = j;
            continue;
        }
        if d > 0 && starts_with_at(t, i, "@if") {
            let (n, j) = parse_if(t, i, d - 1);
            flush_text_exec(&mut nodes, buf);
            push_node(&mut nodes, n);
            buf = String::new();
            i = j;
            continue;
        }
        if d > 0 && starts_with_at(t, i, "@for") {
            let (n, j) = parse_for(t, i, d - 1);
            flush_text_exec(&mut nodes, buf);
            push_node(&mut nodes, n);
            buf = String::new();
            i = j;
            continue;
        }
        let slot: usize = if starts_with_at(t, i, "@content") {
            8
        } else if starts_with_at(t, i, "<content-slot>") {
            14
        } else if starts_with_at(t, i, "<slot>") {
            6
        } else {
            0
        };
        if slot > 0 {
            flush_text_exec(&mut nodes, buf);
            push_node(&mut nodes, Node::ContentPlaceholder);
            buf = String::new();
            i = i + slot;
            continue;
        }
        push_char(&mut buf, c);
        i = i + 1;
    }
    flush_text_exec(&mut nodes, buf);
    (nodes, i)
}

/// `@include` at `i`.
fn parse_include(t: &Vec<char>, i: usize, d: usize) -> (r: (Node, usize))
    requires
        starts_at(t@, i as int, "@include"@),
    ensures
        node_model(r.0) == include_at(t@, i as int, d as nat).0,
        r.1 == include_at(t@, i as int, d as nat).1,
        i < r.1 <= t@.len(),
    decreases t@.len() - i, 0int,
{
    proof {
        reveal_strlit("@include");
    }
    let len = t.len();
    let p = expect_char(t, i + 8, '(');
    let (k, q) = read_until_unbalanced(t, p);
    let semi = find_semicolon(t, p, k);
    let (path_end, local_ctx) = match semi {
        Some(m) => {
            let l = parse_kv_pairs(t, m + 1, k);
            (m, l)
        },
        None => (k, Vec::new()),
    };
    proof {
        if semi is None {
            assert(locals_model(local_ctx@) =~= Seq::<(Seq<char>, LocalModel)>::empty());
        }
    }
    let (a, b) = trim(t, p, path_end);
    let path = string_of(t, a, b);
    let w = skip_ws(t, q, t.len());
    if w < t.len() && t[w] == '{' {
        let (body, r) = parse_nodes(t, w + 1, Some('}'), d);
        (Node::Include(Include { path, body, local_ctx }), r)
    } else {
        let body: Vec<Node> = Vec::new();
        assert(list_model(body) =~= Seq::<NodeModel>::empty());
        (Node::Include(Include { path, body, local_ctx }), w)
    }
}

/// `@if` at `i`, with its `@else` clauses.
#[verifier::loop_isolation(false)]
fn parse_if(t: &Vec<char>, i: usize, d: usize) -> (r: (Node, usize))
    requires
        starts_at(t@, i as int, "@if"@),
    ensures
        node_model(r.0) == if_at(t@, i as int, d as nat).0,
        r.1 == if_at(t@, i as int, d as nat).1,
        i < r.1 <= t@.len(),
    decreases t@.len() - i, 0int,
{
    proof {
        reveal_strlit("@if");
        reveal_strlit("@else");
        reveal_strlit("if");
    }
    let ghost s = t@;
    let len = t.len();
    let p = expect_char(t, i + 3, '(');
    let (k, after) = read_until_unbalanced(t, p);
    let cond = parse_bool_expr(t, p, k);
    let q = expect_char(t, after, '{');
    let (body, r0) = parse_nodes(t, q, Some('}'), d);
    let ghost c0 = condition_model(cond);
    let ghost b0 = list_model(body);
    let mut conditions: Vec<(Condition, Vec<Node>)> = Vec::new();
    proof {
        lemma_branches_model_push(conditions@, (cond, body));
    }
    conditions.push((cond, body));
    let mut r = r0;
    proof {
        assert(branches_model(conditions@, 1) =~= seq![(c0, b0)]);
    }
    loop
        invariant
            i < r <= t@.len(),
            s == t@,
            else_chain(s, r as int, branches_model(conditions@, conditions@.len() as int), d as nat)
                == if_at(s, i as int, d as nat),
        decreases t@.len() - r,
    {
        let r1 = skip_ws(t, r, t.len());
        if !starts_with_at(t, r1, "@else") {
            let n = Node::If(If { conditions, otherwise: None });
            return (n, r1);
        }
        let r2 = skip_ws(t, r1 + 5, t.len());
        if starts_with_at(t, r2, "if") {
            let p2 = expect_char(t, r2 + 2, '(');
            let (k2, after2) = read_until_unbalanced(t, p2);
            let c = parse_bool_expr(t, p2, k2);
            let q2 = expect_char(t, after2, '{');
            let (b, r3) = parse_nodes(t, q2, Some('}'), d);
            proof {
                lemma_branches_model_push(conditions@, (c, b));
            }
            conditions.push((c, b));
            r = r3;
        } else {
            let q2 = expect_char(t, r2, '{');
            let (b, r3) = parse_nodes(t, q2, Some('}'), d);
            let n = Node::If(If { conditions, otherwise: Some(b) });
            return (n, r3);
        }
    }
}

/// `@for` at `i`.
fn parse_for(t: &Vec<char>, i: usize, d: usize) -> (r: (Node, usize))
    requires
        starts_at(t@, i as int, "@for"@),
    ensures
        node_model(r.0) == for_at(t@, i as int, d as nat).0,
        r.1 == for_at(t@, i as int, d as nat).1,
        i < r.1 <= t@.len(),
    decreases t@.len() - i, 0int,
{
    proof {
        reveal_strlit("@for");
    }
    let len = t.len();
    let p = expect_char(t, i + 4, '(');
    let (k, after) = read_until_unbalanced(t, p);
    let (value, container) = parse_for_expression(t, p, k);
    let q = expect_char(t, after, '{');
    let (body, r) = parse_nodes(t, q, Some('}'), d);
    (Node::Forloop(ForLoop { value, container, body }), r)
}

/// Parses a template into its nodes. Parsing never fails: an unterminated
/// construct runs to the end of the text, and anything that is no directive
/// is text. The content slot of a partial is written `@content`, or, in HTML,
/// `<content-slot>` or `<slot>`; the text `{{content}}` is an ordinary path.
pub fn parse_template(input: &str) -> (r: Vec<Node>)
    ensures
        list_model(r) == template_of(input@),
{
    let t = chars_of(input);
    parse_nodes(&t, 0, None, MAX_NESTING).0
}

} // verus!
