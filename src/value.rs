use vstd::prelude::*;
use crate::number::{Number, number_text, write_number};
use crate::text::{push_char, push_str, str_eq};

verus! {

/// A generic tagged value: the data a template is rendered against.
/// An object keeps its entries in insertion order; where a key occurs more
/// than once, the last entry wins.
#[derive(Debug, PartialEq)]
pub enum Value {
    Null,
    Bool(bool),
    Number(Number),
    String(String),
    Array(Vec<Value>),
    Object(Vec<(String, Value)>),
}

/// The mathematical model of a `Value`.
pub enum ValueModel {
    Null,
    Bool(bool),
    Number(Number),
    Str(Seq<char>),
    Array(Seq<ValueModel>),
    Object(Seq<(Seq<char>, ValueModel)>),
}

/// Models of the first `n` elements of `s`.
pub open spec fn array_model(s: Seq<Value>, n: int) -> Seq<ValueModel>
    decreases s, n,
{
    if n <= 0 || n > s.len() {
        Seq::empty()
    } else {
        array_model(s, n - 1).push(value_model(s[n - 1]))
    }
}

/// Models of the first `n` entries of `s`.
pub open spec fn object_model(s: Seq<(String, Value)>, n: int) -> Seq<(Seq<char>, ValueModel)>
    decreases s, n,
{
    if n <= 0 || n > s.len() {
        Seq::empty()
    } else {
        object_model(s, n - 1).push((s[n - 1].0@, value_model(s[n - 1].1)))
    }
}

pub open spec fn value_model(v: Value) -> ValueModel
    decreases v, 0int,
{
    match v {
        Value::Null => ValueModel::Null,
        Value::Bool(b) => ValueModel::Bool(b),
        Value::Number(n) => ValueModel::Number(n),
        Value::String(s) => ValueModel::Str(s@),
        Value::Array(a) => ValueModel::Array(array_model(a@, a@.len() as int)),
        Value::Object(o) => ValueModel::Object(object_model(o@, o@.len() as int)),
    }
}

pub open spec fn opt_model(v: Option<&Value>) -> Option<ValueModel> {
    match v {
        Some(x) => Some(value_model(*x)),
        None => None,
    }
}

pub proof fn lemma_array_model(s: Seq<Value>, n: int)
    requires
        0 <= n <= s.len(),
    ensures
        array_model(s, n).len() == n,
        forall|i: int| 0 <= i < n ==> #[trigger] array_model(s, n)[i] == value_model(s[i]),
    decreases n,
{
    if n > 0 {
        lemma_array_model(s, n - 1);
    }
}

pub proof fn lemma_object_model(s: Seq<(String, Value)>, n: int)
    requires
        0 <= n <= s.len(),
    ensures
        object_model(s, n).len() == n,
        forall|i: int|
            0 <= i < n ==> #[trigger] object_model(s, n)[i] == (s[i].0@, value_model(s[i].1)),
    decreases n,
{
    if n > 0 {
        lemma_object_model(s, n - 1);
    }
}

/// The value under key `k`: the last entry with that key.
pub open spec fn field_of(entries: Seq<(Seq<char>, ValueModel)>, k: Seq<char>) -> Option<ValueModel>
    decreases entries.len(),
{
    if entries.len() == 0 {
        None
    } else if entries.last().0 == k {
        Some(entries.last().1)
    } else {
        field_of(entries.drop_last(), k)
    }
}

/// How a value reads as a condition.
pub open spec fn truthy(v: Option<ValueModel>) -> bool {
    match v {
        None => false,
        Some(ValueModel::Null) => false,
        Some(ValueModel::Bool(b)) => b,
        Some(ValueModel::Number(n)) => n.mantissa_spec() != 0,
        Some(ValueModel::Str(s)) => s.len() > 0,
        Some(ValueModel::Array(a)) => a.len() > 0,
        Some(ValueModel::Object(o)) => o.len() > 0,
    }
}

pub open spec fn true_text() -> Seq<char> {
    seq!['t', 'r', 'u', 'e']
}

pub open spec fn false_text() -> Seq<char> {
    seq!['f', 'a', 'l', 's', 'e']
}

pub open spec fn null_text() -> Seq<char> {
    seq!['n', 'u', 'l', 'l']
}

pub open spec fn hex_digit(d: int) -> char {
    seq!['0', '1', '2', '3', '4', '5', '6', '7', '8', '9', 'a', 'b', 'c', 'd', 'e', 'f'][d]
}

/// How one character is written inside a JSON string: `"` and `\` and the
/// control characters below U+0020 are escaped, the short forms `\b \t \n
/// \f \r` where they exist, `\u00XX` otherwise; anything else stands as it is.
pub open spec fn json_escape(c: char) -> Seq<char> {
    if c == '"' {
        seq!['\\', '"']
    } else if c == '\\' {
        seq!['\\', '\\']
    } else if c == '\u{8}' {
        seq!['\\', 'b']
    } else if c == '\t' {
        seq!['\\', 't']
    } else if c == '\n' {
        seq!['\\', 'n']
    } else if c == '\u{c}' {
        seq!['\\', 'f']
    } else if c == '\r' {
        seq!['\\', 'r']
    } else if (c as int) < 32 {
        seq!['\\', 'u', '0', '0', hex_digit((c as int) / 16), hex_digit((c as int) % 16)]
    } else {
        seq![c]
    }
}

/// The characters of `s`, each written as `json_escape` says.
pub open spec fn json_escaped(s: Seq<char>) -> Seq<char>
    decreases s.len(),
{
    if s.len() == 0 {
        Seq::empty()
    } else {
        json_escaped(s.drop_last()) + json_escape(s.last())
    }
}

/// The JSON string literal for `s`: quotes and escapes included.
pub open spec fn json_quoted(s: Seq<char>) -> Seq<char> {
    seq!['"'] + json_escaped(s) + seq!['"']
}

/// The compact JSON form of a value.
pub open spec fn json_text(v: ValueModel) -> Seq<char>
    decreases v, 0int,
{
    match v {
        ValueModel::Null => null_text(),
        ValueModel::Bool(b) => if b {
            true_text()
        } else {
            false_text()
        },
        ValueModel::Number(n) => number_text(n),
        ValueModel::Str(s) => json_quoted(s),
        ValueModel::Array(a) => seq!['['] + json_items(a, a.len() as int) + seq![']'],
        ValueModel::Object(o) => seq!['{'] + json_entries(o, o.len() as int) + seq!['}'],
    }
}

/// The JSON forms of the first `n` elements of `a`, separated by commas.
pub open spec fn json_items(a: Seq<ValueModel>, n: int) -> Seq<char>
    decreases a, n,
{
    if n <= 0 || n > a.len() {
        Seq::empty()
    } else if n == 1 {
        json_text(a[0])
    } else {
        json_items(a, n - 1) + seq![','] + json_text(a[n - 1])
    }
}

/// The first `n` entries of `o` as `"key":value`, separated by commas.
pub open spec fn json_entries(o: Seq<(Seq<char>, ValueModel)>, n: int) -> Seq<char>
    decreases o, n,
{
    if n <= 0 || n > o.len() {
        Seq::empty()
    } else if n == 1 {
        json_quoted(o[0].0) + seq![':'] + json_text(o[0].1)
    } else {
        json_entries(o, n - 1) + seq![','] + json_quoted(o[n - 1].0) + seq![':'] + json_text(
            o[n - 1].1,
        )
    }
}

/// The text a value renders to: a string as it is, a boolean as `true` or
/// `false`, a number in its canonical text, null as nothing, and an array or
/// object in compact JSON.
pub open spec fn value_text(v: ValueModel) -> Seq<char> {
    match v {
        ValueModel::Null => Seq::empty(),
        ValueModel::Bool(b) => if b {
            true_text()
        } else {
            false_text()
        },
        ValueModel::Number(n) => number_text(n),
        ValueModel::Str(s) => s,
        _ => json_text(v),
    }
}

/// Relies on `serde_json::to_string` on a `str`: the JSON string literal for
/// `s`. Serialising a `str` into memory does not fail.
#[verifier::external_body]
fn quote_json(s: &str) -> (r: String)
    ensures
        r@ == json_quoted(s@),
{
    serde_json::to_string(s).unwrap_or_default()
}

/// Appends the compact JSON form of `v` to `out`.
#[verifier::loop_isolation(false)]
pub fn write_json(out: &mut String, v: &Value)
    ensures
        final(out)@ == old(out)@ + json_text(value_model(*v)),
    decreases v, 0int,
{
    match v {
        Value::Null => {
            push_str(out, "null");
            proof { reveal_strlit("null"); }
        },
        Value::Bool(b) => {
            if *b {
                push_str(out, "true");
                proof { reveal_strlit("true"); }
            } else {
                push_str(out, "false");
                proof { reveal_strlit("false"); }
            }
        },
        Value::Number(n) => {
            write_number(out, n);
        },
        Value::String(s) => {
            let q = quote_json(s.as_str());
            push_str(out, q.as_str());
        },
        Value::Array(a) => {
            let ghost m = array_model(a@, a@.len() as int);
            proof {
                lemma_array_model(a@, a@.len() as int);
            }
            push_char(out, '[');
            let ghost start = out@;
            let mut i: usize = 0;
            while i < a.len()
                invariant
                    i <= a@.len(),
                    m == array_model(a@, a@.len() as int),
                    m.len() == a@.len(),
                    forall|j: int| 0 <= j < a@.len() ==> #[trigger] m[j] == value_model(a@[j]),
                    out@ == start + json_items(m, i as int),
                decreases a@.len() - i,
            {
                if i > 0 {
                    push_char(out, ',');
                }
                proof {
                    vstd::std_specs::vec::axiom_vec_index_decreases(*a, i as int);
                }
                write_json(out, &a[i]);
                proof {
                    if i == 0 {
                        assert(json_items(m, 1) == json_text(m[0]));
                    }
                    assert(out@ =~= start + json_items(m, i + 1));
                }
                i = i + 1;
            }
            push_char(out, ']');
            assert(out@ =~= old(out)@ + json_text(value_model(*v)));
        },
        Value::Object(o) => {
            let ghost m = object_model(o@, o@.len() as int);
            proof {
                lemma_object_model(o@, o@.len() as int);
            }
            push_char(out, '{');
            let ghost start = out@;
            let mut i: usize = 0;
            while i < o.len()
                invariant
                    i <= o@.len(),
                    m == object_model(o@, o@.len() as int),
                    m.len() == o@.len(),
                    forall|j: int|
                        0 <= j < o@.len() ==> #[trigger] m[j] == (o@[j].0@, value_model(o@[j].1)),
                    out@ == start + json_entries(m, i as int),
                decreases o@.len() - i,
            {
                if i > 0 {
                    push_char(out, ',');
                }
                let q = quote_json(o[i].0.as_str());
                push_str(out, q.as_str());
                push_char(out, ':');
                proof {
                    vstd::std_specs::vec::axiom_vec_index_decreases(*o, i as int);
                }
                write_json(out, &o[i].1);
                proof {
                    assert(m[i as int] == (o@[i as int].0@, value_model(o@[i as int].1)));
                    assert(out@ =~= start + json_entries(m, i + 1));
                }
                i = i + 1;
            }
            push_char(out, '}');
            assert(out@ =~= old(out)@ + json_text(value_model(*v)));
        },
    }
}

/// Appends the text that `v` renders to.
pub fn write_text(out: &mut String, v: &Value)
    ensures
        final(out)@ == old(out)@ + value_text(value_model(*v)),
{
    match v {
        Value::Null => {
            assert(old(out)@ + Seq::<char>::empty() =~= old(out)@);
        },
        Value::Bool(b) => {
            if *b {
                push_str(out, "true");
                proof { reveal_strlit("true"); }
            } else {
                push_str(out, "false");
                proof { reveal_strlit("false"); }
            }
        },
        Value::Number(n) => {
            write_number(out, n);
        },
        Value::String(s) => {
            push_str(out, s.as_str());
        },
        _ => {
            write_json(out, v);
        },
    }
}

/// Whether `v` reads as true in a condition; an absent value reads as false.
pub fn is_truthy(v: Option<&Value>) -> (r: bool)
    ensures
        r == truthy(opt_model(v)),
{
    match v {
        None => false,
        Some(Value::Null) => false,
        Some(Value::Bool(b)) => *b,
        Some(Value::Number(n)) => !n.is_zero(),
        Some(Value::String(s)) => !s.as_str().is_empty(),
        Some(Value::Array(a)) => {
            proof {
                lemma_array_model(a@, a@.len() as int);
            }
            a.len() > 0
        },
        Some(Value::Object(o)) => {
            proof {
                lemma_object_model(o@, o@.len() as int);
            }
            o.len() > 0
        },
    }
}

/// The value under `key` in an object's entries: the last entry with that key.
pub fn field<'a>(entries: &'a Vec<(String, Value)>, key: &str) -> (r: Option<&'a Value>)
    ensures
        opt_model(r) == field_of(object_model(entries@, entries@.len() as int), key@),
{
    let mut i = entries.len();
    while i > 0
        invariant
            i <= entries@.len(),
            field_of(object_model(entries@, entries@.len() as int), key@) == field_of(
                object_model(entries@, i as int),
                key@,
            ),
        decreases i,
    {
        proof {
            let m = object_model(entries@, i as int);
            assert(m.drop_last() =~= object_model(entries@, i - 1));
        }
        if str_eq(entries[i - 1].0.as_str(), key) {
            return Some(&entries[i - 1].1);
        }
        i = i - 1;
    }
    None
}

/// The index of the last entry with key `k`, or -1.
pub open spec fn key_index(o: Seq<(Seq<char>, ValueModel)>, k: Seq<char>) -> int
    decreases o.len(),
{
    if o.len() == 0 {
        -1
    } else if o.last().0 == k {
        o.len() - 1
    } else {
        key_index(o.drop_last(), k)
    }
}

/// Structural equality: arrays element by element; objects as maps, with
/// the same keys and, for each key, equal latest values; anything else by
/// identity of the model.
pub open spec fn value_eq(a: ValueModel, b: ValueModel) -> bool
    decreases a, 0int,
{
    match (a, b) {
        (ValueModel::Array(x), ValueModel::Array(y)) => x.len() == y.len() && items_eq(
            x,
            y,
            x.len() as int,
        ),
        (ValueModel::Object(x), ValueModel::Object(y)) => entries_in(x, y, x.len() as int)
            && keys_within(y, x),
        _ => a == b,
    }
}

/// The first `n` elements of `x` equal those of `y` at the same places.
pub open spec fn items_eq(x: Seq<ValueModel>, y: Seq<ValueModel>, n: int) -> bool
    decreases x, n,
{
    if n <= 0 || n > x.len() {
        true
    } else {
        items_eq(x, y, n - 1) && n - 1 < y.len() && value_eq(x[n - 1], y[n - 1])
    }
}

/// Each of the first `n` entries of `x` that is the latest for its key has
/// an equal latest value under that key in `y`.
pub open spec fn entries_in(x: Seq<(Seq<char>, ValueModel)>, y: Seq<(Seq<char>, ValueModel)>, n: int) -> bool
    decreases x, n,
{
    if n <= 0 || n > x.len() {
        true
    } else {
        entries_in(x, y, n - 1) && (key_index(x, x[n - 1].0) != n - 1 || {
            let j = key_index(y, x[n - 1].0);
            0 <= j < y.len() && value_eq(x[n - 1].1, y[j].1)
        })
    }
}

/// Every key of `y` is a key of `x`.
pub open spec fn keys_within(y: Seq<(Seq<char>, ValueModel)>, x: Seq<(Seq<char>, ValueModel)>) -> bool {
    forall|i: int| 0 <= i < y.len() ==> key_index(x, #[trigger] y[i].0) >= 0
}

proof fn lemma_items_eq_prefix(x: Seq<ValueModel>, y: Seq<ValueModel>, n: int, m: int)
    requires
        0 <= m <= n <= x.len(),
        items_eq(x, y, n),
    ensures
        items_eq(x, y, m),
    decreases n,
{
    if m < n {
        lemma_items_eq_prefix(x, y, n - 1, m);
    }
}

proof fn lemma_entries_in_prefix(
    x: Seq<(Seq<char>, ValueModel)>,
    y: Seq<(Seq<char>, ValueModel)>,
    n: int,
    m: int,
)
    requires
        0 <= m <= n <= x.len(),
        entries_in(x, y, n),
    ensures
        entries_in(x, y, m),
    decreases n,
{
    if m < n {
        lemma_entries_in_prefix(x, y, n - 1, m);
    }
}

/// The index of the last entry of `o` with key `k`.
#[verifier::loop_isolation(false)]
fn key_index_exec(o: &Vec<(String, Value)>, k: &str) -> (r: Option<usize>)
    ensures
        match r {
            Some(i) => i < o@.len() && key_index(object_model(o@, o@.len() as int), k@) == i,
            None => key_index(object_model(o@, o@.len() as int), k@) == -1,
        },
{
    let ghost m = object_model(o@, o@.len() as int);
    proof {
        lemma_object_model(o@, o@.len() as int);
    }
    let mut i = o.len();
    assert(m.subrange(0, i as int) =~= m);
    while i > 0
        invariant
            i <= o@.len(),
            key_index(m, k@) == key_index(m.subrange(0, i as int), k@),
        decreases i,
    {
        assert(m.subrange(0, i as int).drop_last() =~= m.subrange(0, i - 1));
        if str_eq(o[i - 1].0.as_str(), k) {
            return Some(i - 1);
        }
        i = i - 1;
    }
    assert(m.subrange(0, 0) =~= Seq::<(Seq<char>, ValueModel)>::empty());
    None
}

/// Structural equality of two values, as `value_eq` describes it.
#[verifier::loop_isolation(false)]
pub fn values_equal(a: &Value, b: &Value) -> (r: bool)
    ensures
        r == value_eq(value_model(*a), value_model(*b)),
    decreases a, 0int,
{
    match (a, b) {
        (Value::Array(x), Value::Array(y)) => {
            let ghost mx = array_model(x@, x@.len() as int);
            let ghost my = array_model(y@, y@.len() as int);
            proof {
                lemma_array_model(x@, x@.len() as int);
                lemma_array_model(y@, y@.len() as int);
            }
            if x.len() != y.len() {
                return false;
            }
            let mut i: usize = 0;
            while i < x.len()
                invariant
                    i <= x@.len() == y@.len(),
                    items_eq(mx, my, i as int),
                decreases x@.len() - i,
            {
                proof {
                    vstd::std_specs::vec::axiom_vec_index_decreases(*x, i as int);
                }
                if !values_equal(&x[i], &y[i]) {
                    proof {
                        if items_eq(mx, my, mx.len() as int) {
                            lemma_items_eq_prefix(mx, my, mx.len() as int, i + 1);
                        }
                    }
                    return false;
                }
                i = i + 1;
            }
            true
        },
        (Value::Object(x), Value::Object(y)) => {
            let ghost mx = object_model(x@, x@.len() as int);
            let ghost my = object_model(y@, y@.len() as int);
            proof {
                lemma_object_model(x@, x@.len() as int);
                lemma_object_model(y@, y@.len() as int);
            }
            let mut i: usize = 0;
            while i < x.len()
                invariant
                    i <= x@.len(),
                    entries_in(mx, my, i as int),
                decreases x@.len() - i,
            {
                let k = x[i].0.as_str();
                let latest = match key_index_exec(x, k) {
                    Some(li) => li == i,
                    None => false,
                };
                if latest {
                    match key_index_exec(y, k) {
                        None => {
                            proof {
                                if entries_in(mx, my, mx.len() as int) {
                                    lemma_entries_in_prefix(mx, my, mx.len() as int, i + 1);
                                }
                            }
                            return false;
                        },
                        Some(j) => {
                            proof {
                                vstd::std_specs::vec::axiom_vec_index_decreases(*x, i as int);
                            }
                            if !values_equal(&x[i].1, &y[j].1) {
                                proof {
                                    if entries_in(mx, my, mx.len() as int) {
                                        lemma_entries_in_prefix(mx, my, mx.len() as int, i + 1);
                                    }
                                }
                                return false;
                            }
                        },
                    }
                }
                i = i + 1;
            }
            let mut j: usize = 0;
            while j < y.len()
                invariant
                    j <= y@.len(),
                    entries_in(mx, my, mx.len() as int),
                    forall|jj: int| 0 <= jj < j ==> key_index(mx, #[trigger] my[jj].0) >= 0,
                decreases y@.len() - j,
            {
                assert(my[j as int].0 == y@[j as int].0@);
                if key_index_exec(x, y[j].0.as_str()).is_none() {
                    assert(key_index(mx, my[j as int].0) < 0);
                    return false;
                }
                j = j + 1;
            }
            true
        },
        (Value::Null, Value::Null) => true,
        (Value::Bool(p), Value::Bool(q)) => *p == *q,
        (Value::Number(p), Value::Number(q)) => p.same(q),
        (Value::String(p), Value::String(q)) => str_eq(p.as_str(), q.as_str()),
        _ => false,
    }
}

} // verus!
