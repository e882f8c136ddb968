use vstd::prelude::*;
use crate::nodes::{CompareOp, Condition, ConditionModel, LocalModel,
    LocalValue, Node, NodeModel, Operand, OperandModel, condition_model, conditions_model,
    lemma_conditions_model, lemma_nodes_model, lemma_branches_model, list_model, local_model,
    locals_model, node_model, branches_model, operand_model, path_model};
use crate::number::{all_digits, all_digits_in, compare_numbers, literal_number, num_cmp,
    parse_number};
use crate::text::{chars_of, push_str, str_eq};
use crate::keys::normalized;
use crate::templates::Templates;
use crate::value::{Value, ValueModel, array_model, field, field_of, is_truthy, lemma_array_model,
    opt_model, truthy, value_model, value_text, values_equal,
    write_text};

verus! {

/// Model of a context stack: scopes, innermost last, and the root value.
pub struct ContextModel {
    pub scopes: Seq<Seq<(Seq<char>, ValueModel)>>,
    pub global: Option<ValueModel>,
}

/// A binding looked up in the root value: a field where it is an object.
pub open spec fn global_get(g: Option<ValueModel>, k: Seq<char>) -> Option<ValueModel> {
    match g {
        Some(ValueModel::Object(o)) => field_of(o, k),
        _ => None,
    }
}

/// A binding looked up from the innermost scope outwards, then in the root.
/// Within a scope the latest binding of a name wins.
pub open spec fn lookup_in(scopes: Seq<Seq<(Seq<char>, ValueModel)>>, g: Option<ValueModel>, k: Seq<char>) -> Option<ValueModel>
    decreases scopes.len(),
{
    if scopes.len() == 0 {
        global_get(g, k)
    } else {
        match field_of(scopes.last(), k) {
            Some(v) => Some(v),
            None => lookup_in(scopes.drop_last(), g, k),
        }
    }
}

pub open spec fn lookup(c: ContextModel, k: Seq<char>) -> Option<ValueModel> {
    lookup_in(c.scopes, c.global, k)
}

pub open spec fn push_scope_model(c: ContextModel) -> ContextModel {
    ContextModel { scopes: c.scopes.push(Seq::empty()), global: c.global }
}

/// Binds `k` to `v` in the innermost scope; without a scope, nothing changes.
pub open spec fn set_model(c: ContextModel, k: Seq<char>, v: ValueModel) -> ContextModel {
    if c.scopes.len() == 0 {
        c
    } else {
        ContextModel {
            scopes: c.scopes.update(c.scopes.len() - 1, c.scopes.last().push((k, v))),
            global: c.global,
        }
    }
}

/// An array index written as a path segment: decimal digits, optionally
/// after a `+`.
pub open spec fn segment_index(seg: Seq<char>) -> Option<int> {
    let digits = if seg.len() > 0 && seg[0] == '+' {
        seg.drop_first()
    } else {
        seg
    };
    if all_digits(digits) && literal_number(seg) is Some {
        Some(literal_number(seg)->0.mantissa_spec())
    } else {
        None
    }
}

/// Walks the segments of `path` from `i` down from `v`: a field of an
/// object, an element of an array; any mismatch gives nothing.
pub open spec fn walk(v: Option<ValueModel>, path: Seq<Seq<char>>, i: int) -> Option<ValueModel>
    decreases path.len() - i,
{
    if i < 0 || i >= path.len() {
        v
    } else {
        match v {
            Some(ValueModel::Object(o)) => walk(field_of(o, path[i]), path, i + 1),
            Some(ValueModel::Array(a)) => match segment_index(path[i]) {
                Some(n) => if 0 <= n < a.len() {
                    walk(Some(a[n]), path, i + 1)
                } else {
                    None
                },
                None => None,
            },
            _ => None,
        }
    }
}

/// The value at `path`: its first segment is a binding, the rest walk down.
pub open spec fn resolve(path: Seq<Seq<char>>, c: ContextModel) -> Option<ValueModel> {
    if path.len() == 0 {
        None
    } else {
        walk(lookup(c, path[0]), path, 1)
    }
}

/// Lexicographic order of character sequences, by code point.
pub open spec fn seq_lt(a: Seq<char>, b: Seq<char>) -> bool
    decreases a.len(),
{
    if a.len() == 0 {
        b.len() > 0
    } else if b.len() == 0 {
        false
    } else if a[0] != b[0] {
        a[0] < b[0]
    } else {
        seq_lt(a.drop_first(), b.drop_first())
    }
}

/// A comparison of two operand values: strings by character order, numbers
/// by value, booleans only for equality; any other pairing, an absent side
/// included, by structural equality for `==`/`!=` and false otherwise.
pub open spec fn compare_spec(l: Option<ValueModel>, op: CompareOp, r: Option<ValueModel>) -> bool {
    match (l, r) {
        (Some(ValueModel::Str(a)), Some(ValueModel::Str(b))) => match op {
            CompareOp::Eq => a == b,
            CompareOp::Ne => a != b,
            CompareOp::Lt => seq_lt(a, b),
            CompareOp::Gt => seq_lt(b, a),
            CompareOp::Le => !seq_lt(b, a),
            CompareOp::Ge => !seq_lt(a, b),
        },
        (Some(ValueModel::Number(a)), Some(ValueModel::Number(b))) => {
            let c = num_cmp(a, b);
            match op {
                CompareOp::Eq => c == 0,
                CompareOp::Ne => c != 0,
                CompareOp::Lt => c < 0,
                CompareOp::Gt => c > 0,
                CompareOp::Le => c <= 0,
                CompareOp::Ge => c >= 0,
            }
        },
        (Some(ValueModel::Bool(a)), Some(ValueModel::Bool(b))) => match op {
            CompareOp::Eq => a == b,
            CompareOp::Ne => a != b,
            _ => false,
        },
        _ => match op {
            CompareOp::Eq => same_value(l, r),
            CompareOp::Ne => !same_value(l, r),
            _ => false,
        },
    }
}

/// Structural equality of two operand values; two absent values are equal.
pub open spec fn same_value(l: Option<ValueModel>, r: Option<ValueModel>) -> bool {
    match (l, r) {
        (Some(a), Some(b)) => crate::value::value_eq(a, b),
        (None, None) => true,
        _ => false,
    }
}

pub open spec fn operand_value(o: OperandModel, c: ContextModel) -> Option<ValueModel> {
    match o {
        OperandModel::Literal(v) => Some(v),
        OperandModel::Path(p) => resolve(p, c),
    }
}

/// Whether a condition holds in context `c`.
pub open spec fn eval(cond: ConditionModel, c: ContextModel) -> bool
    decreases cond, 0int,
{
    match cond {
        ConditionModel::Literal(b) => b,
        ConditionModel::Path(p) => truthy(resolve(p, c)),
        ConditionModel::And(cs) => all_hold(cs, cs.len() as int, c),
        ConditionModel::Or(cs) => any_holds(cs, cs.len() as int, c),
        ConditionModel::Not(inner) => !eval(*inner, c),
        ConditionModel::Compare(l, op, r) => compare_spec(operand_value(l, c), op, operand_value(r, c)),
    }
}

/// Whether the first `n` conditions all hold.
pub open spec fn all_hold(cs: Seq<ConditionModel>, n: int, c: ContextModel) -> bool
    decreases cs, n,
{
    if n <= 0 || n > cs.len() {
        true
    } else {
        all_hold(cs, n - 1, c) && eval(cs[n - 1], c)
    }
}

/// Whether one of the first `n` conditions holds.
pub open spec fn any_holds(cs: Seq<ConditionModel>, n: int, c: ContextModel) -> bool
    decreases cs, n,
{
    if n <= 0 || n > cs.len() {
        false
    } else {
        any_holds(cs, n - 1, c) || eval(cs[n - 1], c)
    }
}

/// The index of the first guard from `i` that holds, or the number of guards.
pub open spec fn first_holding(bs: Seq<(ConditionModel, Seq<NodeModel>)>, i: int, c: ContextModel) -> int
    decreases bs.len() - i,
{
    if i < 0 || i >= bs.len() {
        bs.len() as int
    } else if eval(bs[i].0, c) {
        i
    } else {
        first_holding(bs, i + 1, c)
    }
}

/// The index of the latest entry for key `k`, or -1.
pub open spec fn store_get_index(st: Seq<(Seq<char>, Seq<NodeModel>)>, k: Seq<char>) -> int
    decreases st.len(),
{
    if st.len() == 0 {
        -1
    } else if st.last().0 == k {
        st.len() - 1
    } else {
        store_get_index(st.drop_last(), k)
    }
}

/// Templates by key; the latest entry for a key wins.
pub open spec fn store_get(st: Seq<(Seq<char>, Seq<NodeModel>)>, k: Seq<char>) -> Option<Seq<NodeModel>> {
    let i = store_get_index(st, k);
    if 0 <= i < st.len() {
        Some(st[i].1)
    } else {
        None
    }
}

/// The scope a partial starts with: each local bound in order, a literal as
/// it is, a path as resolved in the caller's context; a path that resolves
/// to nothing binds its name to null.
pub open spec fn partial_scope(locals: Seq<(Seq<char>, LocalModel)>, n: int, caller: ContextModel) -> Seq<(Seq<char>, ValueModel)>
    decreases n,
{
    if n <= 0 || n > locals.len() {
        Seq::empty()
    } else {
        let prev = partial_scope(locals, n - 1, caller);
        match locals[n - 1].1 {
            LocalModel::Literal(v) => prev.push((locals[n - 1].0, v)),
            LocalModel::Path(p) => match resolve(p, caller) {
                Some(v) => prev.push((locals[n - 1].0, v)),
                None => prev.push((locals[n - 1].0, ValueModel::Null)),
            },
        }
    }
}

pub open spec fn partial_context(locals: Seq<(Seq<char>, LocalModel)>, caller: ContextModel) -> ContextModel {
    ContextModel { scopes: seq![partial_scope(locals, locals.len() as int, caller)], global: None }
}

pub open spec fn missing_include_text(k: Seq<char>) -> Seq<char> {
    "<!-- Missing include: "@ + k + " -->"@
}

pub open spec fn nested_too_deep_text() -> Seq<char> {
    "<!-- Blocks nested too deep -->"@
}

pub open spec fn too_deep_text(k: Seq<char>) -> Seq<char> {
    "<!-- Include nested too deep: "@ + k + " -->"@
}

/// The output of the first `n` nodes of `ns`, rendered in context `c`, with
/// the templates `st`, the caller's content `content` and `fuel` more levels
/// of nesting allowed; a block or include found with no level left renders
/// as a comment saying so.
pub open spec fn render_upto(ns: Seq<NodeModel>, n: int, c: ContextModel, st: Seq<(Seq<char>, Seq<NodeModel>)>, content: Option<Seq<char>>, fuel: nat) -> Seq<char>
    decreases fuel, ns, n,
{
    if n <= 0 || n > ns.len() {
        Seq::empty()
    } else {
        render_upto(ns, n - 1, c, st, content, fuel) + render_node(ns[n - 1], c, st, content, fuel)
    }
}

/// The output of one node.
pub open spec fn render_node(node: NodeModel, c: ContextModel, st: Seq<(Seq<char>, Seq<NodeModel>)>, content: Option<Seq<char>>, fuel: nat) -> Seq<char>
    decreases fuel, node, 0int,
{
    match node {
        NodeModel::Text(s) => s,
        NodeModel::Var(p) => match resolve(p, c) {
            Some(v) => value_text(v),
            None => Seq::empty(),
        },
        NodeModel::If(bs, otherwise) => if fuel == 0 {
            nested_too_deep_text()
        } else {
            let k = first_holding(bs, 0, c);
            if 0 <= k < bs.len() {
                render_upto(bs[k].1, bs[k].1.len() as int, c, st, content, (fuel - 1) as nat)
            } else {
                match otherwise {
                    Some(b) => render_upto(b, b.len() as int, c, st, content, (fuel - 1) as nat),
                    None => Seq::empty(),
                }
            }
        },
        NodeModel::For(name, container, body) => if fuel == 0 {
            nested_too_deep_text()
        } else {
            match resolve(container, c) {
                Some(ValueModel::Array(items)) => render_loop(
                    body,
                    name,
                    items,
                    0,
                    push_scope_model(c),
                    st,
                    content,
                    (fuel - 1) as nat,
                ),
                _ => Seq::empty(),
            }
        },
        NodeModel::Include(key, body, locals) => match store_get(st, normalized(key)) {
            None => missing_include_text(key),
            Some(partial) => if fuel == 0 {
                too_deep_text(key)
            } else {
                let inner = render_upto(body, body.len() as int, c, st, None, (fuel - 1) as nat);
                render_upto(
                    partial,
                    partial.len() as int,
                    partial_context(locals, c),
                    st,
                    Some(inner),
                    (fuel - 1) as nat,
                )
            },
        },
        NodeModel::Slot => match content {
            Some(s) => s,
            None => Seq::empty(),
        },
    }
}

/// The loop body rendered for the elements of `items` from `k`, each bound
/// to `name` in the innermost scope of `c`.
pub open spec fn render_loop(body: Seq<NodeModel>, name: Seq<char>, items: Seq<ValueModel>, k: int, c: ContextModel, st: Seq<(Seq<char>, Seq<NodeModel>)>, content: Option<Seq<char>>, fuel: nat) -> Seq<char>
    decreases fuel, body, body.len() + 1 + items.len() - k,
{
    if k < 0 || k >= items.len() {
        Seq::empty()
    } else {
        let c2 = set_model(c, name, items[k]);
        render_upto(body, body.len() as int, c2, st, content, fuel) + render_loop(
            body,
            name,
            items,
            k + 1,
            c2,
            st,
            content,
            fuel,
        )
    }
}

/// The output of a node list.
pub open spec fn render_all(ns: Seq<NodeModel>, c: ContextModel, st: Seq<(Seq<char>, Seq<NodeModel>)>, content: Option<Seq<char>>, fuel: nat) -> Seq<char> {
    render_upto(ns, ns.len() as int, c, st, content, fuel)
}

/// How deep blocks and partials may nest inside one another in one render:
/// each `@if`, `@for` and `@include` takes one level.
pub const MAX_RENDER_DEPTH: usize = 64;

pub open spec fn scope_model<'a>(s: Seq<(&'a str, &'a Value)>) -> Seq<(Seq<char>, ValueModel)> {
    s.map_values(|e: (&'a str, &'a Value)| (e.0@, value_model(*e.1)))
}

pub open spec fn content_model(c: Option<&str>) -> Option<Seq<char>> {
    match c {
        Some(s) => Some(s@),
        None => None,
    }
}

/// The scopes of one render: bindings made by loops and includes, innermost
/// last, over an optional root value whose fields are the outermost bindings.
pub struct ContextStack<'a> {
    scopes: Vec<Vec<(&'a str, &'a Value)>>,
    global: Option<&'a Value>,
}

impl<'a> ContextStack<'a> {
    pub closed spec fn model(&self) -> ContextModel {
        ContextModel {
            scopes: self.scopes@.map_values(|s: Vec<(&'a str, &'a Value)>| scope_model(s@)),
            global: opt_model(self.global),
        }
    }

    /// A stack with no scopes over the root value `global`.
    pub fn new(global: &'a Value) -> (r: ContextStack<'a>)
        ensures
            r.model() == (ContextModel { scopes: Seq::empty(), global: Some(value_model(*global)) }),
    {
        let r = ContextStack { scopes: Vec::new(), global: Some(global) };
        assert(r.model().scopes =~= Seq::<Seq<(Seq<char>, ValueModel)>>::empty());
        r
    }

    /// A stack with no scopes and no root value.
    pub fn isolated() -> (r: ContextStack<'a>)
        ensures
            r.model() == (ContextModel { scopes: Seq::empty(), global: None }),
    {
        let r = ContextStack { scopes: Vec::new(), global: None };
        assert(r.model().scopes =~= Seq::<Seq<(Seq<char>, ValueModel)>>::empty());
        r
    }

    pub fn push_scope(&mut self)
        ensures
            final(self).model() == push_scope_model(old(self).model()),
    {
        let ghost prev = self.model();
        self.scopes.push(Vec::new());
        proof {
            let e: Vec<(&'a str, &'a Value)> = self.scopes@.last();
            assert(scope_model(e@) =~= Seq::<(Seq<char>, ValueModel)>::empty());
            assert(self.model().scopes =~= prev.scopes.push(Seq::empty()));
        }
    }

    /// Drops the innermost scope, if there is one.
    pub fn pop_scope(&mut self)
        ensures
            old(self).model().scopes.len() > 0 ==> final(self).model() == (ContextModel {
                scopes: old(self).model().scopes.drop_last(),
                global: old(self).model().global,
            }),
            old(self).model().scopes.len() == 0 ==> final(self).model() == old(self).model(),
    {
        let ghost prev = self.model();
        let _ = self.scopes.pop();
        proof {
            if prev.scopes.len() > 0 {
                assert(self.model().scopes =~= prev.scopes.drop_last());
            } else {
                assert(self.model().scopes =~= prev.scopes);
            }
        }
    }

    /// Binds `key` to `value` in the innermost scope.
    pub fn set(&mut self, key: &'a str, value: &'a Value)
        ensures
            final(self).model() == set_model(old(self).model(), key@, value_model(*value)),
    {
        let ghost prev = self.model();
        match self.scopes.pop() {
            Some(mut last) => {
                let ghost lm = scope_model(last@);
                last.push((key, value));
                assert(scope_model(last@) =~= lm.push((key@, value_model(*value))));
                self.scopes.push(last);
                assert(self.model().scopes =~= prev.scopes.update(
                    prev.scopes.len() - 1,
                    prev.scopes.last().push((key@, value_model(*value))),
                ));
            },
            None => {},
        }
    }

    /// The value bound to `key`: innermost scope first, then the root value.
    #[verifier::loop_isolation(false)]
    pub fn get(&self, key: &str) -> (r: Option<&'a Value>)
        ensures
            opt_model(r) == lookup(self.model(), key@),
    {
        let ghost m = self.model();
        let mut i = self.scopes.len();
        assert(m.scopes.subrange(0, i as int) =~= m.scopes);
        while i > 0
            invariant
                i <= self.scopes@.len(),
                m == self.model(),
                lookup(m, key@) == lookup_in(m.scopes.subrange(0, i as int), m.global, key@),
            decreases i,
        {
            let scope = &self.scopes[i - 1];
            let ghost sm = scope_model(scope@);
            assert(m.scopes.subrange(0, i as int).last() == sm);
            assert(m.scopes.subrange(0, i as int).drop_last() =~= m.scopes.subrange(0, i - 1));
            let mut j = scope.len();
            assert(sm.subrange(0, j as int) =~= sm);
            while j > 0
                invariant
                    j <= scope@.len(),
                    sm == scope_model(scope@),
                    field_of(sm, key@) == field_of(sm.subrange(0, j as int), key@),
                decreases j,
            {
                assert(sm.subrange(0, j as int).drop_last() =~= sm.subrange(0, j - 1));
                if str_eq(scope[j - 1].0, key) {
                    return Some(scope[j - 1].1);
                }
                j = j - 1;
            }
            assert(sm.subrange(0, 0) =~= Seq::<(Seq<char>, ValueModel)>::empty());
            i = i - 1;
        }
        assert(m.scopes.subrange(0, 0) =~= Seq::<Seq<(Seq<char>, ValueModel)>>::empty());
        match self.global {
            Some(Value::Object(o)) => field(o, key),
            _ => None,
        }
    }
}

/// The array index that `seg` denotes, if any.
fn segment_index_exec(seg: &String) -> (r: Option<usize>)
    ensures
        match r {
            Some(n) => segment_index(seg@) == Some(n as int),
            None => segment_index(seg@) is None || segment_index(seg@)->0 < 0 || segment_index(
                seg@,
            )->0 > usize::MAX,
        },
{
    let t = chars_of(seg.as_str());
    let n = t.len();
    assert(t@.subrange(0, n as int) =~= seg@);
    let start: usize = if n > 0 && t[0] == '+' {
        1
    } else {
        0
    };
    assert(t@.subrange(start as int, n as int) =~= (if seg@.len() > 0 && seg@[0] == '+' {
        seg@.drop_first()
    } else {
        seg@
    }));
    if !all_digits_in(&t, start, n) {
        return None;
    }
    match parse_number(&t, 0, n) {
        Some(num) => {
            let m = num.mantissa();
            if m >= 0 && (m as u64) <= (usize::MAX as u64) {
                Some(m as usize)
            } else {
                None
            }
        },
        None => None,
    }
}

/// The value at `path` in `ctx`.
pub fn resolve_path<'a>(path: &Vec<String>, ctx: &ContextStack<'a>) -> (r: Option<&'a Value>)
    ensures
        opt_model(r) == resolve(path_model(path@), ctx.model()),
{
    let ghost pm = path_model(path@);
    if path.len() == 0 {
        return None;
    }
    let mut cur = ctx.get(path[0].as_str());
    let mut i: usize = 1;
    while i < path.len()
        invariant
            1 <= i <= path@.len(),
            pm == path_model(path@),
            walk(opt_model(cur), pm, i as int) == resolve(pm, ctx.model()),
        decreases path@.len() - i,
    {
        let ghost seg = pm[i as int];
        assert(seg == path@[i as int]@);
        match cur {
            Some(Value::Object(o)) => {
                cur = field(o, path[i].as_str());
            },
            Some(Value::Array(a)) => {
                let alen = a.len();
                proof {
                    lemma_array_model(a@, a@.len() as int);
                }
                match segment_index_exec(&path[i]) {
                    Some(n) => {
                        if n < a.len() {
                            cur = Some(&a[n]);
                        } else {
                            return None;
                        }
                    },
                    None => {
                        return None;
                    },
                }
            },
            _ => {
                return None;
            },
        }
        i = i + 1;
    }
    cur
}

/// Whether `a` comes before `b` in character order.
fn str_lt(a: &str, b: &str) -> (r: bool)
    ensures
        r == seq_lt(a@, b@),
{
    let x = chars_of(a);
    let y = chars_of(b);
    let mut i: usize = 0;
    assert(a@.subrange(0, a@.len() as int) =~= a@);
    assert(b@.subrange(0, b@.len() as int) =~= b@);
    while i < x.len() && i < y.len() && x[i] == y[i]
        invariant
            i <= x@.len(),
            i <= y@.len(),
            x@ == a@,
            y@ == b@,
            seq_lt(a@, b@) == seq_lt(a@.subrange(i as int, a@.len() as int), b@.subrange(
                i as int,
                b@.len() as int,
            )),
        decreases x@.len() - i,
    {
        proof {
            let u = a@.subrange(i as int, a@.len() as int);
            let v = b@.subrange(i as int, b@.len() as int);
            assert(u.drop_first() =~= a@.subrange(i + 1, a@.len() as int));
            assert(v.drop_first() =~= b@.subrange(i + 1, b@.len() as int));
        }
        i = i + 1;
    }
    proof {
        assert(a@.subrange(0, a@.len() as int) =~= a@);
        assert(b@.subrange(0, b@.len() as int) =~= b@);
    }
    if i == x.len() {
        i < y.len()
    } else if i == y.len() {
        false
    } else {
        x[i] < y[i]
    }
}

/// A comparison of two operand values, as `compare_spec` describes it.
pub fn compare_values(l: Option<&Value>, op: CompareOp, r: Option<&Value>) -> (res: bool)
    ensures
        res == compare_spec(opt_model(l), op, opt_model(r)),
{
    match (l, r) {
        (Some(Value::String(a)), Some(Value::String(b))) => match op {
            CompareOp::Eq => str_eq(a.as_str(), b.as_str()),
            CompareOp::Ne => !str_eq(a.as_str(), b.as_str()),
            CompareOp::Lt => str_lt(a.as_str(), b.as_str()),
            CompareOp::Gt => str_lt(b.as_str(), a.as_str()),
            CompareOp::Le => !str_lt(b.as_str(), a.as_str()),
            CompareOp::Ge => !str_lt(a.as_str(), b.as_str()),
        },
        (Some(Value::Number(a)), Some(Value::Number(b))) => {
            let c = compare_numbers(a, b);
            match op {
                CompareOp::Eq => c == 0,
                CompareOp::Ne => c != 0,
                CompareOp::Lt => c < 0,
                CompareOp::Gt => c > 0,
                CompareOp::Le => c <= 0,
                CompareOp::Ge => c >= 0,
            }
        },
        (Some(Value::Bool(a)), Some(Value::Bool(b))) => match op {
            CompareOp::Eq => *a == *b,
            CompareOp::Ne => *a != *b,
            _ => false,
        },
        _ => {
            let same = match (l, r) {
                (Some(a), Some(b)) => values_equal(a, b),
                (None, None) => true,
                _ => false,
            };
            match op {
                CompareOp::Eq => same,
                CompareOp::Ne => !same,
                _ => false,
            }
        },
    }
}

fn operand_value_exec<'a, 'b>(o: &'b Operand, ctx: &ContextStack<'a>) -> (r: Option<&'b Value>)
    where 'a: 'b,
    ensures
        opt_model(r) == operand_value(operand_model(*o), ctx.model()),
{
    match o {
        Operand::Literal(v) => Some(v),
        Operand::Path(p) => resolve_path(p, ctx),
    }
}

proof fn lemma_all_hold(cs: Seq<ConditionModel>, n: int, i: int, c: ContextModel)
    requires
        0 <= i < n <= cs.len(),
        all_hold(cs, n, c),
    ensures
        eval(cs[i], c),
    decreases n,
{
    if i < n - 1 {
        lemma_all_hold(cs, n - 1, i, c);
    }
}

proof fn lemma_any_holds(cs: Seq<ConditionModel>, n: int, i: int, c: ContextModel)
    requires
        0 <= i < n <= cs.len(),
        eval(cs[i], c),
    ensures
        any_holds(cs, n, c),
    decreases n,
{
    if i < n - 1 {
        lemma_any_holds(cs, n - 1, i, c);
    }
}

/// Whether `cond` holds in `ctx`.
pub fn evaluate_condition(cond: &Condition, ctx: &ContextStack) -> (r: bool)
    ensures
        r == eval(condition_model(*cond), ctx.model()),
    decreases cond, 0int,
{
    match cond {
        Condition::Literal(b) => *b,
        Condition::Path(p) => is_truthy(resolve_path(p, ctx)),
        Condition::And(cs) => {
            let ghost m = conditions_model(cs@, cs@.len() as int);
            proof {
                lemma_conditions_model(cs@, cs@.len() as int);
            }
            let mut i: usize = 0;
            while i < cs.len()
                invariant
                    i <= cs@.len(),
                    m == conditions_model(cs@, cs@.len() as int),
                    m.len() == cs@.len(),
                    forall|j: int| 0 <= j < cs@.len() ==> #[trigger] m[j] == condition_model(cs@[j]),
                    *cond == Condition::And(*cs),
                    all_hold(m, i as int, ctx.model()),
                decreases cs@.len() - i,
            {
                proof {
                    vstd::std_specs::vec::axiom_vec_index_decreases(*cs, i as int);
                }
                if !evaluate_condition(&cs[i], ctx) {
                    proof {
                        if all_hold(m, m.len() as int, ctx.model()) {
                            lemma_all_hold(m, m.len() as int, i as int, ctx.model());
                        }
                    }
                    return false;
                }
                i = i + 1;
            }
            true
        },
        Condition::Or(cs) => {
            let ghost m = conditions_model(cs@, cs@.len() as int);
            proof {
                lemma_conditions_model(cs@, cs@.len() as int);
            }
            let mut i: usize = 0;
            while i < cs.len()
                invariant
                    i <= cs@.len(),
                    m == conditions_model(cs@, cs@.len() as int),
                    m.len() == cs@.len(),
                    forall|j: int| 0 <= j < cs@.len() ==> #[trigger] m[j] == condition_model(cs@[j]),
                    *cond == Condition::Or(*cs),
                    !any_holds(m, i as int, ctx.model()),
                decreases cs@.len() - i,
            {
                proof {
                    vstd::std_specs::vec::axiom_vec_index_decreases(*cs, i as int);
                }
                if evaluate_condition(&cs[i], ctx) {
                    proof {
                        lemma_any_holds(m, m.len() as int, i as int, ctx.model());
                    }
                    return true;
                }
                i = i + 1;
            }
            false
        },
        Condition::Not(inner) => !evaluate_condition(inner, ctx),
        Condition::Compare { left, op, right } => {
            let l = operand_value_exec(left, ctx);
            let r = operand_value_exec(right, ctx);
            compare_values(l, *op, r)
        },
    }
}

fn push_missing(out: &mut String, key: &String)
    ensures
        final(out)@ == old(out)@ + missing_include_text(key@),
{
    push_str(out, "<!-- Missing include: ");
    push_str(out, key.as_str());
    push_str(out, " -->");
    assert(out@ =~= old(out)@ + missing_include_text(key@));
}

fn push_nested_too_deep(out: &mut String)
    ensures
        final(out)@ == old(out)@ + nested_too_deep_text(),
{
    push_str(out, "<!-- Blocks nested too deep -->");
}

fn push_too_deep(out: &mut String, key: &String)
    ensures
        final(out)@ == old(out)@ + too_deep_text(key@),
{
    push_str(out, "<!-- Include nested too deep: ");
    push_str(out, key.as_str());
    push_str(out, " -->");
    assert(out@ =~= old(out)@ + too_deep_text(key@));
}

/// Appends the output of `nodes` to `out`. The context is the same after the
/// call as before it.
fn render_into<'a>(
    out: &mut String,
    nodes: &'a Vec<Node>,
    ctx: &mut ContextStack<'a>,
    templates: &'a Templates,
    content: Option<&str>,
    depth: usize,
)
    ensures
        final(out)@ == old(out)@ + render_all(
            list_model(*nodes),
            old(ctx).model(),
            templates.store(),
            content_model(content),
            depth as nat,
        ),
        final(ctx).model() == old(ctx).model(),
    decreases depth, nodes@, nodes@.len() + 1,
{
    let ghost c = ctx.model();
    let ghost m = list_model(*nodes);
    proof {
        lemma_nodes_model(nodes@, nodes@.len() as int);
    }
    let mut i: usize = 0;
    while i < nodes.len()
        invariant
            i <= nodes@.len(),
            m == list_model(*nodes),
            m.len() == nodes@.len(),
            forall|j: int| 0 <= j < nodes@.len() ==> #[trigger] m[j] == node_model(nodes@[j]),
            ctx.model() == c,
            out@ == old(out)@ + render_upto(m, i as int, c, templates.store(), content_model(content), depth as nat),
        decreases nodes@.len() - i,
    {
        proof {
            vstd::std_specs::vec::axiom_vec_index_decreases(*nodes, i as int);
        }
        render_node_into(out, &nodes[i], ctx, templates, content, depth);
        i = i + 1;
    }
}

/// Appends the output of `node` to `out`, leaving the context as it was.
#[verifier::loop_isolation(false)]
fn render_node_into<'a>(
    out: &mut String,
    node: &'a Node,
    ctx: &mut ContextStack<'a>,
    templates: &'a Templates,
    content: Option<&str>,
    depth: usize,
)
    ensures
        final(out)@ == old(out)@ + render_node(
            node_model(*node),
            old(ctx).model(),
            templates.store(),
            content_model(content),
            depth as nat,
        ),
        final(ctx).model() == old(ctx).model(),
    decreases depth, node, 0int,
{
    let ghost c = ctx.model();
    let ghost st = templates.store();
    let ghost cm = content_model(content);
    match node {
        Node::Text(s) => {
            push_str(out, s.as_str());
        },
        Node::VariableBlock(p) => {
            match resolve_path(p, ctx) {
                Some(v) => write_text(out, v),
                None => {
                    assert(out@ =~= old(out)@ + Seq::<char>::empty());
                },
            }
        },
        Node::If(f) => {
            if depth == 0 {
                push_nested_too_deep(out);
                return;
            }
            let ghost bm = branches_model(f.conditions@, f.conditions@.len() as int);
            proof {
                lemma_branches_model(f.conditions@, f.conditions@.len() as int);
            }
            let mut i: usize = 0;
            while i < f.conditions.len()
                invariant
                    i <= f.conditions@.len(),
                    bm.len() == f.conditions@.len(),
                    ctx.model() == c,
                    out@ == old(out)@,
                    first_holding(bm, 0, c) == first_holding(bm, i as int, c),
                decreases f.conditions@.len() - i,
            {
                if evaluate_condition(&f.conditions[i].0, ctx) {
                    proof {
                        vstd::std_specs::vec::axiom_vec_index_decreases(f.conditions, i as int);
                    }
                    render_into(out, &f.conditions[i].1, ctx, templates, content, depth - 1);
                    return;
                }
                i = i + 1;
            }
            match &f.otherwise {
                Some(b) => {
                    render_into(out, b, ctx, templates, content, depth - 1);
                },
                None => {
                    assert(out@ =~= old(out)@ + Seq::<char>::empty());
                },
            }
        },
        Node::Forloop(f) => {
            if depth == 0 {
                push_nested_too_deep(out);
                return;
            }
            match resolve_path(&f.container, ctx) {
                Some(Value::Array(items)) => {
                    let ghost im = array_model(items@, items@.len() as int);
                    proof {
                        lemma_array_model(items@, items@.len() as int);
                    }
                    let ghost bm = list_model(f.body);
                    let ghost c0 = push_scope_model(c);
                    ctx.push_scope();
                    let mut k: usize = 0;
                    assert(old(out)@ + render_loop(bm, f.value@, im, 0, c0, st, cm, (depth - 1) as nat)
                        =~= out@ + render_loop(bm, f.value@, im, 0, c0, st, cm, (depth - 1) as nat));
                    while k < items.len()
                        invariant
                            k <= items@.len(),
                            im.len() == items@.len(),
                            ctx.model().scopes.len() == c.scopes.len() + 1,
                            ctx.model().scopes.drop_last() == c.scopes,
                            ctx.model().global == c.global,
                            old(out)@ + render_loop(bm, f.value@, im, 0, c0, st, cm, (depth - 1) as nat)
                                == out@ + render_loop(
                                bm,
                                f.value@,
                                im,
                                k as int,
                                ctx.model(),
                                st,
                                cm,
                                (depth - 1) as nat,
                            ),
                        decreases items@.len() - k,
                    {
                        let ghost ck = ctx.model();
                        ctx.set(f.value.as_str(), &items[k]);
                        assert(ctx.model().scopes.drop_last() =~= ck.scopes.drop_last());
                        render_into(out, &f.body, ctx, templates, content, depth - 1);
                        k = k + 1;
                    }
                    ctx.pop_scope();
                    assert(ctx.model().scopes =~= c.scopes);
                },
                _ => {
                    assert(out@ =~= old(out)@ + Seq::<char>::empty());
                },
            }
        },
        Node::Include(inc) => {
            match templates.get(inc.path.as_str()) {
                None => {
                    push_missing(out, &inc.path);
                },
                Some(partial) => {
                    if depth == 0 {
                        push_too_deep(out, &inc.path);
                    } else {
                        let mut inner = String::new();
                        render_into(&mut inner, &inc.body, ctx, templates, None, depth - 1);
                        let null_value = Value::Null;
                        let mut pctx = ContextStack::isolated();
                        pctx.push_scope();
                        let ghost lm = locals_model(inc.local_ctx@);
                        let mut i: usize = 0;
                        proof {
                            assert(pctx.model().scopes =~= seq![partial_scope(lm, 0, c)]);
                        }
                        while i < inc.local_ctx.len()
                            invariant
                                i <= inc.local_ctx@.len(),
                                lm == locals_model(inc.local_ctx@),
                                ctx.model() == c,
                                pctx.model() == (ContextModel {
                                    scopes: seq![partial_scope(lm, i as int, c)],
                                    global: None,
                                }),
                            decreases inc.local_ctx@.len() - i,
                        {
                            let key = inc.local_ctx[i].0.as_str();
                            assert(lm[i as int] == (inc.local_ctx@[i as int].0@, local_model(
                                inc.local_ctx@[i as int].1,
                            )));
                            match &inc.local_ctx[i].1 {
                                LocalValue::Literal(v) => {
                                    pctx.set(key, v);
                                },
                                LocalValue::Path(p) => {
                                    match resolve_path(p, ctx) {
                                        Some(v) => {
                                            pctx.set(key, v);
                                        },
                                        None => {
                                            pctx.set(key, &null_value);
                                        },
                                    }
                                },
                            }
                            proof {
                                assert(pctx.model().scopes =~= seq![partial_scope(lm, i + 1, c)]);
                            }
                            i = i + 1;
                        }
                        render_into(out, partial, &mut pctx, templates, Some(inner.as_str()), depth - 1);
                    }
                },
            }
        },
        Node::ContentPlaceholder => {
            match content {
                Some(s) => push_str(out, s),
                None => {
                    assert(out@ =~= old(out)@ + Seq::<char>::empty());
                },
            }
        },
    }
}

/// The output of `nodes` in `ctx`, with the templates of `templates` for
/// includes and `content` for the content slot. The context is the same after
/// the call as before it.
pub fn render_nodes<'a>(
    nodes: &'a Vec<Node>,
    ctx: &mut ContextStack<'a>,
    templates: &'a Templates,
    content: Option<&str>,
) -> (r: String)
    ensures
        r@ == render_all(
            list_model(*nodes),
            old(ctx).model(),
            templates.store(),
            content_model(content),
            MAX_RENDER_DEPTH as nat,
        ),
        final(ctx).model() == old(ctx).model(),
{
    let mut out = String::new();
    render_into(&mut out, nodes, ctx, templates, content, MAX_RENDER_DEPTH);
    assert(out@ =~= render_all(
        list_model(*nodes),
        old(ctx).model(),
        templates.store(),
        content_model(content),
        MAX_RENDER_DEPTH as nat,
    ));
    out
}

} // verus!
