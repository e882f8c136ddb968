use vstd::prelude::*;
use crate::engine::{ContextModel, lookup, lookup_in, partial_context, partial_scope, render_all,
    render_node, render_upto, resolve, store_get, store_get_index};
use crate::nodes::LocalModel;
use crate::value::field_of;
use crate::nodes::NodeModel;
use crate::parser::{flush_text, nodes_from, slot_len, starts_at, template_of};
use crate::templates::{last_key_index, render_stored, store_put};
use crate::value::{ValueModel, value_text};
use crate::expr::{TokenModel, expr_at, factor_at, unary_at, term_at, and_rest, or_rest};
use crate::nodes::ConditionModel;

verus! {

/// Whether a directive (`{{`, `@include`, `@if`, `@for` or a content-slot
/// marker) starts at `i`.
pub open spec fn directive_at(s: Seq<char>, i: int) -> bool {
    starts_at(s, i, "{{"@) || starts_at(s, i, "@include"@) || starts_at(s, i, "@if"@) || starts_at(
        s,
        i,
        "@for"@,
    ) || slot_len(s, i) > 0
}

/// Text in which no directive starts.
pub open spec fn plain_text(s: Seq<char>) -> bool {
    forall|i: int| 0 <= i < s.len() ==> !directive_at(s, i)
}

proof fn lemma_plain_nodes(s: Seq<char>, i: int, buf: Seq<char>, acc: Seq<NodeModel>, d: nat)
    requires
        plain_text(s),
        0 <= i <= s.len(),
    ensures
        nodes_from(s, i, None, buf, acc, d) == (flush_text(acc, buf + s.subrange(i, s.len() as int)), s.len() as int),
    decreases s.len() - i,
{
    if i < s.len() {
        assert(!directive_at(s, i));
        lemma_plain_nodes(s, i + 1, buf.push(s[i]), acc, d);
        assert(buf.push(s[i]) + s.subrange(i + 1, s.len() as int) =~= buf + s.subrange(
            i,
            s.len() as int,
        ));
    } else {
        assert(buf + s.subrange(i, s.len() as int) =~= buf);
    }
}

/// A template without directives parses to a single text node holding all
/// of it (to nothing when it is empty).
pub proof fn lemma_plain_template(s: Seq<char>)
    requires
        plain_text(s),
    ensures
        template_of(s) == if s.len() > 0 {
            seq![NodeModel::Text(s)]
        } else {
            Seq::empty()
        },
{
    lemma_plain_nodes(s, 0, Seq::empty(), Seq::empty(), crate::parser::MAX_NESTING as nat);
    assert(Seq::<char>::empty() + s.subrange(0, s.len() as int) =~= s);
    if s.len() > 0 {
        assert(flush_text(Seq::empty(), s) =~= seq![NodeModel::Text(s)]);
    }
}

/// A template without directives renders to itself, in any context.
pub proof fn lemma_plain_template_renders_itself(
    s: Seq<char>,
    c: ContextModel,
    st: Seq<(Seq<char>, Seq<NodeModel>)>,
    content: Option<Seq<char>>,
    fuel: nat,
)
    requires
        plain_text(s),
    ensures
        render_all(template_of(s), c, st, content, fuel) == s,
{
    lemma_plain_template(s);
    if s.len() > 0 {
        let ns = seq![NodeModel::Text(s)];
        assert(ns[0] == NodeModel::Text(s));
        assert(render_node(ns[0], c, st, content, fuel) == s);
        assert(render_upto(ns, 0, c, st, content, fuel) == Seq::<char>::empty());
        assert(render_upto(ns, 1, c, st, content, fuel) == render_upto(ns, 0, c, st, content, fuel)
            + render_node(ns[0], c, st, content, fuel));
        assert(render_upto(ns, 1, c, st, content, fuel) =~= s);
    }
}

/// What is stored under a key is what is found under it.
pub proof fn lemma_store_put_get(st: Seq<(Seq<char>, Seq<NodeModel>)>, k: Seq<char>, v: Seq<NodeModel>)
    ensures
        store_get(store_put(st, k, v), k) == Some(v),
{
    lemma_last_index_facts(st, k);
    let i = last_key_index(st, k);
    let st2 = store_put(st, k, v);
    if i >= 0 {
        lemma_index_after_update(st, k, v, i);
    } else {
        assert(st2.last().0 == k);
    }
}

proof fn lemma_last_index_facts(st: Seq<(Seq<char>, Seq<NodeModel>)>, k: Seq<char>)
    ensures
        -1 <= last_key_index(st, k) < st.len(),
        last_key_index(st, k) >= 0 ==> st[last_key_index(st, k)].0 == k,
        forall|j: int| last_key_index(st, k) < j < st.len() ==> st[j].0 != k,
    decreases st.len(),
{
    if st.len() > 0 && st.last().0 != k {
        lemma_last_index_facts(st.drop_last(), k);
        assert forall|j: int| last_key_index(st, k) < j < st.len() implies st[j].0 != k by {
            if j < st.len() - 1 {
                assert(st[j] == st.drop_last()[j]);
            }
        }
    }
}

proof fn lemma_index_after_update(st: Seq<(Seq<char>, Seq<NodeModel>)>, k: Seq<char>, v: Seq<NodeModel>, i: int)
    requires
        0 <= i < st.len(),
        st[i].0 == k,
        forall|j: int| i < j < st.len() ==> st[j].0 != k,
    ensures
        store_get_index(st.update(i, (k, v)), k) == i,
    decreases st.len(),
{
    let u = st.update(i, (k, v));
    if i < st.len() - 1 {
        assert(u.drop_last() =~= st.drop_last().update(i, (k, v)));
        assert forall|j: int| i < j < st.drop_last().len() implies st.drop_last()[j].0 != k by {
            assert(st.drop_last()[j] == st[j]);
        }
        lemma_index_after_update(st.drop_last(), k, v, i);
    }
}

/// A template loaded without directives renders to its own text under the
/// key it was loaded with, whatever the context and the other templates.
pub proof fn lemma_loaded_plain_text_renders_itself(
    st: Seq<(Seq<char>, Seq<NodeModel>)>,
    key: Seq<char>,
    s: Seq<char>,
    ctx: ValueModel,
)
    requires
        plain_text(s),
    ensures
        render_stored(store_put(st, crate::keys::normalized(key), template_of(s)), key, ctx) == s,
{
    let st2 = store_put(st, crate::keys::normalized(key), template_of(s));
    lemma_store_put_get(st, crate::keys::normalized(key), template_of(s));
    lemma_plain_template_renders_itself(
        s,
        ContextModel { scopes: Seq::empty(), global: Some(ctx) },
        st2,
        None,
        crate::engine::MAX_RENDER_DEPTH as nat,
    );
}

/// What follows a loop is rendered in the context the loop started in: a
/// binding named like the loop variable reads as it did before the loop.
pub proof fn lemma_loop_leaves_bindings(
    x: Seq<char>,
    container: Seq<Seq<char>>,
    body: Seq<NodeModel>,
    c: ContextModel,
    st: Seq<(Seq<char>, Seq<NodeModel>)>,
    content: Option<Seq<char>>,
    fuel: nat,
)
    ensures
        ({
            let lp = NodeModel::For(x, container, body);
            render_all(seq![lp, NodeModel::Var(seq![x])], c, st, content, fuel) == render_node(
                lp,
                c,
                st,
                content,
                fuel,
            ) + match lookup(c, x) {
                Some(v) => value_text(v),
                None => Seq::<char>::empty(),
            }
        }),
{
    let lp = NodeModel::For(x, container, body);
    let ns = seq![lp, NodeModel::Var(seq![x])];
    assert(ns[0] == lp);
    assert(ns[1] == NodeModel::Var(seq![x]));
    assert(render_upto(ns, 0, c, st, content, fuel) == Seq::<char>::empty());
    assert(render_upto(ns, 1, c, st, content, fuel) == render_upto(ns, 0, c, st, content, fuel)
        + render_node(ns[0], c, st, content, fuel));
    assert(render_upto(ns, 1, c, st, content, fuel) =~= render_node(lp, c, st, content, fuel));
    assert(render_upto(ns, 2, c, st, content, fuel) == render_upto(ns, 1, c, st, content, fuel)
        + render_node(ns[1], c, st, content, fuel));
    assert(resolve(seq![x], c) == crate::engine::walk(lookup(c, x), seq![x], 1));
    assert(resolve(seq![x], c) == lookup(c, x));
}

/// A name standing alone in a condition: a path, or the literal it spells.
pub open spec fn name_condition(w: Seq<char>) -> ConditionModel {
    factor_at(seq![TokenModel::Ident(w)], 0, 0).0
}

/// `and` binds tighter than `or`: `x and y or z` reads as `(x and y) or z`.
pub proof fn lemma_and_binds_tighter_than_or(x: Seq<char>, y: Seq<char>, z: Seq<char>, d: nat)
    ensures
        expr_at(
            seq![
                TokenModel::Ident(x),
                TokenModel::And,
                TokenModel::Ident(y),
                TokenModel::Or,
                TokenModel::Ident(z),
            ],
            0,
            d,
        ).0 == ConditionModel::Or(
            seq![
                ConditionModel::And(seq![name_condition(x), name_condition(y)]),
                name_condition(z),
            ],
        ),
{
    let t = seq![
        TokenModel::Ident(x),
        TokenModel::And,
        TokenModel::Ident(y),
        TokenModel::Or,
        TokenModel::Ident(z),
    ];
    let fx = name_condition(x);
    let fy = name_condition(y);
    let fz = name_condition(z);
    assert(factor_at(t, 0, d) == (fx, 1int));
    assert(unary_at(t, 0, d) == (fx, 1int));
    assert(factor_at(t, 2, d) == (fy, 3int));
    assert(unary_at(t, 2, d) == (fy, 3int));
    assert(and_rest(t, 3, seq![fx, fy], d) == (seq![fx, fy], 3int));
    assert(and_rest(t, 1, seq![fx], d) == (seq![fx, fy], 3int)) by {
        assert(seq![fx].push(fy) =~= seq![fx, fy]);
    }
    assert(term_at(t, 0, d) == (ConditionModel::And(seq![fx, fy]), 3int));
    assert(factor_at(t, 4, d) == (fz, 5int));
    assert(unary_at(t, 4, d) == (fz, 5int));
    assert(and_rest(t, 5, seq![fz], d) == (seq![fz], 5int));
    assert(term_at(t, 4, d) == (fz, 5int));
    let a = ConditionModel::And(seq![fx, fy]);
    assert(or_rest(t, 5, seq![a, fz], d) == (seq![a, fz], 5int));
    assert(or_rest(t, 3, seq![a], d) == (seq![a, fz], 5int)) by {
        assert(seq![a].push(fz) =~= seq![a, fz]);
    }
}

proof fn lemma_partial_scope_keys(locals: Seq<(Seq<char>, LocalModel)>, n: int, c: ContextModel, x: Seq<char>)
    requires
        0 <= n <= locals.len(),
        forall|i: int| 0 <= i < locals.len() ==> (#[trigger] locals[i]).0 != x,
    ensures
        field_of(partial_scope(locals, n, c), x) is None,
    decreases n,
{
    if n > 0 {
        lemma_partial_scope_keys(locals, n - 1, c, x);
        let prev = partial_scope(locals, n - 1, c);
        assert(locals[n - 1].0 != x);
        let cur = partial_scope(locals, n, c);
        if cur.len() > prev.len() {
            assert(cur.drop_last() =~= prev);
        } else {
            assert(cur =~= prev);
        }
    }
}

/// A partial sees only its locals: any other name is unbound in the context
/// it is rendered in, whatever the caller's bindings.
pub proof fn lemma_partial_sees_only_locals(locals: Seq<(Seq<char>, LocalModel)>, caller: ContextModel, x: Seq<char>)
    requires
        forall|i: int| 0 <= i < locals.len() ==> (#[trigger] locals[i]).0 != x,
    ensures
        lookup(partial_context(locals, caller), x) is None,
{
    let pc = partial_context(locals, caller);
    lemma_partial_scope_keys(locals, locals.len() as int, caller, x);
    assert(pc.scopes.drop_last() =~= Seq::<Seq<(Seq<char>, ValueModel)>>::empty());
    assert(lookup_in(pc.scopes.drop_last(), None, x) is None);
}

/// An include renders the stored partial in the context built from its
/// locals alone, with the output of its own body, rendered in the caller's
/// context, as the content of the partial's slot.
pub proof fn lemma_include_renders_partial(
    key: Seq<char>,
    body: Seq<NodeModel>,
    locals: Seq<(Seq<char>, LocalModel)>,
    c: ContextModel,
    st: Seq<(Seq<char>, Seq<NodeModel>)>,
    content: Option<Seq<char>>,
    fuel: nat,
)
    requires
        store_get(st, crate::keys::normalized(key)) is Some,
        fuel > 0,
    ensures
        ({
            let partial = store_get(st, crate::keys::normalized(key))->0;
            let inner = render_all(body, c, st, None, (fuel - 1) as nat);
            render_all(seq![NodeModel::Include(key, body, locals)], c, st, content, fuel) == render_all(
                partial,
                partial_context(locals, c),
                st,
                Some(inner),
                (fuel - 1) as nat,
            )
        }),
{
    let ns = seq![NodeModel::Include(key, body, locals)];
    assert(ns[0] == NodeModel::Include(key, body, locals));
    assert(render_upto(ns, 0, c, st, content, fuel) == Seq::<char>::empty());
    assert(render_upto(ns, 1, c, st, content, fuel) == render_upto(ns, 0, c, st, content, fuel)
        + render_node(ns[0], c, st, content, fuel));
    assert(render_upto(ns, 1, c, st, content, fuel) =~= render_node(ns[0], c, st, content, fuel));
}

} // verus!
