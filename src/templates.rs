use vstd::prelude::*;
use crate::keys::{normalize_key, normalized};
use crate::nodes::{Node, NodeModel, list_model};
use crate::parser::{parse_template, template_of};
use crate::text::{push_str, str_eq};
use crate::engine::{ContextModel, ContextStack, MAX_RENDER_DEPTH, render_all, render_nodes, store_get};
use crate::value::{Value, value_model};

verus! {

/// Stores `v` under `k`: the latest entry for `k` is replaced, or the pair added.
pub open spec fn store_put(st: Seq<(Seq<char>, Seq<NodeModel>)>, k: Seq<char>, v: Seq<NodeModel>) -> Seq<(Seq<char>, Seq<NodeModel>)> {
    let i = last_key_index(st, k);
    if i >= 0 {
        st.update(i, (k, v))
    } else {
        st.push((k, v))
    }
}

/// The index of the last entry with key `k`, or -1.
pub open spec fn last_key_index(st: Seq<(Seq<char>, Seq<NodeModel>)>, k: Seq<char>) -> int
    decreases st.len(),
{
    if st.len() == 0 {
        -1
    } else if st.last().0 == k {
        st.len() - 1
    } else {
        last_key_index(st.drop_last(), k)
    }
}

pub open spec fn missing_template_text(k: Seq<char>) -> Seq<char> {
    "<!-- Missing template: "@ + k + " -->"@
}

/// The output of the template stored under `key` in `st`, rendered over the
/// root value `ctx`.
pub open spec fn render_stored(st: Seq<(Seq<char>, Seq<NodeModel>)>, key: Seq<char>, ctx: crate::value::ValueModel) -> Seq<char> {
    match store_get(st, normalized(key)) {
        Some(ns) => render_all(
            ns,
            ContextModel { scopes: Seq::empty(), global: Some(ctx) },
            st,
            None,
            MAX_RENDER_DEPTH as nat,
        ),
        None => missing_template_text(key),
    }
}

/// Parsed templates by key, and the glob pattern they were loaded from.
pub struct Templates {
    templates: Vec<(String, Vec<Node>)>,
    glob: Option<String>,
}

impl Templates {
    /// The stored templates: each key with the model of its nodes.
    pub closed spec fn store(&self) -> Seq<(Seq<char>, Seq<NodeModel>)> {
        self.templates@.map_values(|e: (String, Vec<Node>)| (e.0@, list_model(e.1)))
    }

    pub closed spec fn glob_spec(&self) -> Option<Seq<char>> {
        match self.glob {
            Some(g) => Some(g@),
            None => None,
        }
    }

    /// An empty store.
    pub fn new() -> (r: Templates)
        ensures
            r.store() == Seq::<(Seq<char>, Seq<NodeModel>)>::empty(),
            r.glob_spec() is None,
    {
        let r = Templates { templates: Vec::new(), glob: None };
        assert(r.store() =~= Seq::<(Seq<char>, Seq<NodeModel>)>::empty());
        r
    }

    /// Parses `content` and stores it under the normalised `key`.
    pub fn load_str(&mut self, key: &str, content: &str)
        ensures
            final(self).store() == store_put(old(self).store(), normalized(key@), template_of(
                content@,
            )),
            final(self).glob_spec() == old(self).glob_spec(),
    {
        let nodes = parse_template(content);
        let k = normalize_key(key);
        let ghost st = self.store();
        let ghost km = k@;
        let ghost nm = list_model(nodes);
        match self.find_key(k.as_str()) {
            Some(i) => {
                self.templates.set(i, (k, nodes));
                assert(self.store() =~= st.update(i as int, (km, nm)));
            },
            None => {
                self.templates.push((k, nodes));
                assert(self.store() =~= st.push((km, nm)));
            },
        }
    }

    /// The index of the last entry stored under `k`.
    #[verifier::loop_isolation(false)]
    fn find_key(&self, k: &str) -> (r: Option<usize>)
        ensures
            match r {
                Some(i) => i < self.templates@.len() && last_key_index(self.store(), k@) == i,
                None => last_key_index(self.store(), k@) == -1,
            },
            last_key_index(self.store(), k@) == crate::engine::store_get_index(self.store(), k@),
    {
        let ghost st = self.store();
        proof {
            lemma_last_key_index(st, k@);
        }
        let mut i = self.templates.len();
        assert(st.subrange(0, i as int) =~= st);
        while i > 0
            invariant
                i <= self.templates@.len(),
                st == self.store(),
                self.templates@.len() == st.len(),
                last_key_index(st, k@) == last_key_index(st.subrange(0, i as int), k@),
            decreases i,
        {
            proof {
                assert(st.subrange(0, i as int).drop_last() =~= st.subrange(0, i - 1));
                assert(st[i - 1].0 == self.templates@[i - 1].0@);
            }
            if str_eq(self.templates[i - 1].0.as_str(), k) {
                return Some(i - 1);
            }
            i = i - 1;
        }
        proof {
            assert(st.subrange(0, 0) =~= Seq::<(Seq<char>, Seq<NodeModel>)>::empty());
        }
        None
    }

    /// The template stored under the normalised `key`.
    pub fn get(&self, key: &str) -> (r: Option<&Vec<Node>>)
        ensures
            match r {
                Some(v) => crate::engine::store_get(self.store(), normalized(key@)) == Some(
                    list_model(*v),
                ),
                None => crate::engine::store_get(self.store(), normalized(key@)) is None,
            },
    {
        let k = normalize_key(key);
        match self.find_key(k.as_str()) {
            Some(i) => Some(&self.templates[i].1),
            None => None,
        }
    }

    /// The output of the template stored under `key`, rendered with the
    /// fields of `ctx` as its bindings; a comment naming the key when there is
    /// no such template.
    pub fn render(&self, key: &str, ctx: &Value) -> (r: String)
        ensures
            r@ == render_stored(self.store(), key@, value_model(*ctx)),
    {
        match self.get(key) {
            Some(nodes) => {
                let mut stack = ContextStack::new(ctx);
                render_nodes(nodes, &mut stack, self, None)
            },
            None => {
                let mut out = String::new();
                push_str(&mut out, "<!-- Missing template: ");
                push_str(&mut out, key);
                push_str(&mut out, " -->");
                assert(out@ =~= missing_template_text(key@));
                out
            },
        }
    }

    /// `render` with the bindings `ctx`, in order; a later binding of a name
    /// wins over an earlier one.
    pub fn render_template(&self, path: &str, ctx: Vec<(String, Value)>) -> (r: String)
        ensures
            r@ == render_stored(self.store(), path@, value_model(Value::Object(ctx))),
    {
        let root = Value::Object(ctx);
        self.render(path, &root)
    }

    /// Remembers the glob pattern the templates were loaded from.
    pub fn set_glob(&mut self, pattern: &str)
        ensures
            final(self).store() == old(self).store(),
            final(self).glob_spec() == Some(pattern@),
    {
        self.glob = Some(pattern.to_owned());
    }

    /// The glob pattern the templates were loaded from, if any.
    pub fn glob(&self) -> (r: Option<&String>)
        ensures
            match r {
                Some(g) => self.glob_spec() == Some(g@),
                None => self.glob_spec() is None,
            },
    {
        match &self.glob {
            Some(g) => Some(g),
            None => None,
        }
    }
}

/// `store_get` reads the entry that `last_key_index` finds.
proof fn lemma_last_key_index(st: Seq<(Seq<char>, Seq<NodeModel>)>, k: Seq<char>)
    ensures
        -1 <= last_key_index(st, k) < st.len(),
        last_key_index(st, k) == crate::engine::store_get_index(st, k),
    decreases st.len(),
{
    if st.len() > 0 && st.last().0 != k {
        lemma_last_key_index(st.drop_last(), k);
    }
}

} // verus!
