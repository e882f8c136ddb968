use vstd::prelude::*;
use crate::text::push_char;

verus! {

/// A template key with `\` turned into `/` and one leading `./` removed.
pub open spec fn normalized(s: Seq<char>) -> Seq<char> {
    let r = s.map_values(|c: char| if c == '\\' { '/' } else { c });
    if r.len() >= 2 && r[0] == '.' && r[1] == '/' {
        r.subrange(2, r.len() as int)
    } else {
        r
    }
}

/// The key under which a template is stored and looked up.
pub fn normalize_key(s: &str) -> (r: String)
    ensures
        r@ == normalized(s@),
{
    let t = crate::text::chars_of(s);
    let n = t.len();
    let ghost m = s@.map_values(|c: char| if c == '\\' { '/' } else { c });
    let start: usize = if n >= 2 && t[0] == '.' && (t[1] == '/' || t[1] == '\\') {
        2
    } else {
        0
    };
    let mut r = String::new();
    let mut i = start;
    while i < n
        invariant
            start <= i <= n == t@.len(),
            t@ == s@,
            m == s@.map_values(|c: char| if c == '\\' { '/' } else { c }),
            r@ == m.subrange(start as int, i as int),
        decreases n - i,
    {
        let c = t[i];
        push_char(&mut r, if c == '\\' { '/' } else { c });
        assert(r@ =~= m.subrange(start as int, i + 1));
        i = i + 1;
    }
    assert(m.subrange(0, n as int) =~= m);
    r
}

/// One component of a file path.
#[derive(Debug, PartialEq)]
pub enum Component {
    /// A drive or share prefix.
    Prefix(String),
    RootDir,
    CurDir,
    ParentDir,
    Normal(String),
}

pub enum ComponentModel {
    Prefix(Seq<char>),
    RootDir,
    CurDir,
    ParentDir,
    Normal(Seq<char>),
}

pub open spec fn component_model(c: Component) -> ComponentModel {
    match c {
        Component::Prefix(s) => ComponentModel::Prefix(s@),
        Component::RootDir => ComponentModel::RootDir,
        Component::CurDir => ComponentModel::CurDir,
        Component::ParentDir => ComponentModel::ParentDir,
        Component::Normal(s) => ComponentModel::Normal(s@),
    }
}

pub open spec fn components_model(v: Seq<Component>) -> Seq<ComponentModel> {
    v.map_values(|c: Component| component_model(c))
}

/// A path is absolute when it starts at the root, after an optional prefix.
pub open spec fn is_absolute(p: Seq<ComponentModel>) -> bool {
    (p.len() > 0 && p[0] is RootDir) || (p.len() > 1 && p[0] is Prefix && p[1] is RootDir)
}

/// `n` parent-directory components.
pub open spec fn parents(n: nat) -> Seq<ComponentModel> {
    Seq::new(n, |i: int| ComponentModel::ParentDir)
}

/// Walks `p` from `i` and `base` from `j` together, `comps` being the
/// relative path built so far.
pub open spec fn diff_from(p: Seq<ComponentModel>, base: Seq<ComponentModel>, i: int, j: int, comps: Seq<ComponentModel>) -> Option<Seq<ComponentModel>>
    decreases p.len() - i + base.len() - j,
{
    if i < 0 || j < 0 || i > p.len() || j > base.len() {
        None
    } else if i == p.len() && j == base.len() {
        Some(comps)
    } else if j == base.len() {
        Some(comps + p.subrange(i, p.len() as int))
    } else if i == p.len() {
        diff_from(p, base, i, j + 1, comps.push(ComponentModel::ParentDir))
    } else if comps.len() == 0 && p[i] == base[j] {
        diff_from(p, base, i + 1, j + 1, comps)
    } else if base[j] is CurDir {
        diff_from(p, base, i + 1, j + 1, comps.push(p[i]))
    } else if base[j] is ParentDir {
        None
    } else {
        Some(comps + parents((base.len() - j) as nat) + p.subrange(i, p.len() as int))
    }
}

/// The path that leads from `base` to `p`: `p` itself when only `p` is
/// absolute, nothing when only `base` is, or when `base` climbs with `..`
/// where the two differ.
pub open spec fn relative_path(p: Seq<ComponentModel>, base: Seq<ComponentModel>) -> Option<Seq<ComponentModel>> {
    if is_absolute(p) != is_absolute(base) {
        if is_absolute(p) {
            Some(p)
        } else {
            None
        }
    } else {
        diff_from(p, base, 0, 0, Seq::empty())
    }
}

fn copy_component(c: &Component) -> (r: Component)
    ensures
        component_model(r) == component_model(*c),
{
    match c {
        Component::Prefix(s) => Component::Prefix(s.clone()),
        Component::RootDir => Component::RootDir,
        Component::CurDir => Component::CurDir,
        Component::ParentDir => Component::ParentDir,
        Component::Normal(s) => Component::Normal(s.clone()),
    }
}

fn same_component(a: &Component, b: &Component) -> (r: bool)
    ensures
        r == (component_model(*a) == component_model(*b)),
{
    match (a, b) {
        (Component::Prefix(x), Component::Prefix(y)) => crate::text::str_eq(x.as_str(), y.as_str()),
        (Component::RootDir, Component::RootDir) => true,
        (Component::CurDir, Component::CurDir) => true,
        (Component::ParentDir, Component::ParentDir) => true,
        (Component::Normal(x), Component::Normal(y)) => crate::text::str_eq(x.as_str(), y.as_str()),
        _ => false,
    }
}

fn absolute_exec(p: &Vec<Component>) -> (r: bool)
    ensures
        r == is_absolute(components_model(p@)),
{
    let n = p.len();
    (n > 0 && matches!(p[0], Component::RootDir)) || (n > 1 && matches!(p[0], Component::Prefix(_))
        && matches!(p[1], Component::RootDir))
}

fn push_copy(out: &mut Vec<Component>, c: &Component)
    ensures
        components_model(final(out)@) == components_model(old(out)@).push(component_model(*c)),
{
    let d = copy_component(c);
    out.push(d);
    assert(components_model(out@) =~= components_model(old(out)@).push(component_model(*c)));
}

/// Appends the components `p[i..]`.
fn push_rest(out: &mut Vec<Component>, p: &Vec<Component>, i: usize)
    requires
        i <= p@.len(),
    ensures
        components_model(final(out)@) == components_model(old(out)@) + components_model(p@).subrange(
            i as int,
            p@.len() as int,
        ),
{
    let mut k = i;
    while k < p.len()
        invariant
            i <= k <= p@.len(),
            components_model(out@) == components_model(old(out)@) + components_model(p@).subrange(
                i as int,
                k as int,
            ),
        decreases p@.len() - k,
    {
        push_copy(out, &p[k]);
        assert(components_model(p@).subrange(i as int, k + 1) =~= components_model(p@).subrange(
            i as int,
            k as int,
        ).push(component_model(p@[k as int])));
        assert(components_model(out@) =~= components_model(old(out)@) + components_model(
            p@,
        ).subrange(i as int, k + 1));
        k = k + 1;
    }
}

/// The relative path from `base` to `path`, as `relative_path` describes it.
#[verifier::loop_isolation(false)]
pub fn diff_paths(path: &Vec<Component>, base: &Vec<Component>) -> (r: Option<Vec<Component>>)
    ensures
        match r {
            Some(v) => relative_path(components_model(path@), components_model(base@)) == Some(
                components_model(v@),
            ),
            None => relative_path(components_model(path@), components_model(base@)) is None,
        },
{
    let ghost pm = components_model(path@);
    let ghost bm = components_model(base@);
    let pa = absolute_exec(path);
    let ba = absolute_exec(base);
    if pa != ba {
        if pa {
            let mut out: Vec<Component> = Vec::new();
            push_rest(&mut out, path, 0);
            assert(components_model(out@) =~= pm);
            return Some(out);
        } else {
            return None;
        }
    }
    let mut comps: Vec<Component> = Vec::new();
    let mut i: usize = 0;
    let mut j: usize = 0;
    assert(components_model(comps@) =~= Seq::<ComponentModel>::empty());
    loop
        invariant
            i <= path@.len(),
            j <= base@.len(),
            pm == components_model(path@),
            bm == components_model(base@),
            diff_from(pm, bm, i as int, j as int, components_model(comps@)) == relative_path(pm, bm),
        decreases path@.len() - i + base@.len() - j,
    {
        let ghost cm = components_model(comps@);
        if i == path.len() && j == base.len() {
            return Some(comps);
        }
        if j == base.len() {
            push_rest(&mut comps, path, i);
            return Some(comps);
        }
        if i == path.len() {
            comps.push(Component::ParentDir);
            assert(components_model(comps@) =~= cm.push(ComponentModel::ParentDir));
            j = j + 1;
        } else if comps.len() == 0 && same_component(&path[i], &base[j]) {
            i = i + 1;
            j = j + 1;
        } else if matches!(base[j], Component::CurDir) {
            push_copy(&mut comps, &path[i]);
            i = i + 1;
            j = j + 1;
        } else if matches!(base[j], Component::ParentDir) {
            return None;
        } else {
            let mut k = j;
            while k < base.len()
                invariant
                    j <= k <= base@.len(),
                    components_model(comps@) == cm + parents((k - j) as nat),
                decreases base@.len() - k,
            {
                let ghost before = components_model(comps@);
                comps.push(Component::ParentDir);
                assert(components_model(comps@) =~= before.push(ComponentModel::ParentDir));
                assert(parents((k + 1 - j) as nat) =~= parents((k - j) as nat).push(
                    ComponentModel::ParentDir,
                ));
                k = k + 1;
            }
            push_rest(&mut comps, path, i);
            assert(components_model(comps@) =~= cm + parents((base@.len() - j) as nat)
                + pm.subrange(i as int, pm.len() as int));
            return Some(comps);
        }
    }
}

/// The parent directory of the path written `s`, as text; none for a root,
/// a prefix or the empty path.
pub uninterp spec fn path_parent(s: Seq<char>) -> Option<Seq<char>>;

/// Relies on `std::path::Path::parent`, read back with `to_string_lossy`: the
/// parent's text depends on the text of the path alone.
#[verifier::external_body]
fn parent_of(s: &str) -> (r: Option<String>)
    ensures
        match r {
            Some(t) => path_parent(s@) == Some(t@),
            None => path_parent(s@) is None,
        },
{
    match std::path::Path::new(s).parent() {
        Some(p) => Some(p.to_string_lossy().to_string()),
        None => None,
    }
}

/// The text before the first `*` of `pattern` without trailing `/`s; for a
/// pattern without `*`, its parent directory, or `.` when it has none.
pub open spec fn base_dir_of(pattern: Seq<char>) -> Seq<char> {
    let k = crate::number::first_index_of(pattern, '*');
    if k >= 0 {
        let pre = pattern.subrange(0, k);
        pre.subrange(0, trailing_slash_start(pre, pre.len() as int))
    } else {
        match path_parent(pattern) {
            Some(p) => p,
            None => seq!['.'],
        }
    }
}

/// Where the trailing `/`s of `s[..j]` start.
pub open spec fn trailing_slash_start(s: Seq<char>, j: int) -> int
    decreases j,
{
    if j <= 0 {
        0
    } else if s[j - 1] == '/' {
        trailing_slash_start(s, j - 1)
    } else {
        j
    }
}

/// The directory that the matches of a glob pattern are keyed relative to.
pub fn derive_base_dir(pattern: &str) -> (r: String)
    ensures
        r@ == base_dir_of(pattern@),
{
    let t = crate::text::chars_of(pattern);
    let n = t.len();
    let mut k: usize = 0;
    while k < n && t[k] != '*'
        invariant
            k <= n == t@.len(),
            t@ == pattern@,
            forall|i: int| 0 <= i < k ==> t@[i] != '*',
        decreases n - k,
    {
        k = k + 1;
    }
    proof {
        lemma_first_star(pattern@, k as int);
    }
    if k < n {
        let mut j = k;
        while j > 0 && t[j - 1] == '/'
            invariant
                j <= k < n == t@.len(),
                trailing_slash_start(t@.subrange(0, k as int), j as int) == trailing_slash_start(
                    t@.subrange(0, k as int),
                    k as int,
                ),
            decreases j,
        {
            assert(t@.subrange(0, k as int)[j - 1] == t@[j - 1]);
            j = j - 1;
        }
        proof {
            if j > 0 {
                assert(t@.subrange(0, k as int)[j - 1] == t@[j - 1]);
            }
            assert(t@.subrange(0, k as int).subrange(0, j as int) =~= t@.subrange(0, j as int));
        }
        crate::text::string_of(&t, 0, j)
    } else {
        match parent_of(pattern) {
            Some(p) => p,
            None => {
                let mut d = String::new();
                push_char(&mut d, '.');
                assert(d@ =~= seq!['.']);
                d
            },
        }
    }
}

proof fn lemma_first_star(s: Seq<char>, k: int)
    requires
        0 <= k <= s.len(),
        forall|i: int| 0 <= i < k ==> s[i] != '*',
        k < s.len() ==> s[k] == '*',
    ensures
        crate::number::first_index_of(s, '*') == if k < s.len() {
            k
        } else {
            -1
        },
    decreases k,
{
    if k > 0 {
        let u = s.drop_first();
        assert forall|i: int| 0 <= i < k - 1 implies u[i] != '*' by {
            assert(u[i] == s[i + 1]);
        }
        lemma_first_star(u, k - 1);
    }
}

} // verus!
