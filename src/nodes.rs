use vstd::prelude::*;
use crate::value::{Value, ValueModel, value_model};

verus! {

/// One element of a parsed template.
#[derive(Debug, PartialEq)]
pub enum Node {
    /// Literal output.
    Text(String),
    /// `{{ path }}`: the value at the path, as text.
    VariableBlock(Vec<String>),
    /// `@for(value in container) { body }`.
    Forloop(ForLoop),
    /// `@if(..) {..} @else if(..) {..} @else {..}`.
    If(If),
    /// `@include(path; k=v ..) { body }`.
    Include(Include),
    /// Where a partial puts the output of its caller's include body.
    ContentPlaceholder,
}

#[derive(Debug, PartialEq)]
pub struct ForLoop {
    /// The name each element is bound to.
    pub value: String,
    /// The path of the array iterated over.
    pub container: Vec<String>,
    pub body: Vec<Node>,
}

#[derive(Clone, Copy, Debug, PartialEq, Eq, Structural)]
pub enum CompareOp {
    Eq,
    Ne,
    Lt,
    Gt,
    Le,
    Ge,
}

/// A side of a comparison.
#[derive(Debug, PartialEq)]
pub enum Operand {
    Path(Vec<String>),
    Literal(Value),
}

/// A parsed condition.
#[derive(Debug, PartialEq)]
pub enum Condition {
    Literal(bool),
    Path(Vec<String>),
    And(Vec<Condition>),
    Or(Vec<Condition>),
    Not(Box<Condition>),
    Compare { left: Operand, op: CompareOp, right: Operand },
}

/// A guard chain: the body of the first condition that holds is rendered,
/// else `otherwise` when present.
#[derive(Debug, PartialEq)]
pub struct If {
    pub conditions: Vec<(Condition, Vec<Node>)>,
    pub otherwise: Option<Vec<Node>>,
}

/// An inclusion of the partial stored under `path`.
#[derive(Debug, PartialEq)]
pub struct Include {
    pub path: String,
    /// Rendered in the caller's context; its output fills the partial's slot.
    pub body: Vec<Node>,
    /// The only bindings the partial sees.
    pub local_ctx: Vec<(String, LocalValue)>,
}

/// The value given to a partial's binding.
#[derive(Debug, PartialEq)]
pub enum LocalValue {
    Literal(Value),
    Path(Vec<String>),
}

/// Model of a `Node`.
pub enum NodeModel {
    Text(Seq<char>),
    Var(Seq<Seq<char>>),
    For(Seq<char>, Seq<Seq<char>>, Seq<NodeModel>),
    If(Seq<(ConditionModel, Seq<NodeModel>)>, Option<Seq<NodeModel>>),
    Include(Seq<char>, Seq<NodeModel>, Seq<(Seq<char>, LocalModel)>),
    Slot,
}

pub enum OperandModel {
    Path(Seq<Seq<char>>),
    Literal(ValueModel),
}

pub enum ConditionModel {
    Literal(bool),
    Path(Seq<Seq<char>>),
    And(Seq<ConditionModel>),
    Or(Seq<ConditionModel>),
    Not(Box<ConditionModel>),
    Compare(OperandModel, CompareOp, OperandModel),
}

pub enum LocalModel {
    Literal(ValueModel),
    Path(Seq<Seq<char>>),
}

pub open spec fn path_model(p: Seq<String>) -> Seq<Seq<char>> {
    p.map_values(|s: String| s@)
}

pub open spec fn operand_model(o: Operand) -> OperandModel {
    match o {
        Operand::Path(p) => OperandModel::Path(path_model(p@)),
        Operand::Literal(v) => OperandModel::Literal(value_model(v)),
    }
}

pub open spec fn local_model(l: LocalValue) -> LocalModel {
    match l {
        LocalValue::Literal(v) => LocalModel::Literal(value_model(v)),
        LocalValue::Path(p) => LocalModel::Path(path_model(p@)),
    }
}

pub open spec fn locals_model(s: Seq<(String, LocalValue)>) -> Seq<(Seq<char>, LocalModel)> {
    s.map_values(|e: (String, LocalValue)| (e.0@, local_model(e.1)))
}

pub open spec fn condition_model(c: Condition) -> ConditionModel
    decreases c, 0int,
{
    match c {
        Condition::Literal(b) => ConditionModel::Literal(b),
        Condition::Path(p) => ConditionModel::Path(path_model(p@)),
        Condition::And(cs) => ConditionModel::And(conditions_model(cs@, cs@.len() as int)),
        Condition::Or(cs) => ConditionModel::Or(conditions_model(cs@, cs@.len() as int)),
        Condition::Not(inner) => ConditionModel::Not(Box::new(condition_model(*inner))),
        Condition::Compare { left, op, right } => ConditionModel::Compare(
            operand_model(left),
            op,
            operand_model(right),
        ),
    }
}

pub open spec fn conditions_model(s: Seq<Condition>, n: int) -> Seq<ConditionModel>
    decreases s, n,
{
    if n <= 0 || n > s.len() {
        Seq::empty()
    } else {
        conditions_model(s, n - 1).push(condition_model(s[n - 1]))
    }
}

pub open spec fn node_model(n: Node) -> NodeModel
    decreases n, 0int,
{
    match n {
        Node::Text(s) => NodeModel::Text(s@),
        Node::VariableBlock(p) => NodeModel::Var(path_model(p@)),
        Node::Forloop(f) => NodeModel::For(
            f.value@,
            path_model(f.container@),
            nodes_model(f.body@, f.body@.len() as int),
        ),
        Node::If(i) => NodeModel::If(
            branches_model(i.conditions@, i.conditions@.len() as int),
            match i.otherwise {
                Some(b) => Some(nodes_model(b@, b@.len() as int)),
                None => None,
            },
        ),
        Node::Include(inc) => NodeModel::Include(
            inc.path@,
            nodes_model(inc.body@, inc.body@.len() as int),
            locals_model(inc.local_ctx@),
        ),
        Node::ContentPlaceholder => NodeModel::Slot,
    }
}

/// Models of the first `n` nodes of `s`.
pub open spec fn nodes_model(s: Seq<Node>, n: int) -> Seq<NodeModel>
    decreases s, n,
{
    if n <= 0 || n > s.len() {
        Seq::empty()
    } else {
        nodes_model(s, n - 1).push(node_model(s[n - 1]))
    }
}

pub open spec fn branches_model(s: Seq<(Condition, Vec<Node>)>, n: int) -> Seq<
    (ConditionModel, Seq<NodeModel>),
>
    decreases s, n,
{
    if n <= 0 || n > s.len() {
        Seq::empty()
    } else {
        branches_model(s, n - 1).push(
            (condition_model(s[n - 1].0), nodes_model(s[n - 1].1@, s[n - 1].1@.len() as int)),
        )
    }
}

/// Model of a whole node list.
pub open spec fn list_model(v: Vec<Node>) -> Seq<NodeModel> {
    nodes_model(v@, v@.len() as int)
}

pub proof fn lemma_nodes_model(s: Seq<Node>, n: int)
    requires
        0 <= n <= s.len(),
    ensures
        nodes_model(s, n).len() == n,
        forall|i: int| 0 <= i < n ==> #[trigger] nodes_model(s, n)[i] == node_model(s[i]),
    decreases n,
{
    if n > 0 {
        lemma_nodes_model(s, n - 1);
    }
}

pub proof fn lemma_conditions_model(s: Seq<Condition>, n: int)
    requires
        0 <= n <= s.len(),
    ensures
        conditions_model(s, n).len() == n,
        forall|i: int|
            0 <= i < n ==> #[trigger] conditions_model(s, n)[i] == condition_model(s[i]),
    decreases n,
{
    if n > 0 {
        lemma_conditions_model(s, n - 1);
    }
}

pub proof fn lemma_branches_model(s: Seq<(Condition, Vec<Node>)>, n: int)
    requires
        0 <= n <= s.len(),
    ensures
        branches_model(s, n).len() == n,
        forall|i: int|
            0 <= i < n ==> #[trigger] branches_model(s, n)[i] == (
                condition_model(s[i].0),
                nodes_model(s[i].1@, s[i].1@.len() as int),
            ),
    decreases n,
{
    if n > 0 {
        lemma_branches_model(s, n - 1);
    }
}

pub proof fn lemma_conditions_model_push(s: Seq<Condition>, c: Condition)
    ensures
        conditions_model(s.push(c), s.len() + 1int) == conditions_model(s, s.len() as int).push(
            condition_model(c),
        ),
{
    lemma_conditions_model_prefix(s, s.push(c), s.len() as int);
}

pub proof fn lemma_conditions_model_prefix(s1: Seq<Condition>, s2: Seq<Condition>, n: int)
    requires
        0 <= n <= s1.len(),
        n <= s2.len(),
        forall|i: int| 0 <= i < n ==> s1[i] == s2[i],
    ensures
        conditions_model(s1, n) == conditions_model(s2, n),
    decreases n,
{
    if n > 0 {
        lemma_conditions_model_prefix(s1, s2, n - 1);
    }
}

pub proof fn lemma_nodes_model_push(s: Seq<Node>, x: Node)
    ensures
        nodes_model(s.push(x), s.len() + 1int) == nodes_model(s, s.len() as int).push(node_model(x)),
{
    lemma_nodes_model_prefix(s, s.push(x), s.len() as int);
}

pub proof fn lemma_nodes_model_prefix(s1: Seq<Node>, s2: Seq<Node>, n: int)
    requires
        0 <= n <= s1.len(),
        n <= s2.len(),
        forall|i: int| 0 <= i < n ==> s1[i] == s2[i],
    ensures
        nodes_model(s1, n) == nodes_model(s2, n),
    decreases n,
{
    if n > 0 {
        lemma_nodes_model_prefix(s1, s2, n - 1);
    }
}

pub proof fn lemma_branches_model_push(s: Seq<(Condition, Vec<Node>)>, x: (Condition, Vec<Node>))
    ensures
        branches_model(s.push(x), s.len() + 1int) == branches_model(s, s.len() as int).push(
            (condition_model(x.0), nodes_model(x.1@, x.1@.len() as int)),
        ),
{
    lemma_branches_model_prefix(s, s.push(x), s.len() as int);
}

pub proof fn lemma_branches_model_prefix(
    s1: Seq<(Condition, Vec<Node>)>,
    s2: Seq<(Condition, Vec<Node>)>,
    n: int,
)
    requires
        0 <= n <= s1.len(),
        n <= s2.len(),
        forall|i: int| 0 <= i < n ==> s1[i] == s2[i],
    ensures
        branches_model(s1, n) == branches_model(s2, n),
    decreases n,
{
    if n > 0 {
        lemma_branches_model_prefix(s1, s2, n - 1);
    }
}

} // verus!
