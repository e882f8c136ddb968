use vstd::prelude::*;
use crate::nodes::{CompareOp, Condition, ConditionModel, Operand, OperandModel, condition_model,
    conditions_model, lemma_conditions_model, lemma_conditions_model_push, operand_model};
use crate::number::{literal_number, parse_number};
use crate::path::{parse_variable_path, split_path};
use crate::text::{chars_of, is_whitespace, is_ws, string_of};
use crate::value::{Value, ValueModel};

verus! {

/// A token of the condition language.
pub enum Token {
    Ident(String),
    And,
    Or,
    Not,
    Eq,
    Ne,
    Lt,
    Gt,
    Le,
    Ge,
    LParen,
    RParen,
}

pub enum TokenModel {
    Ident(Seq<char>),
    And,
    Or,
    Not,
    Eq,
    Ne,
    Lt,
    Gt,
    Le,
    Ge,
    LParen,
    RParen,
}

pub open spec fn token_model(t: Token) -> TokenModel {
    match t {
        Token::Ident(s) => TokenModel::Ident(s@),
        Token::And => TokenModel::And,
        Token::Or => TokenModel::Or,
        Token::Not => TokenModel::Not,
        Token::Eq => TokenModel::Eq,
        Token::Ne => TokenModel::Ne,
        Token::Lt => TokenModel::Lt,
        Token::Gt => TokenModel::Gt,
        Token::Le => TokenModel::Le,
        Token::Ge => TokenModel::Ge,
        Token::LParen => TokenModel::LParen,
        Token::RParen => TokenModel::RParen,
    }
}

pub open spec fn tokens_model(v: Seq<Token>) -> Seq<TokenModel> {
    v.map_values(|t: Token| token_model(t))
}

/// A word: `and`/`&&`, `or`/`||` and `not` are operators, anything else a name.
pub open spec fn word_token(w: Seq<char>) -> TokenModel {
    if w == "and"@ || w == "&&"@ {
        TokenModel::And
    } else if w == "or"@ || w == "||"@ {
        TokenModel::Or
    } else if w == "not"@ {
        TokenModel::Not
    } else {
        TokenModel::Ident(w)
    }
}

pub open spec fn push_word(toks: Seq<TokenModel>, cur: Seq<char>) -> Seq<TokenModel> {
    if cur.len() == 0 {
        toks
    } else {
        toks.push(word_token(cur))
    }
}

/// Tokens of `s[i..]`, given the tokens so far and the word being read.
/// Parentheses and the operators `== != < > <= >= !` stand alone, whitespace
/// separates words, and a lone `=` is dropped.
pub open spec fn tokens_from(s: Seq<char>, i: int, cur: Seq<char>, toks: Seq<TokenModel>) -> Seq<TokenModel>
    decreases s.len() - i,
{
    if i >= s.len() || i < 0 {
        push_word(toks, cur)
    } else {
        let c = s[i];
        let next_eq = i + 1 < s.len() && s[i + 1] == '=';
        let pw = push_word(toks, cur);
        if c == '(' {
            tokens_from(s, i + 1, Seq::empty(), pw.push(TokenModel::LParen))
        } else if c == ')' {
            tokens_from(s, i + 1, Seq::empty(), pw.push(TokenModel::RParen))
        } else if c == '=' {
            if next_eq {
                tokens_from(s, i + 2, Seq::empty(), pw.push(TokenModel::Eq))
            } else {
                tokens_from(s, i + 1, Seq::empty(), pw)
            }
        } else if c == '!' {
            if next_eq {
                tokens_from(s, i + 2, Seq::empty(), pw.push(TokenModel::Ne))
            } else {
                tokens_from(s, i + 1, Seq::empty(), pw.push(TokenModel::Not))
            }
        } else if c == '<' {
            if next_eq {
                tokens_from(s, i + 2, Seq::empty(), pw.push(TokenModel::Le))
            } else {
                tokens_from(s, i + 1, Seq::empty(), pw.push(TokenModel::Lt))
            }
        } else if c == '>' {
            if next_eq {
                tokens_from(s, i + 2, Seq::empty(), pw.push(TokenModel::Ge))
            } else {
                tokens_from(s, i + 1, Seq::empty(), pw.push(TokenModel::Gt))
            }
        } else if is_ws(c) {
            tokens_from(s, i + 1, Seq::empty(), pw)
        } else {
            tokens_from(s, i + 1, cur.push(c), toks)
        }
    }
}

pub open spec fn tokenize(s: Seq<char>) -> Seq<TokenModel> {
    tokens_from(s, 0, Seq::empty(), Seq::empty())
}

fn range_is(t: &Vec<char>, lo: usize, hi: usize, w: &str) -> (r: bool)
    requires
        lo <= hi <= t@.len(),
    ensures
        r == (t@.subrange(lo as int, hi as int) == w@),
{
    let wc = chars_of(w);
    if hi - lo != wc.len() {
        return false;
    }
    let mut i: usize = 0;
    while i < wc.len()
        invariant
            hi - lo == wc@.len(),
            wc@ == w@,
            lo <= hi <= t@.len(),
            i <= wc@.len(),
            forall|j: int| 0 <= j < i ==> t@[lo + j] == wc@[j],
        decreases wc@.len() - i,
    {
        if t[lo + i] != wc[i] {
            assert(t@.subrange(lo as int, hi as int)[i as int] != w@[i as int]);
            return false;
        }
        i = i + 1;
    }
    assert(t@.subrange(lo as int, hi as int) =~= w@);
    true
}

fn word_token_exec(t: &Vec<char>, lo: usize, hi: usize) -> (r: Token)
    requires
        lo < hi <= t@.len(),
    ensures
        token_model(r) == word_token(t@.subrange(lo as int, hi as int)),
{
    if range_is(t, lo, hi, "and") || range_is(t, lo, hi, "&&") {
        Token::And
    } else if range_is(t, lo, hi, "or") || range_is(t, lo, hi, "||") {
        Token::Or
    } else if range_is(t, lo, hi, "not") {
        Token::Not
    } else {
        Token::Ident(string_of(t, lo, hi))
    }
}

fn push_word_exec(toks: &mut Vec<Token>, t: &Vec<char>, lo: usize, hi: usize)
    requires
        lo <= hi <= t@.len(),
    ensures
        tokens_model(final(toks)@) == push_word(
            tokens_model(old(toks)@),
            t@.subrange(lo as int, hi as int),
        ),
{
    if lo < hi {
        let tok = word_token_exec(t, lo, hi);
        toks.push(tok);
        assert(tokens_model(toks@) =~= tokens_model(old(toks)@).push(token_model(tok)));
    }
}

/// The tokens of the condition text `t[lo..hi]`.
#[verifier::loop_isolation(false)]
fn tokenize_bool(t: &Vec<char>, lo: usize, hi: usize) -> (r: Vec<Token>)
    requires
        lo <= hi <= t@.len(),
    ensures
        tokens_model(r@) == tokenize(t@.subrange(lo as int, hi as int)),
{
    let ghost s = t@.subrange(lo as int, hi as int);
    let mut toks: Vec<Token> = Vec::new();
    let mut cs = lo;
    let mut i = lo;
    assert(tokens_model(toks@) =~= Seq::<TokenModel>::empty());
    assert(t@.subrange(lo as int, lo as int) =~= Seq::<char>::empty());
    while i < hi
        invariant
            lo <= cs <= i <= hi <= t@.len(),
            tokens_from(s, i - lo, t@.subrange(cs as int, i as int), tokens_model(toks@))
                == tokenize(s),
        decreases hi - i,
    {
        let c = t[i];
        assert(s[i - lo] == c);
        let next_eq = i + 1 < hi && t[i + 1] == '=';
        assert(next_eq == (i - lo + 1 < s.len() && s[i - lo + 1] == '='));
        let special = c == '(' || c == ')' || c == '=' || c == '!' || c == '<' || c == '>'
            || is_whitespace(c);
        if special {
            push_word_exec(&mut toks, t, cs, i);
            let ghost pw = tokens_model(toks@);
            let mut step: usize = 1;
            if c == '(' {
                toks.push(Token::LParen);
            } else if c == ')' {
                toks.push(Token::RParen);
            } else if c == '=' {
                if next_eq {
                    toks.push(Token::Eq);
                    step = 2;
                }
            } else if c == '!' {
                if next_eq {
                    toks.push(Token::Ne);
                    step = 2;
                } else {
                    toks.push(Token::Not);
                }
            } else if c == '<' {
                if next_eq {
                    toks.push(Token::Le);
                    step = 2;
                } else {
                    toks.push(Token::Lt);
                }
            } else if c == '>' {
                if next_eq {
                    toks.push(Token::Ge);
                    step = 2;
                } else {
                    toks.push(Token::Gt);
                }
            }
            proof {
                if toks@.len() > 0 && toks@.len() == pw.len() + 1 {
                    assert(tokens_model(toks@) =~= pw.push(token_model(toks@.last())));
                }
            }
            i = i + step;
            cs = i;
            assert(t@.subrange(cs as int, i as int) =~= Seq::<char>::empty());
        } else {
            assert(t@.subrange(cs as int, i + 1) =~= t@.subrange(cs as int, i as int).push(c));
            i = i + 1;
        }
    }
    push_word_exec(&mut toks, t, cs, i);
    toks
}

pub open spec fn is_quoted(w: Seq<char>) -> bool {
    w.len() >= 2 && ((w[0] == '"' && w.last() == '"') || (w[0] == '\'' && w.last() == '\''))
}

/// An operand as written: a quoted string, `true` or `false`, a number
/// literal, or else a path.
pub open spec fn operand_of(w: Seq<char>) -> OperandModel {
    if is_quoted(w) {
        OperandModel::Literal(ValueModel::Str(w.subrange(1, w.len() - 1)))
    } else if w == "true"@ {
        OperandModel::Literal(ValueModel::Bool(true))
    } else if w == "false"@ {
        OperandModel::Literal(ValueModel::Bool(false))
    } else if literal_number(w) is Some {
        OperandModel::Literal(ValueModel::Number(literal_number(w)->0))
    } else {
        OperandModel::Path(split_path(w))
    }
}

pub open spec fn compare_op_of(t: TokenModel) -> Option<CompareOp> {
    match t {
        TokenModel::Eq => Some(CompareOp::Eq),
        TokenModel::Ne => Some(CompareOp::Ne),
        TokenModel::Lt => Some(CompareOp::Lt),
        TokenModel::Gt => Some(CompareOp::Gt),
        TokenModel::Le => Some(CompareOp::Le),
        TokenModel::Ge => Some(CompareOp::Ge),
        _ => None,
    }
}

/// The right side of a comparison: the operand at `k`, or null where no
/// name stands there.
pub open spec fn right_operand(t: Seq<TokenModel>, k: int) -> OperandModel {
    if 0 <= k < t.len() {
        match t[k] {
            TokenModel::Ident(w) => operand_of(w),
            _ => OperandModel::Literal(ValueModel::Null),
        }
    } else {
        OperandModel::Literal(ValueModel::Null)
    }
}

pub open spec fn advances(j: int, k: int, len: int) -> bool {
    j < k <= len
}

/// `factor := "(" expr ")" | NAME (cmp_op operand)?`; anything else reads as
/// false and consumes nothing. Parentheses and `not` may nest `d` more levels;
/// past that they read as false.
pub open spec fn factor_at(t: Seq<TokenModel>, i: int, d: nat) -> (ConditionModel, int)
    decreases t.len() - i, 1int,
{
    if 0 <= i < t.len() && t[i] is LParen && d > 0 {
        let (c, j) = expr_at(t, i + 1, (d - 1) as nat);
        if 0 <= j < t.len() && t[j] is RParen {
            (c, j + 1)
        } else {
            (c, j)
        }
    } else if 0 <= i < t.len() && t[i] is Ident {
        let w = t[i]->Ident_0;
        if i + 1 < t.len() && compare_op_of(t[i + 1]) is Some {
            (
                ConditionModel::Compare(
                    operand_of(w),
                    compare_op_of(t[i + 1])->0,
                    right_operand(t, i + 2),
                ),
                if i + 2 < t.len() {
                    i + 3
                } else {
                    i + 2
                },
            )
        } else if w == "true"@ {
            (ConditionModel::Literal(true), i + 1)
        } else if w == "false"@ {
            (ConditionModel::Literal(false), i + 1)
        } else {
            (ConditionModel::Path(split_path(w)), i + 1)
        }
    } else {
        (ConditionModel::Literal(false), i)
    }
}

/// `unary := "not"? factor`, right-associative.
pub open spec fn unary_at(t: Seq<TokenModel>, i: int, d: nat) -> (ConditionModel, int)
    decreases t.len() - i, 2int,
{
    if 0 <= i < t.len() && t[i] is Not && d > 0 {
        let (c, j) = unary_at(t, i + 1, (d - 1) as nat);
        (ConditionModel::Not(Box::new(c)), j)
    } else {
        factor_at(t, i, d)
    }
}

/// Further `"and" unary` operands from `j`.
pub open spec fn and_rest(t: Seq<TokenModel>, j: int, parts: Seq<ConditionModel>, d: nat) -> (
    Seq<ConditionModel>,
    int,
)
    decreases t.len() - j, 3int,
{
    if 0 <= j < t.len() && t[j] is And {
        let (c, k) = unary_at(t, j + 1, d);
        if advances(j, k, t.len() as int) {
            and_rest(t, k, parts.push(c), d)
        } else {
            (parts, j)
        }
    } else {
        (parts, j)
    }
}

/// `term := unary ("and" unary)*`.
pub open spec fn term_at(t: Seq<TokenModel>, i: int, d: nat) -> (ConditionModel, int)
    decreases t.len() - i, 4int,
{
    let (c, j) = unary_at(t, i, d);
    if i <= j <= t.len() {
        let (parts, k) = and_rest(t, j, seq![c], d);
        (
            if parts.len() == 1 {
                parts[0]
            } else {
                ConditionModel::And(parts)
            },
            k,
        )
    } else {
        (c, j)
    }
}

/// Further `"or" term` operands from `j`.
pub open spec fn or_rest(t: Seq<TokenModel>, j: int, parts: Seq<ConditionModel>, d: nat) -> (
    Seq<ConditionModel>,
    int,
)
    decreases t.len() - j, 5int,
{
    if 0 <= j < t.len() && t[j] is Or {
        let (c, k) = term_at(t, j + 1, d);
        if advances(j, k, t.len() as int) {
            or_rest(t, k, parts.push(c), d)
        } else {
            (parts, j)
        }
    } else {
        (parts, j)
    }
}

/// `expr := term ("or" term)*`.
pub open spec fn expr_at(t: Seq<TokenModel>, i: int, d: nat) -> (ConditionModel, int)
    decreases t.len() - i, 6int,
{
    let (c, j) = term_at(t, i, d);
    if i <= j <= t.len() {
        let (parts, k) = or_rest(t, j, seq![c], d);
        (
            if parts.len() == 1 {
                parts[0]
            } else {
                ConditionModel::Or(parts)
            },
            k,
        )
    } else {
        (c, j)
    }
}

/// How deep parentheses and `not` may nest in a condition.
pub const MAX_CONDITION_DEPTH: usize = 64;

/// The condition that the text `s` denotes.
pub open spec fn condition_of(s: Seq<char>) -> ConditionModel {
    expr_at(tokenize(s), 0, MAX_CONDITION_DEPTH as nat).0
}

fn operand_exec(w: &String) -> (r: Operand)
    ensures
        operand_model(r) == operand_of(w@),
{
    let t = chars_of(w.as_str());
    let n = t.len();
    assert(t@.subrange(0, n as int) =~= t@);
    if n >= 2 && ((t[0] == '"' && t[n - 1] == '"') || (t[0] == '\'' && t[n - 1] == '\'')) {
        return Operand::Literal(Value::String(string_of(&t, 1, n - 1)));
    }
    if range_is(&t, 0, n, "true") {
        return Operand::Literal(Value::Bool(true));
    }
    if range_is(&t, 0, n, "false") {
        return Operand::Literal(Value::Bool(false));
    }
    match parse_number(&t, 0, n) {
        Some(num) => Operand::Literal(Value::Number(num)),
        None => Operand::Path(parse_variable_path(&t, 0, n)),
    }
}

fn compare_op_exec(t: &Token) -> (r: Option<CompareOp>)
    ensures
        r == compare_op_of(token_model(*t)),
{
    match t {
        Token::Eq => Some(CompareOp::Eq),
        Token::Ne => Some(CompareOp::Ne),
        Token::Lt => Some(CompareOp::Lt),
        Token::Gt => Some(CompareOp::Gt),
        Token::Le => Some(CompareOp::Le),
        Token::Ge => Some(CompareOp::Ge),
        _ => None,
    }
}

fn parse_factor(t: &Vec<Token>, i: usize, d: usize) -> (r: (Condition, usize))
    requires
        i <= t@.len(),
    ensures
        condition_model(r.0) == factor_at(tokens_model(t@), i as int, d as nat).0,
        r.1 == factor_at(tokens_model(t@), i as int, d as nat).1,
        i <= r.1 <= t@.len(),
    decreases t@.len() - i, 1int,
{
    if i < t.len() {
        match &t[i] {
            Token::LParen => {
                if d == 0 {
                    return (Condition::Literal(false), i);
                }
                let (c, j) = parse_expr(t, i + 1, d - 1);
                if j < t.len() {
                    if let Token::RParen = &t[j] {
                        return (c, j + 1);
                    }
                }
                return (c, j);
            },
            Token::Ident(w) => {
                if i + 1 < t.len() {
                    if let Some(op) = compare_op_exec(&t[i + 1]) {
                        let left = operand_exec(w);
                        let right = if i + 2 < t.len() {
                            match &t[i + 2] {
                                Token::Ident(v) => operand_exec(v),
                                _ => Operand::Literal(Value::Null),
                            }
                        } else {
                            Operand::Literal(Value::Null)
                        };
                        let next = if i + 2 < t.len() {
                            i + 3
                        } else {
                            i + 2
                        };
                        return (Condition::Compare { left, op, right }, next);
                    }
                }
                let wc = chars_of(w.as_str());
                let n = wc.len();
                assert(wc@.subrange(0, n as int) =~= wc@);
                if range_is(&wc, 0, n, "true") {
                    return (Condition::Literal(true), i + 1);
                }
                if range_is(&wc, 0, n, "false") {
                    return (Condition::Literal(false), i + 1);
                }
                return (Condition::Path(parse_variable_path(&wc, 0, n)), i + 1);
            },
            _ => {},
        }
    }
    (Condition::Literal(false), i)
}

fn parse_unary(t: &Vec<Token>, i: usize, d: usize) -> (r: (Condition, usize))
    requires
        i <= t@.len(),
    ensures
        condition_model(r.0) == unary_at(tokens_model(t@), i as int, d as nat).0,
        r.1 == unary_at(tokens_model(t@), i as int, d as nat).1,
        i <= r.1 <= t@.len(),
    decreases t@.len() - i, 2int,
{
    if i < t.len() {
        if let Token::Not = &t[i] {
            if d == 0 {
                return parse_factor(t, i, d);
            }
            let (c, j) = parse_unary(t, i + 1, d - 1);
            return (Condition::Not(Box::new(c)), j);
        }
    }
    parse_factor(t, i, d)
}

fn single_or(mut parts: Vec<Condition>, conj: bool) -> (r: Condition)
    requires
        parts@.len() >= 1,
    ensures
        condition_model(r) == if parts@.len() == 1 {
            conditions_model(parts@, 1)[0]
        } else if conj {
            ConditionModel::And(conditions_model(parts@, parts@.len() as int))
        } else {
            ConditionModel::Or(conditions_model(parts@, parts@.len() as int))
        },
{
    if parts.len() == 1 {
        proof {
            lemma_conditions_model(parts@, 1);
        }
        match parts.pop() {
            Some(c) => c,
            None => Condition::Literal(false),
        }
    } else if conj {
        Condition::And(parts)
    } else {
        Condition::Or(parts)
    }
}

fn parse_term(t: &Vec<Token>, i: usize, d: usize) -> (r: (Condition, usize))
    requires
        i <= t@.len(),
    ensures
        condition_model(r.0) == term_at(tokens_model(t@), i as int, d as nat).0,
        r.1 == term_at(tokens_model(t@), i as int, d as nat).1,
        i <= r.1 <= t@.len(),
    decreases t@.len() - i, 4int,
{
    let ghost tm = tokens_model(t@);
    let (c, j) = parse_unary(t, i, d);
    let mut parts: Vec<Condition> = Vec::new();
    parts.push(c);
    let mut k = j;
    proof {
        lemma_conditions_model(parts@, 1);
        assert(conditions_model(parts@, 1) =~= seq![condition_model(c)]);
    }
    while k < t.len() && matches!(t[k], Token::And)
        invariant
            i <= j <= k <= t@.len(),
            tm == tokens_model(t@),
            parts@.len() >= 1,
            and_rest(tm, k as int, conditions_model(parts@, parts@.len() as int), d as nat)
                == and_rest(tm, j as int, seq![condition_model(c)], d as nat),
        decreases t@.len() - k,
    {
        assert(tm[k as int] is And);
        let (e, k2) = parse_unary(t, k + 1, d);
        proof {
            lemma_conditions_model_push(parts@, e);
        }
        parts.push(e);
        k = k2;
    }
    proof {
        lemma_conditions_model(parts@, parts@.len() as int);
        if k < t@.len() {
            assert(!(tm[k as int] is And));
        }
    }
    (single_or(parts, true), k)
}

fn parse_expr(t: &Vec<Token>, i: usize, d: usize) -> (r: (Condition, usize))
    requires
        i <= t@.len(),
    ensures
        condition_model(r.0) == expr_at(tokens_model(t@), i as int, d as nat).0,
        r.1 == expr_at(tokens_model(t@), i as int, d as nat).1,
        i <= r.1 <= t@.len(),
    decreases t@.len() - i, 6int,
{
    let ghost tm = tokens_model(t@);
    let (c, j) = parse_term(t, i, d);
    let mut parts: Vec<Condition> = Vec::new();
    parts.push(c);
    let mut k = j;
    proof {
        lemma_conditions_model(parts@, 1);
        assert(conditions_model(parts@, 1) =~= seq![condition_model(c)]);
    }
    while k < t.len() && matches!(t[k], Token::Or)
        invariant
            i <= j <= k <= t@.len(),
            tm == tokens_model(t@),
            parts@.len() >= 1,
            or_rest(tm, k as int, conditions_model(parts@, parts@.len() as int), d as nat)
                == or_rest(tm, j as int, seq![condition_model(c)], d as nat),
        decreases t@.len() - k,
    {
        assert(tm[k as int] is Or);
        let (e, k2) = parse_term(t, k + 1, d);
        proof {
            lemma_conditions_model_push(parts@, e);
        }
        parts.push(e);
        k = k2;
    }
    proof {
        lemma_conditions_model(parts@, parts@.len() as int);
        if k < t@.len() {
            assert(!(tm[k as int] is Or));
        }
    }
    (single_or(parts, false), k)
}

/// The condition written as `t[lo..hi]`; malformed or empty text reads as false.
pub fn parse_bool_expr(t: &Vec<char>, lo: usize, hi: usize) -> (r: Condition)
    requires
        lo <= hi <= t@.len(),
    ensures
        condition_model(r) == condition_of(t@.subrange(lo as int, hi as int)),
{
    let toks = tokenize_bool(t, lo, hi);
    parse_expr(&toks, 0, MAX_CONDITION_DEPTH).0
}

/// The condition written as `s`.
pub fn parse_condition(s: &str) -> (r: Condition)
    ensures
        condition_model(r) == condition_of(s@),
{
    let t = chars_of(s);
    assert(t@.subrange(0, t@.len() as int) =~= s@);
    parse_bool_expr(&t, 0, t.len())
}

} // verus!
