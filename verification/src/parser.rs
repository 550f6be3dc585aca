use vstd::prelude::*;
use crate::lexer::{SpecToken, Token, tokens_view, eof_only_last};

verus! {

/// A binary operator.
#[derive(Debug, Clone, Copy, PartialEq, Eq)]
pub enum Op {
    Plus,
    Minus,
    Multiply,
    Divide,
    Equals,
    Greater,
    Less,
}

/// A statement or expression of a program.
///
/// A number literal keeps the text it was written with.
#[derive(Debug)]
pub enum Expr {
    Show(Box<Expr>),
    Number(String),
    StringLit(String),
    Ident(String),
    Store { value: Box<Expr>, name: String },
    Add { value: Box<Expr>, list: String },
    Remove { value: Box<Expr>, list: String },
    If { condition: Box<Expr>, body: Vec<Expr>, else_body: Vec<Expr> },
    BinOp { left: Box<Expr>, op: Op, right: Box<Expr> },
    Input { prompt: String, store_in: String },
    Loop { count: Box<Expr>, body: Vec<Expr> },
    FunctionDef { name: String, params: Vec<String>, body: Vec<Expr> },
    FunctionCall { name: String, args: Vec<Expr> },
    Return(Box<Expr>),
}

/// The mathematical model of an `Expr`.
pub enum SpecExpr {
    Show(Box<SpecExpr>),
    Number(Seq<char>),
    StringLit(Seq<char>),
    Ident(Seq<char>),
    Store { value: Box<SpecExpr>, name: Seq<char> },
    Add { value: Box<SpecExpr>, list: Seq<char> },
    Remove { value: Box<SpecExpr>, list: Seq<char> },
    If { condition: Box<SpecExpr>, body: Seq<SpecExpr>, else_body: Seq<SpecExpr> },
    BinOp { left: Box<SpecExpr>, op: Op, right: Box<SpecExpr> },
    Input { prompt: Seq<char>, store_in: Seq<char> },
    Loop { count: Box<SpecExpr>, body: Seq<SpecExpr> },
    FunctionDef { name: Seq<char>, params: Seq<Seq<char>>, body: Seq<SpecExpr> },
    FunctionCall { name: Seq<char>, args: Seq<SpecExpr> },
    Return(Box<SpecExpr>),
}

/// The models of a sequence of strings.
pub open spec fn strings_view(s: Seq<String>) -> Seq<Seq<char>> {
    s.map_values(|x: String| x@)
}

impl Expr {
    /// The model of this expression.
    pub open spec fn model(&self) -> SpecExpr
        decreases self, 0nat,
    {
        match self {
            Expr::Show(e) => SpecExpr::Show(Box::new(e.model())),
            Expr::Number(s) => SpecExpr::Number(s@),
            Expr::StringLit(s) => SpecExpr::StringLit(s@),
            Expr::Ident(s) => SpecExpr::Ident(s@),
            Expr::Store { value, name } => SpecExpr::Store { value: Box::new(value.model()), name: name@ },
            Expr::Add { value, list } => SpecExpr::Add { value: Box::new(value.model()), list: list@ },
            Expr::Remove { value, list } => SpecExpr::Remove { value: Box::new(value.model()), list: list@ },
            Expr::If { condition, body, else_body } => SpecExpr::If {
                condition: Box::new(condition.model()),
                body: exprs_model(body@),
                else_body: exprs_model(else_body@),
            },
            Expr::BinOp { left, op, right } => SpecExpr::BinOp {
                left: Box::new(left.model()),
                op: *op,
                right: Box::new(right.model()),
            },
            Expr::Input { prompt, store_in } => SpecExpr::Input { prompt: prompt@, store_in: store_in@ },
            Expr::Loop { count, body } => SpecExpr::Loop {
                count: Box::new(count.model()),
                body: exprs_model(body@),
            },
            Expr::FunctionDef { name, params, body } => SpecExpr::FunctionDef {
                name: name@,
                params: strings_view(params@),
                body: exprs_model(body@),
            },
            Expr::FunctionCall { name, args } => SpecExpr::FunctionCall { name: name@, args: exprs_model(args@) },
            Expr::Return(e) => SpecExpr::Return(Box::new(e.model())),
        }
    }
}

/// The models of a sequence of expressions.
pub open spec fn exprs_model(s: Seq<Expr>) -> Seq<SpecExpr>
    decreases s, 1nat,
{
    if s.len() == 0 {
        Seq::empty()
    } else {
        seq![s[0].model()] + exprs_model(s.subrange(1, s.len() as int))
    }
}


pub proof fn lemma_exprs_model(s: Seq<Expr>)
    ensures
        exprs_model(s).len() == s.len(),
        forall|i: int| 0 <= i < s.len() ==> #[trigger] exprs_model(s)[i] == s[i].model(),
    decreases s.len(),
{
    if s.len() > 0 {
        lemma_exprs_model(s.subrange(1, s.len() as int));
        assert forall|i: int| 0 <= i < s.len() implies #[trigger] exprs_model(s)[i] == s[i].model() by {
            if i > 0 {
                assert(s.subrange(1, s.len() as int)[i - 1] == s[i]);
            }
        }
    }
}

pub proof fn lemma_exprs_model_push(s: Seq<Expr>, e: Expr)
    ensures
        exprs_model(s.push(e)) == exprs_model(s).push(e.model()),
{
    lemma_exprs_model(s);
    lemma_exprs_model(s.push(e));
    assert(exprs_model(s.push(e)) =~= exprs_model(s).push(e.model()));
}

// ---------------------------------------------------------------------------
// The grammar, as functions from a token sequence and a position to what is
// read there and the position after it.
// ---------------------------------------------------------------------------

/// The token sequences that `Parser::parse` reads to their end: non-empty, with `EOF` last.
pub open spec fn ends_with_eof(ts: Seq<SpecToken>) -> bool {
    ts.len() > 0 && ts.last() is EOF
}

/// The literal that stands for the number zero.
pub open spec fn zero_literal() -> Seq<char> {
    seq!['0']
}

/// The position after the token at `p`; the last token is never passed.
pub open spec fn next_pos(ts: Seq<SpecToken>, p: int) -> int {
    if p < ts.len() - 1 {
        p + 1
    } else {
        p
    }
}

/// The first position at or after `p` that does not hold a line break.
pub open spec fn skip_newlines(ts: Seq<SpecToken>, p: int) -> int
    decreases ts.len() - p,
{
    if 0 <= p < ts.len() - 1 && ts[p] is Newline {
        skip_newlines(ts, p + 1)
    } else {
        p
    }
}

pub open spec fn is_op(t: SpecToken) -> bool {
    t is Plus || t is Minus || t is Multiply || t is Divide || t is Equals || t is Greater || t is Less
}

pub open spec fn op_of(t: SpecToken) -> Op {
    match t {
        SpecToken::Plus => Op::Plus,
        SpecToken::Minus => Op::Minus,
        SpecToken::Multiply => Op::Multiply,
        SpecToken::Divide => Op::Divide,
        SpecToken::Equals => Op::Equals,
        SpecToken::Greater => Op::Greater,
        SpecToken::Less => Op::Less,
        _ => Op::Plus,
    }
}

/// A number, string or name; anything else reads as the number zero.
pub open spec fn atom(ts: Seq<SpecToken>, p: int) -> (SpecExpr, int) {
    let e = match ts[p] {
        SpecToken::Number(n) => SpecExpr::Number(n),
        SpecToken::StringLit(s) => SpecExpr::StringLit(s),
        SpecToken::Ident(s) => SpecExpr::Ident(s),
        _ => SpecExpr::Number(zero_literal()),
    };
    (e, next_pos(ts, p))
}

/// An atom, or two atoms joined by an operator.
pub open spec fn expr(ts: Seq<SpecToken>, p: int) -> (SpecExpr, int) {
    let (left, p1) = atom(ts, p);
    if is_op(ts[p1]) {
        let (right, p2) = atom(ts, next_pos(ts, p1));
        (SpecExpr::BinOp { left: Box::new(left), op: op_of(ts[p1]), right: Box::new(right) }, p2)
    } else {
        (left, p1)
    }
}

/// The parameter names after `with`: names up to the first one followed by `do`.
pub open spec fn param_names(ts: Seq<SpecToken>, p: int) -> (Seq<Seq<char>>, int)
    decreases ts.len() - p,
{
    if 0 <= p < ts.len() - 1 && ts[p] is Ident {
        let name = ts[p]->Ident_0;
        if ts[p + 1] is Do {
            (seq![name], p + 1)
        } else {
            let (rest, r) = param_names(ts, p + 1);
            (seq![name] + rest, r)
        }
    } else {
        (Seq::empty(), p)
    }
}

pub open spec fn is_atom_token(t: SpecToken) -> bool {
    t is Number || t is StringLit || t is Ident
}

/// The arguments of a call: the atoms that follow on the same line.
pub open spec fn call_args(ts: Seq<SpecToken>, p: int) -> (Seq<SpecExpr>, int)
    decreases ts.len() - p,
{
    if 0 <= p < ts.len() - 1 && is_atom_token(ts[p]) {
        let (a, p1) = atom(ts, p);
        let (rest, r) = call_args(ts, p1);
        (seq![a] + rest, r)
    } else {
        (Seq::empty(), p)
    }
}

/// The name read by the token at `p` (the empty name if it is none), and the position after.
pub open spec fn name_at(ts: Seq<SpecToken>, p: int) -> (Seq<char>, int) {
    match ts[p] {
        SpecToken::Ident(n) => (n, next_pos(ts, p)),
        _ => (Seq::empty(), next_pos(ts, p)),
    }
}

/// `store <name>` after a value: the store, if the name is there.
pub open spec fn store_suffix(ts: Seq<SpecToken>, value: SpecExpr, p: int) -> Option<(SpecExpr, int)> {
    if ts[p] is Store {
        let p1 = next_pos(ts, p);
        let p2 = next_pos(ts, p1);
        if ts[p1] is Ident {
            Some((SpecExpr::Store { value: Box::new(value), name: ts[p1]->Ident_0 }, p2))
        } else {
            None
        }
    } else {
        None
    }
}

/// The position after a `store` that did not name a variable.
pub open spec fn after_failed_store(ts: Seq<SpecToken>, p: int) -> int {
    if ts[p] is Store {
        next_pos(ts, next_pos(ts, p))
    } else {
        p
    }
}

/// The value that a statement starting with the number literal `n` at `p` computes.
pub open spec fn number_stmt_value(ts: Seq<SpecToken>, n: Seq<char>, p: int) -> (SpecExpr, int) {
    let p1 = next_pos(ts, p);
    if is_op(ts[p1]) {
        let (right, q) = atom(ts, next_pos(ts, p1));
        (SpecExpr::BinOp { left: Box::new(SpecExpr::Number(n)), op: op_of(ts[p1]), right: Box::new(right) }, q)
    } else {
        (SpecExpr::Number(n), p1)
    }
}

pub open spec fn number_stmt(ts: Seq<SpecToken>, n: Seq<char>, p: int) -> (SpecExpr, int) {
    let (val, p2) = number_stmt_value(ts, n, p);
    match store_suffix(ts, val, p2) {
        Some(r) => r,
        None => (val, after_failed_store(ts, p2)),
    }
}

/// A statement that starts with a string literal `s`, whose token is at `p`.
pub open spec fn string_stmt(ts: Seq<SpecToken>, s: Seq<char>, p: int) -> (SpecExpr, int) {
    let p1 = next_pos(ts, p);
    let (val, p2) = if ts[p1] is Plus {
        let (right, q) = atom(ts, next_pos(ts, p1));
        (SpecExpr::BinOp { left: Box::new(SpecExpr::StringLit(s)), op: Op::Plus, right: Box::new(right) }, q)
    } else {
        (SpecExpr::StringLit(s), p1)
    };
    match store_suffix(ts, val, p2) {
        Some(r) => r,
        None => (val, after_failed_store(ts, p2)),
    }
}

/// A statement that starts with a name `s`, whose token is at `p`: a variable,
/// an operation, a store, or a call with the arguments that follow.
pub open spec fn ident_stmt(ts: Seq<SpecToken>, s: Seq<char>, p: int) -> (SpecExpr, int) {
    let p1 = next_pos(ts, p);
    if is_op(ts[p1]) {
        let (right, p2) = atom(ts, next_pos(ts, p1));
        let val = SpecExpr::BinOp { left: Box::new(SpecExpr::Ident(s)), op: op_of(ts[p1]), right: Box::new(right) };
        match store_suffix(ts, val, p2) {
            Some(r) => r,
            None => (val, after_failed_store(ts, p2)),
        }
    } else {
        match store_suffix(ts, SpecExpr::Ident(s), p1) {
            Some(r) => r,
            None => {
                let p2 = after_failed_store(ts, p1);
                let (a, p3) = call_args(ts, p2);
                let call = SpecExpr::FunctionCall { name: s, args: a };
                match store_suffix(ts, call, p3) {
                    Some(r) => r,
                    None => {
                        let p4 = after_failed_store(ts, p3);
                        if a.len() > 0 {
                            (call, p4)
                        } else {
                            (SpecExpr::Ident(s), p4)
                        }
                    },
                }
            },
        }
    }
}

/// `add <value> to <list>` or `remove <value> from <list>`, the keyword at `p`.
pub open spec fn list_stmt(ts: Seq<SpecToken>, p: int, adding: bool) -> (SpecExpr, int) {
    let (value, p1) = expr(ts, next_pos(ts, p));
    let p2 = next_pos(ts, p1);
    let p3 = next_pos(ts, p2);
    if ts[p2] is Ident {
        let list = ts[p2]->Ident_0;
        if adding {
            (SpecExpr::Add { value: Box::new(value), list }, p3)
        } else {
            (SpecExpr::Remove { value: Box::new(value), list }, p3)
        }
    } else {
        (SpecExpr::Number(zero_literal()), p3)
    }
}

/// `input ["prompt"] store <name>`, the keyword at `p`.
pub open spec fn input_stmt(ts: Seq<SpecToken>, p: int) -> (SpecExpr, int) {
    let p1 = next_pos(ts, p);
    let (prompt, p2) = match ts[p1] {
        SpecToken::StringLit(s) => (s, next_pos(ts, p1)),
        _ => (Seq::empty(), p1),
    };
    let p3 = next_pos(ts, p2);
    let p4 = next_pos(ts, p3);
    if ts[p3] is Ident {
        (SpecExpr::Input { prompt, store_in: ts[p3]->Ident_0 }, p4)
    } else {
        (SpecExpr::Number(zero_literal()), p4)
    }
}

/// Skips the token at `p` if it satisfies `is_it`.
pub open spec fn skip_if(ts: Seq<SpecToken>, p: int, is_it: bool) -> int {
    if is_it {
        next_pos(ts, p)
    } else {
        p
    }
}

pub proof fn lemma_next_pos(ts: Seq<SpecToken>, p: int)
    requires
        0 <= p < ts.len(),
    ensures
        p <= next_pos(ts, p) < ts.len(),
{
}

pub proof fn lemma_skip_newlines(ts: Seq<SpecToken>, p: int)
    requires
        0 <= p < ts.len(),
    ensures
        p <= skip_newlines(ts, p) < ts.len(),
        !(ts[skip_newlines(ts, p)] is Newline) || skip_newlines(ts, p) == ts.len() - 1,
    decreases ts.len() - p,
{
    if p < ts.len() - 1 && ts[p] is Newline {
        lemma_skip_newlines(ts, p + 1);
    }
}

pub proof fn lemma_expr(ts: Seq<SpecToken>, p: int)
    requires
        0 <= p < ts.len(),
    ensures
        p <= expr(ts, p).1 < ts.len(),
{
}

pub proof fn lemma_param_names(ts: Seq<SpecToken>, p: int)
    requires
        0 <= p < ts.len(),
    ensures
        p <= param_names(ts, p).1 < ts.len(),
    decreases ts.len() - p,
{
    if p < ts.len() - 1 && ts[p] is Ident && !(ts[p + 1] is Do) {
        lemma_param_names(ts, p + 1);
    }
}

/// A statement, after any line breaks at `p`.
pub open spec fn stmt(ts: Seq<SpecToken>, p: int) -> (SpecExpr, int)
    decreases ts.len() - p, 1nat,
{
    if !(0 <= p < ts.len()) {
        (SpecExpr::Number(zero_literal()), p)
    } else {
        let p0 = skip_newlines(ts, p);
        proof {
            lemma_skip_newlines(ts, p);
        }
        if p0 >= ts.len() - 1 {
            (SpecExpr::Number(zero_literal()), next_pos(ts, p0))
        } else {
            match ts[p0] {
                SpecToken::Show => {
                    let (v, q) = expr(ts, p0 + 1);
                    (SpecExpr::Show(Box::new(v)), q)
                },
                SpecToken::Return => {
                    let (v, q) = expr(ts, p0 + 1);
                    (SpecExpr::Return(Box::new(v)), q)
                },
                SpecToken::Function => function_stmt(ts, p0),
                SpecToken::Input => input_stmt(ts, p0),
                SpecToken::Loop => loop_stmt(ts, p0),
                SpecToken::Number(n) => number_stmt(ts, n, p0),
                SpecToken::StringLit(s) => string_stmt(ts, s, p0),
                SpecToken::Ident(s) => ident_stmt(ts, s, p0),
                SpecToken::Add => list_stmt(ts, p0, true),
                SpecToken::Remove => list_stmt(ts, p0, false),
                SpecToken::If => if_stmt(ts, p0),
                _ => (SpecExpr::Number(zero_literal()), p0 + 1),
            }
        }
    }
}

/// `function <name> [with <params>] do ... end [function]`, the keyword at `p`.
pub open spec fn function_stmt(ts: Seq<SpecToken>, p: int) -> (SpecExpr, int)
    decreases ts.len() - p, 0nat,
{
    if !(0 <= p < ts.len() - 1) {
        (SpecExpr::Number(zero_literal()), p)
    } else {
        let (name, p1) = name_at(ts, p + 1);
        proof {
            lemma_next_pos(ts, p + 1);
        }
        let (ps, p2) = if ts[p1] is With {
            proof {
                lemma_next_pos(ts, p1);
                lemma_param_names(ts, next_pos(ts, p1));
            }
            param_names(ts, next_pos(ts, p1))
        } else {
            (Seq::empty(), p1)
        };
        let p3 = skip_if(ts, p2, ts[p2] is Do);
        proof {
            lemma_next_pos(ts, p2);
        }
        let p4 = skip_newlines(ts, p3);
        proof {
            lemma_skip_newlines(ts, p3);
        }
        let (body, p5) = block(ts, p4, false);
        if !(0 <= p5 < ts.len()) {
            (SpecExpr::FunctionDef { name, params: ps, body }, p5)
        } else {
            let p6 = next_pos(ts, p5);
            let p7 = skip_if(ts, p6, ts[p6] is Function);
            (SpecExpr::FunctionDef { name, params: ps, body }, p7)
        }
    }
}

/// `loop <count> [times] ... end [loop]`, the keyword at `p`.
pub open spec fn loop_stmt(ts: Seq<SpecToken>, p: int) -> (SpecExpr, int)
    decreases ts.len() - p, 0nat,
{
    if !(0 <= p < ts.len() - 1) {
        (SpecExpr::Number(zero_literal()), p)
    } else {
        let (count, p1) = expr(ts, p + 1);
        proof {
            lemma_expr(ts, p + 1);
            lemma_next_pos(ts, p1);
        }
        let p2 = skip_if(ts, p1, ts[p1] is Times);
        let p3 = skip_newlines(ts, p2);
        proof {
            lemma_skip_newlines(ts, p2);
        }
        let (body, p4) = block(ts, p3, false);
        if !(0 <= p4 < ts.len()) {
            (SpecExpr::Loop { count: Box::new(count), body }, p4)
        } else {
            let p5 = next_pos(ts, p4);
            let p6 = skip_if(ts, p5, ts[p5] is Loop);
            (SpecExpr::Loop { count: Box::new(count), body }, p6)
        }
    }
}

/// `if <condition> [then] ... [else ...] end [if]`, the keyword at `p`.
pub open spec fn if_stmt(ts: Seq<SpecToken>, p: int) -> (SpecExpr, int)
    decreases ts.len() - p, 0nat,
{
    if !(0 <= p < ts.len() - 1) {
        (SpecExpr::Number(zero_literal()), p)
    } else {
        let (cond, p1) = expr(ts, p + 1);
        proof {
            lemma_expr(ts, p + 1);
            lemma_next_pos(ts, p1);
        }
        let p2 = skip_if(ts, p1, ts[p1] is Then);
        let p3 = skip_newlines(ts, p2);
        proof {
            lemma_skip_newlines(ts, p2);
        }
        let (body, p4) = block(ts, p3, true);
        if !(p < p4 < ts.len()) {
            (SpecExpr::If { condition: Box::new(cond), body, else_body: Seq::empty() }, p4)
        } else {
            let (else_body, p5) = if ts[p4] is Else {
                let q = skip_newlines(ts, next_pos(ts, p4));
                proof {
                    lemma_next_pos(ts, p4);
                    lemma_skip_newlines(ts, next_pos(ts, p4));
                }
                block(ts, q, false)
            } else {
                (Seq::empty(), p4)
            };
            if !(0 <= p5 < ts.len()) {
                (SpecExpr::If { condition: Box::new(cond), body, else_body }, p5)
            } else {
                let p6 = next_pos(ts, p5);
                let p7 = skip_if(ts, p6, ts[p6] is If);
                (SpecExpr::If { condition: Box::new(cond), body, else_body }, p7)
            }
        }
    }
}

/// The statements from `p` up to `end`, `EOF`, or (when `stop_at_else`) `else`,
/// each followed by any line breaks.
pub open spec fn block(ts: Seq<SpecToken>, p: int, stop_at_else: bool) -> (Seq<SpecExpr>, int)
    decreases ts.len() - p, 2nat,
{
    if !(0 <= p < ts.len()) || ts[p] is End || ts[p] is EOF || (stop_at_else && ts[p] is Else) {
        (Seq::empty(), p)
    } else {
        let (e, p1) = stmt(ts, p);
        if !(0 <= p1 < ts.len()) {
            (seq![e], p1)
        } else {
            let p2 = skip_newlines(ts, p1);
            proof {
                lemma_skip_newlines(ts, p1);
            }
            if p2 <= p {
                (seq![e], p2)
            } else {
                let (rest, r) = block(ts, p2, stop_at_else);
                (seq![e] + rest, r)
            }
        }
    }
}

/// The statements of a program from position `p` to its end.
pub open spec fn program_from(ts: Seq<SpecToken>, p: int) -> Seq<SpecExpr>
    decreases ts.len() - p,
{
    if !(0 <= p < ts.len()) {
        Seq::empty()
    } else {
        let p0 = skip_newlines(ts, p);
        proof {
            lemma_skip_newlines(ts, p);
        }
        if ts[p0] is EOF {
            Seq::empty()
        } else {
            let (e, p1) = stmt(ts, p0);
            if p0 < p1 < ts.len() {
                seq![e] + program_from(ts, p1)
            } else {
                seq![e]
            }
        }
    }
}

/// The statements of a whole token sequence.
pub open spec fn program(ts: Seq<SpecToken>) -> Seq<SpecExpr> {
    program_from(ts, 0)
}


/// A reader of statements over a token sequence that ends with `EOF`.
pub struct Parser {
    tokens: Vec<Token>,
    pos: usize,
}

/// The model of `""`.
fn empty_string() -> (s: String)
    ensures
        s@ == Seq::<char>::empty(),
{
    String::new()
}

/// The number literal for zero.
fn zero() -> (e: Expr)
    ensures
        e.model() == SpecExpr::Number(zero_literal()),
{
    let mut s = String::new();
    s.append("0");
    proof {
        reveal_strlit("0");
    }
    assert(s@ =~= zero_literal());
    Expr::Number(s)
}

fn is_op_token(t: &Token) -> (r: bool)
    ensures
        r == is_op(t@),
{
    match t {
        Token::Plus | Token::Minus | Token::Multiply | Token::Divide | Token::Equals
        | Token::Greater | Token::Less => true,
        _ => false,
    }
}

fn token_to_op(t: Token) -> (o: Op)
    ensures
        o == op_of(t@),
{
    match t {
        Token::Plus => Op::Plus,
        Token::Minus => Op::Minus,
        Token::Multiply => Op::Multiply,
        Token::Divide => Op::Divide,
        Token::Equals => Op::Equals,
        Token::Greater => Op::Greater,
        Token::Less => Op::Less,
        _ => Op::Plus,
    }
}

impl Parser {
    /// The models of the tokens being read.
    pub closed spec fn token_models(&self) -> Seq<SpecToken> {
        tokens_view(self.tokens@)
    }

    /// The position of the next token to read.
    pub closed spec fn position(&self) -> int {
        self.pos as int
    }

    /// The position is within the tokens.
    pub open spec fn in_range(&self) -> bool {
        0 <= self.position() < self.token_models().len()
    }

    /// The tokens end with `EOF` and the position is within them: what reading
    /// whole statements needs to come to an end.
    pub open spec fn wf(&self) -> bool {
        &&& ends_with_eof(self.token_models())
        &&& self.in_range()
    }

    pub open spec fn same_tokens(&self, other: &Parser) -> bool {
        self.token_models() == other.token_models()
    }

    /// A parser at the start of `tokens`.
    pub fn new(tokens: Vec<Token>) -> (p: Parser)
        ensures
            p.token_models() == tokens_view(tokens@),
            p.position() == 0,
    {
        Parser { tokens, pos: 0 }
    }

    fn peek(&self) -> (t: &Token)
        requires
            self.in_range(),
        ensures
            t@ == self.token_models()[self.position()],
    {
        &self.tokens[self.pos]
    }

    fn next(&mut self) -> (t: Token)
        requires
            old(self).in_range(),
        ensures
            final(self).in_range(),
            final(self).same_tokens(old(self)),
            t@ == old(self).token_models()[old(self).position()],
            final(self).position() == next_pos(old(self).token_models(), old(self).position()),
            old(self).position() <= final(self).position(),
    {
        let t = self.tokens[self.pos].copy();
        if self.pos < self.tokens.len() - 1 {
            self.pos += 1;
        }
        t
    }

    fn skip_newlines(&mut self)
        requires
            old(self).in_range(),
            !(old(self).token_models().last() is Newline),
        ensures
            final(self).in_range(),
            final(self).same_tokens(old(self)),
            final(self).position() == skip_newlines(old(self).token_models(), old(self).position()),
            old(self).position() <= final(self).position(),
    {
        while matches!(self.peek(), Token::Newline)
            invariant
                self.in_range(),
                self.same_tokens(old(self)),
                !(self.token_models().last() is Newline),
                old(self).position() <= self.position(),
                skip_newlines(self.token_models(), self.position()) == skip_newlines(
                    old(self).token_models(),
                    old(self).position(),
                ),
            decreases self.token_models().len() - self.position(),
        {
            assert(self.position() != self.token_models().len() - 1);
            self.next();
        }
    }

    /// Reads the statements up to the end of the tokens.
    pub fn parse(&mut self) -> (exprs: Vec<Expr>)
        requires
            old(self).wf(),
        ensures
            final(self).wf(),
            final(self).same_tokens(old(self)),
            exprs_model(exprs@) == program_from(old(self).token_models(), old(self).position()),
            eof_only_last(old(self).token_models()) ==> final(self).position() == old(self).token_models().len() - 1,
    {
        let ghost ts = self.token_models();
        let mut exprs: Vec<Expr> = Vec::new();
        loop
            invariant
                self.wf(),
                self.token_models() == ts,
                exprs_model(exprs@) + program_from(ts, self.position()) == program_from(
                    ts,
                    old(self).position(),
                ),
            ensures
                self.wf(),
                self.token_models() == ts,
                exprs_model(exprs@) == program_from(ts, old(self).position()),
                self.token_models()[self.position()] is EOF,
            decreases ts.len() - self.position(),
        {
            let ghost p = self.position();
            self.skip_newlines();
            if matches!(self.peek(), Token::EOF) {
                assert(program_from(ts, p) == Seq::<SpecExpr>::empty());
                assert(exprs_model(exprs@) =~= exprs_model(exprs@) + Seq::<SpecExpr>::empty());
                break;
            }
            let ghost p0 = self.position();
            let e = self.parse_stmt();
            proof {
                lemma_exprs_model_push(exprs@, e);
            }
            exprs.push(e);
            assert(exprs_model(exprs@) + program_from(ts, self.position()) =~= program_from(
                ts,
                old(self).position(),
            ));
        }
        exprs
    }

    fn parse_atom(&mut self) -> (e: Expr)
        requires
            old(self).in_range(),
        ensures
            final(self).in_range(),
            final(self).same_tokens(old(self)),
            e.model() == atom(old(self).token_models(), old(self).position()).0,
            final(self).position() == atom(old(self).token_models(), old(self).position()).1,
            old(self).position() <= final(self).position(),
    {
        match self.next() {
            Token::Number(n) => Expr::Number(n),
            Token::StringLit(s) => Expr::StringLit(s),
            Token::Ident(s) => Expr::Ident(s),
            _ => zero(),
        }
    }

    fn parse_expr(&mut self) -> (e: Expr)
        requires
            old(self).in_range(),
        ensures
            final(self).in_range(),
            final(self).same_tokens(old(self)),
            e.model() == expr(old(self).token_models(), old(self).position()).0,
            final(self).position() == expr(old(self).token_models(), old(self).position()).1,
            old(self).position() <= final(self).position(),
    {
        proof {
            reveal_with_fuel(Expr::model, 3);
        }
        let left = self.parse_atom();
        if is_op_token(self.peek()) {
            let op = token_to_op(self.next());
            let right = self.parse_atom();
            return Expr::BinOp { left: Box::new(left), op, right: Box::new(right) };
        }
        left
    }

    fn parse_stmt(&mut self) -> (e: Expr)
        requires
            old(self).wf(),
        ensures
            final(self).wf(),
            final(self).same_tokens(old(self)),
            e.model() == stmt(old(self).token_models(), old(self).position()).0,
            final(self).position() == stmt(old(self).token_models(), old(self).position()).1,
            old(self).position() <= final(self).position(),
            !(old(self).token_models()[old(self).position()] is EOF) ==> old(self).position()
                < final(self).position(),
        decreases old(self).token_models().len() - old(self).position(), 1nat,
    {
        let ghost ts = self.token_models();
        let ghost p = self.position();
        proof {
            lemma_skip_newlines(ts, p);
        }
        self.skip_newlines();
        let ghost p0 = self.position();
        match self.peek() {
            Token::Show => {
                self.next();
                let val = self.parse_expr();
                Expr::Show(Box::new(val))
            },
            Token::Return => {
                self.next();
                let val = self.parse_expr();
                Expr::Return(Box::new(val))
            },
            Token::Function => self.parse_function(),
            Token::Input => self.parse_input(),
            Token::Loop => self.parse_loop(),
            Token::Number(_) => self.parse_number_stmt(),
            Token::StringLit(_) => self.parse_string_stmt(),
            Token::Ident(_) => self.parse_ident_stmt(),
            Token::Add => self.parse_list_stmt(true),
            Token::Remove => self.parse_list_stmt(false),
            Token::If => self.parse_if(),
            _ => {
                self.next();
                zero()
            },
        }
    }

    /// The statements up to `end`, `EOF` or (when `stop_at_else`) `else`.
    fn parse_block(&mut self, stop_at_else: bool) -> (body: Vec<Expr>)
        requires
            old(self).wf(),
        ensures
            final(self).wf(),
            final(self).same_tokens(old(self)),
            exprs_model(body@) == block(old(self).token_models(), old(self).position(), stop_at_else).0,
            final(self).position() == block(old(self).token_models(), old(self).position(), stop_at_else).1,
            old(self).position() <= final(self).position(),
        decreases old(self).token_models().len() - old(self).position(), 2nat,
    {
        let ghost ts = self.token_models();
        let ghost p = self.position();
        let mut body: Vec<Expr> = Vec::new();
        while !(matches!(self.peek(), Token::End | Token::EOF) || (stop_at_else && matches!(
            self.peek(),
            Token::Else
        )))
            invariant
                self.wf(),
                self.token_models() == ts,
                ts == old(self).token_models(),
                p == old(self).position(),
                p <= self.position(),
                exprs_model(body@) + block(ts, self.position(), stop_at_else).0 == block(
                    ts,
                    p,
                    stop_at_else,
                ).0,
                block(ts, self.position(), stop_at_else).1 == block(ts, p, stop_at_else).1,
            decreases ts.len() - self.position(),
        {
            let ghost q = self.position();
            let e = self.parse_stmt();
            let ghost q1 = self.position();
            self.skip_newlines();
            proof {
                lemma_skip_newlines(ts, q1);
                lemma_exprs_model_push(body@, e);
                assert(exprs_model(body@.push(e)) + block(ts, self.position(), stop_at_else).0
                    =~= exprs_model(body@) + block(ts, q, stop_at_else).0);
            }
            body.push(e);
        }
        assert(exprs_model(body@) =~= exprs_model(body@) + block(ts, self.position(), stop_at_else).0);
        body
    }

    /// `function <name> [with <params>] do ... end [function]`.
    fn parse_function(&mut self) -> (e: Expr)
        requires
            old(self).wf(),
            old(self).token_models()[old(self).position()] is Function,
        ensures
            final(self).wf(),
            final(self).same_tokens(old(self)),
            e.model() == function_stmt(old(self).token_models(), old(self).position()).0,
            final(self).position() == function_stmt(old(self).token_models(), old(self).position()).1,
            old(self).position() < final(self).position(),
        decreases old(self).token_models().len() - old(self).position(), 0nat,
    {
        let ghost ts = self.token_models();
        let ghost p = self.position();
        self.next();
        let name = match self.next() {
            Token::Ident(n) => n,
            _ => empty_string(),
        };
        let mut params: Vec<String> = Vec::new();
        assert(strings_view(params@) =~= Seq::<Seq<char>>::empty());
        if matches!(self.peek(), Token::With) {
            self.next();
            params = self.parse_params();
        }
        if matches!(self.peek(), Token::Do) {
            self.next();
        }
        let ghost p3 = self.position();
        proof {
            lemma_skip_newlines(ts, p3);
        }
        self.skip_newlines();
        let body = self.parse_block(false);
        self.next();
        if matches!(self.peek(), Token::Function) {
            self.next();
        }
        Expr::FunctionDef { name, params, body }
    }

    /// The parameter names after `with`.
    fn parse_params(&mut self) -> (params: Vec<String>)
        requires
            old(self).wf(),
        ensures
            final(self).wf(),
            final(self).same_tokens(old(self)),
            strings_view(params@) == param_names(old(self).token_models(), old(self).position()).0,
            final(self).position() == param_names(old(self).token_models(), old(self).position()).1,
            old(self).position() <= final(self).position(),
    {
        let ghost ts = self.token_models();
        let ghost p = self.position();
        let mut names: Vec<String> = Vec::new();
        loop
            invariant
                self.wf(),
                self.token_models() == ts,
                p <= self.position(),
                strings_view(names@) + param_names(ts, self.position()).0 == param_names(ts, p).0,
                param_names(ts, self.position()).1 == param_names(ts, p).1,
            ensures
                self.wf(),
                self.token_models() == ts,
                strings_view(names@) == param_names(ts, p).0,
                self.position() == param_names(ts, p).1,
                p <= self.position(),
            decreases ts.len() - self.position(),
        {
            let ghost q = self.position();
            if !matches!(self.peek(), Token::Ident(_)) {
                assert(strings_view(names@) =~= strings_view(names@) + param_names(ts, q).0);
                break;
            }
            let name = match self.next() {
                Token::Ident(n) => n,
                _ => empty_string(),
            };
            let ghost before = names@;
            names.push(name);
            assert(strings_view(names@) =~= strings_view(before).push(name@));
            if matches!(self.peek(), Token::Do) {
                assert(strings_view(names@) =~= strings_view(before) + param_names(ts, q).0);
                break;
            }
            assert(strings_view(names@) + param_names(ts, self.position()).0 =~= strings_view(before)
                + param_names(ts, q).0);
        }
        names
    }

    /// `input ["prompt"] store <name>`.
    fn parse_input(&mut self) -> (e: Expr)
        requires
            old(self).wf(),
            old(self).token_models()[old(self).position()] is Input,
        ensures
            final(self).wf(),
            final(self).same_tokens(old(self)),
            e.model() == input_stmt(old(self).token_models(), old(self).position()).0,
            final(self).position() == input_stmt(old(self).token_models(), old(self).position()).1,
            old(self).position() < final(self).position(),
    {
        self.next();
        let prompt = if matches!(self.peek(), Token::StringLit(_)) {
            match self.next() {
                Token::StringLit(s) => s,
                _ => empty_string(),
            }
        } else {
            empty_string()
        };
        self.next();
        if let Token::Ident(name) = self.next() {
            return Expr::Input { prompt, store_in: name };
        }
        zero()
    }

    /// `loop <count> [times] ... end [loop]`.
    fn parse_loop(&mut self) -> (e: Expr)
        requires
            old(self).wf(),
            old(self).token_models()[old(self).position()] is Loop,
        ensures
            final(self).wf(),
            final(self).same_tokens(old(self)),
            e.model() == loop_stmt(old(self).token_models(), old(self).position()).0,
            final(self).position() == loop_stmt(old(self).token_models(), old(self).position()).1,
            old(self).position() < final(self).position(),
        decreases old(self).token_models().len() - old(self).position(), 0nat,
    {
        let ghost ts = self.token_models();
        self.next();
        let count = self.parse_expr();
        if matches!(self.peek(), Token::Times) {
            self.next();
        }
        let ghost p2 = self.position();
        proof {
            lemma_skip_newlines(ts, p2);
        }
        self.skip_newlines();
        let body = self.parse_block(false);
        self.next();
        if matches!(self.peek(), Token::Loop) {
            self.next();
        }
        Expr::Loop { count: Box::new(count), body }
    }

    /// `if <condition> [then] ... [else ...] end [if]`.
    fn parse_if(&mut self) -> (e: Expr)
        requires
            old(self).wf(),
            old(self).token_models()[old(self).position()] is If,
        ensures
            final(self).wf(),
            final(self).same_tokens(old(self)),
            e.model() == if_stmt(old(self).token_models(), old(self).position()).0,
            final(self).position() == if_stmt(old(self).token_models(), old(self).position()).1,
            old(self).position() < final(self).position(),
        decreases old(self).token_models().len() - old(self).position(), 0nat,
    {
        let ghost ts = self.token_models();
        self.next();
        let cond = self.parse_expr();
        if matches!(self.peek(), Token::Then) {
            self.next();
        }
        let ghost p2 = self.position();
        proof {
            lemma_skip_newlines(ts, p2);
        }
        self.skip_newlines();
        let body = self.parse_block(true);
        let mut else_body: Vec<Expr> = Vec::new();
        if matches!(self.peek(), Token::Else) {
            self.next();
            let ghost q = self.position();
            proof {
                lemma_skip_newlines(ts, q);
            }
            self.skip_newlines();
            else_body = self.parse_block(false);
        }
        proof {
            lemma_exprs_model(else_body@);
        }
        self.next();
        if matches!(self.peek(), Token::If) {
            self.next();
        }
        Expr::If { condition: Box::new(cond), body, else_body }
    }

    /// A statement that starts with a number literal.
    fn parse_number_stmt(&mut self) -> (e: Expr)
        requires
            old(self).wf(),
            old(self).token_models()[old(self).position()] is Number,
        ensures
            final(self).wf(),
            final(self).same_tokens(old(self)),
            e.model() == number_stmt(
                old(self).token_models(),
                old(self).token_models()[old(self).position()]->Number_0,
                old(self).position(),
            ).0,
            final(self).position() == number_stmt(
                old(self).token_models(),
                old(self).token_models()[old(self).position()]->Number_0,
                old(self).position(),
            ).1,
            old(self).position() < final(self).position(),
    {
        proof {
            reveal_with_fuel(Expr::model, 3);
        }
        let n = match self.next() {
            Token::Number(n) => n,
            _ => empty_string(),
        };
        let val = if is_op_token(self.peek()) {
            let op = token_to_op(self.next());
            let right = self.parse_atom();
            Expr::BinOp { left: Box::new(Expr::Number(n)), op, right: Box::new(right) }
        } else {
            Expr::Number(n)
        };
        if matches!(self.peek(), Token::Store) {
            self.next();
            if let Token::Ident(name) = self.next() {
                return Expr::Store { value: Box::new(val), name };
            }
        }
        val
    }

    /// A statement that starts with a string literal.
    fn parse_string_stmt(&mut self) -> (e: Expr)
        requires
            old(self).wf(),
            old(self).token_models()[old(self).position()] is StringLit,
        ensures
            final(self).wf(),
            final(self).same_tokens(old(self)),
            e.model() == string_stmt(
                old(self).token_models(),
                old(self).token_models()[old(self).position()]->StringLit_0,
                old(self).position(),
            ).0,
            final(self).position() == string_stmt(
                old(self).token_models(),
                old(self).token_models()[old(self).position()]->StringLit_0,
                old(self).position(),
            ).1,
            old(self).position() < final(self).position(),
    {
        proof {
            reveal_with_fuel(Expr::model, 3);
        }
        let s = match self.next() {
            Token::StringLit(s) => s,
            _ => empty_string(),
        };
        let val = if matches!(self.peek(), Token::Plus) {
            self.next();
            let right = self.parse_atom();
            Expr::BinOp { left: Box::new(Expr::StringLit(s)), op: Op::Plus, right: Box::new(right) }
        } else {
            Expr::StringLit(s)
        };
        if matches!(self.peek(), Token::Store) {
            self.next();
            if let Token::Ident(name) = self.next() {
                return Expr::Store { value: Box::new(val), name };
            }
        }
        val
    }

    /// `add <value> to <list>` (when `adding`) or `remove <value> from <list>`.
    fn parse_list_stmt(&mut self, adding: bool) -> (e: Expr)
        requires
            old(self).wf(),
            old(self).position() < old(self).token_models().len() - 1,
        ensures
            final(self).wf(),
            final(self).same_tokens(old(self)),
            e.model() == list_stmt(old(self).token_models(), old(self).position(), adding).0,
            final(self).position() == list_stmt(old(self).token_models(), old(self).position(), adding).1,
            old(self).position() < final(self).position(),
    {
        proof {
            reveal_with_fuel(Expr::model, 3);
        }
        self.next();
        let value = self.parse_expr();
        self.next();
        if let Token::Ident(list) = self.next() {
            if adding {
                return Expr::Add { value: Box::new(value), list };
            } else {
                return Expr::Remove { value: Box::new(value), list };
            }
        }
        zero()
    }

    /// A statement that starts with a name: a variable, an operation, a store or a call.
    #[verifier::rlimit(40)]
    fn parse_ident_stmt(&mut self) -> (e: Expr)
        requires
            old(self).wf(),
            old(self).token_models()[old(self).position()] is Ident,
        ensures
            final(self).wf(),
            final(self).same_tokens(old(self)),
            e.model() == ident_stmt(
                old(self).token_models(),
                old(self).token_models()[old(self).position()]->Ident_0,
                old(self).position(),
            ).0,
            final(self).position() == ident_stmt(
                old(self).token_models(),
                old(self).token_models()[old(self).position()]->Ident_0,
                old(self).position(),
            ).1,
            old(self).position() < final(self).position(),
    {
        proof {
            reveal_with_fuel(Expr::model, 3);
        }
        let ghost ts = self.token_models();
        let s = match self.next() {
            Token::Ident(s) => s,
            _ => empty_string(),
        };
        if is_op_token(self.peek()) {
            let op = token_to_op(self.next());
            let right = self.parse_atom();
            let val = Expr::BinOp { left: Box::new(Expr::Ident(s)), op, right: Box::new(right) };
            if matches!(self.peek(), Token::Store) {
                self.next();
                if let Token::Ident(name) = self.next() {
                    return Expr::Store { value: Box::new(val), name };
                }
            }
            return val;
        }
        if matches!(self.peek(), Token::Store) {
            self.next();
            if let Token::Ident(name) = self.next() {
                return Expr::Store { value: Box::new(Expr::Ident(s)), name };
            }
        }
        let ghost p2 = self.position();
        assert(old(self).position() < p2);
        let mut args: Vec<Expr> = Vec::new();
        while matches!(self.peek(), Token::Number(_) | Token::StringLit(_) | Token::Ident(_))
            invariant
                self.wf(),
                old(self).position() < p2 <= self.position(),
                self.token_models() == ts,
                exprs_model(args@) + call_args(ts, self.position()).0 == call_args(ts, p2).0,
                call_args(ts, self.position()).1 == call_args(ts, p2).1,
            decreases ts.len() - self.position(),
        {
            let ghost q = self.position();
            let a = self.parse_atom();
            proof {
                lemma_exprs_model_push(args@, a);
                assert(exprs_model(args@.push(a)) + call_args(ts, self.position()).0 =~= exprs_model(args@)
                    + call_args(ts, q).0);
            }
            args.push(a);
        }
        assert(exprs_model(args@) =~= exprs_model(args@) + call_args(ts, self.position()).0);
        proof {
            lemma_exprs_model(args@);
        }
        if matches!(self.peek(), Token::Store) {
            self.next();
            if let Token::Ident(var) = self.next() {
                return Expr::Store { value: Box::new(Expr::FunctionCall { name: s, args }), name: var };
            }
        }
        if args.len() > 0 {
            return Expr::FunctionCall { name: s, args };
        }
        Expr::Ident(s)
    }
}


/// A copy of a list of strings.
pub fn copy_strings(v: &Vec<String>) -> (r: Vec<String>)
    ensures
        strings_view(r@) == strings_view(v@),
{
    let mut r: Vec<String> = Vec::new();
    let mut i: usize = 0;
    while i < v.len()
        invariant
            i <= v@.len(),
            strings_view(r@) == strings_view(v@.take(i as int)),
        decreases v@.len() - i,
    {
        let c = v[i].clone();
        let ghost before = r@;
        r.push(c);
        assert(strings_view(r@) =~= strings_view(before).push(c@));
        assert(v@.take(i + 1) =~= v@.take(i as int).push(v@[i as int]));
        assert(strings_view(v@.take(i + 1)) =~= strings_view(v@.take(i as int)).push(v@[i as int]@));
        i += 1;
    }
    assert(v@.take(i as int) =~= v@);
    r
}

impl Clone for Expr {
    fn clone(&self) -> (r: Expr)
        ensures
            r.model() == self.model(),
    {
        self.duplicate()
    }
}

impl Expr {
    /// A copy of this expression.
    pub fn duplicate(&self) -> (r: Expr)
        ensures
            r.model() == self.model(),
        decreases self,
    {
        match self {
            Expr::Show(e) => Expr::Show(Box::new(e.duplicate())),
            Expr::Number(s) => Expr::Number(s.clone()),
            Expr::StringLit(s) => Expr::StringLit(s.clone()),
            Expr::Ident(s) => Expr::Ident(s.clone()),
            Expr::Store { value, name } => Expr::Store { value: Box::new(value.duplicate()), name: name.clone() },
            Expr::Add { value, list } => Expr::Add { value: Box::new(value.duplicate()), list: list.clone() },
            Expr::Remove { value, list } => Expr::Remove { value: Box::new(value.duplicate()), list: list.clone() },
            Expr::If { condition, body, else_body } => Expr::If {
                condition: Box::new(condition.duplicate()),
                body: duplicate_exprs(body),
                else_body: duplicate_exprs(else_body),
            },
            Expr::BinOp { left, op, right } => Expr::BinOp {
                left: Box::new(left.duplicate()),
                op: *op,
                right: Box::new(right.duplicate()),
            },
            Expr::Input { prompt, store_in } => Expr::Input { prompt: prompt.clone(), store_in: store_in.clone() },
            Expr::Loop { count, body } => Expr::Loop { count: Box::new(count.duplicate()), body: duplicate_exprs(body) },
            Expr::FunctionDef { name, params, body } => Expr::FunctionDef {
                name: name.clone(),
                params: copy_strings(params),
                body: duplicate_exprs(body),
            },
            Expr::FunctionCall { name, args } => Expr::FunctionCall { name: name.clone(), args: duplicate_exprs(args) },
            Expr::Return(e) => Expr::Return(Box::new(e.duplicate())),
        }
    }
}

/// A copy of a list of expressions.
pub fn duplicate_exprs(v: &Vec<Expr>) -> (r: Vec<Expr>)
    ensures
        exprs_model(r@) == exprs_model(v@),
    decreases v,
{
    let mut r: Vec<Expr> = Vec::new();
    let mut i: usize = 0;
    proof {
        lemma_exprs_model(v@);
    }
    while i < v.len()
        invariant
            i <= v@.len(),
            exprs_model(r@) == exprs_model(v@.take(i as int)),
            exprs_model(v@).len() == v@.len(),
            forall|k: int| 0 <= k < v@.len() ==> #[trigger] exprs_model(v@)[k] == v@[k].model(),
        decreases v@.len() - i,
    {
        assert(decreases_to!(v => v@[i as int]));
        let e = v[i].duplicate();
        proof {
            lemma_exprs_model_push(r@, e);
            lemma_exprs_model(v@.take(i as int));
            lemma_exprs_model(v@.take(i + 1));
            assert(exprs_model(v@.take(i + 1)) =~= exprs_model(v@.take(i as int)).push(v@[i as int].model()));
        }
        r.push(e);
        i += 1;
    }
    assert(v@.take(i as int) =~= v@);
    r
}

} // verus!
