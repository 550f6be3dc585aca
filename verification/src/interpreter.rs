use vstd::prelude::*;
use crate::parser::{Expr, Op, SpecExpr, exprs_model, duplicate_exprs, strings_view, copy_strings, lemma_exprs_model};
use crate::table::{Modeled, Table};
use crate::lexer::push_char;
use crate::value::{
    Value, SpecValue, values_model, lemma_values_model, lemma_values_model_push, flat_numbers, render,
    truthy, without_text, number_bits, without_matches, remove_text, numbers_of, remove_matches,
    flat_numbers_of, render_value,
};

verus! {

/// A function defined by a program.
pub struct Function {
    pub params: Vec<String>,
    pub body: Vec<Expr>,
}

/// The model of a `Function`.
pub struct SpecFunction {
    pub params: Seq<Seq<char>>,
    pub body: Seq<SpecExpr>,
}

impl Modeled for Function {
    type Model = SpecFunction;

    open spec fn modeled(&self) -> SpecFunction {
        SpecFunction { params: strings_view(self.params@), body: exprs_model(self.body@) }
    }

    fn duplicate_item(&self) -> (r: Function) {
        Function { params: copy_strings(&self.params), body: duplicate_exprs(&self.body) }
    }
}


// ---------------------------------------------------------------------------
// Messages
// ---------------------------------------------------------------------------

/// The digit character for `d < 10`.
pub open spec fn digit_char(d: nat) -> char {
    seq!['0', '1', '2', '3', '4', '5', '6', '7', '8', '9'][d as int]
}

/// The decimal numeral of `n`.
pub open spec fn decimal(n: nat) -> Seq<char>
    decreases n,
{
    if n < 10 {
        seq![digit_char(n)]
    } else {
        decimal(n / 10).push(digit_char(n % 10))
    }
}

/// The decimal numeral of `n`, as a string.
pub fn decimal_string(n: usize) -> (s: String)
    ensures
        s@ == decimal(n as nat),
    decreases n,
{
    let digits = ['0', '1', '2', '3', '4', '5', '6', '7', '8', '9'];
    assert(digits@ == seq!['0', '1', '2', '3', '4', '5', '6', '7', '8', '9']);
    if n < 10 {
        let mut s = String::new();
        push_char(&mut s, digits[n]);
        assert(s@ =~= decimal(n as nat));
        s
    } else {
        let mut s = decimal_string(n / 10);
        push_char(&mut s, digits[n % 10]);
        s
    }
}

/// The line that reports an error `msg`, naming the function being run, if any.
pub open spec fn error_line(call_stack: Seq<Seq<char>>, msg: Seq<char>) -> Seq<char> {
    if call_stack.len() == 0 {
        "RIFT Error: "@ + msg
    } else {
        "RIFT Error in '"@ + call_stack.last() + "': "@ + msg
    }
}

/// The message for a variable that is not defined.
pub open spec fn unknown_variable(name: Seq<char>) -> Seq<char> {
    "'"@ + name + "' variable nahi mila!"@
}

/// The message for a function that is not defined.
pub open spec fn unknown_function(name: Seq<char>) -> Seq<char> {
    "'"@ + name + "' function nahi mila!"@
}

/// The message for a call with `given` arguments to a function of `wanted` parameters.
pub open spec fn wrong_arity(name: Seq<char>, wanted: nat, given: nat) -> Seq<char> {
    "'"@ + name + "' ko "@ + decimal(wanted) + " arguments chahiye, "@ + decimal(given) + " diye!"@
}

/// The message for a division by zero.
pub open spec fn division_by_zero() -> Seq<char> {
    "Zero se divide nahi!"@
}

fn quoted_then(name: &String, rest: &str) -> (s: String)
    ensures
        s@ == "'"@ + name@ + rest@,
{
    let mut s = String::new();
    s.append("'");
    s.append(name.as_str());
    s.append(rest);
    assert(s@ =~= "'"@ + name@ + rest@);
    s
}


// ---------------------------------------------------------------------------
// The machine: pending work, what it asks of its host, and what it is told.
// ---------------------------------------------------------------------------

/// A piece of pending work. The last task of the list is done first.
pub enum Task {
    /// Evaluate an expression and push its value.
    Eval(Expr),
    /// Drop the value on top.
    Discard,
    /// Run the statements from the index on, dropping their values.
    Stmts(Vec<Expr>, usize),
    /// Run a function body from the index on; a `return` at its top level gives its value.
    Body(Vec<Expr>, usize),
    /// Show the value on top (which stays).
    Show,
    /// Print a value, told the texts of its numbers.
    AwaitShow(Value),
    /// Name the value on top (which stays).
    StoreIn(String),
    /// Append the value on top to a list.
    AddTo(String),
    /// Remove the value on top from a list.
    RemoveFrom(String),
    /// Finish a removal of a number, told which list items equal it.
    AwaitRemoval(String),
    /// Evaluate the right operand of an operation.
    RightOperand(Op, Box<Expr>),
    /// Apply an operation to the two values on top.
    Apply(Op),
    /// Take the result of an arithmetic operation.
    AwaitArith,
    /// Join a text with the text of a number; the flag tells whether the text comes first.
    AwaitJoin(String, bool),
    /// Choose a branch by the value on top.
    Branch(Vec<Expr>, Vec<Expr>),
    /// Choose a branch, told whether the number is nonzero.
    AwaitBranch(Vec<Expr>, Vec<Expr>),
    /// Start a loop with the count on top.
    Count(Vec<Expr>),
    /// Start a loop, told its number of rounds.
    AwaitCount(Vec<Expr>),
    /// Run a loop body a number of times more.
    Repeat(Vec<Expr>, i64),
    /// Take the value of a number literal.
    AwaitNumber,
    /// Take an input line and name it.
    AwaitInput(String),
    /// Name a parameter with the value on top.
    BindArg(String),
    /// Leave a function call, restoring the variables and functions of its caller.
    Return(Table<Value>, Table<Function>),
    /// Push the null value.
    PushNull,
}

/// The model of a `Task`.
pub enum SpecTask {
    Eval(SpecExpr),
    Discard,
    Stmts(Seq<SpecExpr>, int),
    Body(Seq<SpecExpr>, int),
    Show,
    AwaitShow(SpecValue),
    StoreIn(Seq<char>),
    AddTo(Seq<char>),
    RemoveFrom(Seq<char>),
    AwaitRemoval(Seq<char>),
    RightOperand(Op, SpecExpr),
    Apply(Op),
    AwaitArith,
    AwaitJoin(Seq<char>, bool),
    Branch(Seq<SpecExpr>, Seq<SpecExpr>),
    AwaitBranch(Seq<SpecExpr>, Seq<SpecExpr>),
    Count(Seq<SpecExpr>),
    AwaitCount(Seq<SpecExpr>),
    Repeat(Seq<SpecExpr>, int),
    AwaitNumber,
    AwaitInput(Seq<char>),
    BindArg(Seq<char>),
    Return(Map<Seq<char>, SpecValue>, Map<Seq<char>, SpecFunction>),
    PushNull,
}

impl Task {
    pub open spec fn model(&self) -> SpecTask {
        match self {
            Task::Eval(e) => SpecTask::Eval(e.model()),
            Task::Discard => SpecTask::Discard,
            Task::Stmts(b, i) => SpecTask::Stmts(exprs_model(b@), *i as int),
            Task::Body(b, i) => SpecTask::Body(exprs_model(b@), *i as int),
            Task::Show => SpecTask::Show,
            Task::AwaitShow(v) => SpecTask::AwaitShow(v.model()),
            Task::StoreIn(n) => SpecTask::StoreIn(n@),
            Task::AddTo(n) => SpecTask::AddTo(n@),
            Task::RemoveFrom(n) => SpecTask::RemoveFrom(n@),
            Task::AwaitRemoval(n) => SpecTask::AwaitRemoval(n@),
            Task::RightOperand(op, e) => SpecTask::RightOperand(*op, e.model()),
            Task::Apply(op) => SpecTask::Apply(*op),
            Task::AwaitArith => SpecTask::AwaitArith,
            Task::AwaitJoin(t, first) => SpecTask::AwaitJoin(t@, *first),
            Task::Branch(b, e) => SpecTask::Branch(exprs_model(b@), exprs_model(e@)),
            Task::AwaitBranch(b, e) => SpecTask::AwaitBranch(exprs_model(b@), exprs_model(e@)),
            Task::Count(b) => SpecTask::Count(exprs_model(b@)),
            Task::AwaitCount(b) => SpecTask::AwaitCount(exprs_model(b@)),
            Task::Repeat(b, n) => SpecTask::Repeat(exprs_model(b@), *n as int),
            Task::AwaitNumber => SpecTask::AwaitNumber,
            Task::AwaitInput(n) => SpecTask::AwaitInput(n@),
            Task::BindArg(n) => SpecTask::BindArg(n@),
            Task::Return(v, f) => SpecTask::Return(v.model(), f.model()),
            Task::PushNull => SpecTask::PushNull,
        }
    }
}

/// The models of a sequence of tasks.
pub open spec fn tasks_model(s: Seq<Task>) -> Seq<SpecTask> {
    s.map_values(|t: Task| t.model())
}

/// What the host tells the interpreter: the answer to the last `Action`.
pub enum Event {
    /// No answer (after an action that asks none).
    Proceed,
    /// The bit pattern of a number.
    Number(u64),
    /// The bit pattern of a result; `None` for a division by zero.
    Arith(Option<u64>),
    /// The text of a number.
    Text(String),
    /// Whether a number is nonzero.
    Truth(bool),
    /// A number of loop rounds.
    Count(i64),
    /// For each number asked about, whether it equals the target.
    Matches(Vec<bool>),
    /// A value read from the input.
    Input(Value),
    /// The display texts of numbers.
    Texts(Vec<String>),
}

/// The model of an `Event`.
pub enum SpecEvent {
    Proceed,
    Number(u64),
    Arith(Option<u64>),
    Text(Seq<char>),
    Truth(bool),
    Count(int),
    Matches(Seq<bool>),
    Input(SpecValue),
    Texts(Seq<Seq<char>>),
}

impl Event {
    pub open spec fn model(&self) -> SpecEvent {
        match self {
            Event::Proceed => SpecEvent::Proceed,
            Event::Number(n) => SpecEvent::Number(*n),
            Event::Arith(r) => SpecEvent::Arith(*r),
            Event::Text(t) => SpecEvent::Text(t@),
            Event::Truth(b) => SpecEvent::Truth(*b),
            Event::Count(n) => SpecEvent::Count(*n as int),
            Event::Matches(m) => SpecEvent::Matches(m@),
            Event::Input(v) => SpecEvent::Input(v.model()),
            Event::Texts(t) => SpecEvent::Texts(strings_view(t@)),
        }
    }
}

/// What the interpreter asks of its host: the outside work that comes next.
pub enum Action {
    /// Nothing; call `step` again.
    Continue,
    /// The program has ended.
    Finished,
    /// Print a line.
    Print(String),
    /// The display texts of these numbers: answer `Event::Texts`.
    FormatNumbers(Vec<u64>),
    /// Report an error line.
    Error(String),
    /// The bit pattern of a number literal: answer `Event::Number`.
    ParseNumber(String),
    /// Apply an operation to two numbers: answer `Event::Arith` (with `None` for a
    /// division by zero); a comparison gives 1 or 0.
    Arith(Op, u64, u64),
    /// The text of a number: answer `Event::Text`.
    NumberText(u64),
    /// Whether a number is nonzero: answer `Event::Truth`.
    Truth(u64),
    /// The number of rounds of a loop with this count: answer `Event::Count`.
    LoopCount(u64),
    /// Which of these numbers equal the last one: answer `Event::Matches`.
    CompareNumbers(Vec<u64>, u64),
    /// Read a line of input after showing the prompt: answer `Event::Input`.
    ReadInput(String),
}

/// The model of an `Action`.
pub enum SpecAction {
    Continue,
    Finished,
    Print(Seq<char>),
    FormatNumbers(Seq<u64>),
    Error(Seq<char>),
    ParseNumber(Seq<char>),
    Arith(Op, u64, u64),
    NumberText(u64),
    Truth(u64),
    LoopCount(u64),
    CompareNumbers(Seq<u64>, u64),
    ReadInput(Seq<char>),
}

impl Action {
    pub open spec fn model(&self) -> SpecAction {
        match self {
            Action::Continue => SpecAction::Continue,
            Action::Finished => SpecAction::Finished,
            Action::Print(line) => SpecAction::Print(line@),
            Action::FormatNumbers(ns) => SpecAction::FormatNumbers(ns@),
            Action::Error(m) => SpecAction::Error(m@),
            Action::ParseNumber(t) => SpecAction::ParseNumber(t@),
            Action::Arith(op, a, b) => SpecAction::Arith(*op, *a, *b),
            Action::NumberText(n) => SpecAction::NumberText(*n),
            Action::Truth(n) => SpecAction::Truth(*n),
            Action::LoopCount(n) => SpecAction::LoopCount(*n),
            Action::CompareNumbers(ns, n) => SpecAction::CompareNumbers(ns@, *n),
            Action::ReadInput(p) => SpecAction::ReadInput(p@),
        }
    }
}

/// The state of an interpreter.
pub struct Interpreter {
    /// The variables in scope.
    pub vars: Table<Value>,
    functions: Table<Function>,
    call_stack: Vec<String>,
    tasks: Vec<Task>,
    values: Vec<Value>,
}

/// The model of an interpreter's state.
pub struct Machine {
    pub vars: Map<Seq<char>, SpecValue>,
    pub functions: Map<Seq<char>, SpecFunction>,
    pub call_stack: Seq<Seq<char>>,
    pub tasks: Seq<SpecTask>,
    pub values: Seq<SpecValue>,
}

impl Interpreter {
    pub closed spec fn model(&self) -> Machine {
        Machine {
            vars: self.vars.model(),
            functions: self.functions.model(),
            call_stack: strings_view(self.call_stack@),
            tasks: tasks_model(self.tasks@),
            values: values_model(self.values@),
        }
    }
}


// ---------------------------------------------------------------------------
// The meaning of one step
// ---------------------------------------------------------------------------

/// The bit pattern of the number 1.0, which true comparisons give.
pub const ONE_BITS: u64 = 0x3ff0_0000_0000_0000u64;

/// The bit pattern of the number 0.0, which false comparisons give.
pub const ZERO_BITS: u64 = 0u64;

/// The value on top of the stack (null when it is empty).
pub open spec fn top(vs: Seq<SpecValue>) -> SpecValue {
    if vs.len() > 0 {
        vs.last()
    } else {
        SpecValue::Null
    }
}

/// The stack without its top value.
pub open spec fn pop(vs: Seq<SpecValue>) -> Seq<SpecValue> {
    if vs.len() > 0 {
        vs.drop_last()
    } else {
        vs
    }
}

/// The tasks that evaluate the arguments of a call, each followed by the naming
/// of its parameter; the first argument comes first (on top).
pub open spec fn arg_tasks(params: Seq<Seq<char>>, args: Seq<SpecExpr>) -> Seq<SpecTask>
    decreases args.len(),
{
    if args.len() == 0 || params.len() == 0 {
        Seq::empty()
    } else {
        arg_tasks(params.drop_first(), args.drop_first()) + seq![
            SpecTask::BindArg(params[0]),
            SpecTask::Eval(args[0]),
        ]
    }
}

impl Machine {
    pub open spec fn with_tasks(self, tasks: Seq<SpecTask>) -> Machine {
        Machine { tasks, ..self }
    }

    pub open spec fn with_values(self, values: Seq<SpecValue>) -> Machine {
        Machine { values, ..self }
    }

    pub open spec fn with_vars(self, vars: Map<Seq<char>, SpecValue>) -> Machine {
        Machine { vars, ..self }
    }

    pub open spec fn push_value(self, v: SpecValue) -> Machine {
        self.with_values(self.values.push(v))
    }

    pub open spec fn push_task(self, t: SpecTask) -> Machine {
        self.with_tasks(self.tasks.push(t))
    }

    /// Reports `msg` as an error and goes on with a null value.
    pub open spec fn fail(self, msg: Seq<char>) -> (Machine, SpecAction) {
        (self.push_value(SpecValue::Null), SpecAction::Error(error_line(self.call_stack, msg)))
    }

    /// Runs `body` (when `b`) or `else_body`, then gives null.
    pub open spec fn choose_branch(self, b: bool, body: Seq<SpecExpr>, else_body: Seq<SpecExpr>) -> Machine {
        self.push_task(SpecTask::PushNull).push_task(SpecTask::Stmts(if b { body } else { else_body }, 0))
    }
}

/// The step that evaluates `e` (its task already taken off `m`).
pub open spec fn eval_step(m: Machine, e: SpecExpr) -> (Machine, SpecAction) {
    match e {
        SpecExpr::Number(text) => (m.push_task(SpecTask::AwaitNumber), SpecAction::ParseNumber(text)),
        SpecExpr::StringLit(s) => (m.push_value(SpecValue::Text(s)), SpecAction::Continue),
        SpecExpr::Ident(name) => if m.vars.contains_key(name) {
            (m.push_value(m.vars[name]), SpecAction::Continue)
        } else {
            m.fail(unknown_variable(name))
        },
        SpecExpr::Show(inner) => (m.push_task(SpecTask::Show).push_task(SpecTask::Eval(*inner)), SpecAction::Continue),
        SpecExpr::Store { value, name } => (
            m.push_task(SpecTask::StoreIn(name)).push_task(SpecTask::Eval(*value)),
            SpecAction::Continue,
        ),
        SpecExpr::Add { value, list } => (
            m.push_task(SpecTask::AddTo(list)).push_task(SpecTask::Eval(*value)),
            SpecAction::Continue,
        ),
        SpecExpr::Remove { value, list } => (
            m.push_task(SpecTask::RemoveFrom(list)).push_task(SpecTask::Eval(*value)),
            SpecAction::Continue,
        ),
        SpecExpr::If { condition, body, else_body } => (
            m.push_task(SpecTask::Branch(body, else_body)).push_task(SpecTask::Eval(*condition)),
            SpecAction::Continue,
        ),
        SpecExpr::BinOp { left, op, right } => (
            m.push_task(SpecTask::RightOperand(op, *right)).push_task(SpecTask::Eval(*left)),
            SpecAction::Continue,
        ),
        SpecExpr::Input { prompt, store_in } => (
            m.push_task(SpecTask::AwaitInput(store_in)),
            SpecAction::ReadInput(prompt),
        ),
        SpecExpr::Loop { count, body } => (
            m.push_task(SpecTask::Count(body)).push_task(SpecTask::Eval(*count)),
            SpecAction::Continue,
        ),
        SpecExpr::FunctionDef { name, params, body } => (
            Machine {
                functions: m.functions.insert(name, SpecFunction { params, body }),
                ..m
            }.push_value(SpecValue::Null),
            SpecAction::Continue,
        ),
        SpecExpr::FunctionCall { name, args } => if !m.functions.contains_key(name) {
            m.fail(unknown_function(name))
        } else {
            let f = m.functions[name];
            if args.len() != f.params.len() {
                m.fail(wrong_arity(name, f.params.len(), args.len()))
            } else {
                (
                    Machine {
                        call_stack: m.call_stack.push(name),
                        tasks: m.tasks.push(SpecTask::Return(m.vars, m.functions)).push(
                            SpecTask::Body(f.body, 0),
                        ) + arg_tasks(f.params, args),
                        ..m
                    },
                    SpecAction::Continue,
                )
            }
        },
        SpecExpr::Return(inner) => (m.push_task(SpecTask::Eval(*inner)), SpecAction::Continue),
    }
}

/// The step that applies `op` to `l` and `r`.
pub open spec fn apply_step(m: Machine, op: Op, l: SpecValue, r: SpecValue) -> (Machine, SpecAction) {
    match (l, r) {
        (SpecValue::Number(a), SpecValue::Number(b)) => (m.push_task(SpecTask::AwaitArith), SpecAction::Arith(op, a, b)),
        (SpecValue::Text(a), SpecValue::Text(b)) => match op {
            Op::Plus => (m.push_value(SpecValue::Text(a + b)), SpecAction::Continue),
            Op::Equals => (
                m.push_value(SpecValue::Number(if a == b { ONE_BITS } else { ZERO_BITS })),
                SpecAction::Continue,
            ),
            _ => (m.push_value(SpecValue::Null), SpecAction::Continue),
        },
        (SpecValue::Text(a), SpecValue::Number(b)) => match op {
            Op::Plus => (m.push_task(SpecTask::AwaitJoin(a, true)), SpecAction::NumberText(b)),
            _ => (m.push_value(SpecValue::Null), SpecAction::Continue),
        },
        (SpecValue::Number(a), SpecValue::Text(b)) => match op {
            Op::Plus => (m.push_task(SpecTask::AwaitJoin(b, false)), SpecAction::NumberText(a)),
            _ => (m.push_value(SpecValue::Null), SpecAction::Continue),
        },
        _ => (m.push_value(SpecValue::Null), SpecAction::Continue),
    }
}

/// The variables after appending `v` to the list named `list`; a name that is not
/// yet defined becomes a list, and one that names something else is left as it is.
pub open spec fn vars_after_add(vars: Map<Seq<char>, SpecValue>, list: Seq<char>, v: SpecValue) -> Map<
    Seq<char>,
    SpecValue,
> {
    if vars.contains_key(list) {
        match vars[list] {
            SpecValue::List(items) => vars.insert(list, SpecValue::List(items.push(v))),
            _ => vars,
        }
    } else {
        vars.insert(list, SpecValue::List(seq![v]))
    }
}

/// The step that removes `v` from the list named `list`.
pub open spec fn remove_step(m: Machine, list: Seq<char>, v: SpecValue) -> (Machine, SpecAction) {
    if m.vars.contains_key(list) && m.vars[list] is List {
        let items = m.vars[list]->List_0;
        match v {
            SpecValue::Text(t) => (
                m.with_vars(m.vars.insert(list, SpecValue::List(without_text(items, t)))).push_value(
                    SpecValue::Null,
                ),
                SpecAction::Continue,
            ),
            SpecValue::Number(n) => (
                m.push_task(SpecTask::AwaitRemoval(list)),
                SpecAction::CompareNumbers(number_bits(items), n),
            ),
            _ => (m.push_value(SpecValue::Null), SpecAction::Continue),
        }
    } else {
        (m.push_value(SpecValue::Null), SpecAction::Continue)
    }
}

/// One step of the interpreter from state `m`, told `ev`: the next state and
/// the outside work it asks for. A task that awaits an answer takes it from
/// `ev`; an answer of the wrong kind counts as null, false, zero or empty.
pub open spec fn step_spec(m: Machine, ev: SpecEvent) -> (Machine, SpecAction) {
    if m.tasks.len() == 0 {
        (m, SpecAction::Finished)
    } else {
        let t = m.tasks.last();
        let m1 = m.with_tasks(m.tasks.drop_last());
        let v = top(m1.values);
        let m2 = m1.with_values(pop(m1.values));
        match t {
            SpecTask::Eval(e) => eval_step(m1, e),
            SpecTask::Discard => (m2, SpecAction::Continue),
            SpecTask::Stmts(body, i) => if 0 <= i < body.len() {
                (
                    m1.push_task(SpecTask::Stmts(body, i + 1)).push_task(SpecTask::Discard).push_task(
                        SpecTask::Eval(body[i]),
                    ),
                    SpecAction::Continue,
                )
            } else {
                (m1, SpecAction::Continue)
            },
            SpecTask::Body(body, i) => if 0 <= i < body.len() {
                match body[i] {
                    SpecExpr::Return(inner) => (m1.push_task(SpecTask::Eval(*inner)), SpecAction::Continue),
                    _ => (
                        m1.push_task(SpecTask::Body(body, i + 1)).push_task(SpecTask::Discard).push_task(
                            SpecTask::Eval(body[i]),
                        ),
                        SpecAction::Continue,
                    ),
                }
            } else {
                (m1.push_value(SpecValue::Null), SpecAction::Continue)
            },
            SpecTask::Show => (m1.push_task(SpecTask::AwaitShow(v)), SpecAction::FormatNumbers(flat_numbers(v))),
            SpecTask::AwaitShow(w) => {
                let texts = match ev {
                    SpecEvent::Texts(t) => t,
                    _ => Seq::empty(),
                };
                (m1, SpecAction::Print(render(w, texts, 0)))
            },
            SpecTask::StoreIn(name) => (m1.with_vars(m1.vars.insert(name, v)), SpecAction::Continue),
            SpecTask::AddTo(list) => (
                m2.with_vars(vars_after_add(m2.vars, list, v)).push_value(SpecValue::Null),
                SpecAction::Continue,
            ),
            SpecTask::RemoveFrom(list) => remove_step(m2, list, v),
            SpecTask::AwaitRemoval(list) => {
                let flags = match ev {
                    SpecEvent::Matches(f) => f,
                    _ => Seq::empty(),
                };
                if m1.vars.contains_key(list) && m1.vars[list] is List {
                    (
                        m1.with_vars(
                            m1.vars.insert(list, SpecValue::List(without_matches(m1.vars[list]->List_0, flags))),
                        ).push_value(SpecValue::Null),
                        SpecAction::Continue,
                    )
                } else {
                    (m1.push_value(SpecValue::Null), SpecAction::Continue)
                }
            },
            SpecTask::RightOperand(op, right) => (
                m1.push_task(SpecTask::Apply(op)).push_task(SpecTask::Eval(right)),
                SpecAction::Continue,
            ),
            SpecTask::Apply(op) => {
                let m3 = m2.with_values(pop(m2.values));
                apply_step(m3, op, top(m2.values), v)
            },
            SpecTask::AwaitArith => match ev {
                SpecEvent::Arith(Some(n)) => (m1.push_value(SpecValue::Number(n)), SpecAction::Continue),
                SpecEvent::Arith(None) => m1.fail(division_by_zero()),
                _ => (m1.push_value(SpecValue::Null), SpecAction::Continue),
            },
            SpecTask::AwaitJoin(text, text_first) => {
                let n = match ev {
                    SpecEvent::Text(n) => n,
                    _ => Seq::empty(),
                };
                (
                    m1.push_value(SpecValue::Text(if text_first { text + n } else { n + text })),
                    SpecAction::Continue,
                )
            },
            SpecTask::Branch(body, else_body) => match v {
                SpecValue::Number(n) => (
                    m2.push_task(SpecTask::AwaitBranch(body, else_body)),
                    SpecAction::Truth(n),
                ),
                _ => (m2.choose_branch(truthy(v), body, else_body), SpecAction::Continue),
            },
            SpecTask::AwaitBranch(body, else_body) => (
                m1.choose_branch(ev matches SpecEvent::Truth(b) && b, body, else_body),
                SpecAction::Continue,
            ),
            SpecTask::Count(body) => match v {
                SpecValue::Number(n) => (m2.push_task(SpecTask::AwaitCount(body)), SpecAction::LoopCount(n)),
                _ => (m2.push_value(SpecValue::Null), SpecAction::Continue),
            },
            SpecTask::AwaitCount(body) => (
                m1.push_task(
                    SpecTask::Repeat(
                        body,
                        match ev {
                            SpecEvent::Count(n) => n,
                            _ => 0,
                        },
                    ),
                ),
                SpecAction::Continue,
            ),
            SpecTask::Repeat(body, n) => if n > 0 {
                (
                    m1.push_task(SpecTask::Repeat(body, n - 1)).push_task(SpecTask::Stmts(body, 0)),
                    SpecAction::Continue,
                )
            } else {
                (m1.push_value(SpecValue::Null), SpecAction::Continue)
            },
            SpecTask::AwaitNumber => match ev {
                SpecEvent::Number(n) => (m1.push_value(SpecValue::Number(n)), SpecAction::Continue),
                _ => (m1.push_value(SpecValue::Null), SpecAction::Continue),
            },
            SpecTask::AwaitInput(name) => {
                let v = match ev {
                    SpecEvent::Input(v) => v,
                    _ => SpecValue::Null,
                };
                (m1.with_vars(m1.vars.insert(name, v)).push_value(v), SpecAction::Continue)
            },
            SpecTask::BindArg(name) => (m2.with_vars(m2.vars.insert(name, v)), SpecAction::Continue),
            SpecTask::Return(vars, functions) => (
                Machine {
                    vars,
                    functions,
                    call_stack: if m1.call_stack.len() > 0 {
                        m1.call_stack.drop_last()
                    } else {
                        m1.call_stack
                    },
                    ..m1
                },
                SpecAction::Continue,
            ),
            SpecTask::PushNull => (m1.push_value(SpecValue::Null), SpecAction::Continue),
        }
    }
}


// ---------------------------------------------------------------------------
// The interpreter
// ---------------------------------------------------------------------------

impl Interpreter {
    /// An interpreter with no variables, no functions and nothing to do.
    pub fn new() -> (r: Interpreter)
        ensures
            r.model() == (Machine {
                vars: Map::empty(),
                functions: Map::empty(),
                call_stack: Seq::empty(),
                tasks: Seq::empty(),
                values: Seq::empty(),
            }),
    {
        let r = Interpreter {
            vars: Table::new(),
            functions: Table::new(),
            call_stack: Vec::new(),
            tasks: Vec::new(),
            values: Vec::new(),
        };
        assert(strings_view(r.call_stack@) =~= Seq::<Seq<char>>::empty());
        assert(tasks_model(r.tasks@) =~= Seq::<SpecTask>::empty());
        assert(values_model(r.values@) =~= Seq::<SpecValue>::empty());
        r
    }

    /// Sets the interpreter to run the statements `exprs`, one after the other,
    /// once all the work it already has is done; `step` carries the run out.
    pub fn run(&mut self, exprs: Vec<Expr>)
        ensures
            final(self).model() == old(self).model().with_tasks(
                seq![SpecTask::Stmts(exprs_model(exprs@), 0)] + old(self).model().tasks,
            ),
    {
        let t = Task::Stmts(exprs, 0);
        let ghost tm = t.model();
        self.tasks.insert(0, t);
        assert(tasks_model(self.tasks@) =~= seq![tm] + tasks_model(old(self).tasks@));
    }

    fn push_task(&mut self, t: Task)
        ensures
            final(self).model() == old(self).model().push_task(t.model()),
    {
        self.tasks.push(t);
        assert(tasks_model(self.tasks@) =~= tasks_model(old(self).tasks@).push(t.model()));
    }

    fn push_value(&mut self, v: Value)
        ensures
            final(self).model() == old(self).model().push_value(v.model()),
    {
        proof {
            lemma_values_model_push(self.values@, v);
        }
        self.values.push(v);
    }

    /// Takes the value on top off the stack (null when there is none).
    fn pop_value(&mut self) -> (v: Value)
        ensures
            v.model() == top(old(self).model().values),
            final(self).model() == old(self).model().with_values(pop(old(self).model().values)),
    {
        proof {
            lemma_values_model(self.values@);
        }
        match self.values.pop() {
            Some(v) => {
                proof {
                    lemma_values_model(self.values@);
                    assert(values_model(self.values@) =~= values_model(old(self).values@).drop_last());
                }
                v
            },
            None => Value::Null,
        }
    }

    /// A copy of the value on top (null when there is none).
    fn top_value(&self) -> (v: Value)
        ensures
            v.model() == top(self.model().values),
    {
        proof {
            lemma_values_model(self.values@);
        }
        if self.values.len() > 0 {
            self.values[self.values.len() - 1].duplicate()
        } else {
            Value::Null
        }
    }

    /// The line that reports `msg`.
    fn error_line(&self, msg: &String) -> (line: String)
        ensures
            line@ == error_line(self.model().call_stack, msg@),
    {
        let mut line = String::new();
        if self.call_stack.len() == 0 {
            line.append("RIFT Error: ");
        } else {
            line.append("RIFT Error in '");
            line.append(self.call_stack[self.call_stack.len() - 1].as_str());
            line.append("': ");
        }
        line.append(msg.as_str());
        proof {
            if self.call_stack@.len() > 0 {
                assert(strings_view(self.call_stack@).last() == self.call_stack@.last()@);
            }
        }
        assert(line@ =~= error_line(self.model().call_stack, msg@));
        line
    }

    /// Reports `msg` and goes on with a null value.
    fn fail(&mut self, msg: String) -> (a: Action)
        ensures
            (final(self).model(), a.model()) == old(self).model().fail(msg@),
    {
        let line = self.error_line(&msg);
        self.push_value(Value::Null);
        Action::Error(line)
    }

    /// The tasks of a call: evaluate each argument and name its parameter, first to last.
    fn push_arg_tasks(&mut self, params: Vec<String>, args: Vec<Expr>)
        requires
            params@.len() == args@.len(),
        ensures
            final(self).model() == old(self).model().with_tasks(
                old(self).model().tasks + arg_tasks(strings_view(params@), exprs_model(args@)),
            ),
    {
        let ghost pm = strings_view(params@);
        let ghost am = exprs_model(args@);
        let ghost base = self.model();
        proof {
            lemma_exprs_model(args@);
        }
        let mut params = params;
        let mut args = args;
        assert(pm.skip(pm.len() as int) =~= Seq::<Seq<char>>::empty());
        assert(self.model() =~= base.with_tasks(
            base.tasks + arg_tasks(pm.skip(args@.len() as int), am.skip(args@.len() as int)),
        ));
        while args.len() > 0
            invariant
                params@.len() == args@.len(),
                args@.len() <= am.len(),
                pm.len() == am.len(),
                forall|i: int| 0 <= i < args@.len() ==> #[trigger] args@[i].model() == am[i],
                forall|i: int| 0 <= i < params@.len() ==> #[trigger] params@[i]@ == pm[i],
                self.model() == base.with_tasks(
                    base.tasks + arg_tasks(pm.skip(args@.len() as int), am.skip(args@.len() as int)),
                ),
            decreases args@.len(),
        {
            let ghost k = args@.len() as int;
            let a = args.pop().unwrap();
            let p = params.pop().unwrap();
            assert(a.model() == am[k - 1]);
            assert(p@ == pm[k - 1]);
            self.push_task(Task::BindArg(p));
            self.push_task(Task::Eval(a));
            proof {
                let ps = pm.skip(k - 1);
                let xs = am.skip(k - 1);
                assert(ps.drop_first() =~= pm.skip(k));
                assert(xs.drop_first() =~= am.skip(k));
                assert(arg_tasks(ps, xs) == arg_tasks(pm.skip(k), am.skip(k)) + seq![
                    SpecTask::BindArg(pm[k - 1]),
                    SpecTask::Eval(am[k - 1]),
                ]);
                assert(self.model().tasks =~= base.tasks + arg_tasks(ps, xs));
            }
        }
        assert(pm.skip(0) =~= pm);
        assert(am.skip(0) =~= am);
    }

    /// Evaluates `e`: starts its work and asks for what it needs from outside.
    fn eval(&mut self, e: Expr) -> (a: Action)
        ensures
            (final(self).model(), a.model()) == eval_step(old(self).model(), e.model()),
    {
        match e {
            Expr::Number(text) => {
                self.push_task(Task::AwaitNumber);
                Action::ParseNumber(text)
            },
            Expr::StringLit(s) => {
                self.push_value(Value::Text(s));
                Action::Continue
            },
            Expr::Ident(name) => {
                let found = match self.vars.get(&name) {
                    Some(v) => Some(v.duplicate()),
                    None => None,
                };
                match found {
                    Some(v) => {
                        self.push_value(v);
                        Action::Continue
                    },
                    None => self.fail(quoted_then(&name, "' variable nahi mila!")),
                }
            },
            Expr::Show(inner) => {
                self.push_task(Task::Show);
                self.push_task(Task::Eval(*inner));
                Action::Continue
            },
            Expr::Store { value, name } => {
                self.push_task(Task::StoreIn(name));
                self.push_task(Task::Eval(*value));
                Action::Continue
            },
            Expr::Add { value, list } => {
                self.push_task(Task::AddTo(list));
                self.push_task(Task::Eval(*value));
                Action::Continue
            },
            Expr::Remove { value, list } => {
                self.push_task(Task::RemoveFrom(list));
                self.push_task(Task::Eval(*value));
                Action::Continue
            },
            Expr::If { condition, body, else_body } => {
                self.push_task(Task::Branch(body, else_body));
                self.push_task(Task::Eval(*condition));
                Action::Continue
            },
            Expr::BinOp { left, op, right } => {
                self.push_task(Task::RightOperand(op, right));
                self.push_task(Task::Eval(*left));
                Action::Continue
            },
            Expr::Input { prompt, store_in } => {
                self.push_task(Task::AwaitInput(store_in));
                Action::ReadInput(prompt)
            },
            Expr::Loop { count, body } => {
                self.push_task(Task::Count(body));
                self.push_task(Task::Eval(*count));
                Action::Continue
            },
            Expr::FunctionDef { name, params, body } => {
                self.functions.insert(name, Function { params, body });
                self.push_value(Value::Null);
                Action::Continue
            },
            Expr::FunctionCall { name, args } => {
                let found = match self.functions.get(&name) {
                    Some(f) => {
                        let ps = copy_strings(&f.params);
                        assert(strings_view(ps@).len() == ps@.len());
                        assert(strings_view(f.params@).len() == f.params@.len());
                        Some((f.params.len(), ps, duplicate_exprs(&f.body)))
                    },
                    None => None,
                };
                match found {
                    None => self.fail(quoted_then(&name, "' function nahi mila!")),
                    Some((wanted, params, body)) => {
                        proof {
                            lemma_exprs_model(args@);
                        }
                        if args.len() != wanted {
                            let mut msg = quoted_then(&name, "' ko ");
                            msg.append(decimal_string(wanted).as_str());
                            msg.append(" arguments chahiye, ");
                            msg.append(decimal_string(args.len()).as_str());
                            msg.append(" diye!");
                            assert(msg@ =~= wrong_arity(name@, wanted as nat, args@.len() as nat));
                            self.fail(msg)
                        } else {
                            let saved_vars = self.vars.duplicate();
                            let saved_functions = self.functions.duplicate();
                            let ghost cs = self.call_stack@;
                            self.call_stack.push(name);
                            assert(strings_view(self.call_stack@) =~= strings_view(cs).push(name@));
                            self.push_task(Task::Return(saved_vars, saved_functions));
                            self.push_task(Task::Body(body, 0));
                            self.push_arg_tasks(params, args);
                            Action::Continue
                        }
                    },
                }
            },
            Expr::Return(inner) => {
                self.push_task(Task::Eval(*inner));
                Action::Continue
            },
        }
    }

    /// Runs `body` (when `b`) or `else_body`, then gives null.
    fn choose_branch(&mut self, b: bool, body: Vec<Expr>, else_body: Vec<Expr>)
        ensures
            final(self).model() == old(self).model().choose_branch(b, exprs_model(body@), exprs_model(else_body@)),
    {
        self.push_task(Task::PushNull);
        if b {
            self.push_task(Task::Stmts(body, 0));
        } else {
            self.push_task(Task::Stmts(else_body, 0));
        }
    }

    /// Appends the value on top to the list named `list`.
    fn add_to(&mut self, list: String)
        ensures
            final(self).model() == ({
                let m = old(self).model();
                let m2 = m.with_values(pop(m.values));
                m2.with_vars(vars_after_add(m2.vars, list@, top(m.values))).push_value(SpecValue::Null)
            }),
    {
        let v = self.pop_value();
        let ghost vars = self.vars.model();
        match self.vars.take(&list) {
            Some(Value::List(items)) => {
                let mut items = items;
                proof {
                    lemma_values_model_push(items@, v);
                }
                items.push(v);
                self.vars.insert(list, Value::List(items));
                assert(self.vars.model() =~= vars_after_add(vars, list@, v.model()));
            },
            Some(other) => {
                self.vars.insert(list, other);
                assert(self.vars.model() =~= vars);
            },
            None => {
                let mut items: Vec<Value> = Vec::new();
                proof {
                    lemma_values_model_push(items@, v);
                    assert(values_model(items@) =~= Seq::<SpecValue>::empty());
                }
                items.push(v);
                self.vars.insert(list, Value::List(items));
                assert(self.vars.model() =~= vars_after_add(vars, list@, v.model()));
            },
        }
        self.push_value(Value::Null);
    }

    /// Removes the value on top from the list named `list`.
    fn remove_from(&mut self, list: String) -> (a: Action)
        ensures
            (final(self).model(), a.model()) == ({
                let m = old(self).model();
                remove_step(m.with_values(pop(m.values)), list@, top(m.values))
            }),
    {
        let v = self.pop_value();
        let items = match self.vars.get(&list) {
            Some(Value::List(items)) => Some(items),
            _ => None,
        };
        match items {
            None => {
                self.push_value(Value::Null);
                Action::Continue
            },
            Some(items) => match v {
                Value::Text(t) => {
                    let kept = remove_text(items, &t);
                    self.vars.insert(list, Value::List(kept));
                    self.push_value(Value::Null);
                    Action::Continue
                },
                Value::Number(n) => {
                    let bits = numbers_of(items);
                    self.push_task(Task::AwaitRemoval(list));
                    Action::CompareNumbers(bits, n)
                },
                _ => {
                    self.push_value(Value::Null);
                    Action::Continue
                },
            },
        }
    }

    /// Finishes the removal of a number from the list named `list`.
    fn finish_removal(&mut self, list: String, flags: Vec<bool>)
        ensures
            final(self).model() == ({
                let m = old(self).model();
                if m.vars.contains_key(list@) && m.vars[list@] is List {
                    m.with_vars(
                        m.vars.insert(list@, SpecValue::List(without_matches(m.vars[list@]->List_0, flags@))),
                    ).push_value(SpecValue::Null)
                } else {
                    m.push_value(SpecValue::Null)
                }
            }),
    {
        let kept = match self.vars.get(&list) {
            Some(Value::List(items)) => Some(remove_matches(items, &flags)),
            _ => None,
        };
        if let Some(kept) = kept {
            self.vars.insert(list, Value::List(kept));
        }
        self.push_value(Value::Null);
    }

    /// Applies `op` to the two values on top.
    fn apply(&mut self, op: Op) -> (a: Action)
        ensures
            (final(self).model(), a.model()) == ({
                let m = old(self).model();
                let m2 = m.with_values(pop(m.values));
                apply_step(m2.with_values(pop(m2.values)), op, top(m2.values), top(m.values))
            }),
    {
        let r = self.pop_value();
        let l = self.pop_value();
        match (l, r) {
            (Value::Number(a), Value::Number(b)) => {
                self.push_task(Task::AwaitArith);
                Action::Arith(op, a, b)
            },
            (Value::Text(a), Value::Text(b)) => match op {
                Op::Plus => {
                    let mut joined = a;
                    joined.append(b.as_str());
                    self.push_value(Value::Text(joined));
                    Action::Continue
                },
                Op::Equals => {
                    let same = a == b;
                    self.push_value(
                        Value::Number(
                            if same {
                                ONE_BITS
                            } else {
                                ZERO_BITS
                            },
                        ),
                    );
                    Action::Continue
                },
                _ => {
                    self.push_value(Value::Null);
                    Action::Continue
                },
            },
            (Value::Text(a), Value::Number(b)) => match op {
                Op::Plus => {
                    self.push_task(Task::AwaitJoin(a, true));
                    Action::NumberText(b)
                },
                _ => {
                    self.push_value(Value::Null);
                    Action::Continue
                },
            },
            (Value::Number(a), Value::Text(b)) => match op {
                Op::Plus => {
                    self.push_task(Task::AwaitJoin(b, false));
                    Action::NumberText(a)
                },
                _ => {
                    self.push_value(Value::Null);
                    Action::Continue
                },
            },
            _ => {
                self.push_value(Value::Null);
                Action::Continue
            },
        }
    }

    /// Carries out the next task, told `event` (the answer to the last action).
    pub fn step(&mut self, event: Event) -> (a: Action)
        ensures
            (final(self).model(), a.model()) == step_spec(old(self).model(), event.model()),
    {
        let ghost m = self.model();
        let task = match self.tasks.pop() {
            Some(t) => t,
            None => {
                return Action::Finished;
            },
        };
        proof {
            assert(tasks_model(self.tasks@) =~= m.tasks.drop_last());
            assert(task.model() == m.tasks.last());
        }
        assert(self.model() == m.with_tasks(m.tasks.drop_last()));
        match task {
            Task::Eval(e) => self.eval(e),
            Task::Discard => {
                self.pop_value();
                Action::Continue
            },
            Task::Stmts(body, i) => {
                proof {
                    lemma_exprs_model(body@);
                }
                if i < body.len() {
                    let e = body[i].duplicate();
                    self.push_task(Task::Stmts(body, i + 1));
                    self.push_task(Task::Discard);
                    self.push_task(Task::Eval(e));
                }
                Action::Continue
            },
            Task::Body(body, i) => {
                proof {
                    lemma_exprs_model(body@);
                }
                if i < body.len() {
                    let ret = match &body[i] {
                        Expr::Return(inner) => Some(inner.duplicate()),
                        _ => None,
                    };
                    match ret {
                        Some(inner) => {
                            self.push_task(Task::Eval(inner));
                        },
                        None => {
                            let e = body[i].duplicate();
                            self.push_task(Task::Body(body, i + 1));
                            self.push_task(Task::Discard);
                            self.push_task(Task::Eval(e));
                        },
                    }
                } else {
                    self.push_value(Value::Null);
                }
                Action::Continue
            },
            Task::Show => {
                let v = self.top_value();
                let numbers = flat_numbers_of(&v);
                self.push_task(Task::AwaitShow(v));
                Action::FormatNumbers(numbers)
            },
            Task::AwaitShow(v) => {
                let texts = match event {
                    Event::Texts(t) => t,
                    _ => Vec::new(),
                };
                // The numbers of `v` fit in a vector, so counting them cannot overflow.
                let numbers = flat_numbers_of(&v);
                let count = numbers.len();
                assert(flat_numbers(v.model()).len() == count);
                proof {
                    if !(event.model() is Texts) {
                        assert(strings_view(texts@) =~= Seq::<Seq<char>>::empty());
                    }
                }
                let (line, _) = render_value(&v, &texts, 0);
                Action::Print(line)
            },
            Task::StoreIn(name) => {
                let v = self.top_value();
                self.vars.insert(name, v);
                Action::Continue
            },
            Task::AddTo(list) => {
                self.add_to(list);
                Action::Continue
            },
            Task::RemoveFrom(list) => self.remove_from(list),
            Task::AwaitRemoval(list) => {
                let flags = match event {
                    Event::Matches(f) => f,
                    _ => Vec::new(),
                };
                self.finish_removal(list, flags);
                Action::Continue
            },
            Task::RightOperand(op, right) => {
                self.push_task(Task::Apply(op));
                self.push_task(Task::Eval(*right));
                Action::Continue
            },
            Task::Apply(op) => self.apply(op),
            Task::AwaitArith => match event {
                Event::Arith(Some(n)) => {
                    self.push_value(Value::Number(n));
                    Action::Continue
                },
                Event::Arith(None) => {
                    let mut msg = String::new();
                    msg.append("Zero se divide nahi!");
                    self.fail(msg)
                },
                _ => {
                    self.push_value(Value::Null);
                    Action::Continue
                },
            },
            Task::AwaitJoin(text, text_first) => {
                let n = match event {
                    Event::Text(n) => n,
                    _ => String::new(),
                };
                let joined = if text_first {
                    let mut j = text;
                    j.append(n.as_str());
                    j
                } else {
                    let mut j = n;
                    j.append(text.as_str());
                    j
                };
                self.push_value(Value::Text(joined));
                Action::Continue
            },
            Task::Branch(body, else_body) => {
                let v = self.pop_value();
                match v {
                    Value::Number(n) => {
                        self.push_task(Task::AwaitBranch(body, else_body));
                        Action::Truth(n)
                    },
                    Value::Text(s) => {
                        let b = !s.as_str().is_empty();
                        self.choose_branch(b, body, else_body);
                        Action::Continue
                    },
                    Value::List(items) => {
                        proof {
                            lemma_values_model(items@);
                        }
                        let b = items.len() > 0;
                        self.choose_branch(b, body, else_body);
                        Action::Continue
                    },
                    Value::Null => {
                        self.choose_branch(false, body, else_body);
                        Action::Continue
                    },
                }
            },
            Task::AwaitBranch(body, else_body) => {
                let b = match event {
                    Event::Truth(b) => b,
                    _ => false,
                };
                self.choose_branch(b, body, else_body);
                Action::Continue
            },
            Task::Count(body) => {
                let v = self.pop_value();
                match v {
                    Value::Number(n) => {
                        self.push_task(Task::AwaitCount(body));
                        Action::LoopCount(n)
                    },
                    _ => {
                        self.push_value(Value::Null);
                        Action::Continue
                    },
                }
            },
            Task::AwaitCount(body) => {
                let n = match event {
                    Event::Count(n) => n,
                    _ => 0,
                };
                self.push_task(Task::Repeat(body, n));
                Action::Continue
            },
            Task::Repeat(body, n) => {
                if n > 0 {
                    let round = duplicate_exprs(&body);
                    self.push_task(Task::Repeat(body, n - 1));
                    self.push_task(Task::Stmts(round, 0));
                } else {
                    self.push_value(Value::Null);
                }
                Action::Continue
            },
            Task::AwaitNumber => {
                match event {
                    Event::Number(n) => self.push_value(Value::Number(n)),
                    _ => self.push_value(Value::Null),
                }
                Action::Continue
            },
            Task::AwaitInput(name) => {
                let v = match event {
                    Event::Input(v) => v,
                    _ => Value::Null,
                };
                let copy = v.duplicate();
                self.vars.insert(name, copy);
                self.push_value(v);
                Action::Continue
            },
            Task::BindArg(name) => {
                let v = self.pop_value();
                self.vars.insert(name, v);
                Action::Continue
            },
            Task::Return(vars, functions) => {
                self.vars = vars;
                self.functions = functions;
                let ghost cs = self.call_stack@;
                if self.call_stack.len() > 0 {
                    self.call_stack.pop();
                    assert(strings_view(self.call_stack@) =~= strings_view(cs).drop_last());
                }
                Action::Continue
            },
            Task::PushNull => {
                self.push_value(Value::Null);
                Action::Continue
            },
        }
    }
}

} // verus!
