use vstd::prelude::*;
use crate::parser::{SpecExpr, Op, ends_with_eof, stmt};
use crate::lexer::{lex, lemma_lex_eof_only_last, lex_from, word_token, word_end, alphanumeric, SpecToken};
use crate::interpreter::{
    decimal, Machine, SpecAction, SpecEvent, SpecFunction, SpecTask, step_spec, arg_tasks, eval_step, ONE_BITS, ZERO_BITS,
};
use crate::value::{
    SpecValue, without_text, render, flat_numbers, truthy, number_bits, without_matches, render_list,
    flat_numbers_list,
};

verus! {

/// The state after the steps told the events `evs`, one step per event.
pub open spec fn steps(m: Machine, evs: Seq<SpecEvent>) -> Machine
    decreases evs.len(),
{
    if evs.len() == 0 {
        m
    } else {
        steps(step_spec(m, evs[0]).0, evs.drop_first())
    }
}

/// A step only works on the task on top: the tasks below it are left as they are.
pub proof fn lemma_step_keeps_tasks_below(m: Machine, ev: SpecEvent)
    requires
        m.tasks.len() > 0,
    ensures
        step_spec(m, ev).0.tasks.len() >= m.tasks.len() - 1,
        step_spec(m, ev).0.tasks.subrange(0, m.tasks.len() - 1) == m.tasks.drop_last(),
{
    let r = step_spec(m, ev).0;
    let below = m.tasks.drop_last();
    assert(r.tasks.subrange(0, m.tasks.len() - 1) =~= below);
}


proof fn lemma_steps_take(m: Machine, evs: Seq<SpecEvent>, k: int)
    requires
        evs.len() > 0,
        0 <= k < evs.len(),
    ensures
        steps(m, evs.take(k + 1)) == steps(step_spec(m, evs[0]).0, evs.drop_first().take(k)),
{
    assert(evs.take(k + 1).drop_first() =~= evs.drop_first().take(k));
    assert(evs.take(k + 1)[0] == evs[0]);
}

/// A frame left by a call is taken off only by its own step, which puts back the
/// variables and functions it holds: once the tasks have shrunk below the frame
/// for the first time, the variables and functions are those of the frame.
pub proof fn law_frame_restores(m: Machine, evs: Seq<SpecEvent>, i: int)
    requires
        0 <= i < m.tasks.len(),
        m.tasks[i] is Return,
        forall|k: int| 0 <= k < evs.len() ==> #[trigger] steps(m, evs.take(k)).tasks.len() > i,
        steps(m, evs).tasks.len() <= i,
    ensures
        steps(m, evs).vars == m.tasks[i]->Return_0,
        steps(m, evs).functions == m.tasks[i]->Return_1,
    decreases evs.len(),
{
    assert(evs.take(0) =~= Seq::<SpecEvent>::empty());
    assert(steps(m, evs.take(0)).tasks.len() > i);
    if evs.len() == 0 {
        assert(evs =~= evs.take(0));
    } else {
        let m1 = step_spec(m, evs[0]).0;
        lemma_step_keeps_tasks_below(m, evs[0]);
        assert(evs.take(1).drop_first() =~= Seq::<SpecEvent>::empty());
        assert(evs.take(1)[0] == evs[0]);
        assert(steps(m1, evs.take(1).drop_first()) == m1);
        assert(steps(m, evs.take(1)) == m1);
        if m.tasks.len() == i + 1 {
            assert(m1.tasks.len() == i);
            if evs.len() > 1 {
                assert(steps(m, evs.take(1)).tasks.len() > i);
            }
            assert(evs.drop_first() =~= Seq::<SpecEvent>::empty());
        } else {
            assert(m1.tasks[i] == m.tasks.drop_last()[i]);
            let rest = evs.drop_first();
            assert forall|k: int| 0 <= k < rest.len() implies #[trigger] steps(m1, rest.take(k)).tasks.len() > i by {
                lemma_steps_take(m, evs, k);
                assert(steps(m, evs.take(k + 1)).tasks.len() > i);
            }
            law_frame_restores(m1, rest, i);
        }
    }
}

/// A call keeps the caller's scope: a call of a defined function with as many
/// arguments as it has parameters runs with its own variables and functions,
/// and once the call is over the caller's variables, functions and call stack
/// are back as they were, whatever the body did, and the caller's values are
/// as they were with exactly one more on top: the call's result, which is the
/// value its body left (see `law_body_stops_at_first_return`).
pub proof fn law_call_restores_caller_scope(m: Machine, name: Seq<char>, args: Seq<SpecExpr>, evs: Seq<SpecEvent>)
    requires
        m.tasks.len() > 0,
        m.tasks.last() == SpecTask::Eval(SpecExpr::FunctionCall { name, args }),
        m.functions.contains_key(name),
        m.functions[name].params.len() == args.len(),
        evs.len() > 0,
        forall|k: int| 1 <= k < evs.len() ==> #[trigger] steps(m, evs.take(k)).tasks.len() > m.tasks.len() - 1,
        steps(m, evs).tasks.len() <= m.tasks.len() - 1,
    ensures
        steps(m, evs).vars == m.vars,
        steps(m, evs).functions == m.functions,
        steps(m, evs).call_stack == m.call_stack,
        steps(m, evs).values.len() == m.values.len() + 1,
        steps(m, evs).values.drop_last() == m.values,
{
    reveal_with_fuel(frames_in, 2);
    reveal_with_fuel(fed, 2);
    reveal_with_fuel(tasks_effect, 2);
    let i = m.tasks.len() - 1;
    let m1 = step_spec(m, evs[0]).0;
    assert(m1.tasks[i] == SpecTask::Return(m.vars, m.functions));
    let f = m.functions[name];
    assert(m1.tasks.skip(i + 1) =~= seq![SpecTask::Body(f.body, 0)] + arg_tasks(f.params, args));
    lemma_arg_tasks_frames(f.params, args);
    lemma_frames_concat(seq![SpecTask::Body(f.body, 0)], arg_tasks(f.params, args));
    assert(seq![SpecTask::Body(f.body, 0)].drop_last() =~= Seq::<SpecTask>::empty());
    let base = m.call_stack.push(name);
    assert(m1.call_stack == base);
    assert(base.take(base.len() as int) =~= base);
    assert(base.drop_last() =~= m.call_stack);
    let rest = evs.drop_first();
    assert(evs.take(1).drop_first() =~= Seq::<SpecEvent>::empty());
    assert forall|k: int| 0 <= k < rest.len() implies #[trigger] steps(m1, rest.take(k)).tasks.len() > i by {
        lemma_steps_take(m, evs, k);
        if k + 1 < evs.len() {
            assert(steps(m, evs.take(k + 1)).tasks.len() > i);
        }
    }
    assert(steps(m, evs) == steps(m1, rest));
    law_frame_restores(m1, rest, i);
    law_frame_call_stack(m1, rest, i, base);
    let h = m.values.len() as int;
    lemma_arg_tasks_fed(f.params, args, h);
    lemma_effect_concat(seq![SpecTask::Body(f.body, 0)], arg_tasks(f.params, args));
    lemma_fed_concat(seq![SpecTask::Body(f.body, 0)], arg_tasks(f.params, args), h, h);
    assert(m1.values == m.values);
    let above = seq![SpecTask::Body(f.body, 0)] + arg_tasks(f.params, args);
    assert(m1.tasks.skip(i) =~= seq![SpecTask::Return(m.vars, m.functions)] + above);
    lemma_effect_concat(seq![SpecTask::Return(m.vars, m.functions)], above);
    lemma_fed_concat(seq![SpecTask::Return(m.vars, m.functions)], above, h, h);
    assert(seq![SpecTask::Return(m.vars, m.functions)].drop_last() =~= Seq::<SpecTask>::empty());
    law_slot_values(m1, rest, i, h, h + 1);
    let fin = steps(m, evs);
    assert(fin.values.drop_last() =~= fin.values.take(h));
    assert(m.values.take(h) =~= m.values);
}

/// A read right after a store gives what was stored: with `x store name`
/// followed by a read of `name`, the read pushes the stored value.
pub proof fn law_read_after_store(m: Machine, name: Seq<char>, ev1: SpecEvent, ev2: SpecEvent)
    requires
        m.tasks.len() >= 2,
        m.tasks.last() == SpecTask::StoreIn(name),
        m.tasks[m.tasks.len() - 2] == SpecTask::Eval(SpecExpr::Ident(name)),
        m.values.len() > 0,
    ensures
        ({
            let m1 = step_spec(m, ev1).0;
            let m2 = step_spec(m1, ev2).0;
            &&& m1.vars[name] == m.values.last()
            &&& m2.values.last() == m.values.last()
            &&& step_spec(m1, ev2).1 is Continue
        }),
{
    let m1 = step_spec(m, ev1).0;
    assert(m1.tasks.last() == SpecTask::Eval(SpecExpr::Ident(name)));
}


/// Removing a text from a list takes out every item equal to it and keeps all
/// the other items, in their order.
pub proof fn law_remove_text_filters(items: Seq<SpecValue>, t: Seq<char>)
    ensures
        without_text(items, t) == items.filter(|x: SpecValue| x != SpecValue::Text(t)),
    decreases items.len(),
{
    reveal_with_fuel(Seq::<_>::filter, 1);
    if items.len() > 0 {
        law_remove_text_filters(items.drop_last(), t);
    }
}


/// Every program text lexes to tokens that the parser accepts.
pub proof fn law_lexed_programs_parse(s: Seq<char>)
    ensures
        ends_with_eof(lex(s)),
{
    lemma_lex_eof_only_last(s);
}

/// `show` prints its value and gives it back: it asks for the texts of the
/// value's numbers, prints the value with them, and leaves the value where it was.
pub proof fn law_show_prints_and_keeps(m: Machine, ev: SpecEvent, texts: Seq<Seq<char>>)
    requires
        m.tasks.len() > 0,
        m.tasks.last() == SpecTask::Show,
        m.values.len() > 0,
    ensures
        ({
            let (m1, a1) = step_spec(m, ev);
            let (m2, a2) = step_spec(m1, SpecEvent::Texts(texts));
            &&& a1 == SpecAction::FormatNumbers(flat_numbers(m.values.last()))
            &&& a2 == SpecAction::Print(render(m.values.last(), texts, 0))
            &&& m2 == m.with_tasks(m.tasks.drop_last())
        }),
{
    let m1 = step_spec(m, ev).0;
    assert(m1.tasks.drop_last() =~= m.tasks.drop_last());
}

/// A function definition names the function with its parameters and body, and gives null.
pub proof fn law_definition_defines(
    m: Machine,
    ev: SpecEvent,
    name: Seq<char>,
    params: Seq<Seq<char>>,
    body: Seq<SpecExpr>,
)
    requires
        m.tasks.len() > 0,
        m.tasks.last() == SpecTask::Eval(SpecExpr::FunctionDef { name, params, body }),
    ensures
        ({
            let (m1, a1) = step_spec(m, ev);
            &&& m1.functions == m.functions.insert(name, SpecFunction { params, body })
            &&& m1.values == m.values.push(SpecValue::Null)
            &&& m1.vars == m.vars
            &&& a1 is Continue
        }),
{
}


/// The number of call frames among `ts`.
pub open spec fn frames_in(ts: Seq<SpecTask>) -> nat
    decreases ts.len(),
{
    if ts.len() == 0 {
        0
    } else {
        frames_in(ts.drop_last()) + if ts.last() is Return {
            1nat
        } else {
            0nat
        }
    }
}

proof fn lemma_frames_concat(a: Seq<SpecTask>, b: Seq<SpecTask>)
    ensures
        frames_in(a + b) == frames_in(a) + frames_in(b),
    decreases b.len(),
{
    if b.len() == 0 {
        assert(a + b =~= a);
    } else {
        lemma_frames_concat(a, b.drop_last());
        assert((a + b).drop_last() =~= a + b.drop_last());
    }
}

proof fn lemma_arg_tasks_frames(params: Seq<Seq<char>>, args: Seq<SpecExpr>)
    ensures
        frames_in(arg_tasks(params, args)) == 0,
    decreases args.len(),
{
    if args.len() > 0 && params.len() > 0 {
        lemma_arg_tasks_frames(params.drop_first(), args.drop_first());
        let pair = seq![SpecTask::BindArg(params[0]), SpecTask::Eval(args[0])];
        lemma_frames_concat(arg_tasks(params.drop_first(), args.drop_first()), pair);
        assert(pair.drop_last() =~= seq![SpecTask::BindArg(params[0])]);
        assert(pair.drop_last().drop_last() =~= Seq::<SpecTask>::empty());
        assert(frames_in(pair.drop_last().drop_last()) == 0);
        assert(frames_in(pair.drop_last()) == 0);
        assert(frames_in(pair) == 0);
    }
}

/// How one step changes the call stack: a call frame's step pops it, a
/// successful call pushes the callee with one new frame, and every other step
/// keeps it and adds no frame.
#[verifier::rlimit(60)]
proof fn lemma_step_call_stack(m: Machine, ev: SpecEvent)
    requires
        m.tasks.len() > 0,
    ensures
        ({
            let r = step_spec(m, ev).0;
            let q = m.tasks.len() - 1;
            let pushed = r.tasks.skip(q);
            &&& r.tasks.len() >= q
            &&& r.tasks == m.tasks.drop_last() + pushed
            &&& if m.tasks.last() is Return {
                &&& pushed.len() == 0
                &&& r.call_stack == if m.call_stack.len() > 0 {
                    m.call_stack.drop_last()
                } else {
                    m.call_stack
                }
            } else {
                ||| r.call_stack == m.call_stack && frames_in(pushed) == 0
                ||| r.call_stack.len() == m.call_stack.len() + 1 && r.call_stack.drop_last() == m.call_stack
                    && frames_in(pushed) == 1
            }
        }),
{
    reveal_with_fuel(frames_in, 4);
    let r = step_spec(m, ev).0;
    let q = m.tasks.len() - 1;
    lemma_step_keeps_tasks_below(m, ev);
    assert(r.tasks =~= m.tasks.drop_last() + r.tasks.skip(q));
    let pushed = r.tasks.skip(q);
    if let SpecTask::Eval(SpecExpr::FunctionCall { name, args }) = m.tasks.last() {
        let m1 = m.with_tasks(m.tasks.drop_last());
        if m1.functions.contains_key(name) && args.len() == m1.functions[name].params.len() {
            let f = m1.functions[name];
            let two = seq![SpecTask::Return(m1.vars, m1.functions), SpecTask::Body(f.body, 0)];
            assert(pushed =~= two + arg_tasks(f.params, args));
            lemma_arg_tasks_frames(f.params, args);
            lemma_frames_concat(two, arg_tasks(f.params, args));
            assert(r.call_stack.drop_last() =~= m.call_stack);
        }
    }
}


/// While a call frame at `i` is pending, the call stack is `base` followed by
/// one name for each frame above it; the frame's own step takes the last name
/// of `base` off again.
pub proof fn law_frame_call_stack(m: Machine, evs: Seq<SpecEvent>, i: int, base: Seq<Seq<char>>)
    requires
        0 <= i < m.tasks.len(),
        m.tasks[i] is Return,
        base.len() > 0,
        m.call_stack.len() == base.len() + frames_in(m.tasks.skip(i + 1)),
        m.call_stack.take(base.len() as int) == base,
        forall|k: int| 0 <= k < evs.len() ==> #[trigger] steps(m, evs.take(k)).tasks.len() > i,
        steps(m, evs).tasks.len() <= i,
    ensures
        steps(m, evs).call_stack == base.drop_last(),
    decreases evs.len(),
{
    assert(evs.take(0) =~= Seq::<SpecEvent>::empty());
    assert(steps(m, evs.take(0)).tasks.len() > i);
    if evs.len() > 0 {
        let m1 = step_spec(m, evs[0]).0;
        lemma_step_keeps_tasks_below(m, evs[0]);
        lemma_step_call_stack(m, evs[0]);
        assert(evs.take(1).drop_first() =~= Seq::<SpecEvent>::empty());
        assert(evs.take(1)[0] == evs[0]);
        assert(steps(m1, evs.take(1).drop_first()) == m1);
        assert(steps(m, evs.take(1)) == m1);
        let q = m.tasks.len() - 1;
        if m.tasks.len() == i + 1 {
            assert(m.tasks.skip(i + 1) =~= Seq::<SpecTask>::empty());
            assert(m.call_stack =~= base);
            if evs.len() > 1 {
                assert(steps(m, evs.take(1)).tasks.len() > i);
            }
            assert(evs.drop_first() =~= Seq::<SpecEvent>::empty());
        } else {
            let pushed = m1.tasks.skip(q);
            assert(m.tasks.skip(i + 1).drop_last() =~= m.tasks.drop_last().skip(i + 1));
            assert(m1.tasks.skip(i + 1) =~= m.tasks.drop_last().skip(i + 1) + pushed);
            lemma_frames_concat(m.tasks.drop_last().skip(i + 1), pushed);
            assert(m.tasks.skip(i + 1).last() == m.tasks.last());
            if m.tasks.last() is Return {
                assert(m1.call_stack.take(base.len() as int) =~= base);
            } else if m1.call_stack == m.call_stack {
            } else {
                assert(m1.call_stack.take(base.len() as int) =~= m.call_stack.take(base.len() as int));
            }
            assert(m1.tasks[i] == m.tasks.drop_last()[i]);
            let rest = evs.drop_first();
            assert forall|k: int| 0 <= k < rest.len() implies #[trigger] steps(m1, rest.take(k)).tasks.len() > i by {
                lemma_steps_take(m, evs, k);
                assert(steps(m, evs.take(k + 1)).tasks.len() > i);
            }
            law_frame_call_stack(m1, rest, i, base);
        }
    }
}


/// `if` runs exactly one branch: with the condition's value `c` on top, the
/// branch step takes it off and schedules the statements of `body` when `c` is
/// true, else those of `else_body`, followed by a null value. A number is asked
/// about (`Truth`) and the answer decides; a text or list is true when it is
/// not empty, and null is false.
pub proof fn law_if_runs_one_branch(
    m: Machine,
    ev1: SpecEvent,
    ev2: SpecEvent,
    body: Seq<SpecExpr>,
    else_body: Seq<SpecExpr>,
)
    requires
        m.tasks.len() > 0,
        m.tasks.last() == SpecTask::Branch(body, else_body),
        m.values.len() > 0,
    ensures
        ({
            let c = m.values.last();
            let below = m.tasks.drop_last();
            let (m1, a1) = step_spec(m, ev1);
            let (m2, a2) = step_spec(m1, ev2);
            let chosen = |t: bool| if t { body } else { else_body };
            &&& m1.values == m.values.drop_last()
            &&& m1.vars == m.vars
            &&& match c {
                SpecValue::Number(n) => {
                    &&& a1 == SpecAction::Truth(n)
                    &&& m1.tasks == below.push(SpecTask::AwaitBranch(body, else_body))
                    &&& m2.values == m1.values
                    &&& m2.vars == m.vars
                    &&& m2.tasks == below.push(SpecTask::PushNull).push(
                        SpecTask::Stmts(chosen(ev2 matches SpecEvent::Truth(b) && b), 0),
                    )
                },
                _ => {
                    &&& a1 is Continue
                    &&& m1.tasks == below.push(SpecTask::PushNull).push(SpecTask::Stmts(chosen(truthy(c)), 0))
                },
            }
        }),
{
}

/// The number of steps in the run that start a round of the loop whose
/// `Repeat` task sits at `i`: those with the loop's task on top and rounds left.
pub open spec fn rounds_started(m: Machine, evs: Seq<SpecEvent>, i: int, body: Seq<SpecExpr>) -> nat
    decreases evs.len(),
{
    if evs.len() == 0 {
        0
    } else {
        (if m.tasks.len() == i + 1 && m.tasks[i] is Repeat && m.tasks[i]->Repeat_0 == body
            && m.tasks[i]->Repeat_1 > 0 {
            1nat
        } else {
            0nat
        }) + rounds_started(step_spec(m, evs[0]).0, evs.drop_first(), i, body)
    }
}

/// A loop with `k` rounds left starts its body exactly `max(k, 0)` times: each
/// round puts the body's statements above the loop's task, which stays below
/// them until they are done, and with no rounds left the loop gives null.
pub proof fn law_loop_runs_k_rounds(m: Machine, evs: Seq<SpecEvent>, i: int, body: Seq<SpecExpr>, k: int)
    requires
        0 <= i < m.tasks.len(),
        m.tasks[i] == SpecTask::Repeat(body, k),
        forall|j: int| 0 <= j < evs.len() ==> #[trigger] steps(m, evs.take(j)).tasks.len() > i,
        steps(m, evs).tasks.len() <= i,
    ensures
        rounds_started(m, evs, i, body) == if k > 0 {
            k
        } else {
            0
        },
    decreases evs.len(), k,
{
    assert(evs.take(0) =~= Seq::<SpecEvent>::empty());
    assert(steps(m, evs.take(0)).tasks.len() > i);
    if evs.len() == 0 {
        assert(evs =~= evs.take(0));
    } else {
        let m1 = step_spec(m, evs[0]).0;
        lemma_step_keeps_tasks_below(m, evs[0]);
        assert(evs.take(1).drop_first() =~= Seq::<SpecEvent>::empty());
        assert(evs.take(1)[0] == evs[0]);
        assert(steps(m1, evs.take(1).drop_first()) == m1);
        assert(steps(m, evs.take(1)) == m1);
        let rest = evs.drop_first();
        assert(rounds_started(m, evs, i, body) == (if m.tasks.len() == i + 1 && k > 0 {
            1nat
        } else {
            0nat
        }) + rounds_started(m1, rest, i, body));
        assert forall|j: int| 0 <= j < rest.len() implies #[trigger] steps(m1, rest.take(j)).tasks.len() > i by {
            lemma_steps_take(m, evs, j);
            assert(steps(m, evs.take(j + 1)).tasks.len() > i);
        }
        if m.tasks.len() == i + 1 {
            if k > 0 {
                assert(m1.tasks[i] == SpecTask::Repeat(body, k - 1));
                law_loop_runs_k_rounds(m1, rest, i, body, k - 1);
            } else {
                assert(m1.tasks.len() == i);
                if evs.len() > 1 {
                    assert(steps(m, evs.take(1)).tasks.len() > i);
                }
                assert(rest =~= Seq::<SpecEvent>::empty());
            }
        } else {
            assert(m1.tasks[i] == m.tasks.drop_last()[i]);
            law_loop_runs_k_rounds(m1, rest, i, body, k);
        }
    }
}

/// A loop's count decides its rounds: with the count's value on top, a number
/// is asked about (`LoopCount`) and the answer `k` gives a loop of `k` rounds;
/// any other value gives no loop and a null value at once.
pub proof fn law_loop_count(m: Machine, ev1: SpecEvent, ev2: SpecEvent, body: Seq<SpecExpr>)
    requires
        m.tasks.len() > 0,
        m.tasks.last() == SpecTask::Count(body),
        m.values.len() > 0,
    ensures
        ({
            let below = m.tasks.drop_last();
            let (m1, a1) = step_spec(m, ev1);
            let (m2, a2) = step_spec(m1, ev2);
            match m.values.last() {
                SpecValue::Number(n) => {
                    &&& a1 == SpecAction::LoopCount(n)
                    &&& m2.tasks == below.push(
                        SpecTask::Repeat(
                            body,
                            match ev2 {
                                SpecEvent::Count(k) => k,
                                _ => 0,
                            },
                        ),
                    )
                    &&& m2.values == m.values.drop_last()
                },
                _ => {
                    &&& a1 is Continue
                    &&& m1.tasks == below
                    &&& m1.values == m.values.drop_last().push(SpecValue::Null)
                },
            }
        }),
{
}

/// `r` is the position of the first `return` at the top level of `body`, or its
/// length when there is none.
pub open spec fn first_return(body: Seq<SpecExpr>, r: int) -> bool {
    &&& 0 <= r <= body.len()
    &&& r < body.len() ==> body[r] is Return
    &&& forall|x: int| 0 <= x < r ==> !(#[trigger] body[x] is Return)
}

/// A function body runs its top-level statements in order and stops at its first
/// top-level `return`: while the body's task holds its place, it never gets past
/// that `return`; when it lets go of its place with tasks still above it, it has
/// left the `return`'s operand to be evaluated there, and otherwise it had no
/// `return` and gave null after its last statement.
pub proof fn law_body_stops_at_first_return(
    m: Machine,
    evs: Seq<SpecEvent>,
    i: int,
    body: Seq<SpecExpr>,
    j: int,
    r: int,
)
    requires
        0 <= i < m.tasks.len(),
        m.tasks[i] == SpecTask::Body(body, j),
        0 <= j <= r,
        first_return(body, r),
        forall|k: int|
            0 <= k < evs.len() ==> {
                let s = #[trigger] steps(m, evs.take(k));
                s.tasks.len() > i && s.tasks[i] is Body && s.tasks[i]->Body_0 == body
            },
        !({
            let s = steps(m, evs);
            s.tasks.len() > i && s.tasks[i] is Body && s.tasks[i]->Body_0 == body
        }),
    ensures
        forall|k: int| 0 <= k < evs.len() ==> #[trigger] steps(m, evs.take(k)).tasks[i]->Body_1 <= r,
        steps(m, evs).tasks.len() > i ==> r < body.len() && steps(m, evs).tasks[i] == SpecTask::Eval(
            *body[r]->Return_0,
        ),
        steps(m, evs).tasks.len() <= i ==> r == body.len(),
    decreases evs.len(),
{
    assert(evs.take(0) =~= Seq::<SpecEvent>::empty());
    assert(steps(m, evs.take(0)) == m);
    if evs.len() == 0 {
        assert(evs =~= evs.take(0));
    } else {
        let m1 = step_spec(m, evs[0]).0;
        lemma_step_keeps_tasks_below(m, evs[0]);
        assert(evs.take(1).drop_first() =~= Seq::<SpecEvent>::empty());
        assert(evs.take(1)[0] == evs[0]);
        assert(steps(m1, evs.take(1).drop_first()) == m1);
        assert(steps(m, evs.take(1)) == m1);
        let rest = evs.drop_first();
        assert(steps(m, evs) == steps(m1, rest));
        let next_j = if m.tasks.len() == i + 1 { j + 1 } else { j };
        let continues = m1.tasks.len() > i && m1.tasks[i] is Body && m1.tasks[i]->Body_0 == body;
        if continues {
            if m.tasks.len() == i + 1 {
                assert(0 <= j < body.len() && !(body[j] is Return));
                assert(j != r);
                assert(m1.tasks[i] == SpecTask::Body(body, j + 1));
            } else {
                assert(m1.tasks[i] == m.tasks.drop_last()[i]);
            }
            assert forall|k: int| 0 <= k < rest.len() implies ({
                let s = #[trigger] steps(m1, rest.take(k));
                s.tasks.len() > i && s.tasks[i] is Body && s.tasks[i]->Body_0 == body
            }) by {
                lemma_steps_take(m, evs, k);
                let s = steps(m, evs.take(k + 1));
                assert(s.tasks.len() > i && s.tasks[i] is Body && s.tasks[i]->Body_0 == body);
            }
            law_body_stops_at_first_return(m1, rest, i, body, next_j, r);
            assert forall|k: int| 0 <= k < evs.len() implies #[trigger] steps(m, evs.take(k)).tasks[i]->Body_1 <= r by {
                if k > 0 {
                    lemma_steps_take(m, evs, k - 1);
                    assert(steps(m1, rest.take(k - 1)).tasks[i]->Body_1 <= r);
                }
            }
        } else {
            if evs.len() > 1 {
                let s = steps(m, evs.take(1));
                assert(s.tasks.len() > i && s.tasks[i] is Body && s.tasks[i]->Body_0 == body);
            }
            assert(rest =~= Seq::<SpecEvent>::empty());
            assert(m.tasks.len() == i + 1);
            assert forall|k: int| 0 <= k < evs.len() implies #[trigger] steps(m, evs.take(k)).tasks[i]->Body_1 <= r by {
                assert(k == 0);
            }
        }
    }
}


// ---------------------------------------------------------------------------
// The value stack
// ---------------------------------------------------------------------------

/// How many values a task adds to the stack, all its work done (negative when it
/// takes values off).
pub open spec fn task_effect(t: SpecTask) -> int {
    match t {
        SpecTask::Eval(_) => 1,
        SpecTask::Discard => -1,
        SpecTask::Body(..) => 1,
        SpecTask::AwaitRemoval(_) => 1,
        SpecTask::Apply(_) => -1,
        SpecTask::AwaitArith => 1,
        SpecTask::AwaitJoin(..) => 1,
        SpecTask::AwaitBranch(..) => 1,
        SpecTask::AwaitCount(_) => 1,
        SpecTask::Repeat(..) => 1,
        SpecTask::AwaitNumber => 1,
        SpecTask::AwaitInput(_) => 1,
        SpecTask::BindArg(_) => -1,
        SpecTask::PushNull => 1,
        _ => 0,
    }
}

/// How many values a task needs on the stack when it comes on top.
pub open spec fn task_need(t: SpecTask) -> int {
    match t {
        SpecTask::Discard | SpecTask::AddTo(_) | SpecTask::RemoveFrom(_) | SpecTask::RightOperand(..)
        | SpecTask::Branch(..) | SpecTask::Count(_) | SpecTask::BindArg(_) => 1,
        SpecTask::Apply(_) => 2,
        _ => 0,
    }
}

/// The values that the tasks `ts` add in all.
pub open spec fn tasks_effect(ts: Seq<SpecTask>) -> int
    decreases ts.len(),
{
    if ts.len() == 0 {
        0
    } else {
        tasks_effect(ts.drop_last()) + task_effect(ts.last())
    }
}

/// Run from the top with `h` values on the stack, the tasks `ts` always find the
/// values they need without reaching below height `low`.
pub open spec fn fed(ts: Seq<SpecTask>, h: int, low: int) -> bool
    decreases ts.len(),
{
    if ts.len() == 0 {
        true
    } else {
        h - task_need(ts.last()) >= low && fed(ts.drop_last(), h + task_effect(ts.last()), low)
    }
}

proof fn lemma_effect_concat(a: Seq<SpecTask>, b: Seq<SpecTask>)
    ensures
        tasks_effect(a + b) == tasks_effect(a) + tasks_effect(b),
    decreases b.len(),
{
    if b.len() == 0 {
        assert(a + b =~= a);
    } else {
        lemma_effect_concat(a, b.drop_last());
        assert((a + b).drop_last() =~= a + b.drop_last());
    }
}

proof fn lemma_fed_concat(a: Seq<SpecTask>, b: Seq<SpecTask>, h: int, low: int)
    ensures
        fed(a + b, h, low) == (fed(b, h, low) && fed(a, h + tasks_effect(b), low)),
    decreases b.len(),
{
    if b.len() == 0 {
        assert(a + b =~= a);
    } else {
        assert((a + b).drop_last() =~= a + b.drop_last());
        lemma_fed_concat(a, b.drop_last(), h + task_effect(b.last()), low);
    }
}

proof fn lemma_fed_lower(ts: Seq<SpecTask>, h: int, low: int, lower: int)
    requires
        fed(ts, h, low),
        lower <= low,
    ensures
        fed(ts, h, lower),
    decreases ts.len(),
{
    if ts.len() > 0 {
        lemma_fed_lower(ts.drop_last(), h + task_effect(ts.last()), low, lower);
    }
}

proof fn lemma_arg_tasks_fed(params: Seq<Seq<char>>, args: Seq<SpecExpr>, h: int)
    ensures
        tasks_effect(arg_tasks(params, args)) == 0,
        fed(arg_tasks(params, args), h, h),
    decreases args.len(),
{
    reveal_with_fuel(tasks_effect, 3);
    reveal_with_fuel(fed, 3);
    if args.len() > 0 && params.len() > 0 {
        let rest = arg_tasks(params.drop_first(), args.drop_first());
        lemma_arg_tasks_fed(params.drop_first(), args.drop_first(), h);
        let pair = seq![SpecTask::BindArg(params[0]), SpecTask::Eval(args[0])];
        assert(pair.drop_last() =~= seq![SpecTask::BindArg(params[0])]);
        assert(pair.drop_last().drop_last() =~= Seq::<SpecTask>::empty());
        lemma_effect_concat(rest, pair);
        lemma_fed_concat(rest, pair, h, h);
    }
}

/// One step keeps the stack's bookkeeping: the values it adds now and the
/// effect of the tasks it schedules make up the effect of the task it did; it
/// touches no value below those its task needs; and the tasks it schedules find
/// what they need above that height.
#[verifier::rlimit(100)]
proof fn lemma_step_stack(m: Machine, ev: SpecEvent)
    requires
        m.tasks.len() > 0,
        m.values.len() >= task_need(m.tasks.last()),
    ensures
        ({
            let r = step_spec(m, ev).0;
            let q = m.tasks.len() - 1;
            let t = m.tasks.last();
            let pushed = r.tasks.skip(q);
            let keep = m.values.len() - task_need(t);
            &&& r.tasks == m.tasks.drop_last() + pushed
            &&& r.values.len() + tasks_effect(pushed) == m.values.len() + task_effect(t)
            &&& r.values.len() >= keep
            &&& r.values.take(keep) == m.values.take(keep)
            &&& fed(pushed, r.values.len() as int, keep)
        }),
{
    reveal_with_fuel(tasks_effect, 4);
    reveal_with_fuel(fed, 4);
    let r = step_spec(m, ev).0;
    let q = m.tasks.len() - 1;
    let t = m.tasks.last();
    lemma_step_keeps_tasks_below(m, ev);
    assert(r.tasks =~= m.tasks.drop_last() + r.tasks.skip(q));
    let pushed = r.tasks.skip(q);
    let keep = m.values.len() - task_need(t);
    match t {
        SpecTask::Eval(SpecExpr::FunctionCall { name, args }) => {
            let m1 = m.with_tasks(m.tasks.drop_last());
            if m1.functions.contains_key(name) && args.len() == m1.functions[name].params.len() {
                let f = m1.functions[name];
                let two = seq![SpecTask::Return(m1.vars, m1.functions), SpecTask::Body(f.body, 0)];
                assert(pushed =~= two + arg_tasks(f.params, args));
                lemma_arg_tasks_fed(f.params, args, m.values.len() as int);
                lemma_effect_concat(two, arg_tasks(f.params, args));
                lemma_fed_concat(two, arg_tasks(f.params, args), m.values.len() as int, keep);
                assert(two.drop_last() =~= seq![SpecTask::Return(m1.vars, m1.functions)]);
                assert(two.drop_last().drop_last() =~= Seq::<SpecTask>::empty());
            }
            assert(r.values.take(keep) =~= m.values.take(keep));
        },
        _ => {
            assert(r.values.take(keep) =~= m.values.take(keep));
        },
    }
}


/// The tasks from slot `i` up find the values they need without reaching below
/// height `low`, and add `target - values` values in all: once the run first
/// leaves slot `i` empty, the stack holds `target` values, and those below `low`
/// are as they were.
pub proof fn law_slot_values(m: Machine, evs: Seq<SpecEvent>, i: int, low: int, target: int)
    requires
        0 <= i < m.tasks.len(),
        0 <= low <= m.values.len(),
        fed(m.tasks.skip(i), m.values.len() as int, low),
        m.values.len() + tasks_effect(m.tasks.skip(i)) == target,
        forall|k: int| 0 <= k < evs.len() ==> #[trigger] steps(m, evs.take(k)).tasks.len() > i,
        steps(m, evs).tasks.len() <= i,
    ensures
        steps(m, evs).values.len() == target,
        steps(m, evs).values.take(low) == m.values.take(low),
    decreases evs.len(),
{
    assert(evs.take(0) =~= Seq::<SpecEvent>::empty());
    assert(steps(m, evs.take(0)).tasks.len() > i);
    if evs.len() == 0 {
        assert(evs =~= evs.take(0));
    } else {
        let m1 = step_spec(m, evs[0]).0;
        lemma_step_keeps_tasks_below(m, evs[0]);
        assert(evs.take(1).drop_first() =~= Seq::<SpecEvent>::empty());
        assert(evs.take(1)[0] == evs[0]);
        assert(steps(m1, evs.take(1).drop_first()) == m1);
        assert(steps(m, evs.take(1)) == m1);
        let rest = evs.drop_first();
        let region = m.tasks.skip(i);
        let t = m.tasks.last();
        assert(region.last() == t);
        assert(region.drop_last() =~= m.tasks.drop_last().skip(i));
        lemma_step_stack(m, evs[0]);
        let q = m.tasks.len() - 1;
        let pushed = m1.tasks.skip(q);
        let keep = m.values.len() - task_need(t);
        assert(m1.values.take(low) =~= m1.values.take(keep).take(low));
        assert(m.values.take(low) =~= m.values.take(keep).take(low));
        lemma_fed_lower(pushed, m1.values.len() as int, keep, low);
        lemma_effect_concat(region.drop_last(), pushed);
        assert(m1.tasks.skip(i) =~= region.drop_last() + pushed);
        lemma_fed_concat(region.drop_last(), pushed, m1.values.len() as int, low);
        if m1.tasks.len() <= i {
            if evs.len() > 1 {
                assert(steps(m, evs.take(1)).tasks.len() > i);
            }
            assert(rest =~= Seq::<SpecEvent>::empty());
            assert(m1.tasks.skip(i) =~= Seq::<SpecTask>::empty());
        } else {
            assert forall|k: int| 0 <= k < rest.len() implies #[trigger] steps(m1, rest.take(k)).tasks.len() > i by {
                lemma_steps_take(m, evs, k);
                assert(steps(m, evs.take(k + 1)).tasks.len() > i);
            }
            law_slot_values(m1, rest, i, low, target);
        }
    }
}

/// An expression gives exactly one value: once the evaluation of the expression
/// on top is over (its task's place is first left empty), the stack holds the
/// values it had and one more, the expression's value.
pub proof fn law_eval_gives_one_value(m: Machine, evs: Seq<SpecEvent>, e: SpecExpr)
    requires
        m.tasks.len() > 0,
        m.tasks.last() == SpecTask::Eval(e),
        forall|k: int| 0 <= k < evs.len() ==> #[trigger] steps(m, evs.take(k)).tasks.len() > m.tasks.len() - 1,
        steps(m, evs).tasks.len() <= m.tasks.len() - 1,
    ensures
        steps(m, evs).values.len() == m.values.len() + 1,
        steps(m, evs).values.drop_last() == m.values,
{
    reveal_with_fuel(fed, 2);
    reveal_with_fuel(tasks_effect, 2);
    let i = m.tasks.len() - 1;
    let h = m.values.len() as int;
    assert(m.tasks.skip(i) =~= seq![SpecTask::Eval(e)]);
    assert(seq![SpecTask::Eval(e)].drop_last() =~= Seq::<SpecTask>::empty());
    law_slot_values(m, evs, i, h, h + 1);
    let fin = steps(m, evs);
    assert(fin.values.drop_last() =~= fin.values.take(h));
    assert(m.values.take(h) =~= m.values);
}


/// A function body gives exactly one value: once the body on top is done (its
/// place first left empty), the stack holds the values it had and one more,
/// the value of the operand of its first top-level `return`, or null.
pub proof fn law_body_gives_one_value(m: Machine, evs: Seq<SpecEvent>, body: Seq<SpecExpr>, j: int)
    requires
        m.tasks.len() > 0,
        m.tasks.last() == SpecTask::Body(body, j),
        forall|k: int| 0 <= k < evs.len() ==> #[trigger] steps(m, evs.take(k)).tasks.len() > m.tasks.len() - 1,
        steps(m, evs).tasks.len() <= m.tasks.len() - 1,
    ensures
        steps(m, evs).values.len() == m.values.len() + 1,
        steps(m, evs).values.drop_last() == m.values,
{
    reveal_with_fuel(fed, 2);
    reveal_with_fuel(tasks_effect, 2);
    let i = m.tasks.len() - 1;
    let h = m.values.len() as int;
    assert(m.tasks.skip(i) =~= seq![SpecTask::Body(body, j)]);
    assert(seq![SpecTask::Body(body, j)].drop_last() =~= Seq::<SpecTask>::empty());
    law_slot_values(m, evs, i, h, h + 1);
    let fin = steps(m, evs);
    assert(fin.values.drop_last() =~= fin.values.take(h));
    assert(m.values.take(h) =~= m.values);
}


// ---------------------------------------------------------------------------
// Words
// ---------------------------------------------------------------------------

/// A character that may stand inside a name: an ASCII letter or digit, `_`, or a
/// non-ASCII alphanumeric character.
pub open spec fn name_char(c: char) -> bool {
    ||| 'a' <= c <= 'z'
    ||| 'A' <= c <= 'Z'
    ||| '0' <= c <= '9'
    ||| c == '_'
    ||| (c > '\x7f' && alphanumeric(c))
}

proof fn lemma_word_end_at(s: Seq<char>, k: int, j: int)
    requires
        0 <= k <= j <= s.len(),
        forall|x: int| k <= x < j ==> name_char(#[trigger] s[x]),
        j == s.len() || (s[j] <= '\x7f' && !name_char(s[j])),
    ensures
        word_end(s, k) == j,
    decreases j - k,
{
    if k < j {
        assert(name_char(s[k]));
        lemma_word_end_at(s, k + 1, j);
    }
}

/// A word runs through every name character that follows its first letter or
/// `_`: where a letter or `_` at `i` is followed by name characters up to `j`,
/// and `j` is the end or an ASCII character that is no name character, the word
/// `s[i..j]` is read as one token (a keyword or a name), and reading goes on at `j`.
pub proof fn law_word_takes_all_name_chars(s: Seq<char>, i: int, j: int)
    requires
        0 <= i < j <= s.len(),
        ('a' <= s[i] <= 'z') || ('A' <= s[i] <= 'Z') || s[i] == '_',
        forall|k: int| i < k < j ==> name_char(#[trigger] s[k]),
        j == s.len() || (s[j] <= '\x7f' && !name_char(s[j])),
    ensures
        lex_from(s, i) == seq![word_token(s.subrange(i, j))] + lex_from(s, j),
{
    lemma_word_end_at(s, i + 1, j);
}

/// A name with `_` in it is never a keyword: a whole text made of name
/// characters, starting with a letter or `_` and holding a `_`, lexes to one
/// identifier with the whole text, then the end.
pub proof fn law_underscore_name_is_one_identifier(w: Seq<char>, u: int)
    requires
        w.len() > 0,
        ('a' <= w[0] <= 'z') || ('A' <= w[0] <= 'Z') || w[0] == '_',
        forall|k: int| 0 <= k < w.len() ==> name_char(#[trigger] w[k]),
        0 <= u < w.len(),
        w[u] == '_',
    ensures
        lex(w) == seq![SpecToken::Ident(w), SpecToken::EOF],
{
    law_word_takes_all_name_chars(w, 0, w.len() as int);
    assert(w.subrange(0, w.len() as int) =~= w);
    assert(word_token(w) == SpecToken::Ident(w));
}


// ---------------------------------------------------------------------------
// Statements
// ---------------------------------------------------------------------------

/// `add` and `remove` read their value as `show` does: with `add` (or `remove`)
/// at `p`, the value is the expression that `show` would read there, and the
/// list is the name after the word that follows it.
pub proof fn law_list_value_reads_as_show(ts: Seq<SpecToken>, p: int, adding: bool)
    requires
        0 <= p < ts.len() - 1,
        ts[p] == (if adding {
            SpecToken::Add
        } else {
            SpecToken::Remove
        }),
    ensures
        ({
            let (shown, q) = stmt(ts.update(p, SpecToken::Show), p);
            &&& shown is Show
            &&& q + 1 < ts.len() && ts[q + 1] is Ident ==> stmt(ts, p).0 == if adding {
                SpecExpr::Add { value: shown->Show_0, list: ts[q + 1]->Ident_0 }
            } else {
                SpecExpr::Remove { value: shown->Show_0, list: ts[q + 1]->Ident_0 }
            }
        }),
{
    let ts2 = ts.update(p, SpecToken::Show);
    assert(ts2.len() == ts.len());
    assert forall|k: int| p < k < ts.len() implies #[trigger] ts2[k] == ts[k] by {}
}

/// `add a + n to xs` adds the sum, not its first operand: with `add`, a name, `+`,
/// a number, `to` and a name at `p`, the statement adds `a + n` to the list named
/// last, and the next statement starts after it.
pub proof fn law_add_reads_an_operation(
    ts: Seq<SpecToken>,
    p: int,
    a: Seq<char>,
    n: Seq<char>,
    list: Seq<char>,
)
    requires
        0 <= p,
        p + 6 < ts.len(),
        ts[p] == SpecToken::Add,
        ts[p + 1] == SpecToken::Ident(a),
        ts[p + 2] == SpecToken::Plus,
        ts[p + 3] == SpecToken::Number(n),
        ts[p + 4] == SpecToken::To,
        ts[p + 5] == SpecToken::Ident(list),
    ensures
        stmt(ts, p) == (
            SpecExpr::Add {
                value: Box::new(
                    SpecExpr::BinOp {
                        left: Box::new(SpecExpr::Ident(a)),
                        op: Op::Plus,
                        right: Box::new(SpecExpr::Number(n)),
                    },
                ),
                list,
            },
            p + 6,
        ),
{
}


// ---------------------------------------------------------------------------
// Removing numbers
// ---------------------------------------------------------------------------

/// The numbers asked about when a number is removed from a list are the list's
/// numbers, in their order.
pub proof fn law_removal_asks_the_numbers(items: Seq<SpecValue>)
    ensures
        number_bits(items) == items.filter(|x: SpecValue| x is Number).map_values(|x: SpecValue| x->Number_0),
    decreases items.len(),
{
    reveal_with_fuel(Seq::<_>::filter, 1);
    if items.len() > 0 {
        law_removal_asks_the_numbers(items.drop_last());
        let f = items.drop_last().filter(|x: SpecValue| x is Number);
        if items.last() is Number {
            assert(f.push(items.last()).map_values(|x: SpecValue| x->Number_0) =~= f.map_values(
                |x: SpecValue| x->Number_0,
            ).push(items.last()->Number_0));
        }
    }
}

/// Removing a number keeps exactly the items that are not numbers equal to it, in
/// their order: when the host answers for each number asked about whether it
/// equals the one removed (`equal`), what is left is the list without the numbers
/// it called equal, whatever texts or lists stand between them.
pub proof fn law_remove_number_filters(
    items: Seq<SpecValue>,
    flags: Seq<bool>,
    equal: spec_fn(u64) -> bool,
)
    requires
        flags.len() == number_bits(items).len(),
        forall|k: int| 0 <= k < flags.len() ==> flags[k] == equal(#[trigger] number_bits(items)[k]),
    ensures
        without_matches(items, flags) == items.filter(|x: SpecValue| !(x is Number && equal(x->Number_0))),
{
    lemma_remove_number_prefix(items, flags, equal);
}

proof fn lemma_remove_number_prefix(items: Seq<SpecValue>, flags: Seq<bool>, equal: spec_fn(u64) -> bool)
    requires
        flags.len() >= number_bits(items).len(),
        forall|k: int| 0 <= k < number_bits(items).len() ==> flags[k] == equal(#[trigger] number_bits(items)[k]),
    ensures
        without_matches(items, flags) == items.filter(|x: SpecValue| !(x is Number && equal(x->Number_0))),
    decreases items.len(),
{
    reveal_with_fuel(Seq::<_>::filter, 1);
    if items.len() > 0 {
        let init = items.drop_last();
        assert forall|k: int| 0 <= k < number_bits(init).len() implies flags[k] == equal(
            #[trigger] number_bits(init)[k],
        ) by {
            assert(number_bits(items)[k] == number_bits(init)[k]);
        }
        lemma_remove_number_prefix(init, flags, equal);
        if items.last() is Number {
            let k = number_bits(init).len() as int;
            assert(number_bits(items)[k] == items.last()->Number_0);
        }
    }
}


/// `remove n from xs` with a number `n`: the step asks the host which of the
/// list's numbers (all of them, in order) equal `n`; told for each whether it
/// equals `n`, the next step leaves in the list exactly the items that are not
/// numbers equal to `n`, in their order, and gives null.
pub proof fn law_remove_number_step(
    m: Machine,
    list: Seq<char>,
    n: u64,
    equal: spec_fn(u64) -> bool,
    ev1: SpecEvent,
)
    requires
        m.tasks.len() > 0,
        m.tasks.last() == SpecTask::RemoveFrom(list),
        m.values.len() > 0,
        m.values.last() == SpecValue::Number(n),
        m.vars.contains_key(list),
        m.vars[list] is List,
    ensures
        ({
            let items = m.vars[list]->List_0;
            let asked = items.filter(|x: SpecValue| x is Number).map_values(|x: SpecValue| x->Number_0);
            let flags = Seq::new(asked.len(), |k: int| equal(asked[k]));
            let (m1, a1) = step_spec(m, ev1);
            let (m2, a2) = step_spec(m1, SpecEvent::Matches(flags));
            &&& a1 == SpecAction::CompareNumbers(asked, n)
            &&& m2.vars == m.vars.insert(
                list,
                SpecValue::List(items.filter(|x: SpecValue| !(x is Number && equal(x->Number_0)))),
            )
            &&& m2.values == m.values.drop_last().push(SpecValue::Null)
            &&& m2.tasks == m.tasks.drop_last()
        }),
{
    let items = m.vars[list]->List_0;
    law_removal_asks_the_numbers(items);
    let asked = number_bits(items);
    let flags = Seq::new(asked.len(), |k: int| equal(asked[k]));
    law_remove_number_filters(items, flags, equal);
}


// ---------------------------------------------------------------------------
// Conditions and comparisons
// ---------------------------------------------------------------------------

/// The truth of a condition that is not a number: an `if` on a text runs its body
/// exactly when the text is not empty, on a list exactly when the list is not
/// empty, and on null never; the other branch runs otherwise, and nothing is
/// asked of the host.
pub proof fn law_condition_truth(
    m: Machine,
    ev: SpecEvent,
    body: Seq<SpecExpr>,
    else_body: Seq<SpecExpr>,
)
    requires
        m.tasks.len() > 0,
        m.tasks.last() == SpecTask::Branch(body, else_body),
        m.values.len() > 0,
        !(m.values.last() is Number),
    ensures
        ({
            let c = m.values.last();
            let runs_body = match c {
                SpecValue::Text(s) => s.len() > 0,
                SpecValue::List(items) => items.len() > 0,
                _ => false,
            };
            let (m1, a1) = step_spec(m, ev);
            &&& a1 is Continue
            &&& m1.values == m.values.drop_last()
            &&& m1.tasks == m.tasks.drop_last().push(SpecTask::PushNull).push(
                SpecTask::Stmts(
                    if runs_body {
                        body
                    } else {
                        else_body
                    },
                    0,
                ),
            )
        }),
{
}

/// `=` on two texts gives the number 1 exactly when they are the same text,
/// character for character, and 0 otherwise; `+` on two texts gives them joined.
/// Neither asks anything of the host.
pub proof fn law_text_equality(m: Machine, ev: SpecEvent, a: Seq<char>, b: Seq<char>, join: bool)
    requires
        m.tasks.len() > 0,
        m.tasks.last() == SpecTask::Apply(if join {
            Op::Plus
        } else {
            Op::Equals
        }),
        m.values.len() >= 2,
        m.values[m.values.len() - 2] == SpecValue::Text(a),
        m.values.last() == SpecValue::Text(b),
    ensures
        ({
            let (m1, a1) = step_spec(m, ev);
            let below = m.values.drop_last().drop_last();
            &&& a1 is Continue
            &&& m1.tasks == m.tasks.drop_last()
            &&& m1.values == below.push(
                if join {
                    SpecValue::Text(a + b)
                } else if a == b {
                    SpecValue::Number(ONE_BITS)
                } else {
                    SpecValue::Number(ZERO_BITS)
                },
            )
            &&& !join ==> (m1.values.last() == SpecValue::Number(ONE_BITS) <==> (a.len() == b.len() && forall|
                k: int,
            | 0 <= k < a.len() ==> a[k] == b[k]))
        }),
{
    let (m1, a1) = step_spec(m, ev);
    assert(m.values.drop_last().last() == SpecValue::Text(a));
    if !join {
        if a.len() == b.len() && forall|k: int| 0 <= k < a.len() ==> a[k] == b[k] {
            assert(a =~= b);
        }
        assert(ONE_BITS != ZERO_BITS);
    }
}


// ---------------------------------------------------------------------------
// Tokens
// ---------------------------------------------------------------------------

/// Each operator character is one token of its own, spaces, tabs and carriage
/// returns only separate tokens, a line break is a token, and any other
/// character that cannot start a token (punctuation and the like) is skipped.
pub proof fn law_single_characters(s: Seq<char>, i: int)
    requires
        0 <= i < s.len(),
    ensures
        s[i] == '+' ==> lex_from(s, i) == seq![SpecToken::Plus] + lex_from(s, i + 1),
        s[i] == '-' ==> lex_from(s, i) == seq![SpecToken::Minus] + lex_from(s, i + 1),
        s[i] == '*' ==> lex_from(s, i) == seq![SpecToken::Multiply] + lex_from(s, i + 1),
        s[i] == '/' ==> lex_from(s, i) == seq![SpecToken::Divide] + lex_from(s, i + 1),
        s[i] == '=' ==> lex_from(s, i) == seq![SpecToken::Equals] + lex_from(s, i + 1),
        s[i] == '>' ==> lex_from(s, i) == seq![SpecToken::Greater] + lex_from(s, i + 1),
        s[i] == '<' ==> lex_from(s, i) == seq![SpecToken::Less] + lex_from(s, i + 1),
        s[i] == '\n' ==> lex_from(s, i) == seq![SpecToken::Newline] + lex_from(s, i + 1),
        s[i] == ' ' || s[i] == '\t' || s[i] == '\r' ==> lex_from(s, i) == lex_from(s, i + 1),
        !name_char(s[i]) && s[i] != '"' && s[i] != '\n' && s[i] != '+' && s[i] != '-' && s[i] != '*' && s[i]
            != '/' && s[i] != '=' && s[i] != '>' && s[i] != '<' ==> lex_from(s, i) == lex_from(s, i + 1),
{
}

proof fn lemma_number_end_at(s: Seq<char>, k: int, j: int)
    requires
        0 <= k <= j <= s.len(),
        forall|x: int| k <= x < j ==> ('0' <= #[trigger] s[x] <= '9' || s[x] == '.'),
        j == s.len() || !('0' <= s[j] <= '9' || s[j] == '.'),
    ensures
        crate::lexer::number_end(s, k) == j,
    decreases j - k,
{
    if k < j {
        lemma_number_end_at(s, k + 1, j);
    }
}

/// A number literal is a digit and all the digits and dots after it: where a
/// digit at `i` is followed by digits and dots up to `j`, and `j` is the end or
/// neither, `s[i..j]` is one number token, with that text, and reading goes on at `j`.
pub proof fn law_number_literal(s: Seq<char>, i: int, j: int)
    requires
        0 <= i < j <= s.len(),
        '0' <= s[i] <= '9',
        forall|k: int| i < k < j ==> ('0' <= #[trigger] s[k] <= '9' || s[k] == '.'),
        j == s.len() || !('0' <= s[j] <= '9' || s[j] == '.'),
    ensures
        lex_from(s, i) == seq![SpecToken::Number(s.subrange(i, j))] + lex_from(s, j),
{
    lemma_number_end_at(s, i + 1, j);
}

proof fn lemma_quote_end_at(s: Seq<char>, k: int, j: int)
    requires
        0 <= k <= j <= s.len(),
        forall|x: int| k <= x < j ==> #[trigger] s[x] != '"',
        j == s.len() || s[j] == '"',
    ensures
        crate::lexer::quote_end(s, k) == j,
    decreases j - k,
{
    if k < j {
        lemma_quote_end_at(s, k + 1, j);
    }
}

/// A string literal runs from a double quote to the next one, which closes it,
/// and holds exactly the characters between them, line breaks and spaces
/// included; with no closing quote it runs to the end of the input.
pub proof fn law_string_literal(s: Seq<char>, i: int, j: int)
    requires
        0 <= i < j <= s.len(),
        s[i] == '"',
        forall|k: int| i < k < j ==> #[trigger] s[k] != '"',
        j == s.len() || s[j] == '"',
    ensures
        lex_from(s, i) == seq![SpecToken::StringLit(s.subrange(i + 1, j))] + lex_from(
            s,
            if j < s.len() {
                j + 1
            } else {
                j
            },
        ),
{
    lemma_quote_end_at(s, i + 1, j);
}


/// `show a <op> b` shows the operation of the operator written: each operator
/// token stands for its own operation, the left operand first.
pub proof fn law_show_reads_the_operator(ts: Seq<SpecToken>, p: int, a: Seq<char>, b: Seq<char>)
    requires
        0 <= p,
        p + 4 < ts.len(),
        ts[p] == SpecToken::Show,
        ts[p + 1] == SpecToken::Ident(a),
        ts[p + 3] == SpecToken::Ident(b),
    ensures
        ({
            let shown = |op: Op|
                (
                    SpecExpr::Show(
                        Box::new(
                            SpecExpr::BinOp {
                                left: Box::new(SpecExpr::Ident(a)),
                                op,
                                right: Box::new(SpecExpr::Ident(b)),
                            },
                        ),
                    ),
                    p + 4,
                );
            &&& ts[p + 2] == SpecToken::Plus ==> stmt(ts, p) == shown(Op::Plus)
            &&& ts[p + 2] == SpecToken::Minus ==> stmt(ts, p) == shown(Op::Minus)
            &&& ts[p + 2] == SpecToken::Multiply ==> stmt(ts, p) == shown(Op::Multiply)
            &&& ts[p + 2] == SpecToken::Divide ==> stmt(ts, p) == shown(Op::Divide)
            &&& ts[p + 2] == SpecToken::Equals ==> stmt(ts, p) == shown(Op::Equals)
            &&& ts[p + 2] == SpecToken::Greater ==> stmt(ts, p) == shown(Op::Greater)
            &&& ts[p + 2] == SpecToken::Less ==> stmt(ts, p) == shown(Op::Less)
        }),
{
}

/// `value store name` names the value: a number, or a name joined by an
/// operator to a number, followed by `store` and a name, is one statement that
/// stores that value under that name.
pub proof fn law_store_names_the_value(ts: Seq<SpecToken>, p: int, x: Seq<char>, n: Seq<char>, y: Seq<char>)
    requires
        0 <= p,
        p + 5 < ts.len(),
    ensures
        ts[p] == SpecToken::Number(n) && ts[p + 1] == SpecToken::Store && ts[p + 2] == SpecToken::Ident(y)
            ==> stmt(ts, p) == (SpecExpr::Store { value: Box::new(SpecExpr::Number(n)), name: y }, p + 3),
        ts[p] == SpecToken::Ident(x) && ts[p + 1] == SpecToken::Minus && ts[p + 2] == SpecToken::Number(n)
            && ts[p + 3] == SpecToken::Store && ts[p + 4] == SpecToken::Ident(y) ==> stmt(ts, p) == (
            SpecExpr::Store {
                value: Box::new(
                    SpecExpr::BinOp {
                        left: Box::new(SpecExpr::Ident(x)),
                        op: Op::Minus,
                        right: Box::new(SpecExpr::Number(n)),
                    },
                ),
                name: y,
            },
            p + 5,
        ),
{
}

/// A name followed by values on its line is a call with those values as its
/// arguments, in order; the arguments stop at the end of the line.
pub proof fn law_call_arguments_stop_at_line_end(
    ts: Seq<SpecToken>,
    p: int,
    f: Seq<char>,
    n: Seq<char>,
    x: Seq<char>,
)
    requires
        0 <= p,
        p + 4 < ts.len(),
        ts[p] == SpecToken::Ident(f),
        ts[p + 1] == SpecToken::Number(n),
        ts[p + 2] == SpecToken::Ident(x),
        ts[p + 3] == SpecToken::Newline,
    ensures
        stmt(ts, p) == (
            SpecExpr::FunctionCall { name: f, args: seq![SpecExpr::Number(n), SpecExpr::Ident(x)] },
            p + 3,
        ),
{
    reveal_with_fuel(crate::parser::call_args, 4);
    assert(crate::parser::call_args(ts, p + 1).0 =~= seq![SpecExpr::Number(n), SpecExpr::Ident(x)]);
}


// ---------------------------------------------------------------------------
// Operations and variables
// ---------------------------------------------------------------------------

/// Arithmetic and comparison of two numbers is the host's: the operation is
/// asked with the left operand first; the host's result is pushed, and a
/// division by zero is reported as an error (naming the function being run)
/// with null as the value.
pub proof fn law_number_operations_ask_the_host(
    m: Machine,
    ev: SpecEvent,
    op: Op,
    a: u64,
    b: u64,
    r: Option<u64>,
)
    requires
        m.tasks.len() > 0,
        m.tasks.last() == SpecTask::Apply(op),
        m.values.len() >= 2,
        m.values[m.values.len() - 2] == SpecValue::Number(a),
        m.values.last() == SpecValue::Number(b),
    ensures
        ({
            let below = m.values.drop_last().drop_last();
            let (m1, a1) = step_spec(m, ev);
            let (m2, a2) = step_spec(m1, SpecEvent::Arith(r));
            &&& a1 == SpecAction::Arith(op, a, b)
            &&& m2.tasks == m.tasks.drop_last()
            &&& m2.vars == m.vars
            &&& match r {
                Some(x) => m2.values == below.push(SpecValue::Number(x)) && a2 is Continue,
                None => {
                    &&& m2.values == below.push(SpecValue::Null)
                    &&& a2 == SpecAction::Error(
                        if m.call_stack.len() == 0 {
                            "RIFT Error: "@ + "Zero se divide nahi!"@
                        } else {
                            "RIFT Error in '"@ + m.call_stack.last() + "': "@ + "Zero se divide nahi!"@
                        },
                    )
                },
            }
        }),
{
    assert(m.values.drop_last().last() == SpecValue::Number(a));
    let (m1, a1) = step_spec(m, ev);
}

/// `+` of a text and a number joins the text with the number's text, in the
/// order written: the host is asked for the number's text, and the joined text is
/// pushed. Any other operator on a text and a number gives null.
pub proof fn law_text_and_number_join_in_order(
    m: Machine,
    ev: SpecEvent,
    op: Op,
    t: Seq<char>,
    n: u64,
    text_first: bool,
    shown: Seq<char>,
)
    requires
        m.tasks.len() > 0,
        m.tasks.last() == SpecTask::Apply(op),
        m.values.len() >= 2,
        m.values[m.values.len() - 2] == (if text_first {
            SpecValue::Text(t)
        } else {
            SpecValue::Number(n)
        }),
        m.values.last() == (if text_first {
            SpecValue::Number(n)
        } else {
            SpecValue::Text(t)
        }),
    ensures
        ({
            let below = m.values.drop_last().drop_last();
            let (m1, a1) = step_spec(m, ev);
            let (m2, a2) = step_spec(m1, SpecEvent::Text(shown));
            if op == Op::Plus {
                &&& a1 == SpecAction::NumberText(n)
                &&& m2.tasks == m.tasks.drop_last()
                &&& m2.values == below.push(
                    SpecValue::Text(
                        if text_first {
                            t + shown
                        } else {
                            shown + t
                        },
                    ),
                )
            } else {
                &&& a1 is Continue
                &&& m1.tasks == m.tasks.drop_last()
                &&& m1.values == below.push(SpecValue::Null)
            }
        }),
{
    assert(m.values.drop_last().last() == m.values[m.values.len() - 2]);
}

/// `add v to xs` appends `v` to the list `xs`; a name that is not defined becomes
/// the list of `v` alone, and a name that holds something else is left as it is.
/// The statement gives null.
pub proof fn law_add_appends(m: Machine, ev: SpecEvent, list: Seq<char>, v: SpecValue)
    requires
        m.tasks.len() > 0,
        m.tasks.last() == SpecTask::AddTo(list),
        m.values.len() > 0,
        m.values.last() == v,
    ensures
        ({
            let (m1, a1) = step_spec(m, ev);
            &&& a1 is Continue
            &&& m1.tasks == m.tasks.drop_last()
            &&& m1.values == m.values.drop_last().push(SpecValue::Null)
            &&& m1.vars.dom() == m.vars.dom().insert(list)
            &&& m1.vars[list] == if !m.vars.contains_key(list) {
                SpecValue::List(seq![v])
            } else {
                match m.vars[list] {
                    SpecValue::List(items) => SpecValue::List(items.push(v)),
                    other => other,
                }
            }
            &&& forall|x: Seq<char>| x != list && m.vars.contains_key(x) ==> #[trigger] m1.vars[x] == m.vars[x]
        }),
{
    let (m1, a1) = step_spec(m, ev);
    if !m.vars.contains_key(list) {
        assert(m1.vars.dom() =~= m.vars.dom().insert(list));
    } else {
        assert(m1.vars.dom() =~= m.vars.dom().insert(list));
    }
}

/// Reading a name gives the value stored under it; a name with no value is
/// reported as an error (naming the function being run) and reads as null.
pub proof fn law_read_variable(m: Machine, ev: SpecEvent, name: Seq<char>)
    requires
        m.tasks.len() > 0,
        m.tasks.last() == SpecTask::Eval(SpecExpr::Ident(name)),
    ensures
        ({
            let (m1, a1) = step_spec(m, ev);
            &&& m1.tasks == m.tasks.drop_last()
            &&& m1.vars == m.vars
            &&& if m.vars.contains_key(name) {
                a1 is Continue && m1.values == m.values.push(m.vars[name])
            } else {
                &&& m1.values == m.values.push(SpecValue::Null)
                &&& a1 == SpecAction::Error(
                    if m.call_stack.len() == 0 {
                        "RIFT Error: "@ + ("'"@ + name + "' variable nahi mila!"@)
                    } else {
                        "RIFT Error in '"@ + m.call_stack.last() + "': "@ + ("'"@ + name + "' variable nahi mila!"@)
                    },
                )
            }
        }),
{
}


// ---------------------------------------------------------------------------
// Showing values
// ---------------------------------------------------------------------------

/// How `show` writes a value, given the texts the host gave for its numbers
/// (from the `k`-th on): a text as it is, null as `null`, a number as its text,
/// the empty list as nothing, a list of one item as that item, and a longer list
/// as the list without its last item, `, `, and that item, whose numbers take
/// the texts after those of the items before it.
pub proof fn law_show_writes(
    v: SpecValue,
    xs: Seq<SpecValue>,
    x: SpecValue,
    texts: Seq<Seq<char>>,
    k: int,
)
    ensures
        v is Text ==> render(v, texts, k) == v->Text_0,
        v is Null ==> render(v, texts, k) == "null"@,
        v is Number && 0 <= k < texts.len() ==> render(v, texts, k) == texts[k],
        render(SpecValue::List(Seq::empty()), texts, k) == Seq::<char>::empty(),
        render(SpecValue::List(seq![x]), texts, k) == render(x, texts, k),
        xs.len() > 0 ==> render(SpecValue::List(xs.push(x)), texts, k) == render(SpecValue::List(xs), texts, k)
            + ", "@ + render(x, texts, k + flat_numbers(SpecValue::List(xs)).len()),
        flat_numbers(SpecValue::List(xs.push(x))) == flat_numbers(SpecValue::List(xs)) + flat_numbers(x),
{
    if xs.len() > 0 {
        lemma_render_list_push(xs, x, texts, k);
    }
    lemma_flat_numbers_push(xs, x);
}

proof fn lemma_flat_numbers_push(xs: Seq<SpecValue>, x: SpecValue)
    ensures
        flat_numbers_list(xs.push(x)) == flat_numbers_list(xs) + flat_numbers(x),
    decreases xs.len(),
{
    if xs.len() == 0 {
        let one = xs.push(x);
        assert(one.subrange(1, 1) =~= Seq::<SpecValue>::empty());
        assert(one[0] == x);
        assert(flat_numbers_list(one) == flat_numbers(x) + flat_numbers_list(one.subrange(1, 1)));
        assert(flat_numbers_list(one) =~= flat_numbers(x));
        assert(flat_numbers_list(xs) + flat_numbers(x) =~= flat_numbers(x));
    } else {
        let rest = xs.subrange(1, xs.len() as int);
        assert(xs.push(x).subrange(1, xs.len() + 1int) =~= rest.push(x));
        lemma_flat_numbers_push(rest, x);
        assert(flat_numbers_list(xs.push(x)) =~= flat_numbers(xs[0]) + (flat_numbers_list(rest) + flat_numbers(x)));
    }
}

proof fn lemma_render_list_push(xs: Seq<SpecValue>, x: SpecValue, texts: Seq<Seq<char>>, k: int)
    requires
        xs.len() > 0,
    ensures
        render_list(xs.push(x), texts, k) == render_list(xs, texts, k) + ", "@ + render(
            x,
            texts,
            k + flat_numbers_list(xs).len(),
        ),
    decreases xs.len(),
{
    let rest = xs.subrange(1, xs.len() as int);
    let k1 = k + flat_numbers(xs[0]).len();
    assert(xs.push(x).subrange(1, xs.len() + 1int) =~= rest.push(x));
    assert(xs.push(x)[0] == xs[0]);
    if xs.len() == 1 {
        assert(rest.push(x) =~= seq![x]);
        assert(rest =~= Seq::<SpecValue>::empty());
        assert(flat_numbers_list(xs) == flat_numbers(xs[0]) + flat_numbers_list(rest));
        assert(flat_numbers_list(xs) =~= flat_numbers(xs[0]));
        assert(render_list(rest.push(x), texts, k1) == render(x, texts, k1));
        assert(render_list(xs, texts, k) == render(xs[0], texts, k));
        assert(render_list(xs.push(x), texts, k) == render(xs[0], texts, k) + ", "@ + render_list(
            rest.push(x),
            texts,
            k1,
        ));
    } else {
        lemma_render_list_push(rest, x, texts, k1);
        assert(flat_numbers_list(xs) == flat_numbers(xs[0]) + flat_numbers_list(rest));
        assert(render_list(xs.push(x), texts, k) =~= render_list(xs, texts, k) + ", "@ + render(
            x,
            texts,
            k + flat_numbers_list(xs).len(),
        ));
    }
}


// ---------------------------------------------------------------------------
// Blocks
// ---------------------------------------------------------------------------

/// `if c then` / a statement / `else` / a statement / `end if` is one `if`
/// whose body is the first statement and whose other branch is the second.
pub proof fn law_if_else_shape(ts: Seq<SpecToken>, p: int, c: Seq<char>, a: Seq<char>, b: Seq<char>)
    requires
        0 <= p,
        p + 14 < ts.len(),
        ts[p] == SpecToken::If,
        ts[p + 1] == SpecToken::Ident(c),
        ts[p + 2] == SpecToken::Then,
        ts[p + 3] == SpecToken::Newline,
        ts[p + 4] == SpecToken::Show,
        ts[p + 5] == SpecToken::Ident(a),
        ts[p + 6] == SpecToken::Newline,
        ts[p + 7] == SpecToken::Else,
        ts[p + 8] == SpecToken::Newline,
        ts[p + 9] == SpecToken::Show,
        ts[p + 10] == SpecToken::Ident(b),
        ts[p + 11] == SpecToken::Newline,
        ts[p + 12] == SpecToken::End,
        ts[p + 13] == SpecToken::If,
    ensures
        stmt(ts, p) == (
            SpecExpr::If {
                condition: Box::new(SpecExpr::Ident(c)),
                body: seq![SpecExpr::Show(Box::new(SpecExpr::Ident(a)))],
                else_body: seq![SpecExpr::Show(Box::new(SpecExpr::Ident(b)))],
            },
            p + 14,
        ),
{
    reveal_with_fuel(crate::parser::skip_newlines, 3);
    reveal_with_fuel(crate::parser::block, 3);
    assert(crate::parser::block(ts, p + 4, true) == (seq![SpecExpr::Show(Box::new(SpecExpr::Ident(a)))], p + 7));
    assert(crate::parser::block(ts, p + 9, false) == (seq![SpecExpr::Show(Box::new(SpecExpr::Ident(b)))], p + 12));
}


/// `loop n times` / a statement / `end loop` is one loop with that count and
/// that statement as its body.
pub proof fn law_loop_shape(ts: Seq<SpecToken>, p: int, n: Seq<char>, a: Seq<char>)
    requires
        0 <= p,
        p + 9 < ts.len(),
        ts[p] == SpecToken::Loop,
        ts[p + 1] == SpecToken::Number(n),
        ts[p + 2] == SpecToken::Times,
        ts[p + 3] == SpecToken::Newline,
        ts[p + 4] == SpecToken::Show,
        ts[p + 5] == SpecToken::Ident(a),
        ts[p + 6] == SpecToken::Newline,
        ts[p + 7] == SpecToken::End,
        ts[p + 8] == SpecToken::Loop,
    ensures
        stmt(ts, p) == (
            SpecExpr::Loop {
                count: Box::new(SpecExpr::Number(n)),
                body: seq![SpecExpr::Show(Box::new(SpecExpr::Ident(a)))],
            },
            p + 9,
        ),
{
    reveal_with_fuel(crate::parser::skip_newlines, 3);
    reveal_with_fuel(crate::parser::block, 3);
    assert(crate::parser::block(ts, p + 4, false) == (seq![SpecExpr::Show(Box::new(SpecExpr::Ident(a)))], p + 7));
}

/// `function f with x y do` / `return x` / `end function` defines `f` with the
/// parameters `x`, `y` in order and that body.
pub proof fn law_function_shape(ts: Seq<SpecToken>, p: int, f: Seq<char>, x: Seq<char>, y: Seq<char>)
    requires
        0 <= p,
        p + 12 < ts.len(),
        ts[p] == SpecToken::Function,
        ts[p + 1] == SpecToken::Ident(f),
        ts[p + 2] == SpecToken::With,
        ts[p + 3] == SpecToken::Ident(x),
        ts[p + 4] == SpecToken::Ident(y),
        ts[p + 5] == SpecToken::Do,
        ts[p + 6] == SpecToken::Newline,
        ts[p + 7] == SpecToken::Return,
        ts[p + 8] == SpecToken::Ident(x),
        ts[p + 9] == SpecToken::Newline,
        ts[p + 10] == SpecToken::End,
        ts[p + 11] == SpecToken::Function,
    ensures
        stmt(ts, p) == (
            SpecExpr::FunctionDef {
                name: f,
                params: seq![x, y],
                body: seq![SpecExpr::Return(Box::new(SpecExpr::Ident(x)))],
            },
            p + 12,
        ),
{
    reveal_with_fuel(crate::parser::skip_newlines, 3);
    reveal_with_fuel(crate::parser::block, 3);
    reveal_with_fuel(crate::parser::param_names, 3);
    assert(crate::parser::param_names(ts, p + 3).0 =~= seq![x, y]);
    assert(crate::parser::block(ts, p + 7, false) == (seq![SpecExpr::Return(Box::new(SpecExpr::Ident(x)))], p + 10));
}


// ---------------------------------------------------------------------------
// More steps
// ---------------------------------------------------------------------------

/// A number literal asks the host for its value, by its text, and pushes the
/// answer.
pub proof fn law_number_literal_value(m: Machine, ev: SpecEvent, text: Seq<char>, bits: u64)
    requires
        m.tasks.len() > 0,
        m.tasks.last() == SpecTask::Eval(SpecExpr::Number(text)),
    ensures
        ({
            let (m1, a1) = step_spec(m, ev);
            let (m2, a2) = step_spec(m1, SpecEvent::Number(bits));
            &&& a1 == SpecAction::ParseNumber(text)
            &&& m2.tasks == m.tasks.drop_last()
            &&& m2.values == m.values.push(SpecValue::Number(bits))
            &&& m2.vars == m.vars
        }),
{
}

/// `store name` names the value on top and leaves it there; the other names
/// keep their values.
pub proof fn law_store_sets_one_name(m: Machine, ev: SpecEvent, name: Seq<char>)
    requires
        m.tasks.len() > 0,
        m.tasks.last() == SpecTask::StoreIn(name),
        m.values.len() > 0,
    ensures
        ({
            let (m1, a1) = step_spec(m, ev);
            &&& a1 is Continue
            &&& m1.values == m.values
            &&& m1.tasks == m.tasks.drop_last()
            &&& m1.vars.contains_key(name)
            &&& m1.vars[name] == m.values.last()
            &&& forall|x: Seq<char>| x != name ==> (#[trigger] m1.vars.contains_key(x) <==> m.vars.contains_key(x))
            &&& forall|x: Seq<char>| x != name && m.vars.contains_key(x) ==> #[trigger] m1.vars[x] == m.vars[x]
        }),
{
}

/// `input "prompt" store name` asks the host for a line with that prompt, names
/// the value read, and gives it.
pub proof fn law_input_stores_the_answer(
    m: Machine,
    ev: SpecEvent,
    prompt: Seq<char>,
    name: Seq<char>,
    v: SpecValue,
)
    requires
        m.tasks.len() > 0,
        m.tasks.last() == SpecTask::Eval(SpecExpr::Input { prompt, store_in: name }),
    ensures
        ({
            let (m1, a1) = step_spec(m, ev);
            let (m2, a2) = step_spec(m1, SpecEvent::Input(v));
            &&& a1 == SpecAction::ReadInput(prompt)
            &&& m2.vars == m.vars.insert(name, v)
            &&& m2.values == m.values.push(v)
            &&& m2.tasks == m.tasks.drop_last()
        }),
{
}

/// `remove t from xs` with a text `t` takes every item equal to `t` out of the
/// list and keeps the others in order, without asking the host; on a name that
/// holds no list nothing changes. The statement gives null.
pub proof fn law_remove_text_step(m: Machine, ev: SpecEvent, list: Seq<char>, t: Seq<char>)
    requires
        m.tasks.len() > 0,
        m.tasks.last() == SpecTask::RemoveFrom(list),
        m.values.len() > 0,
        m.values.last() == SpecValue::Text(t),
    ensures
        ({
            let (m1, a1) = step_spec(m, ev);
            &&& a1 is Continue
            &&& m1.tasks == m.tasks.drop_last()
            &&& m1.values == m.values.drop_last().push(SpecValue::Null)
            &&& if m.vars.contains_key(list) && m.vars[list] is List {
                m1.vars == m.vars.insert(
                    list,
                    SpecValue::List(m.vars[list]->List_0.filter(|x: SpecValue| x != SpecValue::Text(t))),
                )
            } else {
                m1.vars == m.vars
            }
        }),
{
    if m.vars.contains_key(list) && m.vars[list] is List {
        law_remove_text_filters(m.vars[list]->List_0, t);
    }
}

/// A call of a name that is no function, or with a number of arguments other
/// than the function's parameters, is reported as an error (naming the function
/// being run) and gives null, with nothing run.
pub proof fn law_call_errors(m: Machine, ev: SpecEvent, name: Seq<char>, args: Seq<SpecExpr>)
    requires
        m.tasks.len() > 0,
        m.tasks.last() == SpecTask::Eval(SpecExpr::FunctionCall { name, args }),
        !m.functions.contains_key(name) || m.functions[name].params.len() != args.len(),
    ensures
        ({
            let (m1, a1) = step_spec(m, ev);
            let msg = if !m.functions.contains_key(name) {
                "'"@ + name + "' function nahi mila!"@
            } else {
                "'"@ + name + "' ko "@ + decimal(m.functions[name].params.len()) + " arguments chahiye, "@
                    + decimal(args.len()) + " diye!"@
            };
            &&& m1.tasks == m.tasks.drop_last()
            &&& m1.values == m.values.push(SpecValue::Null)
            &&& m1.vars == m.vars
            &&& m1.call_stack == m.call_stack
            &&& a1 == SpecAction::Error(
                if m.call_stack.len() == 0 {
                    "RIFT Error: "@ + msg
                } else {
                    "RIFT Error in '"@ + m.call_stack.last() + "': "@ + msg
                },
            )
        }),
{
}


// ---------------------------------------------------------------------------
// Numerals in messages
// ---------------------------------------------------------------------------

/// The value of a decimal digit character.
pub open spec fn digit_value(c: char) -> int {
    if c == '0' { 0 } else if c == '1' { 1 } else if c == '2' { 2 } else if c == '3' { 3 } else if c == '4' {
        4
    } else if c == '5' { 5 } else if c == '6' { 6 } else if c == '7' { 7 } else if c == '8' { 8 } else { 9 }
}

/// The number that a string of decimal digits stands for, the last digit counting ones.
pub open spec fn numeral_value(s: Seq<char>) -> int
    decreases s.len(),
{
    if s.len() == 0 {
        0
    } else {
        numeral_value(s.drop_last()) * 10 + digit_value(s.last())
    }
}

proof fn lemma_digit_value(d: int)
    requires
        0 <= d < 10,
    ensures
        digit_value(seq!['0', '1', '2', '3', '4', '5', '6', '7', '8', '9'][d]) == d,
{
    let digits = seq!['0', '1', '2', '3', '4', '5', '6', '7', '8', '9'];
    if d == 0 { assert(digits[d] == '0'); } else if d == 1 { assert(digits[d] == '1'); } else if d == 2 {
        assert(digits[d] == '2');
    } else if d == 3 { assert(digits[d] == '3'); } else if d == 4 { assert(digits[d] == '4'); } else if d == 5 {
        assert(digits[d] == '5');
    } else if d == 6 { assert(digits[d] == '6'); } else if d == 7 { assert(digits[d] == '7'); } else if d == 8 {
        assert(digits[d] == '8');
    } else {
        assert(digits[d] == '9');
    }
}

/// The numerals in messages are the usual decimal numerals: digits only, no
/// leading zero (but for zero itself), and read back they give the number.
pub proof fn law_decimal_numeral(n: nat)
    ensures
        decimal(n).len() > 0,
        forall|k: int| 0 <= k < decimal(n).len() ==> '0' <= #[trigger] decimal(n)[k] <= '9',
        decimal(n)[0] != '0' || n == 0,
        numeral_value(decimal(n)) == n,
    decreases n,
{
    let digits = seq!['0', '1', '2', '3', '4', '5', '6', '7', '8', '9'];
    if n < 10 {
        lemma_digit_value(n as int);
        assert(decimal(n) == seq![digits[n as int]]);
        assert(seq![digits[n as int]].drop_last() =~= Seq::<char>::empty());
        assert(numeral_value(decimal(n)) == numeral_value(Seq::<char>::empty()) * 10 + digit_value(digits[n as int]));
    } else {
        law_decimal_numeral(n / 10);
        let d = (n % 10) as int;
        lemma_digit_value(d);
        assert(decimal(n) == decimal(n / 10).push(digits[d]));
        assert(decimal(n).drop_last() =~= decimal(n / 10));
        assert forall|k: int| 0 <= k < decimal(n).len() implies '0' <= #[trigger] decimal(n)[k] <= '9' by {
            if k < decimal(n / 10).len() {
                assert(decimal(n)[k] == decimal(n / 10)[k]);
            }
        }
        assert(decimal(n)[0] == decimal(n / 10)[0]);
        assert(decimal(n).last() == digits[d]);
        assert(numeral_value(decimal(n)) == numeral_value(decimal(n / 10)) * 10 + digit_value(digits[d]));
        assert(n == (n / 10) * 10 + n % 10);
    }
}


/// `input "prompt" store name` reads into `name` with that prompt; without a
/// prompt the prompt is empty.
pub proof fn law_input_shape(ts: Seq<SpecToken>, p: int, prompt: Seq<char>, name: Seq<char>)
    requires
        0 <= p,
        p + 4 < ts.len(),
        ts[p] == SpecToken::Input,
    ensures
        ts[p + 1] == SpecToken::StringLit(prompt) && ts[p + 2] == SpecToken::Store && ts[p + 3] == SpecToken::Ident(
            name,
        ) ==> stmt(ts, p) == (SpecExpr::Input { prompt, store_in: name }, p + 4),
        ts[p + 1] == SpecToken::Store && ts[p + 2] == SpecToken::Ident(name) ==> stmt(ts, p) == (
            SpecExpr::Input { prompt: Seq::empty(), store_in: name },
            p + 3,
        ),
{
}

/// A statement that starts with a text joined by `+` to a name, then `store`
/// and a name, stores the joined value under that name.
pub proof fn law_text_statement_shape(ts: Seq<SpecToken>, p: int, a: Seq<char>, x: Seq<char>, y: Seq<char>)
    requires
        0 <= p,
        p + 5 < ts.len(),
        ts[p] == SpecToken::StringLit(a),
        ts[p + 1] == SpecToken::Plus,
        ts[p + 2] == SpecToken::Ident(x),
        ts[p + 3] == SpecToken::Store,
        ts[p + 4] == SpecToken::Ident(y),
    ensures
        stmt(ts, p) == (
            SpecExpr::Store {
                value: Box::new(
                    SpecExpr::BinOp {
                        left: Box::new(SpecExpr::StringLit(a)),
                        op: Op::Plus,
                        right: Box::new(SpecExpr::Ident(x)),
                    },
                ),
                name: y,
            },
            p + 5,
        ),
{
}

} // verus!
