use vstd::prelude::*;
use crate::interpreter::{Machine, SpecAction, SpecEvent, SpecTask, step_spec, arg_tasks, top};
use crate::parser::SpecExpr;
use crate::laws::first_return;
use crate::value::{SpecValue, truthy};

verus! {

// ---------------------------------------------------------------------------
// Whole runs. A host drives the interpreter by calling `Interpreter::step`,
// telling it `Event::Proceed` after `Action::Continue` and its answer after any
// other action. Two runs are compared by where they end and by the work they
// ask of the host on the way.
// ---------------------------------------------------------------------------

/// A step only reads and changes the top of the tasks: the same step on the same
/// state with more tasks below gives the same action and the same state, with those
/// tasks still below.
pub proof fn lemma_step_over(m: Machine, below: Seq<SpecTask>, ev: SpecEvent)
    requires
        m.tasks.len() > 0,
    ensures
        step_spec(m.with_tasks(below + m.tasks), ev).1 == step_spec(m, ev).1,
        step_spec(m.with_tasks(below + m.tasks), ev).0 == step_spec(m, ev).0.with_tasks(
            below + step_spec(m, ev).0.tasks,
        ),
{
    let big = m.with_tasks(below + m.tasks);
    assert(big.tasks.last() == m.tasks.last());
    assert(big.tasks.drop_last() =~= below + m.tasks.drop_last());
    let r = step_spec(m, ev).0;
    let q = m.tasks.len() - 1;
    crate::laws::lemma_step_keeps_tasks_below(m, ev);
    let pushed = r.tasks.skip(q);
    assert(r.tasks =~= m.tasks.drop_last() + pushed);
    let rb = step_spec(big, ev).0;
    crate::laws::lemma_step_keeps_tasks_below(big, ev);
    assert(rb.tasks =~= big.tasks.drop_last() + rb.tasks.skip(big.tasks.len() - 1));
    assert(rb.tasks.skip(big.tasks.len() - 1) =~= pushed);
    assert(rb.tasks =~= below + r.tasks);
}

/// What the machine is told after it asked for `a`: `Proceed` after a step
/// that asks nothing of the host, else the host's answer to all it was asked.
pub open spec fn answer(
    a: SpecAction,
    host: spec_fn(Seq<SpecAction>) -> SpecEvent,
    asked: Seq<SpecAction>,
) -> SpecEvent {
    if a is Continue {
        SpecEvent::Proceed
    } else {
        host(asked.push(a))
    }
}

/// All that was asked of the host after it was asked for `a`.
pub open spec fn asked_after(a: SpecAction, asked: Seq<SpecAction>) -> Seq<SpecAction> {
    if a is Continue {
        asked
    } else {
        asked.push(a)
    }
}

/// A run of the machine driven by a host, from `m` told `ev`, until at most `floor`
/// tasks are left. `host` answers each piece of outside work (a print, an error, a
/// question) given all the work asked of it so far, `asked` being what was asked
/// before. Gives the machine, what it is to be told next, and all the work asked,
/// or `None` where `fuel` steps do not bring the tasks down to the floor.
pub open spec fn session(
    m: Machine,
    ev: SpecEvent,
    host: spec_fn(Seq<SpecAction>) -> SpecEvent,
    asked: Seq<SpecAction>,
    floor: nat,
    fuel: nat,
) -> Option<(Machine, SpecEvent, Seq<SpecAction>)>
    decreases fuel,
{
    if m.tasks.len() <= floor {
        Some((m, ev, asked))
    } else if fuel == 0 {
        None
    } else {
        let (m1, a) = step_spec(m, ev);
        session(m1, answer(a, host, asked), host, asked_after(a, asked), floor, (fuel - 1) as nat)
    }
}

/// A session that comes to its floor comes there the same way with more fuel.
pub proof fn lemma_session_more_fuel(
    m: Machine,
    ev: SpecEvent,
    host: spec_fn(Seq<SpecAction>) -> SpecEvent,
    asked: Seq<SpecAction>,
    floor: nat,
    fuel: nat,
    more: nat,
)
    requires
        session(m, ev, host, asked, floor, fuel) is Some,
        fuel <= more,
    ensures
        session(m, ev, host, asked, floor, more) == session(m, ev, host, asked, floor, fuel),
    decreases fuel,
{
    if m.tasks.len() > floor {
        let (m1, a) = step_spec(m, ev);
        lemma_session_more_fuel(
            m1,
            answer(a, host, asked),
            host,
            asked_after(a, asked),
            floor,
            (fuel - 1) as nat,
            (more - 1) as nat,
        );
    }
}

/// A session's result with `below` put back under its tasks.
pub open spec fn put_below(
    r: Option<(Machine, SpecEvent, Seq<SpecAction>)>,
    below: Seq<SpecTask>,
) -> Option<(Machine, SpecEvent, Seq<SpecAction>)> {
    match r {
        Some((f, e, a)) => Some((f.with_tasks(below + f.tasks), e, a)),
        None => None,
    }
}

/// Work put on top of other work runs as it would alone: until it is done, the
/// tasks below it are neither read nor changed, and the same host is asked the
/// same things and left with the same state as when the work runs by itself.
pub proof fn law_frame(
    m: Machine,
    below: Seq<SpecTask>,
    ev: SpecEvent,
    host: spec_fn(Seq<SpecAction>) -> SpecEvent,
    asked: Seq<SpecAction>,
    fuel: nat,
)
    ensures
        session(m.with_tasks(below + m.tasks), ev, host, asked, below.len(), fuel) == put_below(
            session(m, ev, host, asked, 0, fuel),
            below,
        ),
    decreases fuel,
{
    let big = m.with_tasks(below + m.tasks);
    if m.tasks.len() == 0 {
        assert(below + m.tasks =~= below);
        assert(big == m.with_tasks(below + m.tasks));
    } else if fuel > 0 {
        lemma_step_over(m, below, ev);
        let (m1, a) = step_spec(m, ev);
        law_frame(m1, below, answer(a, host, asked), host, asked_after(a, asked), (fuel - 1) as nat);
    }
}

/// One step of a simulation of `m1` told `e1` by `m2` told `e2`: both are done
/// together, and then alike; or `m2` takes a step that asks nothing while `m1`
/// waits, and `lag` goes down; or both take a step that asks the same of the host.
pub open spec fn sim_step(
    related: spec_fn(Machine, SpecEvent, Machine, SpecEvent) -> bool,
    lag: spec_fn(Machine, Machine) -> nat,
    m1: Machine,
    e1: SpecEvent,
    m2: Machine,
    e2: SpecEvent,
) -> bool {
    let (n1, a1) = step_spec(m1, e1);
    let (n2, a2) = step_spec(m2, e2);
    &&& m1.tasks.len() == 0 ==> m2 == m1 && e2 == e1
    &&& m1.tasks.len() > 0 ==> m2.tasks.len() > 0
    &&& m1.tasks.len() > 0 ==> {
        ||| {
            &&& lag(m1, m2) > 0
            &&& a2 is Continue
            &&& related(m1, e1, n2, SpecEvent::Proceed)
            &&& lag(m1, n2) < lag(m1, m2)
        }
        ||| {
            &&& a1 == a2
            &&& forall|e: SpecEvent| #[trigger] related(n1, e, n2, e)
            &&& lag(n1, n2) <= lag(m1, m2)
        }
    }
}

/// Every related pair takes a step of a simulation.
pub open spec fn simulation(
    related: spec_fn(Machine, SpecEvent, Machine, SpecEvent) -> bool,
    lag: spec_fn(Machine, Machine) -> nat,
) -> bool {
    forall|m1: Machine, e1: SpecEvent, m2: Machine, e2: SpecEvent| #[trigger]
        related(m1, e1, m2, e2) ==> sim_step(related, lag, m1, e1, m2, e2)
}

/// Machines in a simulation end alike: driven by the same host, where one comes
/// to the end so does the other, in the same state having asked the same work in
/// the same order; the second takes at most `lag` steps more.
pub proof fn lemma_simulation(
    related: spec_fn(Machine, SpecEvent, Machine, SpecEvent) -> bool,
    lag: spec_fn(Machine, Machine) -> nat,
    m1: Machine,
    e1: SpecEvent,
    m2: Machine,
    e2: SpecEvent,
    host: spec_fn(Seq<SpecAction>) -> SpecEvent,
    asked: Seq<SpecAction>,
    fuel: nat,
)
    requires
        simulation(related, lag),
        related(m1, e1, m2, e2),
    ensures
        session(m1, e1, host, asked, 0, fuel) is Some ==> session(m2, e2, host, asked, 0, fuel + lag(m1, m2))
            == session(m1, e1, host, asked, 0, fuel),
        session(m2, e2, host, asked, 0, fuel) is Some ==> session(m1, e1, host, asked, 0, fuel) == session(
            m2,
            e2,
            host,
            asked,
            0,
            fuel,
        ),
    decreases fuel, lag(m1, m2),
{
    assert(sim_step(related, lag, m1, e1, m2, e2));
    if m1.tasks.len() > 0 {
        let (n1, a1) = step_spec(m1, e1);
        let (n2, a2) = step_spec(m2, e2);
        let big = lag(m1, m2);
        if big > 0 && a2 is Continue && related(m1, e1, n2, SpecEvent::Proceed) && lag(m1, n2) < big {
            lemma_simulation(related, lag, m1, e1, n2, SpecEvent::Proceed, host, asked, fuel);
            if session(m1, e1, host, asked, 0, fuel) is Some {
                lemma_session_more_fuel(n2, SpecEvent::Proceed, host, asked, 0, fuel + lag(m1, n2), (fuel + big - 1) as nat);
            }
            if fuel > 0 {
                lemma_simulation(related, lag, m1, e1, n2, SpecEvent::Proceed, host, asked, (fuel - 1) as nat);
                if session(m2, e2, host, asked, 0, fuel) is Some {
                    lemma_session_more_fuel(m1, e1, host, asked, 0, (fuel - 1) as nat, fuel);
                }
            }
        } else if fuel > 0 {
            let e = answer(a1, host, asked);
            assert(related(n1, e, n2, e));
            lemma_simulation(related, lag, n1, e, n2, e, host, asked_after(a1, asked), (fuel - 1) as nat);
            if session(m1, e1, host, asked, 0, fuel) is Some {
                lemma_session_more_fuel(
                    n2,
                    e,
                    host,
                    asked_after(a1, asked),
                    0,
                    (fuel - 1 + lag(n1, n2)) as nat,
                    (fuel - 1 + big) as nat,
                );
            }
        }
    }
}

/// The two states hold the same variables, functions, call stack and values.
pub open spec fn same_but_tasks(m1: Machine, m2: Machine) -> bool {
    &&& m1.vars == m2.vars
    &&& m1.functions == m2.functions
    &&& m1.call_stack == m2.call_stack
    &&& m1.values == m2.values
}

/// The task on top takes a step that reads no answer of the host.
pub open spec fn quiet(m: Machine) -> bool {
    &&& m.tasks.len() > 0
    &&& {
        let t = m.tasks.last();
        ||| t is Stmts || t is Body || t is Repeat || t is PushNull
        ||| t is Eval || t is Discard || t is StoreIn || t is BindArg
    }
}

/// A quiet step does not read what it is told.
proof fn lemma_quiet_step(m: Machine, e1: SpecEvent, e2: SpecEvent)
    requires
        quiet(m),
    ensures
        step_spec(m, e1) == step_spec(m, e2),
{
}

/// The first machine was given `a ++ b` to run, the second `a` and then `b`, with
/// the same work pending above; both have run as far.
pub open spec fn concat_related(a: Seq<SpecExpr>, b: Seq<SpecExpr>) -> spec_fn(
    Machine,
    SpecEvent,
    Machine,
    SpecEvent,
) -> bool {
    |m1: Machine, e1: SpecEvent, m2: Machine, e2: SpecEvent|
        {
            &&& same_but_tasks(m1, m2)
            &&& (e1 == e2 || (quiet(m1) && quiet(m2)))
            &&& {
                ||| m1.tasks == m2.tasks
                ||| {
                    &&& m1.tasks.len() > 0
                    &&& m1.tasks[0] is Stmts
                    &&& m1.tasks[0]->Stmts_0 == a + b
                    &&& 0 <= m1.tasks[0]->Stmts_1 <= a.len()
                    &&& m2.tasks == seq![SpecTask::Stmts(b, 0), SpecTask::Stmts(a, m1.tasks[0]->Stmts_1)]
                        + m1.tasks.drop_first()
                }
                ||| {
                    &&& m1.tasks.len() > 0
                    &&& m1.tasks[0] is Stmts
                    &&& m1.tasks[0]->Stmts_0 == a + b
                    &&& a.len() <= m1.tasks[0]->Stmts_1
                    &&& m2.tasks == seq![SpecTask::Stmts(b, m1.tasks[0]->Stmts_1 - a.len())]
                        + m1.tasks.drop_first()
                }
            }
        }
}

/// The second machine has one task more: it has still to leave `a` for `b`.
pub open spec fn one_behind() -> spec_fn(Machine, Machine) -> nat {
    |m1: Machine, m2: Machine|
        if m2.tasks.len() > m1.tasks.len() {
            1nat
        } else {
            0nat
        }
}

proof fn lemma_concat_step(a: Seq<SpecExpr>, b: Seq<SpecExpr>, m1: Machine, e1: SpecEvent, m2: Machine, e2: SpecEvent)
    requires
        concat_related(a, b)(m1, e1, m2, e2),
    ensures
        sim_step(concat_related(a, b), one_behind(), m1, e1, m2, e2),
{
    let rel = concat_related(a, b);
    if m1.tasks == m2.tasks {
        assert(m1 == m2);
        if m1.tasks.len() > 0 {
            if e1 != e2 {
                lemma_quiet_step(m1, e1, e2);
            }
            let n = step_spec(m1, e1).0;
            assert forall|e: SpecEvent| #[trigger] rel(n, e, n, e) by {}
        }
    } else {
        let k = m1.tasks[0]->Stmts_1;
        let above = m1.tasks.drop_first();
        let below1 = seq![SpecTask::Stmts(a + b, k)];
        let first = m2.tasks.len() == m1.tasks.len() + 1;
        let below2 = if first {
            seq![SpecTask::Stmts(b, 0), SpecTask::Stmts(a, k)]
        } else {
            seq![SpecTask::Stmts(b, k - a.len())]
        };
        assert(m2.tasks == below2 + above);
        assert(m1.tasks =~= below1 + above);
        if above.len() > 0 {
            let ma = m1.with_tasks(above);
            assert(m1 == ma.with_tasks(below1 + ma.tasks));
            assert(m2 == ma.with_tasks(below2 + ma.tasks));
            if e1 != e2 {
                assert(above.last() == m1.tasks.last());
                lemma_quiet_step(ma, e1, e2);
            }
            lemma_step_over(ma, below1, e1);
            lemma_step_over(ma, below2, e2);
            let na = step_spec(ma, e1).0;
            let n1 = step_spec(m1, e1).0;
            let n2 = step_spec(m2, e2).0;
            assert(n1.tasks[0] == below1[0]);
            assert(n1.tasks.drop_first() =~= na.tasks);
            assert(n2.tasks =~= below2 + n1.tasks.drop_first());
            assert forall|e: SpecEvent| #[trigger] rel(n1, e, n2, e) by {}
        } else {
            let n1 = step_spec(m1, e1).0;
            let n2 = step_spec(m2, e2).0;
            if first {
                if k < a.len() {
                    assert((a + b)[k] == a[k]);
                    assert(n1.tasks[0] == SpecTask::Stmts(a + b, k + 1));
                    assert(n2.tasks =~= seq![SpecTask::Stmts(b, 0), SpecTask::Stmts(a, k + 1)]
                        + n1.tasks.drop_first());
                    assert forall|e: SpecEvent| #[trigger] rel(n1, e, n2, e) by {}
                } else {
                    assert(n2.tasks =~= seq![SpecTask::Stmts(b, k - a.len())] + m1.tasks.drop_first());
                    assert(rel(m1, e1, n2, SpecEvent::Proceed));
                }
            } else {
                if k < (a + b).len() {
                    assert((a + b)[k] == b[k - a.len()]);
                    assert(n1.tasks[0] == SpecTask::Stmts(a + b, k + 1));
                    assert(n2.tasks =~= seq![SpecTask::Stmts(b, k + 1 - a.len())] + n1.tasks.drop_first());
                    assert forall|e: SpecEvent| #[trigger] rel(n1, e, n2, e) by {}
                } else {
                    assert(n1.tasks =~= n2.tasks);
                    assert forall|e: SpecEvent| #[trigger] rel(n1, e, n2, e) by {}
                }
            }
        }
    }
}

/// Running `a ++ b` is running `a` and then `b`. Of two interpreters in the
/// same state, one given `a ++ b` to run (`Interpreter::run`) and one given `a`
/// and then `b`, driven by the same host, where one comes to the end so does
/// the other: in the same state, having asked the host for the same work in the
/// same order (the second takes one step more, which asks nothing).
pub proof fn law_run_concat(
    m: Machine,
    a: Seq<SpecExpr>,
    b: Seq<SpecExpr>,
    ev: SpecEvent,
    host: spec_fn(Seq<SpecAction>) -> SpecEvent,
    asked: Seq<SpecAction>,
    fuel: nat,
)
    ensures
        ({
            let whole = m.with_tasks(seq![SpecTask::Stmts(a + b, 0)] + m.tasks);
            let parts = m.with_tasks(seq![SpecTask::Stmts(b, 0), SpecTask::Stmts(a, 0)] + m.tasks);
            &&& session(whole, ev, host, asked, 0, fuel) is Some ==> session(parts, ev, host, asked, 0, fuel + 1)
                == session(whole, ev, host, asked, 0, fuel)
            &&& session(parts, ev, host, asked, 0, fuel) is Some ==> session(whole, ev, host, asked, 0, fuel)
                == session(parts, ev, host, asked, 0, fuel)
        }),
{
    let whole = m.with_tasks(seq![SpecTask::Stmts(a + b, 0)] + m.tasks);
    let parts = m.with_tasks(seq![SpecTask::Stmts(b, 0), SpecTask::Stmts(a, 0)] + m.tasks);
    let rel = concat_related(a, b);
    assert forall|m1: Machine, e1: SpecEvent, m2: Machine, e2: SpecEvent| #[trigger] rel(m1, e1, m2, e2) implies sim_step(
        rel,
        one_behind(),
        m1,
        e1,
        m2,
        e2,
    ) by {
        lemma_concat_step(a, b, m1, e1, m2, e2);
    }
    assert(whole.tasks.drop_first() =~= m.tasks);
    assert(parts.tasks =~= seq![SpecTask::Stmts(b, 0), SpecTask::Stmts(a, 0)] + whole.tasks.drop_first());
    assert(rel(whole, ev, parts, ev));
    lemma_simulation(rel, one_behind(), whole, ev, parts, ev, host, asked, fuel);
}

/// What follows the statements of `body` before position `r`: the evaluation of
/// the operand of the `return` there, or a null value where `r` is the end.
pub open spec fn closing(body: Seq<SpecExpr>, r: int) -> SpecTask {
    if 0 <= r < body.len() {
        SpecTask::Eval(*body[r]->Return_0)
    } else {
        SpecTask::PushNull
    }
}

/// The first machine runs `body` as a function body, the second runs its
/// statements before `r` and then `closing(body, r)`; both have run as far.
pub open spec fn body_related(body: Seq<SpecExpr>, r: int) -> spec_fn(
    Machine,
    SpecEvent,
    Machine,
    SpecEvent,
) -> bool {
    |m1: Machine, e1: SpecEvent, m2: Machine, e2: SpecEvent|
        {
            &&& same_but_tasks(m1, m2)
            &&& (e1 == e2 || (quiet(m1) && quiet(m2)))
            &&& {
                ||| m1.tasks == m2.tasks
                ||| {
                    &&& m1.tasks.len() > 0
                    &&& m1.tasks[0] is Body
                    &&& m1.tasks[0]->Body_0 == body
                    &&& 0 <= m1.tasks[0]->Body_1 <= r
                    &&& m2.tasks == seq![closing(body, r), SpecTask::Stmts(body.take(r), m1.tasks[0]->Body_1)]
                        + m1.tasks.drop_first()
                }
                ||| {
                    &&& r == body.len()
                    &&& m1.tasks == seq![SpecTask::Body(body, r)]
                    &&& m2.tasks == seq![SpecTask::PushNull]
                }
            }
        }
}

proof fn lemma_body_step(
    body: Seq<SpecExpr>,
    r: int,
    m1: Machine,
    e1: SpecEvent,
    m2: Machine,
    e2: SpecEvent,
)
    requires
        first_return(body, r),
        body_related(body, r)(m1, e1, m2, e2),
    ensures
        sim_step(body_related(body, r), one_behind(), m1, e1, m2, e2),
{
    let rel = body_related(body, r);
    let prefix = body.take(r);
    if m1.tasks == m2.tasks {
        assert(m1 == m2);
        if m1.tasks.len() > 0 {
            if e1 != e2 {
                lemma_quiet_step(m1, e1, e2);
            }
            let n = step_spec(m1, e1).0;
            assert forall|e: SpecEvent| #[trigger] rel(n, e, n, e) by {}
        }
    } else if r == body.len() && m1.tasks == seq![SpecTask::Body(body, r)] && m2.tasks == seq![SpecTask::PushNull] {
        let n1 = step_spec(m1, e1).0;
        let n2 = step_spec(m2, e2).0;
        assert(n1.tasks =~= n2.tasks);
        assert forall|e: SpecEvent| #[trigger] rel(n1, e, n2, e) by {}
    } else {
        let j = m1.tasks[0]->Body_1;
        let above = m1.tasks.drop_first();
        let below1 = seq![SpecTask::Body(body, j)];
        let below2 = seq![closing(body, r), SpecTask::Stmts(prefix, j)];
        assert(m1.tasks =~= below1 + above);
        if above.len() > 0 {
            let ma = m1.with_tasks(above);
            assert(m1 == ma.with_tasks(below1 + ma.tasks));
            assert(m2 == ma.with_tasks(below2 + ma.tasks));
            if e1 != e2 {
                assert(above.last() == m1.tasks.last());
                lemma_quiet_step(ma, e1, e2);
            }
            lemma_step_over(ma, below1, e1);
            lemma_step_over(ma, below2, e2);
            let na = step_spec(ma, e1).0;
            let n1 = step_spec(m1, e1).0;
            let n2 = step_spec(m2, e2).0;
            assert(n1.tasks[0] == below1[0]);
            assert(n1.tasks.drop_first() =~= na.tasks);
            assert(n2.tasks =~= below2 + n1.tasks.drop_first());
            assert forall|e: SpecEvent| #[trigger] rel(n1, e, n2, e) by {}
        } else {
            let n1 = step_spec(m1, e1).0;
            let n2 = step_spec(m2, e2).0;
            if j < r {
                assert(prefix[j] == body[j]);
                assert(!(body[j] is Return));
                assert(n1.tasks[0] == SpecTask::Body(body, j + 1));
                assert(n2.tasks =~= seq![closing(body, r), SpecTask::Stmts(prefix, j + 1)] + n1.tasks.drop_first());
                assert forall|e: SpecEvent| #[trigger] rel(n1, e, n2, e) by {}
            } else if r < body.len() {
                assert(n1.tasks =~= n2.tasks);
                assert forall|e: SpecEvent| #[trigger] rel(n1, e, n2, e) by {}
            } else {
                assert(n2.tasks =~= seq![SpecTask::PushNull]);
                assert(m1.tasks =~= seq![SpecTask::Body(body, r)]);
                assert(rel(m1, e1, n2, SpecEvent::Proceed));
            }
        }
    }
}

proof fn lemma_body_simulation(body: Seq<SpecExpr>, r: int)
    requires
        first_return(body, r),
    ensures
        simulation(body_related(body, r), one_behind()),
{
    let rel = body_related(body, r);
    assert forall|m1: Machine, e1: SpecEvent, m2: Machine, e2: SpecEvent| #[trigger] rel(m1, e1, m2, e2) implies sim_step(
        rel,
        one_behind(),
        m1,
        e1,
        m2,
        e2,
    ) by {
        lemma_body_step(body, r, m1, e1, m2, e2);
    }
}

/// A function body is the statements before its first top-level `return`, run
/// as `Interpreter::run` runs them, and then the evaluation of that `return`'s
/// operand, or a null value where there is no `return`; whatever follows the
/// `return` is never run. Of two interpreters in the same state, one running
/// `body` as a function body and one running those statements and then that
/// operand, driven by the same host, where one comes to the end so does the
/// other, in the same state, having asked the host for the same work in the
/// same order (the first is at most one step quicker). With more work below,
/// `law_frame` carries this over.
pub proof fn law_body_is_prefix_then_return(
    m: Machine,
    body: Seq<SpecExpr>,
    r: int,
    ev: SpecEvent,
    host: spec_fn(Seq<SpecAction>) -> SpecEvent,
    asked: Seq<SpecAction>,
    fuel: nat,
)
    requires
        first_return(body, r),
    ensures
        ({
            let as_body = m.with_tasks(seq![SpecTask::Body(body, 0)]);
            let as_stmts = m.with_tasks(seq![closing(body, r), SpecTask::Stmts(body.take(r), 0)]);
            &&& session(as_body, ev, host, asked, 0, fuel) is Some ==> session(as_stmts, ev, host, asked, 0, fuel + 1)
                == session(as_body, ev, host, asked, 0, fuel)
            &&& session(as_stmts, ev, host, asked, 0, fuel) is Some ==> session(as_body, ev, host, asked, 0, fuel)
                == session(as_stmts, ev, host, asked, 0, fuel)
        }),
{
    let as_body = m.with_tasks(seq![SpecTask::Body(body, 0)]);
    let as_stmts = m.with_tasks(seq![closing(body, r), SpecTask::Stmts(body.take(r), 0)]);
    let rel = body_related(body, r);
    lemma_body_simulation(body, r);
    assert(as_body.tasks.drop_first() =~= Seq::<SpecTask>::empty());
    assert(as_stmts.tasks =~= seq![closing(body, r), SpecTask::Stmts(body.take(r), 0)] + as_body.tasks.drop_first());
    assert(rel(as_body, ev, as_stmts, ev));
    lemma_simulation(rel, one_behind(), as_body, ev, as_stmts, ev, host, asked, fuel);
}

/// `if` runs the chosen branch to its end, and then gives null. Once the branch
/// is chosen (at once for a condition that is not a number; for a number, after
/// the host answered whether it is nonzero), the run down to the `if`'s own
/// place, with the null still to come, is the run of the chosen branch by itself,
/// as `Interpreter::run` runs it on an idle interpreter in the same state: it asks
/// the same work and ends in the same state, with the `if`'s null and the work
/// below it still to do. The other branch is never run.
pub proof fn law_if_runs_chosen_branch(
    m: Machine,
    ev1: SpecEvent,
    ev2: SpecEvent,
    body: Seq<SpecExpr>,
    else_body: Seq<SpecExpr>,
    host: spec_fn(Seq<SpecAction>) -> SpecEvent,
    asked: Seq<SpecAction>,
    fuel: nat,
)
    requires
        m.tasks.len() > 0,
        m.tasks.last() == SpecTask::Branch(body, else_body),
        m.values.len() > 0,
    ensures
        ({
            let c = m.values.last();
            let below = m.tasks.drop_last();
            let rest = below.push(SpecTask::PushNull);
            let (m1, a1) = step_spec(m, ev1);
            let (m2, a2) = step_spec(m1, ev2);
            let chosen = |t: bool| if t { body } else { else_body };
            let decided = if c is Number { m2 } else { m1 };
            let branch = if c is Number { chosen(ev2 matches SpecEvent::Truth(b) && b) } else { chosen(truthy(c)) };
            let alone = decided.with_tasks(seq![SpecTask::Stmts(branch, 0)]);
            &&& if c is Number {
                a1 == SpecAction::Truth(c->Number_0) && a2 is Continue
            } else {
                a1 is Continue
            }
            &&& decided.values == m.values.drop_last()
            &&& decided.vars == m.vars
            &&& decided.tasks == rest.push(SpecTask::Stmts(branch, 0))
            &&& session(decided, SpecEvent::Proceed, host, asked, rest.len(), fuel) == put_below(
                session(alone, SpecEvent::Proceed, host, asked, 0, fuel),
                rest,
            )
        }),
{
    let c = m.values.last();
    let below = m.tasks.drop_last();
    let rest = below.push(SpecTask::PushNull);
    let (m1, a1) = step_spec(m, ev1);
    let (m2, a2) = step_spec(m1, ev2);
    let decided = if c is Number { m2 } else { m1 };
    let branch = if c is Number {
        if ev2 matches SpecEvent::Truth(b) && b { body } else { else_body }
    } else {
        if truthy(c) { body } else { else_body }
    };
    let alone = decided.with_tasks(seq![SpecTask::Stmts(branch, 0)]);
    assert(decided.tasks =~= rest + alone.tasks);
    assert(decided == alone.with_tasks(rest + alone.tasks));
    law_frame(alone, rest, SpecEvent::Proceed, host, asked, fuel);
}

/// The statements of `body`, `k` times over.
pub open spec fn repeated(body: Seq<SpecExpr>, k: int) -> Seq<SpecExpr>
    decreases k,
{
    if k <= 0 {
        Seq::empty()
    } else {
        repeated(body, k - 1) + body
    }
}

proof fn lemma_repeated(body: Seq<SpecExpr>, k: int, q: int, i: int)
    requires
        0 <= q < k,
        0 <= i < body.len(),
    ensures
        repeated(body, k).len() == k * body.len(),
        q * body.len() + i < repeated(body, k).len(),
        repeated(body, k)[q * body.len() + i] == body[i],
    decreases k,
{
    let n = body.len() as int;
    lemma_repeated_len(body, k);
    if k > 1 {
        if q < k - 1 {
            lemma_repeated(body, k - 1, q, i);
        } else {
            lemma_repeated(body, k - 1, 0, i);
        }
    }
    assert(k * n == (k - 1) * n + n) by (nonlinear_arith);
    if q < k - 1 {
        assert(q * n + i < (k - 1) * n) by (nonlinear_arith)
            requires
                0 <= q < k - 1,
                0 <= i < n,
        ;
    } else {
        assert(q * n == (k - 1) * n);
    }
    assert(q * n + i < k * n) by (nonlinear_arith)
        requires
            q < k,
            0 <= i < n,
    ;
    if k <= 1 {
        assert(repeated(body, k - 1) =~= Seq::<SpecExpr>::empty());
        assert(q == 0);
    }
}

proof fn lemma_repeated_len(body: Seq<SpecExpr>, k: int)
    requires
        0 <= k,
    ensures
        repeated(body, k).len() == k * body.len(),
    decreases k,
{
    let n = body.len() as int;
    if k > 0 {
        lemma_repeated_len(body, k - 1);
        assert(repeated(body, k) == repeated(body, k - 1) + body);
        assert(k * n == (k - 1) * n + n) by (nonlinear_arith);
    } else {
        assert(k * n == 0) by (nonlinear_arith)
            requires
                k == 0,
        ;
    }
}

/// The first machine runs `repeated(body, k)` and then pushes null, the second
/// runs a loop of `k` rounds of `body`; both have run as far.
pub open spec fn loop_related(body: Seq<SpecExpr>, k: int) -> spec_fn(
    Machine,
    SpecEvent,
    Machine,
    SpecEvent,
) -> bool {
    |m1: Machine, e1: SpecEvent, m2: Machine, e2: SpecEvent|
        {
            let rep = repeated(body, k);
            let len = body.len() as int;
            &&& same_but_tasks(m1, m2)
            &&& (e1 == e2 || (quiet(m1) && quiet(m2)))
            &&& {
                ||| m1 == m2 && m1.tasks.len() == 0
                ||| {
                    &&& m2.tasks.len() == 1
                    &&& m2.tasks[0] is Repeat
                    &&& m2.tasks[0]->Repeat_0 == body
                    &&& 0 < m2.tasks[0]->Repeat_1 <= k
                    &&& m1.tasks == seq![
                        SpecTask::PushNull,
                        SpecTask::Stmts(rep, (k - m2.tasks[0]->Repeat_1) * len),
                    ]
                }
                ||| {
                    &&& m2.tasks.len() >= 2
                    &&& m2.tasks[0] is Repeat
                    &&& m2.tasks[0]->Repeat_0 == body
                    &&& 0 <= m2.tasks[0]->Repeat_1 < k
                    &&& m2.tasks[1] is Stmts
                    &&& m2.tasks[1]->Stmts_0 == body
                    &&& 0 <= m2.tasks[1]->Stmts_1 <= len
                    &&& m1.tasks.len() >= 2
                    &&& m1.tasks[0] == SpecTask::PushNull
                    &&& m1.tasks[1] == SpecTask::Stmts(
                        rep,
                        (k - 1 - m2.tasks[0]->Repeat_1) * len + m2.tasks[1]->Stmts_1,
                    )
                    &&& m1.tasks.skip(2) == m2.tasks.skip(2)
                }
                ||| {
                    &&& m2.tasks == seq![SpecTask::Repeat(body, 0)]
                    &&& m1.tasks == seq![SpecTask::PushNull]
                }
            }
        }
}

/// The steps that the loop takes and the other does not: two for each round
/// still to start (one to leave the last round, one to start the next).
pub open spec fn rounds_behind() -> spec_fn(Machine, Machine) -> nat {
    |m1: Machine, m2: Machine|
        if m2.tasks.len() > 0 && m2.tasks[0] is Repeat && m2.tasks[0]->Repeat_1 > 0 {
            if m2.tasks.len() >= 2 {
                (2 * m2.tasks[0]->Repeat_1) as nat
            } else {
                (2 * m2.tasks[0]->Repeat_1 - 1) as nat
            }
        } else {
            0nat
        }
}

proof fn lemma_loop_step(
    body: Seq<SpecExpr>,
    k: int,
    m1: Machine,
    e1: SpecEvent,
    m2: Machine,
    e2: SpecEvent,
)
    requires
        0 < k,
        loop_related(body, k)(m1, e1, m2, e2),
    ensures
        sim_step(loop_related(body, k), rounds_behind(), m1, e1, m2, e2),
{
    let rel = loop_related(body, k);
    let rep = repeated(body, k);
    let len = body.len() as int;
    lemma_repeated_len(body, k);
    let n1 = step_spec(m1, e1).0;
    let n2 = step_spec(m2, e2).0;
    if m1 == m2 && m1.tasks.len() == 0 {
    } else if m2.tasks == seq![SpecTask::Repeat(body, 0)] && m1.tasks == seq![SpecTask::PushNull] {
        assert(n1.tasks =~= n2.tasks);
        assert(n1 == n2);
        assert forall|e: SpecEvent| #[trigger] rel(n1, e, n2, e) by {}
    } else if m2.tasks.len() == 1 {
        let n = m2.tasks[0]->Repeat_1;
        assert(m2.tasks.last() == SpecTask::Repeat(body, n));
        assert(n2.tasks =~= seq![SpecTask::Repeat(body, n - 1), SpecTask::Stmts(body, 0)]);
        assert((k - 1 - (n - 1)) * len + 0 == (k - n) * len);
        assert(n2.tasks.skip(2) =~= m1.tasks.skip(2));
        assert(rel(m1, e1, n2, SpecEvent::Proceed));
    } else {
        let n = m2.tasks[0]->Repeat_1;
        let i = m2.tasks[1]->Stmts_1;
        let j = (k - 1 - n) * len + i;
        let above = m2.tasks.skip(2);
        let below1 = seq![SpecTask::PushNull, SpecTask::Stmts(rep, j)];
        let below2 = seq![SpecTask::Repeat(body, n), SpecTask::Stmts(body, i)];
        assert(m1.tasks =~= below1 + above);
        assert(m2.tasks =~= below2 + above);
        if above.len() > 0 {
            let ma = m1.with_tasks(above);
            assert(m1 == ma.with_tasks(below1 + ma.tasks));
            assert(m2 == ma.with_tasks(below2 + ma.tasks));
            if e1 != e2 {
                assert(above.last() == m1.tasks.last());
                lemma_quiet_step(ma, e1, e2);
            }
            lemma_step_over(ma, below1, e1);
            lemma_step_over(ma, below2, e2);
            let na = step_spec(ma, e1).0;
            assert(n1.tasks =~= below1 + na.tasks);
            assert(n2.tasks =~= below2 + na.tasks);
            assert(n1.tasks.skip(2) =~= na.tasks);
            assert(n2.tasks.skip(2) =~= na.tasks);
            assert forall|e: SpecEvent| #[trigger] rel(n1, e, n2, e) by {}
        } else if i < len {
            lemma_repeated(body, k, k - 1 - n, i);
            assert(rep[j] == body[i]);
            assert(n1.tasks =~= seq![
                SpecTask::PushNull,
                SpecTask::Stmts(rep, j + 1),
                SpecTask::Discard,
                SpecTask::Eval(body[i]),
            ]);
            assert(n2.tasks =~= seq![
                SpecTask::Repeat(body, n),
                SpecTask::Stmts(body, i + 1),
                SpecTask::Discard,
                SpecTask::Eval(body[i]),
            ]);
            assert(n1.tasks.skip(2) =~= n2.tasks.skip(2));
            assert forall|e: SpecEvent| #[trigger] rel(n1, e, n2, e) by {}
        } else if n > 0 {
            assert(j == (k - n) * len) by (nonlinear_arith)
                requires
                    j == (k - 1 - n) * len + i,
                    i == len,
            ;
            assert(n2.tasks =~= seq![SpecTask::Repeat(body, n)]);
            assert(rel(m1, e1, n2, SpecEvent::Proceed));
        } else {
            assert(j == k * len) by (nonlinear_arith)
                requires
                    j == (k - 1 - n) * len + i,
                    i == len,
                    n == 0,
            ;
            assert(n2.tasks =~= seq![SpecTask::Repeat(body, 0)]);
            assert(n1.tasks =~= seq![SpecTask::PushNull]);
            assert forall|e: SpecEvent| #[trigger] rel(n1, e, n2, e) by {}
        }
    }
}

/// A loop of `k` rounds is its body run `k` times over, and then null: of two
/// interpreters in the same state, one running a loop of `body` with `k > 0`
/// rounds and one running `repeated(body, k)` (as one `Interpreter::run` of those
/// statements, which `law_run_concat` splits into `k` runs of the body) and then
/// pushing null, driven by the same host, where one comes to the end so does the
/// other, in the same state, having asked the host for the same work in the
/// same order. With no rounds, a loop gives null at once.
pub proof fn law_loop_is_repeated_body(
    m: Machine,
    body: Seq<SpecExpr>,
    k: int,
    ev: SpecEvent,
    host: spec_fn(Seq<SpecAction>) -> SpecEvent,
    asked: Seq<SpecAction>,
    fuel: nat,
)
    ensures
        ({
            let as_loop = m.with_tasks(seq![SpecTask::Repeat(body, k)]);
            let unrolled = m.with_tasks(seq![SpecTask::PushNull, SpecTask::Stmts(repeated(body, k), 0)]);
            &&& k > 0 && session(unrolled, ev, host, asked, 0, fuel) is Some ==> session(
                as_loop,
                ev,
                host,
                asked,
                0,
                (fuel + 2 * k - 1) as nat,
            ) == session(unrolled, ev, host, asked, 0, fuel)
            &&& k > 0 && session(as_loop, ev, host, asked, 0, fuel) is Some ==> session(unrolled, ev, host, asked, 0, fuel)
                == session(as_loop, ev, host, asked, 0, fuel)
            &&& k <= 0 ==> step_spec(as_loop, ev) == (
                m.with_tasks(Seq::empty()).push_value(SpecValue::Null),
                SpecAction::Continue,
            )
        }),
{
    let as_loop = m.with_tasks(seq![SpecTask::Repeat(body, k)]);
    let unrolled = m.with_tasks(seq![SpecTask::PushNull, SpecTask::Stmts(repeated(body, k), 0)]);
    if k > 0 {
        let rel = loop_related(body, k);
        assert forall|m1: Machine, e1: SpecEvent, m2: Machine, e2: SpecEvent| #[trigger] rel(m1, e1, m2, e2) implies sim_step(
            rel,
            rounds_behind(),
            m1,
            e1,
            m2,
            e2,
        ) by {
            lemma_loop_step(body, k, m1, e1, m2, e2);
        }
        assert((k - k) * body.len() == 0);
        assert(rel(unrolled, ev, as_loop, ev));
        lemma_simulation(rel, rounds_behind(), unrolled, ev, as_loop, ev, host, asked, fuel);
    } else {
        assert(as_loop.tasks.drop_last() =~= Seq::<SpecTask>::empty());
    }
}

/// The statements that bind the arguments of a call: `args[i] store params[i]`,
/// in order.
pub open spec fn bindings(params: Seq<Seq<char>>, args: Seq<SpecExpr>) -> Seq<SpecExpr> {
    Seq::new(args.len(), |i: int| SpecExpr::Store { value: Box::new(args[i]), name: params[i] })
}

/// The argument tasks from the `i`-th argument on.
pub open spec fn args_from(params: Seq<Seq<char>>, args: Seq<SpecExpr>, i: int) -> Seq<SpecTask> {
    arg_tasks(params.skip(i), args.skip(i))
}

proof fn lemma_args_from(params: Seq<Seq<char>>, args: Seq<SpecExpr>, i: int)
    requires
        params.len() == args.len(),
        0 <= i <= args.len(),
    ensures
        i < args.len() ==> args_from(params, args, i) == args_from(params, args, i + 1) + seq![
            SpecTask::BindArg(params[i]),
            SpecTask::Eval(args[i]),
        ],
        i == args.len() ==> args_from(params, args, i) == Seq::<SpecTask>::empty(),
{
    if i < args.len() {
        assert(params.skip(i).drop_first() =~= params.skip(i + 1));
        assert(args.skip(i).drop_first() =~= args.skip(i + 1));
    } else {
        assert(args.skip(i) =~= Seq::<SpecExpr>::empty());
    }
}

/// The first machine binds the arguments of a call as a call does, the second runs
/// their `bindings` as statements; both then run `body` as a function body, and
/// both have run as far.
pub open spec fn call_related(params: Seq<Seq<char>>, args: Seq<SpecExpr>, body: Seq<SpecExpr>) -> spec_fn(
    Machine,
    SpecEvent,
    Machine,
    SpecEvent,
) -> bool {
    |m1: Machine, e1: SpecEvent, m2: Machine, e2: SpecEvent|
        {
            let t0 = SpecTask::Body(body, 0);
            let binds = bindings(params, args);
            let n = args.len() as int;
            let j = m2.tasks[1]->Stmts_1;
            &&& m1.functions == m2.functions
            &&& m1.call_stack == m2.call_stack
            &&& m1.values == m2.values
            &&& (e1 == e2 || (quiet(m1) && quiet(m2)))
            &&& {
                ||| m1 == m2
                ||| {
                    &&& m2.tasks.len() == 2
                    &&& 0 <= j <= n
                    &&& m1.vars == m2.vars
                    &&& m2.tasks == seq![t0, SpecTask::Stmts(binds, j)]
                    &&& m1.tasks == seq![t0] + args_from(params, args, j)
                }
                ||| {
                    &&& m2.tasks.len() == 4
                    &&& 1 <= j <= n
                    &&& m1.vars == m2.vars
                    &&& m2.tasks == seq![
                        t0,
                        SpecTask::Stmts(binds, j),
                        SpecTask::Discard,
                        SpecTask::Eval(binds[j - 1]),
                    ]
                    &&& m1.tasks == seq![t0] + args_from(params, args, j - 1)
                }
                ||| {
                    &&& m2.tasks.len() >= 4
                    &&& 1 <= j <= n
                    &&& m1.vars == m2.vars
                    &&& m2.tasks.take(4) == seq![
                        t0,
                        SpecTask::Stmts(binds, j),
                        SpecTask::Discard,
                        SpecTask::StoreIn(params[j - 1]),
                    ]
                    &&& m1.tasks == seq![t0] + args_from(params, args, j) + seq![SpecTask::BindArg(params[j - 1])]
                        + m2.tasks.skip(4)
                }
                ||| {
                    &&& m2.tasks.len() == 3
                    &&& 1 <= j <= n
                    &&& m2.tasks == seq![t0, SpecTask::Stmts(binds, j), SpecTask::Discard]
                    &&& m1.tasks == seq![t0] + args_from(params, args, j) + seq![SpecTask::BindArg(params[j - 1])]
                    &&& m2.vars == m1.vars.insert(params[j - 1], top(m1.values))
                }
            }
        }
}

/// The steps that the statements take and the call does not: three for each
/// argument still to bind (to start its statement, to start its store, and to
/// store), and one to leave the statements.
pub open spec fn binds_behind(n: int) -> spec_fn(Machine, Machine) -> nat {
    |m1: Machine, m2: Machine|
        if m1.tasks != m2.tasks && m2.tasks.len() >= 2 && m2.tasks[1] is Stmts && m2.tasks[1]->Stmts_1 <= n {
            let rem = n - m2.tasks[1]->Stmts_1;
            if m2.tasks.len() <= 3 {
                (3 * rem + 1) as nat
            } else if m2.tasks[3] is StoreIn {
                (3 * rem + 2) as nat
            } else {
                (3 * rem + 3) as nat
            }
        } else {
            0nat
        }
}

proof fn lemma_call_step(
    params: Seq<Seq<char>>,
    args: Seq<SpecExpr>,
    body: Seq<SpecExpr>,
    m1: Machine,
    e1: SpecEvent,
    m2: Machine,
    e2: SpecEvent,
)
    requires
        params.len() == args.len(),
        call_related(params, args, body)(m1, e1, m2, e2),
    ensures
        sim_step(call_related(params, args, body), binds_behind(args.len() as int), m1, e1, m2, e2),
{
    let rel = call_related(params, args, body);
    let t0 = SpecTask::Body(body, 0);
    let binds = bindings(params, args);
    let n = args.len() as int;
    let j = m2.tasks[1]->Stmts_1;
    let n1 = step_spec(m1, e1).0;
    let n2 = step_spec(m2, e2).0;
    if m1 == m2 {
        if m1.tasks.len() > 0 {
            if e1 != e2 {
                lemma_quiet_step(m1, e1, e2);
            }
            assert forall|e: SpecEvent| #[trigger] rel(n1, e, n2, e) by {}
        }
    } else if m2.tasks.len() == 2 {
        lemma_args_from(params, args, j);
        if j < n {
            assert(n2.tasks =~= seq![t0, SpecTask::Stmts(binds, j + 1), SpecTask::Discard, SpecTask::Eval(binds[j])]);
            assert(n2.tasks[1]->Stmts_1 == j + 1);
            assert(rel(m1, e1, n2, SpecEvent::Proceed));
        } else {
            assert(m1.tasks =~= seq![t0]);
            assert(n2.tasks =~= seq![t0]);
            assert(n2 == m1);
            assert(rel(m1, e1, n2, SpecEvent::Proceed));
        }
    } else if m2.tasks.len() == 3 {
        lemma_args_from(params, args, j);
        assert(n2.tasks =~= seq![t0, SpecTask::Stmts(binds, j)]);
        assert(n1.tasks =~= seq![t0] + args_from(params, args, j));
        assert(n1.vars == n2.vars);
        assert forall|e: SpecEvent| #[trigger] rel(n1, e, n2, e) by {}
    } else if m2.tasks[3] is Eval {
        lemma_args_from(params, args, j - 1);
        assert(binds[j - 1] == SpecExpr::Store { value: Box::new(args[j - 1]), name: params[j - 1] });
        assert(n2.tasks =~= seq![
            t0,
            SpecTask::Stmts(binds, j),
            SpecTask::Discard,
            SpecTask::StoreIn(params[j - 1]),
            SpecTask::Eval(args[j - 1]),
        ]);
        assert(n2.tasks.take(4) =~= seq![
            t0,
            SpecTask::Stmts(binds, j),
            SpecTask::Discard,
            SpecTask::StoreIn(params[j - 1]),
        ]);
        assert(n2.tasks.skip(4) =~= seq![SpecTask::Eval(args[j - 1])]);
        assert(m1.tasks =~= seq![t0] + args_from(params, args, j) + seq![SpecTask::BindArg(params[j - 1])]
            + n2.tasks.skip(4));
        assert(rel(m1, e1, n2, SpecEvent::Proceed));
    } else {
        let above = m2.tasks.skip(4);
        let below1 = seq![t0] + args_from(params, args, j) + seq![SpecTask::BindArg(params[j - 1])];
        let below2 = m2.tasks.take(4);
        assert(m2.tasks =~= below2 + above);
        if above.len() > 0 {
            let ma = m1.with_tasks(above);
            let mb = m2.with_tasks(above);
            assert(m1 == ma.with_tasks(below1 + ma.tasks));
            assert(m2 == mb.with_tasks(below2 + mb.tasks));
            assert(ma == mb);
            if e1 != e2 {
                assert(above.last() == m1.tasks.last());
                lemma_quiet_step(ma, e1, e2);
            }
            lemma_step_over(ma, below1, e1);
            lemma_step_over(ma, below2, e2);
            let na = step_spec(ma, e1).0;
            assert(n1.tasks =~= below1 + na.tasks);
            assert(n2.tasks =~= below2 + na.tasks);
            assert(n2.tasks.take(4) =~= below2);
            assert(n2.tasks.skip(4) =~= na.tasks);
            assert(n2.tasks[1] == m2.tasks[1]);
            assert forall|e: SpecEvent| #[trigger] rel(n1, e, n2, e) by {}
        } else {
            assert(m2.tasks =~= below2);
            assert(n2.tasks =~= seq![t0, SpecTask::Stmts(binds, j), SpecTask::Discard]);
            assert(m1.tasks =~= below1);
            assert(rel(m1, e1, n2, SpecEvent::Proceed));
        }
    }
}

/// A call of a defined function with as many arguments as parameters binds its
/// arguments in order and then runs its body, in a frame of its own: the call
/// step leaves the caller's work and a frame that restores its scope below, and
/// from there until the frame is reached the run is that of an interpreter in the
/// caller's state that runs the statements `args[0] store params[0]`,
/// `args[1] store params[1]`, ... (each argument evaluated after the parameters
/// before it are bound) and then the function's body as a function body: driven
/// by the same host, where one comes to the end so does the other, in the same
/// state, having asked the host for the same work in the same order.
/// `law_body_is_prefix_then_return` tells what the body gives, and
/// `law_call_restores_caller_scope` what the frame puts back.
pub proof fn law_call_binds_then_runs_body(
    m: Machine,
    name: Seq<char>,
    args: Seq<SpecExpr>,
    ev: SpecEvent,
    host: spec_fn(Seq<SpecAction>) -> SpecEvent,
    asked: Seq<SpecAction>,
    fuel: nat,
)
    requires
        m.tasks.len() > 0,
        m.tasks.last() == SpecTask::Eval(SpecExpr::FunctionCall { name, args }),
        m.functions.contains_key(name),
        m.functions[name].params.len() == args.len(),
    ensures
        ({
            let f = m.functions[name];
            let (m1, a) = step_spec(m, ev);
            let frame = m.tasks.drop_last().push(SpecTask::Return(m.vars, m.functions));
            let alone = m1.with_tasks(seq![SpecTask::Body(f.body, 0)] + arg_tasks(f.params, args));
            let stmts = m1.with_tasks(seq![SpecTask::Body(f.body, 0), SpecTask::Stmts(bindings(f.params, args), 0)]);
            &&& a is Continue
            &&& m1.call_stack == m.call_stack.push(name)
            &&& m1.vars == m.vars
            &&& m1.values == m.values
            &&& m1.tasks == frame + alone.tasks
            &&& session(m1, SpecEvent::Proceed, host, asked, frame.len(), fuel) == put_below(
                session(alone, SpecEvent::Proceed, host, asked, 0, fuel),
                frame,
            )
            &&& session(alone, SpecEvent::Proceed, host, asked, 0, fuel) is Some ==> session(
                stmts,
                SpecEvent::Proceed,
                host,
                asked,
                0,
                fuel + 3 * args.len() + 1,
            ) == session(alone, SpecEvent::Proceed, host, asked, 0, fuel)
            &&& session(stmts, SpecEvent::Proceed, host, asked, 0, fuel) is Some ==> session(
                alone,
                SpecEvent::Proceed,
                host,
                asked,
                0,
                fuel,
            ) == session(stmts, SpecEvent::Proceed, host, asked, 0, fuel)
        }),
{
    let f = m.functions[name];
    let (m1, a) = step_spec(m, ev);
    let frame = m.tasks.drop_last().push(SpecTask::Return(m.vars, m.functions));
    let alone = m1.with_tasks(seq![SpecTask::Body(f.body, 0)] + arg_tasks(f.params, args));
    let stmts = m1.with_tasks(seq![SpecTask::Body(f.body, 0), SpecTask::Stmts(bindings(f.params, args), 0)]);
    assert(m1.tasks =~= frame + alone.tasks);
    assert(m1 == alone.with_tasks(frame + alone.tasks));
    law_frame(alone, frame, SpecEvent::Proceed, host, asked, fuel);
    let rel = call_related(f.params, args, f.body);
    let lag = binds_behind(args.len() as int);
    assert forall|x1: Machine, e1: SpecEvent, x2: Machine, e2: SpecEvent| #[trigger] rel(x1, e1, x2, e2) implies sim_step(
        rel,
        lag,
        x1,
        e1,
        x2,
        e2,
    ) by {
        lemma_call_step(f.params, args, f.body, x1, e1, x2, e2);
    }
    assert(f.params.skip(0) =~= f.params);
    assert(args.skip(0) =~= args);
    assert(rel(alone, SpecEvent::Proceed, stmts, SpecEvent::Proceed));
    assert(lag(alone, stmts) == 3 * args.len() + 1);
    lemma_simulation(rel, lag, alone, SpecEvent::Proceed, stmts, SpecEvent::Proceed, host, asked, fuel);
}

/// What a call gives: a call of a defined function with as many arguments as
/// parameters, once its step is taken, runs in its frame as an interpreter in the
/// caller's state that runs the `bindings` of its arguments (`args[i] store
/// params[i]`, in order), then the statements of the body before its first
/// top-level `return`, and then evaluates that `return`'s operand (or gives null
/// where the body has none): driven by the same host, where one comes to the end
/// so does the other, in the same state, with the same value on top, having asked
/// the host for the same work in the same order.
pub proof fn law_call_value(
    m: Machine,
    name: Seq<char>,
    args: Seq<SpecExpr>,
    r: int,
    ev: SpecEvent,
    host: spec_fn(Seq<SpecAction>) -> SpecEvent,
    asked: Seq<SpecAction>,
    fuel: nat,
)
    requires
        m.tasks.len() > 0,
        m.tasks.last() == SpecTask::Eval(SpecExpr::FunctionCall { name, args }),
        m.functions.contains_key(name),
        m.functions[name].params.len() == args.len(),
        first_return(m.functions[name].body, r),
    ensures
        ({
            let f = m.functions[name];
            let m1 = step_spec(m, ev).0;
            let alone = m1.with_tasks(seq![SpecTask::Body(f.body, 0)] + arg_tasks(f.params, args));
            let plain = m1.with_tasks(
                seq![
                    closing(f.body, r),
                    SpecTask::Stmts(f.body.take(r), 0),
                    SpecTask::Stmts(bindings(f.params, args), 0),
                ],
            );
            &&& session(alone, SpecEvent::Proceed, host, asked, 0, fuel) is Some ==> session(
                plain,
                SpecEvent::Proceed,
                host,
                asked,
                0,
                fuel + 3 * args.len() + 2,
            ) == session(alone, SpecEvent::Proceed, host, asked, 0, fuel)
            &&& session(plain, SpecEvent::Proceed, host, asked, 0, fuel) is Some ==> session(
                alone,
                SpecEvent::Proceed,
                host,
                asked,
                0,
                fuel,
            ) == session(plain, SpecEvent::Proceed, host, asked, 0, fuel)
        }),
{
    let f = m.functions[name];
    let m1 = step_spec(m, ev).0;
    let stmts = m1.with_tasks(seq![SpecTask::Body(f.body, 0), SpecTask::Stmts(bindings(f.params, args), 0)]);
    let plain = m1.with_tasks(
        seq![
            closing(f.body, r),
            SpecTask::Stmts(f.body.take(r), 0),
            SpecTask::Stmts(bindings(f.params, args), 0),
        ],
    );
    let n = args.len();
    law_call_binds_then_runs_body(m, name, args, ev, host, asked, fuel);
    lemma_body_simulation(f.body, r);
    let rel = body_related(f.body, r);
    assert(plain.tasks =~= seq![closing(f.body, r), SpecTask::Stmts(f.body.take(r), 0)] + stmts.tasks.drop_first());
    assert(rel(stmts, SpecEvent::Proceed, plain, SpecEvent::Proceed));
    assert(one_behind()(stmts, plain) == 1);
    lemma_simulation(rel, one_behind(), stmts, SpecEvent::Proceed, plain, SpecEvent::Proceed, host, asked, fuel + 3 * n + 1);
    lemma_simulation(rel, one_behind(), stmts, SpecEvent::Proceed, plain, SpecEvent::Proceed, host, asked, fuel);
}

} // verus!
