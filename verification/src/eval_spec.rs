//! What the interpreter computes, as functions on plain values.
//!
//! Each function takes the state of the interpreter `st`, the core frame `c`
//! that every name lookup falls back to, the host's answers `o` to the
//! requests made of it (in the order they started), the number `k` of answers used so
//! far, and the fuel `f`: the depth of task calls still allowed. It gives the
//! outcome, the state after it and the new number of answers used.
use vstd::prelude::*;
use vstd::utf8::encode_utf8;
use crate::ast::{ExprView, LiteralView, ParamView};
use crate::interp::{ParamSource, UnOpKind, hoist_of, param_source, unop_of};
use crate::runtime::{
    EvalResult, HostEntry, HostRequest, RtView, TaskView, Val, object_field, put_field, text_at, var_value,
    with_array, with_error, with_frame, with_object, with_task, with_text, with_var,
};
use crate::text::{debug_text, decimal};
use crate::types::{HankError, ValueType};

verus! {

/// An evaluation step: the outcome, the state after it and the number of
/// native answers used.
pub type Eval = (EvalResult, RtView, nat);

/// The kind of a value.
pub open spec fn kind_of(v: Val) -> ValueType {
    match v {
        Val::Void => ValueType::Void,
        Val::Number(_) => ValueType::Number,
        Val::String(_) => ValueType::String,
        Val::Array(_) => ValueType::Array,
        Val::Object(_) => ValueType::Object,
        Val::Opaque(_) => ValueType::Opaque,
        Val::Task(_) => ValueType::Task,
        Val::Error(_) => ValueType::Error,
    }
}

/// A number with the value `n`: its decimal text is stored.
pub open spec fn count_value(st: RtView, n: nat) -> (RtView, Val) {
    (with_text(st, decimal(n)), Val::Number(st.texts.len() as usize))
}

/// The value of a literal; a number or a string stores its text.
pub open spec fn literal_value(st: RtView, l: LiteralView) -> (RtView, Val) {
    match l {
        LiteralView::Void => (st, Val::Void),
        LiteralView::Number(t) => (with_text(st, t), Val::Number(st.texts.len() as usize)),
        LiteralView::String(s) => (with_text(st, s), Val::String(st.texts.len() as usize)),
    }
}

/// An error outcome with no arguments.
pub open spec fn fail_plain(st: RtView, code: HankError, k: nat) -> Eval {
    (
        EvalResult::Error(Val::Error(st.errors.len() as usize)),
        with_error(st, code, Seq::empty()),
        k,
    )
}

/// An error outcome with one text argument.
pub open spec fn fail_text(st: RtView, code: HankError, text: Seq<char>, k: nat) -> Eval {
    let st1 = with_text(st, text);
    (
        EvalResult::Error(Val::Error(st1.errors.len() as usize)),
        with_error(st1, code, seq![Val::String(st.texts.len() as usize)]),
        k,
    )
}

/// The outcome when the calls nest deeper than the fuel allows.
pub open spec fn overflow(st: RtView, k: nat) -> Eval {
    fail_text(st, HankError::GenericRuntimeError, "Stack overflow"@, k)
}

/// The task a definition evaluates to, defined in frame `sc`.
pub open spec fn user_task(params: Seq<ParamView>, body: ExprView, sc: nat) -> TaskView {
    TaskView::User { name: "anonymous"@, params, body, closure: sc }
}

/// The state after the task definitions of a block are bound to their
/// names, from statement `i` on.
pub open spec fn hoist_all(stmts: Seq<ExprView>, i: int, sc: nat, st: RtView) -> RtView
    decreases stmts.len() - i,
{
    if i < 0 || i >= stmts.len() {
        st
    } else {
        let st1 = match stmts[i] {
            ExprView::Assign(name, v, _) => match *v {
                ExprView::FuncDef(ps, body, _) => with_var(
                    with_task(st, user_task(ps, *body, sc)),
                    sc,
                    name,
                    Val::Task(st.tasks.len() as usize),
                ),
                ExprView::Assign(inner, w, _) => match *w {
                    ExprView::FuncDef(ps, body, _) => with_var(
                        with_task(st, user_task(ps, *body, sc)),
                        sc,
                        inner,
                        Val::Task(st.tasks.len() as usize),
                    ),
                    _ => st,
                },
                _ => st,
            },
            _ => st,
        };
        hoist_all(stmts, i + 1, sc, st1)
    }
}

/// A node evaluated in frame `sc`.
pub open spec fn eval_expr(
    e: ExprView,
    sc: nat,
    st: RtView,
    c: nat,
    o: Seq<HostEntry>,
    k: nat,
    f: nat,
) -> Eval
    decreases f, 1int, e, 1int,
{
    match e {
        ExprView::Block(stmts, _) => run_stmts(stmts, 0, Val::Void, sc, hoist_all(stmts, 0, sc, st), c, o, k, f),
        ExprView::Assign(name, v, _) => match eval_expr(*v, sc, st, c, o, k, f) {
            (EvalResult::Val(x), st1, k1) => (EvalResult::Val(x), with_var(st1, sc, name, x), k1),
            other => other,
        },
        ExprView::Literal(l, _) => {
            let (st1, v) = literal_value(st, l);
            (EvalResult::Val(v), st1, k)
        },
        ExprView::Ident(name, core, _) => {
            let v = if core {
                var_value(st, c, name)
            } else {
                let v = var_value(st, sc, name);
                if v is Void {
                    var_value(st, c, name)
                } else {
                    v
                }
            };
            (EvalResult::Val(v), st, k)
        },
        ExprView::Field(b, name, _) => match eval_expr(*b, sc, st, c, o, k, f) {
            (EvalResult::Val(Val::Object(h)), st1, k1) => (
                EvalResult::Val(object_field(st1, h as nat, name)),
                st1,
                k1,
            ),
            (EvalResult::Val(Val::Array(h)), st1, k1) => if name == "length"@ {
                let n: nat = if h < st1.arrays.len() {
                    st1.arrays[h as int].len()
                } else {
                    0
                };
                let (st2, v) = count_value(st1, n);
                (EvalResult::Val(v), st2, k1)
            } else {
                (EvalResult::Val(Val::Void), st1, k1)
            },
            (EvalResult::Val(Val::String(h)), st1, k1) => if name == "length"@ {
                let (st2, v) = count_value(st1, encode_utf8(text_at(st1, h as nat)).len());
                (EvalResult::Val(v), st2, k1)
            } else {
                (EvalResult::Val(Val::Void), st1, k1)
            },
            (EvalResult::Val(_), st1, k1) => (EvalResult::Val(Val::Void), st1, k1),
            other => other,
        },
        ExprView::FuncDef(params, body, _) => (
            EvalResult::Val(Val::Task(st.tasks.len() as usize)),
            with_task(st, user_task(params, *body, sc)),
            k,
        ),
        ExprView::FuncCall(target, args, _) => match eval_expr(*target, sc, st, c, o, k, f) {
            (EvalResult::Val(tv), st1, k1) => match eval_items(args, 0, Seq::empty(), sc, st1, c, o, k1, f) {
                (Ok(vals), st2, k2) => call_task(tv, vals, sc, st2, c, o, k2, f),
                (Err(r), st2, k2) => (r, st2, k2),
            },
            other => other,
        },
        ExprView::UnOp(op, b, _) => match eval_expr(*b, sc, st, c, o, k, f) {
            (EvalResult::Val(v), st1, k1) => match unop_of(op) {
                UnOpKind::Negate => if !(v is Void) {
                    (EvalResult::Val(Val::Void), st1, k1)
                } else {
                    let (st2, one) = count_value(st1, 1);
                    (EvalResult::Val(one), st2, k1)
                },
                UnOpKind::Keep => (EvalResult::Val(v), st1, k1),
                UnOpKind::Return => (EvalResult::Return(v), st1, k1),
                UnOpKind::Discard => (EvalResult::Val(Val::Void), st1, k1),
            },
            other => other,
        },
        ExprView::Object(fields, _) => match eval_fields(fields, 0, Seq::empty(), sc, st, c, o, k, f) {
            (Ok(fv), st1, k1) => (
                EvalResult::Val(Val::Object(st1.objects.len() as usize)),
                with_object(st1, fv),
                k1,
            ),
            (Err(r), st1, k1) => (r, st1, k1),
        },
        ExprView::Array(items, _) => match eval_items(items, 0, Seq::empty(), sc, st, c, o, k, f) {
            (Ok(vals), st1, k1) => (
                EvalResult::Val(Val::Array(st1.arrays.len() as usize)),
                with_array(st1, vals),
                k1,
            ),
            (Err(r), st1, k1) => (r, st1, k1),
        },
        ExprView::Error(code, args, _) => match eval_items(args, 0, Seq::empty(), sc, st, c, o, k, f) {
            (Ok(vals), st1, k1) => (
                EvalResult::Val(Val::Error(st1.errors.len() as usize)),
                with_error(st1, code, vals),
                k1,
            ),
            (Err(r), st1, k1) => (r, st1, k1),
        },
        ExprView::FlowControl { rescue, catch_var, .. } => match (flow_branch(e, sc, st, c, o, k, f), rescue) {
            ((EvalResult::Error(ev), st2, k2), Some(r)) => {
                let rf = st2.frames.len();
                let st3 = with_frame(st2, sc);
                let st4 = match catch_var {
                    Some(n) => with_var(st3, rf, n, ev),
                    None => st3,
                };
                eval_expr(*r, rf, st4, c, o, k2, f)
            },
            (other, _) => other,
        },
    }
}

/// The branch a flow control takes: its success block when the condition is
/// truthy, else its fallback, else nothing; or the condition's outcome when
/// that is not a value.
pub open spec fn flow_branch(
    e: ExprView,
    sc: nat,
    st: RtView,
    c: nat,
    o: Seq<HostEntry>,
    k: nat,
    f: nat,
) -> Eval
    decreases f, 1int, e, 0int,
{
    match e {
        ExprView::FlowControl { condition, success, fallback, .. } => match eval_expr(*condition, sc, st, c, o, k, f) {
            (EvalResult::Val(cv), st1, k1) => if !(cv is Void) {
                eval_expr(*success, sc, st1, c, o, k1, f)
            } else {
                match fallback {
                    Some(fb) => eval_expr(*fb, sc, st1, c, o, k1, f),
                    None => (EvalResult::Val(Val::Void), st1, k1),
                }
            },
            other => other,
        },
        _ => (EvalResult::Break, st, k),
    }
}

/// The statements of a block from `i` on, skipping hoisted ones; the value
/// of the last one run, or the first outcome that is not a value.
pub open spec fn run_stmts(
    stmts: Seq<ExprView>,
    i: int,
    last: Val,
    sc: nat,
    st: RtView,
    c: nat,
    o: Seq<HostEntry>,
    k: nat,
    f: nat,
) -> Eval
    decreases f, 1int, stmts, stmts.len() - i,
{
    if i < 0 || i >= stmts.len() {
        (EvalResult::Val(last), st, k)
    } else if !(hoist_of(stmts[i]) is No) {
        run_stmts(stmts, i + 1, last, sc, st, c, o, k, f)
    } else {
        match eval_expr(stmts[i], sc, st, c, o, k, f) {
            (EvalResult::Val(v), st1, k1) => run_stmts(stmts, i + 1, v, sc, st1, c, o, k1, f),
            other => other,
        }
    }
}

/// The values of the nodes from `i` on, after `acc`; or the first outcome
/// that is not a value.
pub open spec fn eval_items(
    es: Seq<ExprView>,
    i: int,
    acc: Seq<Val>,
    sc: nat,
    st: RtView,
    c: nat,
    o: Seq<HostEntry>,
    k: nat,
    f: nat,
) -> (Result<Seq<Val>, EvalResult>, RtView, nat)
    decreases f, 1int, es, es.len() - i,
{
    if i < 0 || i >= es.len() {
        (Ok(acc), st, k)
    } else {
        match eval_expr(es[i], sc, st, c, o, k, f) {
            (EvalResult::Val(v), st1, k1) => eval_items(es, i + 1, acc.push(v), sc, st1, c, o, k1, f),
            (other, st1, k1) => (Err(other), st1, k1),
        }
    }
}

/// The fields of an object literal from `i` on, set one by one into `acc`;
/// or the first outcome that is not a value.
pub open spec fn eval_fields(
    fs: Seq<(Seq<char>, ExprView)>,
    i: int,
    acc: Seq<(Seq<char>, Val)>,
    sc: nat,
    st: RtView,
    c: nat,
    o: Seq<HostEntry>,
    k: nat,
    f: nat,
) -> (Result<Seq<(Seq<char>, Val)>, EvalResult>, RtView, nat)
    decreases f, 1int, fs, fs.len() - i,
{
    if i < 0 || i >= fs.len() {
        (Ok(acc), st, k)
    } else {
        match eval_expr(fs[i].1, sc, st, c, o, k, f) {
            (EvalResult::Val(v), st1, k1) => eval_fields(
                fs,
                i + 1,
                put_field(acc, fs[i].0, v),
                sc,
                st1,
                c,
                o,
                k1,
                f,
            ),
            (other, st1, k1) => (Err(other), st1, k1),
        }
    }
}

/// A call of the value `tv` with `args` from frame `sc`. A native task's
/// outcome is the host's next answer, to a call that handed the host the
/// task's id, `args`, `sc`, the depth `f` and the state; a task written in
/// Hank runs its body in a new frame on top of the frame it was defined in.
pub open spec fn call_task(
    tv: Val,
    args: Seq<Val>,
    sc: nat,
    st: RtView,
    c: nat,
    o: Seq<HostEntry>,
    k: nat,
    f: nat,
) -> Eval
    decreases f, 0int, tv, 0int,
{
    match tv {
        Val::Task(h) => if h < st.tasks.len() {
            match st.tasks[h as int] {
                TaskView::Native { id, .. } => if k < o.len() && o[k as int].request == (HostRequest::Call {
                    id,
                    args,
                    scope: sc,
                    depth: f,
                }) && o[k as int].before == st {
                    (o[k as int].outcome, o[k as int].after, k + 1 + o[k as int].nested)
                } else {
                    (EvalResult::Break, st, k)
                },
                TaskView::User { params, body, closure, .. } => if args.len() > params.len() {
                    fail_plain(st, HankError::TooManyArguments, k)
                } else if f == 0 {
                    overflow(st, k)
                } else {
                    let tf = st.frames.len();
                    match bind_params(params, 0, args, tf, with_frame(st, closure), c, o, k, (f - 1) as nat) {
                        (Err(r), st2, k2) => (r, st2, k2),
                        (Ok(_), st2, k2) => match eval_expr(body, tf, st2, c, o, k2, (f - 1) as nat) {
                            (EvalResult::Val(v), st3, k3) => if v is Error {
                                (EvalResult::Error(v), st3, k3)
                            } else {
                                (EvalResult::Val(v), st3, k3)
                            },
                            (EvalResult::Return(v), st3, k3) => if v is Error {
                                (EvalResult::Error(v), st3, k3)
                            } else {
                                (EvalResult::Val(v), st3, k3)
                            },
                            other => other,
                        },
                    }
                },
            }
        } else {
            not_callable(tv, st, o, k)
        },
        _ => not_callable(tv, st, o, k),
    }
}

/// How a value is shown in a message when the library renders it itself:
/// nothing as `Void`, a string as `String` around its quoted, escaped text.
pub open spec fn own_rendering(st: RtView, v: Val) -> Option<Seq<char>> {
    match v {
        Val::Void => Some("Void"@),
        Val::String(h) => Some("String("@ + debug_text(text_at(st, h as nat)) + ")"@),
        _ => None,
    }
}

/// The outcome of calling a value that is not a task: an error whose
/// argument renders the value, by the library itself where it can, else by
/// the host's next answer, to a request to render that value in that state.
pub open spec fn not_callable(tv: Val, st: RtView, o: Seq<HostEntry>, k: nat) -> Eval {
    match own_rendering(st, tv) {
        Some(t) => fail_text(st, HankError::TargetNotFunction, t, k),
        None => if k < o.len() && o[k as int].request == (HostRequest::Describe { value: tv })
            && o[k as int].before == st {
            fail_text(st, HankError::TargetNotFunction, o[k as int].text, k + 1)
        } else {
            (EvalResult::Break, st, k)
        },
    }
}

/// The parameters from `i` on bound in the task's frame `tf`: an argument, a
/// default value evaluated there, nothing, or an error for a missing one.
pub open spec fn bind_params(
    params: Seq<ParamView>,
    i: int,
    args: Seq<Val>,
    tf: nat,
    st: RtView,
    c: nat,
    o: Seq<HostEntry>,
    k: nat,
    f: nat,
) -> (Result<(), EvalResult>, RtView, nat)
    decreases f, 0int, params, params.len() - i,
{
    if i < 0 || i >= params.len() {
        (Ok(()), st, k)
    } else {
        let p = params[i];
        match param_source(p, i, args.len() as int) {
            ParamSource::Arg => bind_params(params, i + 1, args, tf, with_var(st, tf, p.name, args[i]), c, o, k, f),
            ParamSource::Default => match p.default_value {
                Some(d) => if f == 0 {
                    let (r, st1, k1) = overflow(st, k);
                    (Err(r), st1, k1)
                } else {
                    match eval_expr(*d, tf, st, c, o, k, (f - 1) as nat) {
                        (EvalResult::Val(v), st1, k1) => bind_params(params, i + 1, args, tf, with_var(st1, tf, p.name, v), c, o, k1, f),
                        (other, st1, k1) => (Err(other), st1, k1),
                    }
                },
                None => (Ok(()), st, k),
            },
            ParamSource::Void => bind_params(params, i + 1, args, tf, with_var(st, tf, p.name, Val::Void), c, o, k, f),
            ParamSource::Missing => {
                let (r, st1, k1) = fail_text(st, HankError::MissingRequiredParameter, p.name, k);
                (Err(r), st1, k1)
            },
        }
    }
}


/// What running a node gives: the value of its outcome; nothing for a break.
pub open spec fn run_value(r: EvalResult) -> Val {
    match r {
        EvalResult::Val(v) => v,
        EvalResult::Return(v) => v,
        EvalResult::Break => Val::Void,
        EvalResult::Error(v) => v,
    }
}

proof fn lemma_bind_stops_on_outcome(
    params: Seq<ParamView>,
    i: int,
    args: Seq<Val>,
    tf: nat,
    st: RtView,
    c: nat,
    o: Seq<HostEntry>,
    k: nat,
    f: nat,
)
    ensures
        bind_params(params, i, args, tf, st, c, o, k, f).0 matches Err(x) ==> !(x is Val),
    decreases params.len() - i,
{
    if 0 <= i < params.len() {
        let p = params[i];
        match param_source(p, i, args.len() as int) {
            ParamSource::Arg => lemma_bind_stops_on_outcome(params, i + 1, args, tf, with_var(st, tf, p.name, args[i]), c, o, k, f),
            ParamSource::Default => match p.default_value {
                Some(d) => if f > 0 {
                    match eval_expr(*d, tf, st, c, o, k, (f - 1) as nat) {
                        (EvalResult::Val(v), st1, k1) => lemma_bind_stops_on_outcome(params, i + 1, args, tf, with_var(st1, tf, p.name, v), c, o, k1, f),
                        _ => {},
                    }
                },
                None => {},
            },
            ParamSource::Void => lemma_bind_stops_on_outcome(params, i + 1, args, tf, with_var(st, tf, p.name, Val::Void), c, o, k, f),
            ParamSource::Missing => {},
        }
    }
}

/// A call of a task written in Hank never gives an error as its value: an
/// error value that the task's body gives is the call's error.
pub proof fn law_task_error_values_fail(
    h: usize,
    args: Seq<Val>,
    sc: nat,
    st: RtView,
    c: nat,
    o: Seq<HostEntry>,
    k: nat,
    f: nat,
)
    requires
        h < st.tasks.len(),
        st.tasks[h as int] is User,
    ensures
        call_task(Val::Task(h), args, sc, st, c, o, k, f).0 matches EvalResult::Val(v) ==> !(v is Error),
{
    match st.tasks[h as int] {
        TaskView::User { params, closure, .. } => {
            if args.len() <= params.len() && f > 0 {
                lemma_bind_stops_on_outcome(params, 0, args, st.frames.len(), with_frame(st, closure), c, o, k, (f - 1) as nat);
            }
        },
        _ => {},
    }
}

/// An assignment that gives a value binds it: the name then has that value
/// in the frame it was assigned in.
pub proof fn law_assignment_binds(
    name: Seq<char>,
    v: ExprView,
    td: crate::types::TokenDataView,
    sc: nat,
    st: RtView,
    c: nat,
    o: Seq<HostEntry>,
    k: nat,
    f: nat,
)
    requires
        eval_expr(ExprView::Assign(name, Box::new(v), td), sc, st, c, o, k, f).0 is Val,
        sc < eval_expr(ExprView::Assign(name, Box::new(v), td), sc, st, c, o, k, f).1.frames.len(),
    ensures
        var_value(eval_expr(ExprView::Assign(name, Box::new(v), td), sc, st, c, o, k, f).1, sc, name)
            == eval_expr(ExprView::Assign(name, Box::new(v), td), sc, st, c, o, k, f).0->Val_0,
{
    let (r1, st1, k1) = eval_expr(v, sc, st, c, o, k, f);
    if sc < st1.frames.len() {
        crate::scope::law_get_after_set(st1.frames, sc as int, name, r1->Val_0);
    }
}


/// A script run: its tree is evaluated in frame `sc` and must give a task,
/// which is then called with `args`, giving the value of that call's
/// outcome; an error value the tree gives is the result itself; any other
/// value means the script is not a task.
pub open spec fn script_run(
    e: ExprView,
    args: Seq<Val>,
    sc: nat,
    st: RtView,
    c: nat,
    o: Seq<HostEntry>,
    k: nat,
    f: nat,
) -> (Result<Val, HankError>, RtView, nat) {
    let (r1, st1, k1) = eval_expr(e, sc, st, c, o, k, f);
    match run_value(r1) {
        Val::Task(h) => {
            let (r2, st2, k2) = call_task(Val::Task(h), args, sc, st1, c, o, k1, f);
            (Ok(run_value(r2)), st2, k2)
        },
        Val::Error(h) => (Ok(Val::Error(h)), st1, k1),
        _ => (Err(HankError::ScriptMustBeTask), st1, k1),
    }
}


/// The arguments `arr.each` hands the task `t`: all of `a`, or only as many
/// as the parameters of a task written in Hank with fewer.
pub open spec fn each_args(st: RtView, t: Val, a: Seq<Val>) -> Seq<Val> {
    match t {
        Val::Task(h) => if h < st.tasks.len() {
            match st.tasks[h as int] {
                TaskView::User { params, .. } => if a.len() > params.len() {
                    a.take(params.len() as int)
                } else {
                    a
                },
                _ => a,
            }
        } else {
            a
        },
        _ => a,
    }
}

/// `arr.each` from item `i` on: each item is handed, with its index as a
/// number, to the task `t`, from frame `sc`; the outcomes are dropped.
pub open spec fn each_items(
    items: Seq<Val>,
    i: int,
    t: Val,
    sc: nat,
    st: RtView,
    c: nat,
    o: Seq<HostEntry>,
    k: nat,
    f: nat,
) -> (RtView, nat)
    decreases items.len() - i,
{
    if i < 0 || i >= items.len() {
        (st, k)
    } else {
        let (st1, idx) = count_value(st, i as nat);
        let (_, st2, k2) = call_task(t, each_args(st1, t, seq![items[i], idx]), sc, st1, c, o, k, f);
        each_items(items, i + 1, t, sc, st2, c, o, k2, f)
    }
}

/// `arr.each` on the values `a` and `t`: the items the array has when it
/// starts, handed in turn to the task; nothing happens unless `a` is an
/// array and `t` a task.
pub open spec fn each_run(
    a: Val,
    t: Val,
    sc: nat,
    st: RtView,
    c: nat,
    o: Seq<HostEntry>,
    k: nat,
    f: nat,
) -> (RtView, nat) {
    match (a, t) {
        (Val::Array(h), Val::Task(_)) => {
            let items = if h < st.arrays.len() {
                st.arrays[h as int]
            } else {
                Seq::empty()
            };
            each_items(items, 0, t, sc, st, c, o, k, f)
        },
        _ => (st, k),
    }
}

} // verus!
