//! The decisions of the tree-walking interpreter that do not depend on runtime
//! values: how a call binds its parameters, which statements of a block are
//! hoisted, and what a unary operator does.
use vstd::prelude::*;
use crate::ast::{Expr, ExprView, Param, ParamView, expr_deep, param_deep};
use crate::text::chars_of;

verus! {

/// Where the value of a parameter comes from when a task is called.
#[derive(Debug, Clone, Copy, PartialEq, Eq, Structural)]
pub enum ParamSource {
    /// The argument at the parameter's index.
    Arg,
    /// The parameter's default value, evaluated in the call's scope.
    Default,
    /// Nothing: the parameter is optional and has no default.
    Void,
    /// Nothing can be bound: the call fails for a missing parameter.
    Missing,
}

/// Where the parameter `p`, at index `i`, takes its value from in a call
/// with `nargs` arguments.
pub open spec fn param_source(p: ParamView, i: int, nargs: int) -> ParamSource {
    if i < nargs {
        ParamSource::Arg
    } else if p.default_value is Some {
        ParamSource::Default
    } else if p.is_optional {
        ParamSource::Void
    } else {
        ParamSource::Missing
    }
}

/// How a call with `nargs` arguments binds the parameters `params`, one
/// source per parameter; `None` when there are more arguments than
/// parameters.
pub fn param_plan(params: &Vec<Param>, nargs: usize) -> (r: Option<Vec<ParamSource>>)
    ensures
        r is None <==> nargs > params@.len(),
        r matches Some(v) ==> v@.len() == params@.len() && forall|i: int|
            0 <= i < v@.len() ==> #[trigger] v@[i] == param_source(param_deep(params@[i]), i, nargs as int),
{
    if nargs > params.len() {
        return None;
    }
    let mut plan: Vec<ParamSource> = Vec::new();
    let mut i: usize = 0;
    while i < params.len()
        invariant
            i <= params@.len(),
            plan@.len() == i,
            forall|j: int|
                0 <= j < i ==> #[trigger] plan@[j] == param_source(param_deep(params@[j]), j, nargs as int),
        decreases params.len() - i,
    {
        let p = &params[i];
        let src = if i < nargs {
            ParamSource::Arg
        } else if p.default_value.is_some() {
            ParamSource::Default
        } else if p.is_optional {
            ParamSource::Void
        } else {
            ParamSource::Missing
        };
        plan.push(src);
        i = i + 1;
    }
    Some(plan)
}

/// Whether a statement of a block is hoisted: a task definition bound to a
/// name is defined before the block runs, also when the binding is nested in
/// another one (as an `@` include gives it).
#[derive(Debug, Clone, Copy, PartialEq, Eq, Structural)]
pub enum Hoist {
    /// The statement runs in its turn.
    No,
    /// `name = (params) { .. }`: the task is bound to `name` first.
    Direct,
    /// `outer = name = (params) { .. }`: the task is bound to `name` first.
    Nested,
}

/// The hoisting of a statement.
pub open spec fn hoist_of(e: ExprView) -> Hoist {
    match e {
        ExprView::Assign(_, v, _) => match *v {
            ExprView::FuncDef(..) => Hoist::Direct,
            ExprView::Assign(_, w, _) => if *w is FuncDef {
                Hoist::Nested
            } else {
                Hoist::No
            },
            _ => Hoist::No,
        },
        _ => Hoist::No,
    }
}

/// The hoisting of a statement.
pub fn hoist_kind(stmt: &Expr) -> (r: Hoist)
    ensures
        r == hoist_of(expr_deep(*stmt)),
{
    match stmt {
        Expr::Assign(_, v, _) => {
            assert(expr_deep(*stmt) matches ExprView::Assign(_, b, _) && *b == expr_deep(**v));
            match &**v {
                Expr::FuncDef(..) => {
                    assert(expr_deep(**v) is FuncDef);
                    Hoist::Direct
                },
                Expr::Assign(_, w, _) => {
                    assert(expr_deep(**v) matches ExprView::Assign(_, c, _) && *c == expr_deep(**w));
                    match &**w {
                        Expr::FuncDef(..) => {
                            assert(expr_deep(**w) is FuncDef);
                            Hoist::Nested
                        },
                        _ => {
                            assert(!(expr_deep(**w) is FuncDef));
                            Hoist::No
                        },
                    }
                },
                _ => {
                    assert(!(expr_deep(**v) is FuncDef) && !(expr_deep(**v) is Assign));
                    Hoist::No
                },
            }
        },
        _ => {
            assert(!(expr_deep(*stmt) is Assign));
            Hoist::No
        },
    }
}

/// What a unary operator does with its operand's value.
#[derive(Debug, Clone, Copy, PartialEq, Eq, Structural)]
pub enum UnOpKind {
    /// `!`: nothing when the value is truthy, else the number 1.
    Negate,
    /// `?`: the value itself.
    Keep,
    /// `^`: returns the value from the task.
    Return,
    /// Any other operator: nothing.
    Discard,
}

/// What the operator `op` does.
pub open spec fn unop_of(op: Seq<char>) -> UnOpKind {
    if op == seq!['!'] {
        UnOpKind::Negate
    } else if op == seq!['?'] {
        UnOpKind::Keep
    } else if op == seq!['^'] {
        UnOpKind::Return
    } else {
        UnOpKind::Discard
    }
}

/// What the operator `op` does.
pub fn unop_kind(op: &str) -> (r: UnOpKind)
    ensures
        r == unop_of(op@),
{
    let v = chars_of(op);
    if v.len() != 1 {
        return UnOpKind::Discard;
    }
    assert(v@ =~= seq![v@[0]]);
    if v[0] == '!' {
        UnOpKind::Negate
    } else if v[0] == '?' {
        UnOpKind::Keep
    } else if v[0] == '^' {
        UnOpKind::Return
    } else {
        UnOpKind::Discard
    }
}

} // verus!
