//! The interpreter: evaluation of syntax trees against the runtime state,
//! proved against the functions of `eval_spec`.
use vstd::prelude::*;
use crate::ast::{
    Expr, ExprView, Literal, Param, copy_expr, copy_params, expr_deep, exprs_deep, fields_deep,
    lemma_exprs_index, lemma_fields_index, lemma_params_index, opt_deep, param_deep, params_deep,
};
use crate::eval_spec::{
    bind_params, call_task, count_value, eval_expr, eval_fields, eval_items, fail_plain, fail_text,
    each_args, each_items, each_run, flow_branch, hoist_all, kind_of, literal_value, not_callable, overflow, own_rendering, run_stmts,
    run_value, script_run,
};
use crate::interp::{
    Hoist, ParamSource, UnOpKind, hoist_kind, param_plan, param_source, unop_kind,
};
use crate::runtime::{
    EvalResult, Host, HostEntry, HostRequest, RtView, Runtime, Task, TaskView, Val, field_value, fields_view,
    log_extends, nested_after, object_field, put_field, task_view, with_frame,
};
use crate::text::{debug_str, push_decimal, push_str, text_eq};
use crate::types::{HankError, ValueType};

verus! {

proof fn lemma_log_extends_trans(a: Seq<HostEntry>, b: Seq<HostEntry>, c: Seq<HostEntry>)
    requires
        log_extends(a, b),
        log_extends(b, c),
    ensures
        log_extends(a, c),
{
    assert forall|i: int| 0 <= i < c.len() implies a[i] == c[i] by {
        assert(b[i] == c[i]);
        assert(a[i] == b[i]);
    }
}

/// The plain value of a list of values or an outcome that stopped it.
pub open spec fn items_out(r: Result<Vec<Val>, EvalResult>) -> Result<Seq<Val>, EvalResult> {
    match r {
        Ok(v) => Ok(v@),
        Err(x) => Err(x),
    }
}

proof fn lemma_field_value(fs: Seq<(Seq<char>, Val)>, name: Seq<char>, i: int)
    requires
        0 <= i <= fs.len(),
        forall|j: int| 0 <= j < i ==> fs[j].0 != name,
        i < fs.len() ==> fs[i].0 == name,
    ensures
        field_value(fs, name) == (if i < fs.len() {
            Some(fs[i].1)
        } else {
            None::<Val>
        }),
    decreases fs.len(),
{
    if fs.len() > 0 && i > 0 {
        lemma_field_value(fs.drop_first(), name, i - 1);
    }
}

proof fn lemma_put_field(fs: Seq<(Seq<char>, Val)>, key: Seq<char>, v: Val, i: int)
    requires
        0 <= i <= fs.len(),
        forall|j: int| 0 <= j < i ==> fs[j].0 != key,
        i < fs.len() ==> fs[i].0 == key,
    ensures
        put_field(fs, key, v) == (if i < fs.len() {
            fs.update(i, (key, v))
        } else {
            fs.push((key, v))
        }),
    decreases fs.len(),
{
    if fs.len() == 0 {
        assert(seq![(key, v)] =~= fs.push((key, v)));
    } else if i > 0 {
        lemma_put_field(fs.drop_first(), key, v, i - 1);
        if i < fs.len() {
            assert(seq![fs[0]] + fs.drop_first().update(i - 1, (key, v)) =~= fs.update(i, (key, v)));
        } else {
            assert(seq![fs[0]] + fs.drop_first().push((key, v)) =~= fs.push((key, v)));
        }
    }
}

/// Sets the field `key` to `v`: in place when the key is there, appended
/// otherwise.
pub fn put_field_exec(fields: &mut Vec<(String, Val)>, key: String, v: Val)
    ensures
        fields_view(final(fields)@) == put_field(fields_view(old(fields)@), key@, v),
{
    let ghost fv = fields_view(fields@);
    let ghost kv = key@;
    let mut i: usize = 0;
    while i < fields.len()
        invariant
            fv == fields_view(fields@),
            fv == fields_view(old(fields)@),
            kv == key@,
            i <= fields@.len(),
            forall|j: int| 0 <= j < i ==> fv[j].0 != kv,
        decreases fields.len() - i,
    {
        if text_eq(fields[i].0.as_str(), key.as_str()) {
            proof {
                lemma_put_field(fv, kv, v, i as int);
            }
            fields.set(i, (key, v));
            proof {
                assert(fields_view(fields@) =~= fv.update(i as int, (kv, v)));
            }
            return;
        }
        i = i + 1;
    }
    proof {
        lemma_put_field(fv, kv, v, i as int);
    }
    fields.push((key, v));
    proof {
        assert(fields_view(fields@) =~= fv.push((kv, v)));
    }
}

/// The kind of a value.
pub fn value_kind(v: Val) -> (t: ValueType)
    ensures
        t == kind_of(v),
{
    match v {
        Val::Void => ValueType::Void,
        Val::Number(_) => ValueType::Number,
        Val::String(_) => ValueType::String,
        Val::Array(_) => ValueType::Array,
        Val::Object(_) => ValueType::Object,
        Val::Opaque(_) => ValueType::Opaque,
        Val::Task(_) => ValueType::Task,
        Val::Error(_) => ValueType::Error,
    }
}

impl Runtime {
    /// The value of the field `name` of the object at `h`; nothing when
    /// there is no such object or field.
    pub fn object_get(&self, h: usize, name: &str) -> (r: Val)
        ensures
            r == object_field(self@, h as nat, name@),
    {
        match self.object(h) {
            Some(fs) => {
                let ghost fv = fields_view(fs@);
                let mut i: usize = 0;
                while i < fs.len()
                    invariant
                        fv == fields_view(fs@),
                        h < self@.objects.len(),
                        self@.objects[h as int] == fv,
                        i <= fs@.len(),
                        forall|j: int| 0 <= j < i ==> fv[j].0 != name@,
                    decreases fs.len() - i,
                {
                    if text_eq(fs[i].0.as_str(), name) {
                        proof {
                            lemma_field_value(fv, name@, i as int);
                            assert(fv[i as int] == (fs@[i as int].0@, fs@[i as int].1));
                            assert(self@.objects[h as int] == fv);
                            assert(field_value(fv, name@) == Some(fs@[i as int].1));
                        }
                        let v = fs[i].1;
                        assert(v == fs@[i as int].1);
                        return v;
                    }
                    i = i + 1;
                }
                proof {
                    lemma_field_value(fv, name@, i as int);
                }
                Val::Void
            },
            None => Val::Void,
        }
    }

    /// A number with the value `n`.
    pub fn count(&mut self, n: usize) -> (r: Val)
        ensures
            (final(self)@, r) == count_value(old(self)@, n as nat),
            final(self).log() == old(self).log(),
    {
        let mut t = String::new();
        push_decimal(&mut t, n);
        Val::Number(self.alloc_text(t))
    }

    /// The value of a literal.
    fn literal(&mut self, l: &Literal) -> (r: Val)
        ensures
            (final(self)@, r) == literal_value(old(self)@, l@),
            final(self).log() == old(self).log(),
    {
        match l {
            Literal::Void => Val::Void,
            Literal::Number(t) => Val::Number(self.alloc_text(t.clone())),
            Literal::String(s) => Val::String(self.alloc_text(s.clone())),
        }
    }

    /// An error outcome with no arguments.
    fn fail_plain_exec(&mut self, code: HankError) -> (r: EvalResult)
        ensures
            (r, final(self)@, final(self).log().len()) == fail_plain(old(self)@, code, old(self).log().len()),
            final(self).log() == old(self).log(),
    {
        let h = self.alloc_error(code, Vec::new());
        EvalResult::Error(Val::Error(h))
    }

    /// An error outcome with one text argument.
    fn fail_text_exec(&mut self, code: HankError, text: String) -> (r: EvalResult)
        ensures
            (r, final(self)@, final(self).log().len()) == fail_text(old(self)@, code, text@, old(self).log().len()),
            final(self).log() == old(self).log(),
    {
        let sh = self.alloc_text(text);
        let args = vec![Val::String(sh)];
        assert(args@ =~= seq![Val::String(sh)]);
        let eh = self.alloc_error(code, args);
        EvalResult::Error(Val::Error(eh))
    }

    /// The outcome when calls nest deeper than the fuel allows.
    fn overflow_exec(&mut self) -> (r: EvalResult)
        ensures
            (r, final(self)@, final(self).log().len()) == overflow(old(self)@, old(self).log().len()),
            final(self).log() == old(self).log(),
    {
        self.fail_text_exec(HankError::GenericRuntimeError, "Stack overflow".to_owned())
    }

    /// Binds the task definitions of a block to their names in frame `sc`.
    fn hoist(&mut self, stmts: &Vec<Expr>, sc: usize)
        ensures
            final(self)@ == hoist_all(exprs_deep(stmts@), 0, sc as nat, old(self)@),
            final(self).log() == old(self).log(),
    {
        let ghost ss = exprs_deep(stmts@);
        proof {
            lemma_exprs_index(stmts@);
        }
        let mut i: usize = 0;
        while i < stmts.len()
            invariant
                ss == exprs_deep(stmts@),
                ss.len() == stmts@.len(),
                forall|j: int| 0 <= j < stmts@.len() ==> #[trigger] ss[j] == expr_deep(stmts@[j]),
                i <= stmts@.len(),
                self.log() == old(self).log(),
                hoist_all(ss, 0, sc as nat, old(self)@) == hoist_all(ss, i as int, sc as nat, self@),
            decreases stmts.len() - i,
        {
            let ghost st = self@;
            let ghost si = ss[i as int];
            match &stmts[i] {
                Expr::Assign(name, v, _) => {
                    assert(si matches ExprView::Assign(_, b, _) && *b == expr_deep(**v));
                    match &**v {
                        Expr::FuncDef(ps, body, _) => {
                            let t = Task::User {
                                name: "anonymous".to_owned(),
                                params: copy_params(ps),
                                body: copy_expr(body),
                                closure: sc,
                            };
                            let h = self.alloc_task(t);
                            self.set_var(sc, name.clone(), Val::Task(h));
                        },
                        Expr::Assign(inner, w, _) => {
                            assert(expr_deep(**v) matches ExprView::Assign(_, c, _) && *c == expr_deep(**w));
                            match &**w {
                                Expr::FuncDef(ps, body, _) => {
                                    let t = Task::User {
                                        name: "anonymous".to_owned(),
                                        params: copy_params(ps),
                                        body: copy_expr(body),
                                        closure: sc,
                                    };
                                    let h = self.alloc_task(t);
                                    self.set_var(sc, inner.clone(), Val::Task(h));
                                },
                                _ => {},
                            }
                        },
                        _ => {},
                    }
                },
                _ => {},
            }
            i = i + 1;
        }
    }
}


/// A copy of a task.
fn copy_task(t: &Task) -> (r: Task)
    ensures
        task_view(r) == task_view(*t),
{
    match t {
        Task::User { name, params, body, closure } => Task::User {
            name: name.clone(),
            params: copy_params(params),
            body: copy_expr(body),
            closure: *closure,
        },
        Task::Native { name, id } => Task::Native { name: name.clone(), id: *id },
    }
}

/// Whether a value counts as true: everything but nothing does.
pub fn is_truthy(v: Val) -> (r: bool)
    ensures
        r == !(v is Void),
{
    match v {
        Val::Void => false,
        _ => true,
    }
}

/// Whether a value is an error.
pub fn is_error(v: Val) -> (r: bool)
    ensures
        r == (v is Error),
{
    match v {
        Val::Error(_) => true,
        _ => false,
    }
}

impl Runtime {
    /// A copy of the task at `h`, if there is one.
    pub fn task_copy(&self, h: usize) -> (r: Option<Task>)
        ensures
            match r {
                Some(t) => h < self@.tasks.len() && task_view(t) == self@.tasks[h as int],
                None => h >= self@.tasks.len(),
            },
    {
        match self.task(h) {
            Some(t) => Some(copy_task(t)),
            None => None,
        }
    }

    /// Evaluates `e` in frame `sc`, with `c` the core frame and `f` the depth
    /// of task calls still allowed.
    pub fn eval<H: Host>(&mut self, host: &mut H, e: &Expr, sc: usize, c: usize, f: usize) -> (r: EvalResult)
        ensures
            log_extends(final(self).log(), old(self).log()),
            forall|o: Seq<HostEntry>|
                log_extends(o, final(self).log()) ==> #[trigger] eval_expr(expr_deep(*e), sc as nat, old(self)@, c as nat, o, old(self).log().len(), f as nat) == (r, final(self)@, final(self).log().len())
        decreases f, 1int, expr_deep(*e), 1int,
    {
        match e {
            Expr::Block(..) => {
                let ghost st0 = self@;
                let ghost k0 = self.log().len();
                let r = self.eval_block(host, e, sc, c, f);
                proof {
                    assert forall|o: Seq<HostEntry>| log_extends(o, self.log()) implies #[trigger] eval_expr(expr_deep(*e), sc as nat, st0, c as nat, o, k0, f as nat) == (r, self@, self.log().len()) by {
                    }
                }
                r
            },
            Expr::Assign(..) => {
                let ghost st0 = self@;
                let ghost k0 = self.log().len();
                let r = self.eval_assign(host, e, sc, c, f);
                proof {
                    assert forall|o: Seq<HostEntry>| log_extends(o, self.log()) implies #[trigger] eval_expr(expr_deep(*e), sc as nat, st0, c as nat, o, k0, f as nat) == (r, self@, self.log().len()) by {
                    }
                }
                r
            },
            Expr::Literal(l, _) => {
                let ghost st0 = self@;
                let ghost k0 = self.log().len();
                let v = self.literal(l);
                let r = EvalResult::Val(v);
                proof {
                    assert forall|o: Seq<HostEntry>| log_extends(o, self.log()) implies #[trigger] eval_expr(expr_deep(*e), sc as nat, st0, c as nat, o, k0, f as nat) == (r, self@, self.log().len()) by {
                    }
                }
                r
            },
            Expr::Ident(name, core, _) => {
                let ghost st0 = self@;
                let ghost k0 = self.log().len();
                let v = if *core {
                    self.get_var(c, name)
                } else {
                    let v = self.get_var(sc, name);
                    match v {
                        Val::Void => self.get_var(c, name),
                        _ => v,
                    }
                };
                let r = EvalResult::Val(v);
                proof {
                    assert forall|o: Seq<HostEntry>| log_extends(o, self.log()) implies #[trigger] eval_expr(expr_deep(*e), sc as nat, st0, c as nat, o, k0, f as nat) == (r, self@, self.log().len()) by {
                    }
                }
                r
            },
            Expr::Field(..) => {
                let ghost st0 = self@;
                let ghost k0 = self.log().len();
                let r = self.eval_field(host, e, sc, c, f);
                proof {
                    assert forall|o: Seq<HostEntry>| log_extends(o, self.log()) implies #[trigger] eval_expr(expr_deep(*e), sc as nat, st0, c as nat, o, k0, f as nat) == (r, self@, self.log().len()) by {
                    }
                }
                r
            },
            Expr::FuncDef(ps, body, _) => {
                let ghost st0 = self@;
                let ghost k0 = self.log().len();
                let t = Task::User {
                    name: "anonymous".to_owned(),
                    params: copy_params(ps),
                    body: copy_expr(body),
                    closure: sc,
                };
                let h = self.alloc_task(t);
                let r = EvalResult::Val(Val::Task(h));
                proof {
                    assert forall|o: Seq<HostEntry>| log_extends(o, self.log()) implies #[trigger] eval_expr(expr_deep(*e), sc as nat, st0, c as nat, o, k0, f as nat) == (r, self@, self.log().len()) by {
                    }
                }
                r
            },
            Expr::FuncCall(..) => {
                let ghost st0 = self@;
                let ghost k0 = self.log().len();
                let r = self.eval_call(host, e, sc, c, f);
                proof {
                    assert forall|o: Seq<HostEntry>| log_extends(o, self.log()) implies #[trigger] eval_expr(expr_deep(*e), sc as nat, st0, c as nat, o, k0, f as nat) == (r, self@, self.log().len()) by {
                    }
                }
                r
            },
            Expr::UnOp(..) => {
                let ghost st0 = self@;
                let ghost k0 = self.log().len();
                let r = self.eval_unop(host, e, sc, c, f);
                proof {
                    assert forall|o: Seq<HostEntry>| log_extends(o, self.log()) implies #[trigger] eval_expr(expr_deep(*e), sc as nat, st0, c as nat, o, k0, f as nat) == (r, self@, self.log().len()) by {
                    }
                }
                r
            },
            Expr::Object(..) => {
                let ghost st0 = self@;
                let ghost k0 = self.log().len();
                let r = self.eval_object(host, e, sc, c, f);
                proof {
                    assert forall|o: Seq<HostEntry>| log_extends(o, self.log()) implies #[trigger] eval_expr(expr_deep(*e), sc as nat, st0, c as nat, o, k0, f as nat) == (r, self@, self.log().len()) by {
                    }
                }
                r
            },
            Expr::Array(items, td) => {
                let ghost st0 = self@;
                let ghost k0 = self.log().len();
                let ghost ss = exprs_deep(items@);
                assert(expr_deep(*e) == ExprView::Array(ss, td@));
                assert(decreases_to!(expr_deep(*e) => expr_deep(*e)->Array_0));
                let r = self.eval_list(host, items, sc, c, f);
                match r {
                    Ok(vals) => {
                        let ghost vv = vals@;
                        let ghost st1 = self@;
                        let h = self.alloc_array(vals);
                        proof {
                            assert forall|o: Seq<HostEntry>| log_extends(o, self.log()) implies #[trigger] eval_expr(expr_deep(*e), sc as nat, st0, c as nat, o, k0, f as nat) == (EvalResult::Val(Val::Array(h)), self@, self.log().len()) by {
                                assert(eval_items(ss, 0, Seq::empty(), sc as nat, st0, c as nat, o, k0, f as nat) == (Ok::<Seq<Val>, EvalResult>(vv), st1, self.log().len()));
                            }
                        }
                        EvalResult::Val(Val::Array(h))
                    },
                    Err(x) => {
                        proof {
                            assert forall|o: Seq<HostEntry>| log_extends(o, self.log()) implies #[trigger] eval_expr(expr_deep(*e), sc as nat, st0, c as nat, o, k0, f as nat) == (x, self@, self.log().len()) by {
                                assert(eval_items(ss, 0, Seq::empty(), sc as nat, st0, c as nat, o, k0, f as nat) == (Err::<Seq<Val>, EvalResult>(x), self@, self.log().len()));
                            }
                        }
                        x
                    },
                }
            },
            Expr::Error(code, args, td) => {
                let ghost st0 = self@;
                let ghost k0 = self.log().len();
                let ghost ss = exprs_deep(args@);
                assert(expr_deep(*e) == ExprView::Error(*code, ss, td@));
                assert(decreases_to!(expr_deep(*e) => expr_deep(*e)->Error_1));
                let r = self.eval_list(host, args, sc, c, f);
                match r {
                    Ok(vals) => {
                        let ghost vv = vals@;
                        let ghost st1 = self@;
                        let h = self.alloc_error(*code, vals);
                        proof {
                            assert forall|o: Seq<HostEntry>| log_extends(o, self.log()) implies #[trigger] eval_expr(expr_deep(*e), sc as nat, st0, c as nat, o, k0, f as nat) == (EvalResult::Val(Val::Error(h)), self@, self.log().len()) by {
                                assert(eval_items(ss, 0, Seq::empty(), sc as nat, st0, c as nat, o, k0, f as nat) == (Ok::<Seq<Val>, EvalResult>(vv), st1, self.log().len()));
                            }
                        }
                        EvalResult::Val(Val::Error(h))
                    },
                    Err(x) => {
                        proof {
                            assert forall|o: Seq<HostEntry>| log_extends(o, self.log()) implies #[trigger] eval_expr(expr_deep(*e), sc as nat, st0, c as nat, o, k0, f as nat) == (x, self@, self.log().len()) by {
                                assert(eval_items(ss, 0, Seq::empty(), sc as nat, st0, c as nat, o, k0, f as nat) == (Err::<Seq<Val>, EvalResult>(x), self@, self.log().len()));
                            }
                        }
                        x
                    },
                }
            },
            Expr::FlowControl { .. } => {
                let ghost st0 = self@;
                let ghost k0 = self.log().len();
                let r = self.eval_flow(host, e, sc, c, f);
                proof {
                    assert forall|o: Seq<HostEntry>| log_extends(o, self.log()) implies #[trigger] eval_expr(expr_deep(*e), sc as nat, st0, c as nat, o, k0, f as nat) == (r, self@, self.log().len()) by {
                    }
                }
                r
            },
        }
    }

    /// The values of `es` evaluated in turn, or the first outcome that is
    /// not a value.
    fn eval_list<H: Host>(&mut self, host: &mut H, es: &Vec<Expr>, sc: usize, c: usize, f: usize) -> (r: Result<Vec<Val>, EvalResult>)
        ensures
            log_extends(final(self).log(), old(self).log()),
            forall|o: Seq<HostEntry>|
                log_extends(o, final(self).log()) ==> #[trigger] eval_items(exprs_deep(es@), 0, Seq::empty(), sc as nat, old(self)@, c as nat, o, old(self).log().len(), f as nat) == (items_out(r), final(self)@, final(self).log().len())
        decreases f, 1int, exprs_deep(es@), 0int,
    {
        let ghost st0 = self@;
        let ghost k0 = self.log().len();
        let ghost ss = exprs_deep(es@);
        proof {
            lemma_exprs_index(es@);
        }
        let mut acc: Vec<Val> = Vec::new();
        let mut i: usize = 0;
        while i < es.len()
            invariant
                ss == exprs_deep(es@),
                ss.len() == es@.len(),
                forall|j: int| 0 <= j < es@.len() ==> #[trigger] ss[j] == expr_deep(es@[j]),
                i <= es@.len(),
                log_extends(self.log(), old(self).log()),
                st0 == old(self)@,
                k0 == old(self).log().len(),
                forall|o: Seq<HostEntry>| log_extends(o, self.log()) ==> #[trigger] eval_items(ss, 0, Seq::empty(), sc as nat, st0, c as nat, o, k0, f as nat)
                    == eval_items(ss, i as int, acc@, sc as nat, self@, c as nat, o, self.log().len(), f as nat),
            decreases es.len() - i,
        {
            let ghost st1 = self@;
            let ghost l1 = self.log();
            assert(decreases_to!(ss => ss[i as int]));
            let r = self.eval(host, &es[i], sc, c, f);
            match r {
                EvalResult::Val(v) => {
                    let ghost acc1 = acc@;
                    acc.push(v);
                    proof {
                        lemma_log_extends_trans(self.log(), l1, old(self).log());
                    }
                    proof {
                        assert forall|o: Seq<HostEntry>| log_extends(o, self.log()) implies #[trigger] eval_items(ss, 0, Seq::empty(), sc as nat, st0, c as nat, o, k0, f as nat) == eval_items(ss, i + 1, acc@, sc as nat, self@, c as nat, o, self.log().len(), f as nat) by {
                            lemma_log_extends_trans(o, self.log(), l1);
                            assert(eval_items(ss, 0, Seq::empty(), sc as nat, st0, c as nat, o, k0, f as nat)
                                == eval_items(ss, i as int, acc1, sc as nat, st1, c as nat, o, l1.len(), f as nat));
                            assert(eval_expr(ss[i as int], sc as nat, st1, c as nat, o, l1.len(), f as nat) == (r, self@, self.log().len()));
                        }
                    }
                    i = i + 1;
                },
                _ => {
                    proof {
                        lemma_log_extends_trans(self.log(), l1, old(self).log());
                    }
                    proof {
                        assert forall|o: Seq<HostEntry>| log_extends(o, self.log()) implies #[trigger] eval_items(ss, 0, Seq::empty(), sc as nat, st0, c as nat, o, k0, f as nat) == (items_out(Err(r)), self@, self.log().len()) by {
                            lemma_log_extends_trans(o, self.log(), l1);
                            assert(eval_items(ss, 0, Seq::empty(), sc as nat, st0, c as nat, o, k0, f as nat)
                                == eval_items(ss, i as int, acc@, sc as nat, st1, c as nat, o, l1.len(), f as nat));
                            assert(eval_expr(ss[i as int], sc as nat, st1, c as nat, o, l1.len(), f as nat) == (r, self@, self.log().len()));
                        }
                    }
                    return Err(r);
                },
            }
        }
        Ok(acc)
    }
}


impl Runtime {
    /// A block: its task definitions bound first, then its other statements
    /// in turn.
    fn eval_block<H: Host>(&mut self, host: &mut H, e: &Expr, sc: usize, c: usize, f: usize) -> (r: EvalResult)
        requires
            *e is Block,
        ensures
            log_extends(final(self).log(), old(self).log()),
            forall|o: Seq<HostEntry>|
                log_extends(o, final(self).log()) ==> #[trigger] eval_expr(expr_deep(*e), sc as nat, old(self)@, c as nat, o, old(self).log().len(), f as nat) == (r, final(self)@, final(self).log().len())
        decreases f, 1int, expr_deep(*e), 0int,
    {
        match e {
            Expr::Block(stmts, td) => {
                let ghost st0 = self@;
                let ghost k0 = self.log().len();
                let ghost ss = exprs_deep(stmts@);
                assert(expr_deep(*e) == ExprView::Block(ss, td@));
                proof {
                    lemma_exprs_index(stmts@);
                }
                self.hoist(stmts, sc);
                let ghost sth = self@;
                let mut last = Val::Void;
                let mut i: usize = 0;
                while i < stmts.len()
                    invariant
                        ss == exprs_deep(stmts@),
                        ss.len() == stmts@.len(),
                        forall|j: int| 0 <= j < stmts@.len() ==> #[trigger] ss[j] == expr_deep(stmts@[j]),
                        expr_deep(*e) == ExprView::Block(ss, td@),
                        i <= stmts@.len(),
                        log_extends(self.log(), old(self).log()),
                        st0 == old(self)@,
                        k0 == old(self).log().len(),
                        sth == hoist_all(ss, 0, sc as nat, st0),
                        forall|o: Seq<HostEntry>| log_extends(o, self.log()) ==> #[trigger] run_stmts(ss, 0, Val::Void, sc as nat, sth, c as nat, o, k0, f as nat)
                            == run_stmts(ss, i as int, last, sc as nat, self@, c as nat, o, self.log().len(), f as nat),
                    decreases stmts.len() - i,
                {
                    let ghost st1 = self@;
                    let ghost l1 = self.log();
                    let ghost last1 = last;
                    let hk = hoist_kind(&stmts[i]);
                    match hk {
                        Hoist::No => {
                            assert(decreases_to!(expr_deep(*e) => expr_deep(*e)->Block_0));
                            assert(decreases_to!(ss => ss[i as int]));
                            let r = self.eval(host, &stmts[i], sc, c, f);
                            match r {
                                EvalResult::Val(v) => {
                                    last = v;
                                    proof {
                                        lemma_log_extends_trans(self.log(), l1, old(self).log());
                                    }
                                    proof {
                                        assert forall|o: Seq<HostEntry>| log_extends(o, self.log()) implies #[trigger] run_stmts(ss, 0, Val::Void, sc as nat, sth, c as nat, o, k0, f as nat) == run_stmts(ss, i + 1, last, sc as nat, self@, c as nat, o, self.log().len(), f as nat) by {
                                            lemma_log_extends_trans(o, self.log(), l1);
                                            assert(run_stmts(ss, 0, Val::Void, sc as nat, sth, c as nat, o, k0, f as nat)
                                                == run_stmts(ss, i as int, last1, sc as nat, st1, c as nat, o, l1.len(), f as nat));
                                            assert(eval_expr(ss[i as int], sc as nat, st1, c as nat, o, l1.len(), f as nat) == (r, self@, self.log().len()));
                                        }
                                    }
                                },
                                _ => {
                                    proof {
                                        lemma_log_extends_trans(self.log(), l1, old(self).log());
                                    }
                                    proof {
                                        assert forall|o: Seq<HostEntry>| log_extends(o, self.log()) implies #[trigger] eval_expr(expr_deep(*e), sc as nat, st0, c as nat, o, k0, f as nat) == (r, self@, self.log().len()) by {
                                            lemma_log_extends_trans(o, self.log(), l1);
                                            assert(run_stmts(ss, 0, Val::Void, sc as nat, sth, c as nat, o, k0, f as nat)
                                                == run_stmts(ss, i as int, last1, sc as nat, st1, c as nat, o, l1.len(), f as nat));
                                            assert(eval_expr(ss[i as int], sc as nat, st1, c as nat, o, l1.len(), f as nat) == (r, self@, self.log().len()));
                                        }
                                    }
                                    return r;
                                },
                            }
                        },
                        _ => {
                            proof {
                                assert forall|o: Seq<HostEntry>| log_extends(o, self.log()) implies #[trigger] run_stmts(ss, 0, Val::Void, sc as nat, sth, c as nat, o, k0, f as nat) == run_stmts(ss, i + 1, last, sc as nat, self@, c as nat, o, self.log().len(), f as nat) by {
                                    assert(run_stmts(ss, 0, Val::Void, sc as nat, sth, c as nat, o, k0, f as nat)
                                        == run_stmts(ss, i as int, last1, sc as nat, st1, c as nat, o, l1.len(), f as nat));
                                }
                            }
                        },
                    }
                    i = i + 1;
                }
                proof {
                    assert forall|o: Seq<HostEntry>| log_extends(o, self.log()) implies #[trigger] eval_expr(expr_deep(*e), sc as nat, st0, c as nat, o, k0, f as nat) == (EvalResult::Val(last), self@, self.log().len()) by {
                        assert(run_stmts(ss, 0, Val::Void, sc as nat, sth, c as nat, o, k0, f as nat) == run_stmts(ss, i as int, last, sc as nat, self@, c as nat, o, self.log().len(), f as nat));
                    }
                }
                EvalResult::Val(last)
            },
            _ => {
                proof {
                    assert(false);
                }
                EvalResult::Break
            },
        }
    }

    /// An assignment: the value, bound to the name in frame `sc`.
    fn eval_assign<H: Host>(&mut self, host: &mut H, e: &Expr, sc: usize, c: usize, f: usize) -> (r: EvalResult)
        requires
            *e is Assign,
        ensures
            log_extends(final(self).log(), old(self).log()),
            forall|o: Seq<HostEntry>|
                log_extends(o, final(self).log()) ==> #[trigger] eval_expr(expr_deep(*e), sc as nat, old(self)@, c as nat, o, old(self).log().len(), f as nat) == (r, final(self)@, final(self).log().len())
        decreases f, 1int, expr_deep(*e), 0int,
    {
        match e {
            Expr::Assign(name, v, _) => {
                let ghost st0 = self@;
                let ghost k0 = self.log().len();
                let r = self.eval(host, v, sc, c, f);
                match r {
                    EvalResult::Val(x) => {
                        let ghost st1 = self@;
                        self.set_var(sc, name.clone(), x);
                        proof {
                            assert forall|o: Seq<HostEntry>| log_extends(o, self.log()) implies #[trigger] eval_expr(expr_deep(*e), sc as nat, st0, c as nat, o, k0, f as nat) == (r, self@, self.log().len()) by {
                                assert(eval_expr(expr_deep(**v), sc as nat, st0, c as nat, o, k0, f as nat) == (r, st1, self.log().len()));
                            }
                        }
                        r
                    },
                    _ => {
                        proof {
                            assert forall|o: Seq<HostEntry>| log_extends(o, self.log()) implies #[trigger] eval_expr(expr_deep(*e), sc as nat, st0, c as nat, o, k0, f as nat) == (r, self@, self.log().len()) by {
                                assert(eval_expr(expr_deep(**v), sc as nat, st0, c as nat, o, k0, f as nat) == (r, self@, self.log().len()));
                            }
                        }
                        r
                    },
                }
            },
            _ => {
                proof {
                    assert(false);
                }
                EvalResult::Break
            },
        }
    }

    /// A field of a value: of an object, its value; the length of an array or
    /// a string; nothing otherwise.
    fn eval_field<H: Host>(&mut self, host: &mut H, e: &Expr, sc: usize, c: usize, f: usize) -> (r: EvalResult)
        requires
            *e is Field,
        ensures
            log_extends(final(self).log(), old(self).log()),
            forall|o: Seq<HostEntry>|
                log_extends(o, final(self).log()) ==> #[trigger] eval_expr(expr_deep(*e), sc as nat, old(self)@, c as nat, o, old(self).log().len(), f as nat) == (r, final(self)@, final(self).log().len())
        decreases f, 1int, expr_deep(*e), 0int,
    {
        match e {
            Expr::Field(b, name, _) => {
                let ghost st0 = self@;
                let ghost k0 = self.log().len();
                let r = self.eval(host, b, sc, c, f);
                let ghost st1 = self@;
                let ghost k1 = self.log().len();
                let out = match r {
                    EvalResult::Val(Val::Object(h)) => EvalResult::Val(self.object_get(h, name)),
                    EvalResult::Val(Val::Array(h)) => {
                        if text_eq(name, "length") {
                            let n: usize = match self.array(h) {
                                Some(a) => a.len(),
                                None => 0,
                            };
                            EvalResult::Val(self.count(n))
                        } else {
                            EvalResult::Val(Val::Void)
                        }
                    },
                    EvalResult::Val(Val::String(h)) => {
                        if text_eq(name, "length") {
                            let n: usize = match self.text(h) {
                                Some(t) => t.as_bytes().len(),
                                None => 0,
                            };
                            EvalResult::Val(self.count(n))
                        } else {
                            EvalResult::Val(Val::Void)
                        }
                    },
                    EvalResult::Val(_) => EvalResult::Val(Val::Void),
                    _ => r,
                };
                proof {
                    assert forall|o: Seq<HostEntry>| log_extends(o, self.log()) implies #[trigger] eval_expr(expr_deep(*e), sc as nat, st0, c as nat, o, k0, f as nat) == (out, self@, self.log().len()) by {
                        assert(eval_expr(expr_deep(**b), sc as nat, st0, c as nat, o, k0, f as nat) == (r, st1, k1));
                    }
                }
                out
            },
            _ => {
                proof {
                    assert(false);
                }
                EvalResult::Break
            },
        }
    }

    /// A unary operator applied to the value of its operand.
    fn eval_unop<H: Host>(&mut self, host: &mut H, e: &Expr, sc: usize, c: usize, f: usize) -> (r: EvalResult)
        requires
            *e is UnOp,
        ensures
            log_extends(final(self).log(), old(self).log()),
            forall|o: Seq<HostEntry>|
                log_extends(o, final(self).log()) ==> #[trigger] eval_expr(expr_deep(*e), sc as nat, old(self)@, c as nat, o, old(self).log().len(), f as nat) == (r, final(self)@, final(self).log().len())
        decreases f, 1int, expr_deep(*e), 0int,
    {
        match e {
            Expr::UnOp(op, b, _) => {
                let ghost st0 = self@;
                let ghost k0 = self.log().len();
                let r = self.eval(host, b, sc, c, f);
                let ghost st1 = self@;
                let ghost k1 = self.log().len();
                let out = match r {
                    EvalResult::Val(v) => match unop_kind(op) {
                        UnOpKind::Negate => match v {
                            Val::Void => EvalResult::Val(self.count(1)),
                            _ => EvalResult::Val(Val::Void),
                        },
                        UnOpKind::Keep => EvalResult::Val(v),
                        UnOpKind::Return => EvalResult::Return(v),
                        UnOpKind::Discard => EvalResult::Val(Val::Void),
                    },
                    _ => r,
                };
                proof {
                    assert forall|o: Seq<HostEntry>| log_extends(o, self.log()) implies #[trigger] eval_expr(expr_deep(*e), sc as nat, st0, c as nat, o, k0, f as nat) == (out, self@, self.log().len()) by {
                        assert(eval_expr(expr_deep(**b), sc as nat, st0, c as nat, o, k0, f as nat) == (r, st1, k1));
                    }
                }
                out
            },
            _ => {
                proof {
                    assert(false);
                }
                EvalResult::Break
            },
        }
    }

    /// An object literal: its fields evaluated in turn; a repeated key keeps
    /// its first place and takes the last value.
    fn eval_object<H: Host>(&mut self, host: &mut H, e: &Expr, sc: usize, c: usize, f: usize) -> (r: EvalResult)
        requires
            *e is Object,
        ensures
            log_extends(final(self).log(), old(self).log()),
            forall|o: Seq<HostEntry>|
                log_extends(o, final(self).log()) ==> #[trigger] eval_expr(expr_deep(*e), sc as nat, old(self)@, c as nat, o, old(self).log().len(), f as nat) == (r, final(self)@, final(self).log().len())
        decreases f, 1int, expr_deep(*e), 0int,
    {
        match e {
            Expr::Object(fs, td) => {
                let ghost st0 = self@;
                let ghost k0 = self.log().len();
                let ghost fsv = fields_deep(fs@);
                assert(expr_deep(*e) == ExprView::Object(fsv, td@));
                proof {
                    lemma_fields_index(fs@);
                }
                let mut acc: Vec<(String, Val)> = Vec::new();
                assert(fields_view(acc@) =~= Seq::<(Seq<char>, Val)>::empty());
                let mut i: usize = 0;
                while i < fs.len()
                    invariant
                        fsv == fields_deep(fs@),
                        fsv.len() == fs@.len(),
                        forall|j: int| 0 <= j < fs@.len() ==> #[trigger] fsv[j] == (fs@[j].0@, expr_deep(fs@[j].1)),
                        expr_deep(*e) == ExprView::Object(fsv, td@),
                        i <= fs@.len(),
                        log_extends(self.log(), old(self).log()),
                        st0 == old(self)@,
                        k0 == old(self).log().len(),
                        forall|o: Seq<HostEntry>| log_extends(o, self.log()) ==> #[trigger] eval_fields(fsv, 0, Seq::empty(), sc as nat, st0, c as nat, o, k0, f as nat)
                            == eval_fields(fsv, i as int, fields_view(acc@), sc as nat, self@, c as nat, o, self.log().len(), f as nat),
                    decreases fs.len() - i,
                {
                    let ghost st1 = self@;
                    let ghost l1 = self.log();
                    let ghost acc1 = fields_view(acc@);
                    assert(decreases_to!(expr_deep(*e) => expr_deep(*e)->Object_0));
                    assert(decreases_to!(fsv => fsv[i as int]));
                    assert(decreases_to!(fsv[i as int] => fsv[i as int].1));
                    let r = self.eval(host, &fs[i].1, sc, c, f);
                    match r {
                        EvalResult::Val(v) => {
                            put_field_exec(&mut acc, fs[i].0.clone(), v);
                            proof {
                                lemma_log_extends_trans(self.log(), l1, old(self).log());
                            }
                            proof {
                                assert forall|o: Seq<HostEntry>| log_extends(o, self.log()) implies #[trigger] eval_fields(fsv, 0, Seq::empty(), sc as nat, st0, c as nat, o, k0, f as nat) == eval_fields(fsv, i + 1, fields_view(acc@), sc as nat, self@, c as nat, o, self.log().len(), f as nat) by {
                                    lemma_log_extends_trans(o, self.log(), l1);
                                    assert(eval_fields(fsv, 0, Seq::empty(), sc as nat, st0, c as nat, o, k0, f as nat)
                                        == eval_fields(fsv, i as int, acc1, sc as nat, st1, c as nat, o, l1.len(), f as nat));
                                    assert(eval_expr(fsv[i as int].1, sc as nat, st1, c as nat, o, l1.len(), f as nat) == (r, self@, self.log().len()));
                                }
                            }
                        },
                        _ => {
                            proof {
                                lemma_log_extends_trans(self.log(), l1, old(self).log());
                            }
                            proof {
                                assert forall|o: Seq<HostEntry>| log_extends(o, self.log()) implies #[trigger] eval_expr(expr_deep(*e), sc as nat, st0, c as nat, o, k0, f as nat) == (r, self@, self.log().len()) by {
                                    lemma_log_extends_trans(o, self.log(), l1);
                                    assert(eval_fields(fsv, 0, Seq::empty(), sc as nat, st0, c as nat, o, k0, f as nat)
                                        == eval_fields(fsv, i as int, acc1, sc as nat, st1, c as nat, o, l1.len(), f as nat));
                                    assert(eval_expr(fsv[i as int].1, sc as nat, st1, c as nat, o, l1.len(), f as nat) == (r, self@, self.log().len()));
                                }
                            }
                            return r;
                        },
                    }
                    i = i + 1;
                }
                let ghost st2 = self@;
                let ghost accv = fields_view(acc@);
                let h = self.alloc_object(acc);
                proof {
                    assert forall|o: Seq<HostEntry>| log_extends(o, self.log()) implies #[trigger] eval_expr(expr_deep(*e), sc as nat, st0, c as nat, o, k0, f as nat) == (EvalResult::Val(Val::Object(h)), self@, self.log().len()) by {
                        assert(eval_fields(fsv, 0, Seq::empty(), sc as nat, st0, c as nat, o, k0, f as nat) == (Ok::<Seq<(Seq<char>, Val)>, EvalResult>(accv), st2, self.log().len()));
                    }
                }
                EvalResult::Val(Val::Object(h))
            },
            _ => {
                proof {
                    assert(false);
                }
                EvalResult::Break
            },
        }
    }
}


impl Runtime {
    /// A call: the target, then the arguments in turn, then the task.
    fn eval_call<H: Host>(&mut self, host: &mut H, e: &Expr, sc: usize, c: usize, f: usize) -> (r: EvalResult)
        requires
            *e is FuncCall,
        ensures
            log_extends(final(self).log(), old(self).log()),
            forall|o: Seq<HostEntry>|
                log_extends(o, final(self).log()) ==> #[trigger] eval_expr(expr_deep(*e), sc as nat, old(self)@, c as nat, o, old(self).log().len(), f as nat) == (r, final(self)@, final(self).log().len())
        decreases f, 1int, expr_deep(*e), 0int,
    {
        match e {
            Expr::FuncCall(target, args, td) => {
                let ghost st0 = self@;
                let ghost k0 = self.log().len();
                assert(expr_deep(*e) == ExprView::FuncCall(Box::new(expr_deep(**target)), exprs_deep(args@), td@));
                assert(decreases_to!(expr_deep(*e) => expr_deep(*e)->FuncCall_0));
                let tr = self.eval(host, target, sc, c, f);
                let ghost st1 = self@;
                let ghost l1 = self.log();
                match tr {
                    EvalResult::Val(tv) => {
                        assert(decreases_to!(expr_deep(*e) => expr_deep(*e)->FuncCall_1));
                        let ar = self.eval_list(host, args, sc, c, f);
                        let ghost st2 = self@;
                        let ghost l2 = self.log();
                        proof {
                            lemma_log_extends_trans(self.log(), l1, old(self).log());
                        }
                        match ar {
                            Ok(vals) => {
                                let ghost vv = vals@;
                                let r = self.call(host, tv, vals, sc, c, f);
                                proof {
                                    lemma_log_extends_trans(self.log(), l2, old(self).log());
                                }
                                proof {
                                    assert forall|o: Seq<HostEntry>| log_extends(o, self.log()) implies #[trigger] eval_expr(expr_deep(*e), sc as nat, st0, c as nat, o, k0, f as nat) == (r, self@, self.log().len()) by {
                                        lemma_log_extends_trans(o, self.log(), l2);
                                        lemma_log_extends_trans(o, l2, l1);
                                        assert(eval_expr(expr_deep(**target), sc as nat, st0, c as nat, o, k0, f as nat) == (tr, st1, l1.len()));
                                        assert(eval_items(exprs_deep(args@), 0, Seq::empty(), sc as nat, st1, c as nat, o, l1.len(), f as nat) == (Ok::<Seq<Val>, EvalResult>(vv), st2, l2.len()));
                                        assert(call_task(tv, vv, sc as nat, st2, c as nat, o, l2.len(), f as nat) == (r, self@, self.log().len()));
                                    }
                                }
                                r
                            },
                            Err(r) => {
                                proof {
                                    assert forall|o: Seq<HostEntry>| log_extends(o, self.log()) implies #[trigger] eval_expr(expr_deep(*e), sc as nat, st0, c as nat, o, k0, f as nat) == (r, self@, self.log().len()) by {
                                        lemma_log_extends_trans(o, self.log(), l1);
                                        assert(eval_expr(expr_deep(**target), sc as nat, st0, c as nat, o, k0, f as nat) == (tr, st1, l1.len()));
                                        assert(eval_items(exprs_deep(args@), 0, Seq::empty(), sc as nat, st1, c as nat, o, l1.len(), f as nat) == (Err::<Seq<Val>, EvalResult>(r), st2, l2.len()));
                                    }
                                }
                                r
                            },
                        }
                    },
                    _ => {
                        proof {
                            assert forall|o: Seq<HostEntry>| log_extends(o, self.log()) implies #[trigger] eval_expr(expr_deep(*e), sc as nat, st0, c as nat, o, k0, f as nat) == (tr, self@, self.log().len()) by {
                                assert(eval_expr(expr_deep(**target), sc as nat, st0, c as nat, o, k0, f as nat) == (tr, st1, l1.len()));
                            }
                        }
                        tr
                    },
                }
            },
            _ => {
                proof {
                    assert(false);
                }
                EvalResult::Break
            },
        }
    }

    /// A flow control: the branch its condition picks; an error from it is
    /// handed to the rescue block, in a new frame, when there is one.
    fn eval_flow<H: Host>(&mut self, host: &mut H, e: &Expr, sc: usize, c: usize, f: usize) -> (r: EvalResult)
        requires
            *e is FlowControl,
        ensures
            log_extends(final(self).log(), old(self).log()),
            forall|o: Seq<HostEntry>|
                log_extends(o, final(self).log()) ==> #[trigger] eval_expr(expr_deep(*e), sc as nat, old(self)@, c as nat, o, old(self).log().len(), f as nat) == (r, final(self)@, final(self).log().len())
        decreases f, 1int, expr_deep(*e), 0int,
    {
        match e {
            Expr::FlowControl { condition, success, fallback, rescue, catch_var, token } => {
                let ghost st0 = self@;
                let ghost k0 = self.log().len();
                assert(expr_deep(*e) == ExprView::FlowControl {
                    condition: Box::new(expr_deep(**condition)),
                    success: Box::new(expr_deep(**success)),
                    fallback: opt_deep(*fallback),
                    rescue: opt_deep(*rescue),
                    catch_var: match catch_var {
                        Some(s) => Some(s@),
                        None => None,
                    },
                    token: token@,
                });
                assert(decreases_to!(expr_deep(*e) => expr_deep(*e)->condition));
                let cr = self.eval(host, condition, sc, c, f);
                let ghost st1 = self@;
                let ghost l1 = self.log();
                let br = match cr {
                    EvalResult::Val(cv) => {
                        if is_truthy(cv) {
                            assert(decreases_to!(expr_deep(*e) => expr_deep(*e)->success));
                            self.eval(host, success, sc, c, f)
                        } else {
                            match fallback {
                                Some(fb) => {
                                    assert(decreases_to!(expr_deep(*e) => expr_deep(*e)->fallback));
                                    assert(decreases_to!(expr_deep(*e)->fallback => expr_deep(*e)->fallback->0));
                                    self.eval(host, fb, sc, c, f)
                                },
                                None => EvalResult::Val(Val::Void),
                            }
                        }
                    },
                    _ => cr,
                };
                let ghost st2 = self@;
                let ghost l2 = self.log();
                proof {
                    lemma_log_extends_trans(self.log(), l1, old(self).log());
                }
                assert forall|o: Seq<HostEntry>| log_extends(o, self.log()) implies #[trigger] flow_branch(expr_deep(*e), sc as nat, st0, c as nat, o, k0, f as nat) == (br, st2, l2.len()) by {
                    lemma_log_extends_trans(o, self.log(), l1);
                    assert(eval_expr(expr_deep(**condition), sc as nat, st0, c as nat, o, k0, f as nat) == (cr, st1, l1.len()));
                    if cr is Val {
                        if !(cr->Val_0 is Void) {
                            assert(eval_expr(expr_deep(**success), sc as nat, st1, c as nat, o, l1.len(), f as nat) == (br, st2, l2.len()));
                        } else if fallback.is_some() {
                            assert(eval_expr(expr_deep(*fallback.unwrap()), sc as nat, st1, c as nat, o, l1.len(), f as nat) == (br, st2, l2.len()));
                        }
                    }
                }
                match (br, rescue) {
                    (EvalResult::Error(ev), Some(rb)) => {
                        let rf = self.open_frame(sc);
                        match catch_var {
                            Some(n) => self.set_var(rf, n.clone(), ev),
                            None => {},
                        }
                        let ghost st4 = self@;
                        assert(decreases_to!(expr_deep(*e) => expr_deep(*e)->rescue));
                        assert(decreases_to!(expr_deep(*e)->rescue => expr_deep(*e)->rescue->0));
                        let r = self.eval(host, rb, rf, c, f);
                        proof {
                            lemma_log_extends_trans(self.log(), l2, old(self).log());
                        }
                        proof {
                            assert forall|o: Seq<HostEntry>| log_extends(o, self.log()) implies #[trigger] eval_expr(expr_deep(*e), sc as nat, st0, c as nat, o, k0, f as nat) == (r, self@, self.log().len()) by {
                                lemma_log_extends_trans(o, self.log(), l2);
                                assert(flow_branch(expr_deep(*e), sc as nat, st0, c as nat, o, k0, f as nat) == (br, st2, l2.len()));
                                assert(eval_expr(expr_deep(**rb), rf as nat, st4, c as nat, o, l2.len(), f as nat) == (r, self@, self.log().len()));
                            }
                        }
                        r
                    },
                    _ => {
                        proof {
                            assert forall|o: Seq<HostEntry>| log_extends(o, self.log()) implies #[trigger] eval_expr(expr_deep(*e), sc as nat, st0, c as nat, o, k0, f as nat) == (br, self@, self.log().len()) by {
                                assert(flow_branch(expr_deep(*e), sc as nat, st0, c as nat, o, k0, f as nat) == (br, st2, l2.len()));
                            }
                        }
                        br
                    },
                }
            },
            _ => {
                proof {
                    assert(false);
                }
                EvalResult::Break
            },
        }
    }

    /// Calls the value `tv` with `args` from frame `sc`: a native task by the
    /// host, a task written in Hank by binding its parameters in a new frame
    /// on top of the one it was defined in and running its body there; an
    /// error value the body gives is the call's error.
    pub fn call<H: Host>(&mut self, host: &mut H, tv: Val, args: Vec<Val>, sc: usize, c: usize, f: usize) -> (r: EvalResult)
        ensures
            log_extends(final(self).log(), old(self).log()),
            forall|o: Seq<HostEntry>|
                log_extends(o, final(self).log()) ==> #[trigger] call_task(tv, args@, sc as nat, old(self)@, c as nat, o, old(self).log().len(), f as nat) == (r, final(self)@, final(self).log().len())
        decreases f, 0int, tv, 0int,
    {
        let ghost st0 = self@;
        let ghost k0 = self.log().len();
        let ghost av = args@;
        match tv {
            Val::Task(h) => match self.task_copy(h) {
                Some(t) => {
                    let ghost tview = task_view(t);
                    assert(h < st0.tasks.len() && st0.tasks[h as int] == tview);
                    match t {
                        Task::Native { id, .. } => {
                            assert(tview is Native && tview->Native_id == id as nat);
                            let ghost before = self.log();
                            let ghost call = HostEntry {
                                request: HostRequest::Call { id: id as nat, args: av, scope: sc as nat, depth: f as nat },
                                before: st0,
                                outcome: EvalResult::Break,
                                text: Seq::empty(),
                                after: st0,
                                nested: 0,
                            };
                            self.start_native(id, Ghost(av), sc, f);
                            let r = host.call_native(self, id, args, sc, f);
                            let ghost lh = self.log();
                            self.record_native(Ghost(before), Ghost(call), r);
                            let ghost nested = nested_after(lh, before.len());
                            let ghost entry = HostEntry { outcome: r, after: self@, nested: nested.len(), ..call };
                            assert(before.len() == k0);
                            assert(self.log() == before.push(entry) + nested);
                            assert(self.log()[k0 as int] == entry);
                            assert(self.log().len() == k0 + 1 + nested.len());
                            assert(log_extends(self.log(), old(self).log()));
                            proof {
                                assert forall|o: Seq<HostEntry>| log_extends(o, self.log()) implies #[trigger] call_task(tv, av, sc as nat, st0, c as nat, o, k0, f as nat) == (r, self@, self.log().len()) by {
                                    assert(o[k0 as int] == self.log()[k0 as int]);
                                }
                            }
                            r
                        },
                        Task::User { params, body, closure, .. } => {
                            let ghost pv = params_deep(params@);
                            proof {
                                lemma_params_index(params@);
                            }
                            assert(tview == TaskView::User { name: tview->User_name, params: pv, body: expr_deep(body), closure: closure as nat });
                            match param_plan(&params, args.len()) {
                                None => self.fail_plain_exec(HankError::TooManyArguments),
                                Some(plan) => {
                                    if f == 0 {
                                        self.overflow_exec()
                                    } else {
                                        let f1 = f - 1;
                                        let tf = self.open_frame(closure);
                                        let ghost st1 = self@;
                                        let br = self.bind(host, &params, &plan, &args, tf, c, f1);
                                        let ghost st2 = self@;
                                        let ghost l2 = self.log();
                                        assert(st1 == crate::runtime::with_frame(st0, closure as nat));
                                        assert(forall|o: Seq<HostEntry>| log_extends(o, l2) ==> #[trigger] bind_params(pv, 0, av, tf as nat, st1, c as nat, o, k0, f1 as nat) == (br, st2, l2.len()));
                                        match br {
                                            Err(r) => {
                                                proof {
                                                    assert forall|o: Seq<HostEntry>| log_extends(o, self.log()) implies #[trigger] call_task(tv, av, sc as nat, st0, c as nat, o, k0, f as nat) == (r, self@, self.log().len()) by {
                                                        assert(bind_params(pv, 0, av, tf as nat, st1, c as nat, o, k0, f1 as nat) == (Err::<(), EvalResult>(r), st2, l2.len()));
                                                    }
                                                }
                                                r
                                            },
                                            Ok(()) => {
                                                let res = self.eval(host, &body, tf, c, f1);
                                                let out = match res {
                                                    EvalResult::Val(v) => if is_error(v) {
                                                        EvalResult::Error(v)
                                                    } else {
                                                        EvalResult::Val(v)
                                                    },
                                                    EvalResult::Return(v) => if is_error(v) {
                                                        EvalResult::Error(v)
                                                    } else {
                                                        EvalResult::Val(v)
                                                    },
                                                    _ => res,
                                                };
                                                proof {
                                                    lemma_log_extends_trans(self.log(), l2, old(self).log());
                                                }
                                                proof {
                                                    assert forall|o: Seq<HostEntry>| log_extends(o, self.log()) implies #[trigger] call_task(tv, av, sc as nat, st0, c as nat, o, k0, f as nat) == (out, self@, self.log().len()) by {
                                                        lemma_log_extends_trans(o, self.log(), l2);
                                                        let bp = bind_params(pv, 0, av, tf as nat, st1, c as nat, o, k0, f1 as nat);
                                                        assert(bp == (br, st2, l2.len()));
                                                        assert(bp.0 is Ok && bp.1 == st2 && bp.2 == l2.len());
                                                        assert(eval_expr(expr_deep(body), tf as nat, st2, c as nat, o, l2.len(), f1 as nat) == (res, self@, self.log().len()));
                                                    }
                                                }
                                                out
                                            },
                                        }
                                    }
                                },
                            }
                        },
                    }
                },
                None => self.not_callable_exec(host, tv),
            },
            _ => self.not_callable_exec(host, tv),
        }
    }

    /// The text the library shows a value with, where it renders it itself.
    fn own_rendering_exec(&self, v: Val) -> (r: Option<String>)
        ensures
            match r {
                Some(t) => own_rendering(self@, v) == Some(t@),
                None => own_rendering(self@, v) is None,
            },
    {
        match v {
            Val::Void => {
                Some("Void".to_owned())
            },
            Val::String(h) => {
                let quoted = match self.text(h) {
                    Some(t) => debug_str(t),
                    None => {
                        proof {
                            reveal_strlit("");
                            assert(""@ =~= Seq::<char>::empty());
                        }
                        debug_str("")
                    },
                };
                let mut out = "String(".to_owned();
                push_str(&mut out, quoted.as_str());
                push_str(&mut out, ")");
                assert(own_rendering(self@, v) == Some(out@));
                Some(out)
            },
            _ => None,
        }
    }

    /// Calling a value that is not a task: an error whose argument renders
    /// the value, by the library where it can, else by the host.
    fn not_callable_exec<H: Host>(&mut self, host: &mut H, tv: Val) -> (r: EvalResult)
        ensures
            log_extends(final(self).log(), old(self).log()),
            forall|o: Seq<HostEntry>|
                log_extends(o, final(self).log()) ==> #[trigger] not_callable(tv, old(self)@, o, old(self).log().len()) == (r, final(self)@, final(self).log().len())
    {
        let ghost st0 = self@;
        let ghost k0 = self.log().len();
        match self.own_rendering_exec(tv) {
            Some(t) => {
                let r = self.fail_text_exec(HankError::TargetNotFunction, t);
                r
            },
            None => {
                let text = host.describe(&*self, tv);
                self.record_describe(tv, Ghost(text@));
                let ghost l1 = self.log();
                assert(l1[k0 as int] == HostEntry {
                    request: HostRequest::Describe { value: tv },
                    before: st0,
                    outcome: EvalResult::Break,
                    text: text@,
                    after: st0,
                    nested: 0,
                });
                let r = self.fail_text_exec(HankError::TargetNotFunction, text);
                assert(log_extends(self.log(), old(self).log()));
                proof {
                    assert forall|o: Seq<HostEntry>| log_extends(o, self.log()) implies #[trigger] not_callable(tv, st0, o, k0) == (r, self@, self.log().len()) by {
                        assert(o[k0 as int] == l1[k0 as int]);
                    }
                }
                r
            },
        }
    }

    /// Binds the parameters of a call in the task's frame `tf`, following
    /// `plan`: an argument, a default value evaluated there, nothing, or an
    /// error for a missing one.
    fn bind<H: Host>(
        &mut self,
        host: &mut H,
        params: &Vec<Param>,
        plan: &Vec<ParamSource>,
        args: &Vec<Val>,
        tf: usize,
        c: usize,
        f: usize,
    ) -> (r: Result<(), EvalResult>)
        requires
            plan@.len() == params@.len(),
            forall|i: int| 0 <= i < plan@.len() ==> #[trigger] plan@[i] == param_source(param_deep(params@[i]), i, args@.len() as int),
        ensures
            log_extends(final(self).log(), old(self).log()),
            forall|o: Seq<HostEntry>|
                log_extends(o, final(self).log()) ==> #[trigger] bind_params(params_deep(params@), 0, args@, tf as nat, old(self)@, c as nat, o, old(self).log().len(), f as nat) == (r, final(self)@, final(self).log().len())
        decreases f, 0int, params_deep(params@), 0int,
    {
        let ghost st0 = self@;
        let ghost k0 = self.log().len();
        let ghost pv = params_deep(params@);
        proof {
            lemma_params_index(params@);
        }
        let mut i: usize = 0;
        while i < params.len()
            invariant
                pv == params_deep(params@),
                pv.len() == params@.len(),
                forall|j: int| 0 <= j < params@.len() ==> #[trigger] pv[j] == param_deep(params@[j]),
                plan@.len() == params@.len(),
                forall|j: int| 0 <= j < plan@.len() ==> #[trigger] plan@[j] == param_source(param_deep(params@[j]), j, args@.len() as int),
                i <= params@.len(),
                log_extends(self.log(), old(self).log()),
                st0 == old(self)@,
                k0 == old(self).log().len(),
                forall|o: Seq<HostEntry>| log_extends(o, self.log()) ==> #[trigger] bind_params(pv, 0, args@, tf as nat, st0, c as nat, o, k0, f as nat)
                    == bind_params(pv, i as int, args@, tf as nat, self@, c as nat, o, self.log().len(), f as nat),
            decreases params.len() - i,
        {
            let ghost st1 = self@;
            let ghost l1 = self.log();
            let p = &params[i];
            assert(pv[i as int] == param_deep(*p));
            match plan[i] {
                ParamSource::Arg => {
                    self.set_var(tf, p.name.clone(), args[i]);
                    proof {
                        assert forall|o: Seq<HostEntry>| log_extends(o, self.log()) implies #[trigger] bind_params(pv, 0, args@, tf as nat, st0, c as nat, o, k0, f as nat) == bind_params(pv, i + 1, args@, tf as nat, self@, c as nat, o, self.log().len(), f as nat) by {
                            assert(bind_params(pv, 0, args@, tf as nat, st0, c as nat, o, k0, f as nat) == bind_params(pv, i as int, args@, tf as nat, st1, c as nat, o, l1.len(), f as nat));
                        }
                    }
                },
                ParamSource::Default => match &p.default_value {
                    Some(d) => {
                        if f == 0 {
                            let r = self.overflow_exec();
                            proof {
                                assert forall|o: Seq<HostEntry>| log_extends(o, self.log()) implies #[trigger] bind_params(pv, 0, args@, tf as nat, st0, c as nat, o, k0, f as nat) == (Err::<(), EvalResult>(r), self@, self.log().len()) by {
                                    assert(bind_params(pv, 0, args@, tf as nat, st0, c as nat, o, k0, f as nat) == bind_params(pv, i as int, args@, tf as nat, st1, c as nat, o, l1.len(), f as nat));
                                }
                            }
                            return Err(r);
                        }
                        let f1 = f - 1;
                        let r = self.eval(host, d, tf, c, f1);
                        let ghost st2 = self@;
                        let ghost l2 = self.log();
                        proof {
                            lemma_log_extends_trans(self.log(), l1, old(self).log());
                        }
                        match r {
                            EvalResult::Val(v) => {
                                self.set_var(tf, p.name.clone(), v);
                                proof {
                                    assert forall|o: Seq<HostEntry>| log_extends(o, self.log()) implies #[trigger] bind_params(pv, 0, args@, tf as nat, st0, c as nat, o, k0, f as nat) == bind_params(pv, i + 1, args@, tf as nat, self@, c as nat, o, self.log().len(), f as nat) by {
                                        lemma_log_extends_trans(o, self.log(), l1);
                                        assert(bind_params(pv, 0, args@, tf as nat, st0, c as nat, o, k0, f as nat) == bind_params(pv, i as int, args@, tf as nat, st1, c as nat, o, l1.len(), f as nat));
                                        assert(eval_expr(expr_deep(**d), tf as nat, st1, c as nat, o, l1.len(), f1 as nat) == (r, st2, l2.len()));
                                    }
                                }
                            },
                            _ => {
                                proof {
                                    assert forall|o: Seq<HostEntry>| log_extends(o, self.log()) implies #[trigger] bind_params(pv, 0, args@, tf as nat, st0, c as nat, o, k0, f as nat) == (Err::<(), EvalResult>(r), self@, self.log().len()) by {
                                        lemma_log_extends_trans(o, self.log(), l1);
                                        assert(bind_params(pv, 0, args@, tf as nat, st0, c as nat, o, k0, f as nat) == bind_params(pv, i as int, args@, tf as nat, st1, c as nat, o, l1.len(), f as nat));
                                        assert(eval_expr(expr_deep(**d), tf as nat, st1, c as nat, o, l1.len(), f1 as nat) == (r, st2, l2.len()));
                                    }
                                }
                                return Err(r);
                            },
                        }
                    },
                    None => {
                        proof {
                            assert forall|o: Seq<HostEntry>| log_extends(o, self.log()) implies #[trigger] bind_params(pv, 0, args@, tf as nat, st0, c as nat, o, k0, f as nat) == (Ok::<(), EvalResult>(()), self@, self.log().len()) by {
                                assert(bind_params(pv, 0, args@, tf as nat, st0, c as nat, o, k0, f as nat) == bind_params(pv, i as int, args@, tf as nat, st1, c as nat, o, l1.len(), f as nat));
                            }
                        }
                        return Ok(());
                    },
                },
                ParamSource::Void => {
                    self.set_var(tf, p.name.clone(), Val::Void);
                    proof {
                        assert forall|o: Seq<HostEntry>| log_extends(o, self.log()) implies #[trigger] bind_params(pv, 0, args@, tf as nat, st0, c as nat, o, k0, f as nat) == bind_params(pv, i + 1, args@, tf as nat, self@, c as nat, o, self.log().len(), f as nat) by {
                            assert(bind_params(pv, 0, args@, tf as nat, st0, c as nat, o, k0, f as nat) == bind_params(pv, i as int, args@, tf as nat, st1, c as nat, o, l1.len(), f as nat));
                        }
                    }
                },
                ParamSource::Missing => {
                    let r = self.fail_text_exec(HankError::MissingRequiredParameter, p.name.clone());
                    proof {
                        assert forall|o: Seq<HostEntry>| log_extends(o, self.log()) implies #[trigger] bind_params(pv, 0, args@, tf as nat, st0, c as nat, o, k0, f as nat) == (Err::<(), EvalResult>(r), self@, self.log().len()) by {
                            assert(bind_params(pv, 0, args@, tf as nat, st0, c as nat, o, k0, f as nat) == bind_params(pv, i as int, args@, tf as nat, st1, c as nat, o, l1.len(), f as nat));
                        }
                    }
                    return Err(r);
                },
            }
            i = i + 1;
        }
        Ok(())
    }
}


/// The depth of nested task calls a host allows a run: no bound short of
/// the machine's own stack. The evaluator takes the depth as an argument, and
/// stops with a stack overflow error only when the calls nest deeper than
/// that.
pub const MAX_DEPTH: usize = usize::MAX;

impl Runtime {
    /// Runs `e` in frame `sc` with `c` the core frame and `f` the depth of
    /// task calls allowed: the value of the outcome, the error value for an
    /// error, nothing for a break.
    pub fn run<H: Host>(&mut self, host: &mut H, e: &Expr, sc: usize, c: usize, f: usize) -> (v: Val)
        ensures
            log_extends(final(self).log(), old(self).log()),
            forall|o: Seq<HostEntry>|
                log_extends(o, final(self).log()) ==> run_value(#[trigger] eval_expr(expr_deep(*e), sc as nat, old(self)@, c as nat, o, old(self).log().len(), f as nat).0) == v
                    && eval_expr(expr_deep(*e), sc as nat, old(self)@, c as nat, o, old(self).log().len(), f as nat).1 == final(self)@
                    && eval_expr(expr_deep(*e), sc as nat, old(self)@, c as nat, o, old(self).log().len(), f as nat).2 == final(self).log().len(),
    {
        let r = self.eval(host, e, sc, c, f);
        match r {
            EvalResult::Val(v) => v,
            EvalResult::Return(v) => v,
            EvalResult::Break => Val::Void,
            EvalResult::Error(v) => v,
        }
    }
}


impl Runtime {
    /// Runs a script: evaluates its tree in frame `sc`, which must give a
    /// task, and calls that task with `args`; the value of the call's
    /// outcome, or the error value the tree gave, or the error that the
    /// script is not a task.
    pub fn run_script<H: Host>(
        &mut self,
        host: &mut H,
        e: &Expr,
        args: Vec<Val>,
        sc: usize,
        c: usize,
        f: usize,
    ) -> (r: Result<Val, HankError>)
        ensures
            log_extends(final(self).log(), old(self).log()),
            forall|o: Seq<HostEntry>|
                log_extends(o, final(self).log()) ==> #[trigger] script_run(expr_deep(*e), args@, sc as nat, old(self)@, c as nat, o, old(self).log().len(), f as nat) == (r, final(self)@, final(self).log().len())
    {
        let ghost st0 = self@;
        let ghost k0 = self.log().len();
        let ghost av = args@;
        let r1 = self.eval(host, e, sc, c, f);
        let ghost st1 = self@;
        let ghost l1 = self.log();
        let v = match r1 {
            EvalResult::Val(v) => v,
            EvalResult::Return(v) => v,
            EvalResult::Break => Val::Void,
            EvalResult::Error(v) => v,
        };
        match v {
            Val::Task(_) => {
                let r2 = self.call(host, v, args, sc, c, f);
                let out = match r2 {
                    EvalResult::Val(x) => x,
                    EvalResult::Return(x) => x,
                    EvalResult::Break => Val::Void,
                    EvalResult::Error(x) => x,
                };
                proof {
                    lemma_log_extends_trans(self.log(), l1, old(self).log());
                }
                proof {
                    assert forall|o: Seq<HostEntry>| log_extends(o, self.log()) implies #[trigger] script_run(expr_deep(*e), av, sc as nat, st0, c as nat, o, k0, f as nat) == (Ok::<Val, HankError>(out), self@, self.log().len()) by {
                        lemma_log_extends_trans(o, self.log(), l1);
                        assert(eval_expr(expr_deep(*e), sc as nat, st0, c as nat, o, k0, f as nat) == (r1, st1, l1.len()));
                        assert(call_task(v, av, sc as nat, st1, c as nat, o, l1.len(), f as nat) == (r2, self@, self.log().len()));
                    }
                }
                Ok(out)
            },
            Val::Error(_) => {
                proof {
                    assert forall|o: Seq<HostEntry>| log_extends(o, self.log()) implies #[trigger] script_run(expr_deep(*e), av, sc as nat, st0, c as nat, o, k0, f as nat) == (Ok::<Val, HankError>(v), self@, self.log().len()) by {
                        assert(eval_expr(expr_deep(*e), sc as nat, st0, c as nat, o, k0, f as nat) == (r1, st1, l1.len()));
                    }
                }
                Ok(v)
            },
            _ => {
                proof {
                    assert forall|o: Seq<HostEntry>| log_extends(o, self.log()) implies #[trigger] script_run(expr_deep(*e), av, sc as nat, st0, c as nat, o, k0, f as nat) == (Err::<Val, HankError>(HankError::ScriptMustBeTask), self@, self.log().len()) by {
                        assert(eval_expr(expr_deep(*e), sc as nat, st0, c as nat, o, k0, f as nat) == (r1, st1, l1.len()));
                    }
                }
                Err(HankError::ScriptMustBeTask)
            },
        }
    }
}


impl Runtime {
    /// `arr.each`: hands each item of the array `a`, with its index as a
    /// number, to the task `t`, from frame `sc` with `f` calls allowed; the
    /// outcomes are dropped and the result is nothing.
    pub fn arr_each<H: Host>(&mut self, host: &mut H, a: Val, t: Val, sc: usize, c: usize, f: usize) -> (r: Val)
        ensures
            r is Void,
            log_extends(final(self).log(), old(self).log()),
            forall|o: Seq<HostEntry>|
                log_extends(o, final(self).log()) ==> #[trigger] each_run(a, t, sc as nat, old(self)@, c as nat, o, old(self).log().len(), f as nat) == (final(self)@, final(self).log().len()),
    {
        let ghost st0 = self@;
        let ghost k0 = self.log().len();
        let items: Vec<Val> = match (a, t) {
            (Val::Array(h), Val::Task(_)) => match self.array(h) {
                Some(v) => v.clone(),
                None => Vec::new(),
            },
            _ => {
                return Val::Void;
            },
        };
        let ghost iv = items@;
        assert(iv =~= (if a->Array_0 < st0.arrays.len() { st0.arrays[a->Array_0 as int] } else { Seq::empty() }));
        let mut i: usize = 0;
        while i < items.len()
            invariant
                iv == items@,
                i <= items@.len(),
                t is Task,
                log_extends(self.log(), old(self).log()),
                forall|o: Seq<HostEntry>| log_extends(o, self.log()) ==> #[trigger] each_items(iv, 0, t, sc as nat, st0, c as nat, o, k0, f as nat)
                    == each_items(iv, i as int, t, sc as nat, self@, c as nat, o, self.log().len(), f as nat),
            decreases items.len() - i,
        {
            let ghost st1 = self@;
            let ghost l1 = self.log();
            let idx = self.count(i);
            let ghost st2 = self@;
            let mut args = vec![items[i], idx];
            assert(args@ =~= seq![iv[i as int], idx]);
            let limit: Option<usize> = match t {
                Val::Task(h) => match self.task(h) {
                    Some(Task::User { params, .. }) => {
                        proof {
                            lemma_params_index(params@);
                        }
                        Some(params.len())
                    },
                    _ => None,
                },
                _ => None,
            };
            if let Some(n) = limit {
                if args.len() > n {
                    args.truncate(n);
                }
            }
            assert(args@ == each_args(st2, t, seq![iv[i as int], idx]));
            let ghost av = args@;
            let r = self.call(host, t, args, sc, c, f);
            proof {
                lemma_log_extends_trans(self.log(), l1, old(self).log());
            }
            assert forall|o: Seq<HostEntry>| log_extends(o, self.log()) implies #[trigger] each_items(iv, 0, t, sc as nat, st0, c as nat, o, k0, f as nat)
                == each_items(iv, i + 1, t, sc as nat, self@, c as nat, o, self.log().len(), f as nat) by {
                lemma_log_extends_trans(o, self.log(), l1);
                assert(each_items(iv, 0, t, sc as nat, st0, c as nat, o, k0, f as nat)
                    == each_items(iv, i as int, t, sc as nat, st1, c as nat, o, l1.len(), f as nat));
                assert(call_task(t, av, sc as nat, st2, c as nat, o, l1.len(), f as nat) == (r, self@, self.log().len()));
            }
            i = i + 1;
        }
        proof {
            assert forall|o: Seq<HostEntry>| log_extends(o, self.log()) implies #[trigger] each_run(a, t, sc as nat, st0, c as nat, o, k0, f as nat) == (self@, self.log().len()) by {
                assert(each_items(iv, 0, t, sc as nat, st0, c as nat, o, k0, f as nat) == each_items(iv, i as int, t, sc as nat, self@, c as nat, o, self.log().len(), f as nat));
            }
        }
        Val::Void
    }
}


} // verus!
