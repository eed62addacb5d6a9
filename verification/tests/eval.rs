use hank::ast::Expr;
use hank::eval::{is_error, is_truthy, MAX_DEPTH};
use hank::lexer::Lexer;
use hank::parser::{tokens_parseable, Parser};
use hank::runtime::{EvalResult, Host, Runtime, Task, Val};
use hank::types::HankError;

/// Natives for the tests: `add` sums integer numbers, `apply` calls its
/// first argument with its second, `stop` breaks.
struct TestHost {
    calls: usize,
}

impl Host for TestHost {
    fn describe(&mut self, rt: &Runtime, value: Val) -> String {
        match value {
            Val::Number(h) => format!("Number({})", rt.text(h).unwrap()),
            other => format!("{:?}", other),
        }
    }

    fn call_native(&mut self, rt: &mut Runtime, id: usize, args: Vec<Val>, scope: usize, depth: usize) -> EvalResult {
        self.calls += 1;
        match id {
            0 => {
                let mut total: i64 = 0;
                for a in args {
                    if let Val::Number(h) = a {
                        total += rt.text(h).unwrap().parse::<i64>().unwrap();
                    }
                }
                let h = rt.alloc_text(total.to_string());
                EvalResult::Val(Val::Number(h))
            },
            1 => {
                let core = rt.core_frame();
                rt.call(self, args[0], vec![args[1]], scope, core, depth)
            },
            _ => EvalResult::Break,
        }
    }
}

fn no_includes(path: String) -> Result<Expr, String> {
    Err(format!("no resource {}", path))
}

fn parse_src(src: &str) -> Expr {
    let toks = Lexer::new(src).tokenize();
    assert!(tokens_parseable(&toks));
    Parser::new(toks, "test.hank".to_string(), no_includes).parse().unwrap()
}

fn run_with_depth(src: &str, depth: usize) -> (Runtime, Val, usize) {
    let e = parse_src(src);
    let mut rt = Runtime::new();
    let core = rt.core_frame();
    for (name, id) in [("add", 0usize), ("apply", 1), ("stop", 2)] {
        let h = rt.alloc_task(Task::Native { name: name.to_string(), id });
        rt.set_var(core, name.to_string(), Val::Task(h));
    }
    let global = rt.open_frame(core);
    let mut host = TestHost { calls: 0 };
    let v = rt.run(&mut host, &e, global, core, depth);
    (rt, v, host.calls)
}

fn run(src: &str) -> (Runtime, Val) {
    let (rt, v, _) = run_with_depth(src, MAX_DEPTH);
    (rt, v)
}

fn number_text(rt: &Runtime, v: Val) -> String {
    match v {
        Val::Number(h) => rt.text(h).unwrap().to_string(),
        other => panic!("not a number: {:?}", other),
    }
}

fn error_of(rt: &Runtime, v: Val) -> (HankError, Vec<Val>) {
    match v {
        Val::Error(h) => {
            let e = rt.error(h).unwrap();
            (e.0, e.1.clone())
        },
        other => panic!("not an error: {:?}", other),
    }
}

fn string_text(rt: &Runtime, v: Val) -> String {
    match v {
        Val::String(h) => rt.text(h).unwrap().to_string(),
        other => panic!("not a string: {:?}", other),
    }
}

#[test]
fn eval_assignment_and_native_call() {
    let (rt, v) = run("{\n x = 2\n y = add(x, 3)\n y\n}");
    assert_eq!(number_text(&rt, v), "5");
}

#[test]
fn eval_assignment_binds_in_global_frame() {
    let (rt, v) = run("{\n x = 7\n}");
    assert_eq!(number_text(&rt, v), "7");
    assert_eq!(number_text(&rt, rt.get_var(1, "x")), "7");
}

#[test]
fn eval_hoisted_task_is_callable_before_its_definition() {
    let (rt, v) = run("{\n r = f(4)\n f = (a) { ^ add(a, 1) }\n r\n}");
    assert_eq!(number_text(&rt, v), "5");
}

#[test]
fn eval_default_parameter_value() {
    let (rt, v) = run("{\n f = (a, b = 10) { add(a, b) }\n f(1)\n}");
    assert_eq!(number_text(&rt, v), "11");
}

#[test]
fn eval_optional_parameter_is_void() {
    let (_rt, v) = run("{\n f = (a, ?b) { b }\n f(1)\n}");
    assert_eq!(v, Val::Void);
}

#[test]
fn eval_missing_parameter_is_an_error() {
    let (rt, v) = run("{\n f = (a, b) { a }\n f(1)\n}");
    let (code, args) = error_of(&rt, v);
    assert_eq!(code, HankError::MissingRequiredParameter);
    assert_eq!(args.len(), 1);
    assert_eq!(string_text(&rt, args[0]), "b");
}

#[test]
fn eval_too_many_arguments_is_an_error() {
    let (rt, v) = run("{\n f = (a) { a }\n f(1, 2)\n}");
    let (code, args) = error_of(&rt, v);
    assert_eq!(code, HankError::TooManyArguments);
    assert!(args.is_empty());
}

#[test]
fn eval_calling_a_number_is_an_error() {
    let (rt, v) = run("{\n x = 1\n x(2)\n}");
    let (code, args) = error_of(&rt, v);
    assert_eq!(code, HankError::TargetNotFunction);
    assert_eq!(string_text(&rt, args[0]), "Number(1)");
}

#[test]
fn eval_flow_takes_fallback_on_void() {
    let (rt, v) = run("{\n ?(missing) { 1 } : { 2 }\n}");
    assert_eq!(number_text(&rt, v), "2");
    let (rt, v) = run("{\n ?(0) { 1 } : { 2 }\n}");
    assert_eq!(number_text(&rt, v), "1");
}

#[test]
fn eval_rescue_receives_the_error() {
    let (rt, v) = run("{\n f = (a) { a }\n ?(1) { f() } ~(err) { err }\n}");
    let (code, args) = error_of(&rt, v);
    assert_eq!(code, HankError::MissingRequiredParameter);
    assert_eq!(string_text(&rt, args[0]), "a");
}

#[test]
fn eval_field_lengths_and_object_fields() {
    let (rt, v) = run("{\n s = \"h\u{e9}llo\"\n s.length\n}");
    assert_eq!(number_text(&rt, v), "6");
    let (rt, v) = run("{\n a = [1, 2, 3]\n a.length\n}");
    assert_eq!(number_text(&rt, v), "3");
    let (rt, v) = run("{\n o = { a: 1, b: 2 }\n o.b\n}");
    assert_eq!(number_text(&rt, v), "2");
    let (_rt, v) = run("{\n o = { a: 1 }\n o.c\n}");
    assert_eq!(v, Val::Void);
}

#[test]
fn eval_object_repeated_key_takes_last_value() {
    let (rt, v) = run("{\n o = { a: 1, b: 2, a: 3 }\n o.a\n}");
    assert_eq!(number_text(&rt, v), "3");
    match rt.get_var(1, "o") {
        Val::Object(h) => {
            let fields = rt.object(h).unwrap();
            let keys: Vec<&str> = fields.iter().map(|f| f.0.as_str()).collect();
            assert_eq!(keys, vec!["a", "b"]);
        },
        other => panic!("not an object: {:?}", other),
    }
}

#[test]
fn eval_not_operator() {
    let (rt, v) = run("{\n !missing\n}");
    assert_eq!(number_text(&rt, v), "1");
    let (_rt, v) = run("{\n !1\n}");
    assert_eq!(v, Val::Void);
}

#[test]
fn eval_native_calls_back_into_a_task() {
    let (rt, v, calls) = run_with_depth("{\n g = (n) { add(n, n) }\n apply(g, 5)\n}", MAX_DEPTH);
    assert_eq!(number_text(&rt, v), "10");
    assert_eq!(calls, 2);
}

#[test]
fn eval_return_leaves_the_task_early() {
    let (rt, v) = run("{\n f = (a) {\n ?(a) { ^ 1 }\n 2\n }\n f(3)\n}");
    assert_eq!(number_text(&rt, v), "1");
}

#[test]
fn eval_error_in_condition_is_rescued() {
    let (rt, v) = run("{\n f = (a) { a }\n g = () { f() }\n ?(g()) { 1 } ~(e) { 2 }\n}");
    assert_eq!(number_text(&rt, v), "2");
}

#[test]
fn eval_deep_recursion_stops_with_stack_overflow() {
    let (rt, v, _) = run_with_depth("{\n f = () { f() }\n f()\n}", 20);
    let (code, args) = error_of(&rt, v);
    assert_eq!(code, HankError::GenericRuntimeError);
    assert_eq!(string_text(&rt, args[0]), "Stack overflow");
}

#[test]
fn eval_core_identifier_skips_shadowing() {
    let (rt, v) = run("{\n add = 1\n #add(2, 3)\n}");
    assert_eq!(number_text(&rt, v), "5");
}

#[test]
fn eval_break_from_native_passes_through() {
    let (_rt, v) = run("{\n stop()\n 1\n}");
    assert_eq!(v, Val::Void);
}

#[test]
fn eval_truthiness_and_errors() {
    assert!(!is_truthy(Val::Void));
    assert!(is_truthy(Val::Number(0)));
    assert!(is_error(Val::Error(0)));
    assert!(!is_error(Val::String(0)));
}

#[test]
fn eval_task_giving_an_error_value_fails() {
    let e = parse_src("{\n h = (a) { a }\n t = () {\n ?(1) { h() } ~(err) { err }\n }\n}");
    let mut rt = Runtime::new();
    let core = rt.core_frame();
    let global = rt.open_frame(core);
    let mut host = TestHost { calls: 0 };
    let _ = rt.run(&mut host, &e, global, core, MAX_DEPTH);
    let t = rt.get_var(global, "t");
    assert!(matches!(t, Val::Task(_)));
    match rt.call(&mut host, t, vec![], global, core, MAX_DEPTH) {
        EvalResult::Error(v) => {
            let (code, _) = error_of(&rt, v);
            assert_eq!(code, HankError::MissingRequiredParameter);
        },
        other => panic!("not an error: {:?}", other),
    }
}

#[test]
fn eval_array_and_error_values_are_stored() {
    let (rt, v) = run("{\n [1, \"a\"]\n}");
    match v {
        Val::Array(h) => {
            let items = rt.array(h).unwrap();
            assert_eq!(items.len(), 2);
            assert_eq!(number_text(&rt, items[0]), "1");
            assert_eq!(string_text(&rt, items[1]), "a");
        },
        other => panic!("not an array: {:?}", other),
    }
}

#[test]
fn eval_scope_lookup_falls_back_to_parent_frames() {
    let (rt, _v) = run("{\n x = 1\n}");
    assert!(rt.has_var(1, "x"));
    assert!(!rt.has_var(0, "x"));
    assert!(rt.has_var(1, "add"));
    assert!(!rt.has_var(1, "missing"));
    assert_eq!(rt.get_var(0, "x"), Val::Void);
}

#[test]
fn eval_script_task_is_called_with_arguments() {
    let e = parse_src("(a, b) {\n add(a, b)\n}");
    let mut rt = Runtime::new();
    let core = rt.core_frame();
    let h = rt.alloc_task(Task::Native { name: "add".to_string(), id: 0 });
    rt.set_var(core, "add".to_string(), Val::Task(h));
    let global = rt.open_frame(core);
    let a = Val::Number(rt.alloc_text("2".to_string()));
    let b = Val::Number(rt.alloc_text("40".to_string()));
    let mut host = TestHost { calls: 0 };
    let v = rt.run_script(&mut host, &e, vec![a, b], global, core, MAX_DEPTH).unwrap();
    assert_eq!(number_text(&rt, v), "42");
}

#[test]
fn eval_script_that_is_not_a_task_is_refused() {
    let e = parse_src("{\n x = 1\n}");
    let mut rt = Runtime::new();
    let core = rt.core_frame();
    let global = rt.open_frame(core);
    let mut host = TestHost { calls: 0 };
    let r = rt.run_script(&mut host, &e, vec![], global, core, MAX_DEPTH);
    assert_eq!(r, Err(HankError::ScriptMustBeTask));
}

#[test]
fn eval_calling_a_string_or_nothing_renders_it() {
    let (rt, v) = run("{\n s = \"a b\"\n s()\n}");
    let (code, args) = error_of(&rt, v);
    assert_eq!(code, HankError::TargetNotFunction);
    assert_eq!(string_text(&rt, args[0]), "String(\"a b\")");
    let (rt, v) = run("{\n missing()\n}");
    let (_, args) = error_of(&rt, v);
    assert_eq!(string_text(&rt, args[0]), "Void");
}

#[test]
fn eval_rescued_call_of_a_number_binds_the_error() {
    let (rt, v) = run("{\n ?(1) { 1() } ~(e) { e }\n}");
    let (code, args) = error_of(&rt, v);
    assert_eq!(code, HankError::TargetNotFunction);
    assert_eq!(string_text(&rt, args[0]), "Number(1)");
    assert!(!rt.has_var(1, "e"));
}

#[test]
fn eval_each_call_uses_one_unit_of_depth() {
    let src = "{\n a = () { 1 }\n b = () { a() }\n c = () { b() }\n c()\n}";
    let (rt, v, _) = run_with_depth(src, 3);
    assert_eq!(number_text(&rt, v), "1");
    let (rt, v, _) = run_with_depth(src, 2);
    let (code, _) = error_of(&rt, v);
    assert_eq!(code, HankError::GenericRuntimeError);
}
