use hank::ast::{Expr, Literal};
use hank::natives::{logic_and, logic_or, regex_match};
use hank::runner::{after_fetch, load_step, LoadStep};
use hank::runtime::{EvalResult, Host, Runtime, Task, Val};
use hank::stdlib::compile;
use hank::types::{HankError, TokenData, ValueType};

fn num(rt: &mut Runtime, t: &str) -> Val {
    Val::Number(rt.alloc_text(t.to_string()))
}

fn text_of(rt: &Runtime, v: Val) -> String {
    match v {
        Val::Number(h) | Val::String(h) => rt.text(h).unwrap().to_string(),
        other => panic!("no text: {:?}", other),
    }
}

#[test]
fn logic_and_gives_last_or_nothing() {
    let mut rt = Runtime::new();
    let a = num(&mut rt, "1");
    let b = num(&mut rt, "2");
    assert_eq!(logic_and(&vec![a, b]), b);
    assert_eq!(logic_and(&vec![a, Val::Void, b]), Val::Void);
    assert_eq!(logic_and(&vec![]), Val::Void);
}

#[test]
fn logic_or_gives_first_non_void() {
    let mut rt = Runtime::new();
    let a = num(&mut rt, "1");
    let b = num(&mut rt, "2");
    assert_eq!(logic_or(&vec![Val::Void, a, b]), a);
    assert_eq!(logic_or(&vec![Val::Void]), Val::Void);
    assert_eq!(logic_or(&vec![]), Val::Void);
}

#[test]
fn array_tasks_push_pop_get_length() {
    let mut rt = Runtime::new();
    let one = num(&mut rt, "1");
    let arr = Val::Array(rt.alloc_array(vec![one]));
    let two = num(&mut rt, "2");
    rt.arr_push(arr, two);
    assert_eq!(rt.arr_get(arr, Some(1)), two);
    assert_eq!(rt.arr_get(arr, Some(5)), Val::Void);
    assert_eq!(rt.arr_get(arr, None), Val::Void);
    let n = rt.arr_length(arr);
    assert_eq!(text_of(&rt, n), "2");
    assert_eq!(rt.arr_pop(arr), two);
    assert_eq!(rt.arr_pop(arr), one);
    assert_eq!(rt.arr_pop(arr), Val::Void);
    assert_eq!(rt.arr_length(Val::Void), Val::Void);
    rt.arr_push(Val::Void, two);
}

#[test]
fn object_tasks_get_keys_values() {
    let mut rt = Runtime::new();
    let one = num(&mut rt, "1");
    let two = num(&mut rt, "2");
    let obj = Val::Object(rt.alloc_object(vec![("a".to_string(), one), ("b".to_string(), two)]));
    assert_eq!(rt.obj_get(obj, "b"), two);
    assert_eq!(rt.obj_get(obj, "c"), Val::Void);
    assert_eq!(rt.obj_get(one, "a"), Val::Void);
    let keys = rt.obj_keys(obj);
    let ks = match keys {
        Val::Array(h) => rt.array(h).unwrap().clone(),
        other => panic!("{:?}", other),
    };
    assert_eq!(ks.len(), 2);
    assert_eq!(text_of(&rt, ks[0]), "a");
    assert_eq!(text_of(&rt, ks[1]), "b");
    match rt.obj_values(obj) {
        Val::Array(h) => assert_eq!(rt.array(h).unwrap(), &vec![one, two]),
        other => panic!("{:?}", other),
    }
    assert_eq!(rt.obj_keys(one), Val::Void);
}

#[test]
fn structural_equality_collects_number_pairs() {
    let mut rt = Runtime::new();
    let a1 = num(&mut rt, "1");
    let a2 = num(&mut rt, "1.0");
    let s1 = Val::String(rt.alloc_text("x".to_string()));
    let s2 = Val::String(rt.alloc_text("x".to_string()));
    let s3 = Val::String(rt.alloc_text("y".to_string()));
    let x = Val::Array(rt.alloc_array(vec![a1, s1]));
    let y = Val::Array(rt.alloc_array(vec![a2, s2]));
    let z = Val::Array(rt.alloc_array(vec![a2, s3]));
    let h1 = match a1 { Val::Number(h) => h, _ => 0 };
    let h2 = match a2 { Val::Number(h) => h, _ => 0 };
    assert_eq!(rt.struct_equal(x, y, 10), Some(vec![(h1, h2)]));
    assert_eq!(rt.struct_equal(x, z, 10), None);
    assert_eq!(rt.struct_equal(Val::Void, Val::Void, 10), Some(vec![]));
    assert_eq!(rt.struct_equal(Val::Task(0), Val::Task(0), 10), None);
    assert_eq!(rt.struct_equal(x, y, 1), None);
    let o1 = Val::Object(rt.alloc_object(vec![("k".to_string(), s1), ("n".to_string(), a1)]));
    let o2 = Val::Object(rt.alloc_object(vec![("n".to_string(), a2), ("k".to_string(), s2)]));
    assert_eq!(rt.struct_equal(o1, o2, 10), Some(vec![(h1, h2), (h2, h1)]));
}

#[test]
fn regex_match_dispatch() {
    let re = compile("^a+$", "").unwrap();
    assert!(regex_match("aaa", Some(&re), ""));
    assert!(!regex_match("aab", Some(&re), ""));
    assert!(regex_match("hello", None, "ell"));
    assert!(!regex_match("hello", None, "xyz"));
}

struct Counter {
    seen: Vec<usize>,
}

impl Host for Counter {
    fn call_native(&mut self, rt: &mut Runtime, _id: usize, args: Vec<Val>, _scope: usize, _depth: usize) -> EvalResult {
        self.seen.push(args.len());
        if let Some(Val::Number(h)) = args.get(1) {
            assert!(rt.text(*h).is_some());
        }
        EvalResult::Val(Val::Void)
    }

    fn describe(&mut self, _rt: &Runtime, value: Val) -> String {
        format!("{:?}", value)
    }
}

#[test]
fn array_each_hands_items_with_indexes() {
    let mut rt = Runtime::new();
    let core = rt.core_frame();
    let t = Val::Task(rt.alloc_task(Task::Native { name: "f".to_string(), id: 0 }));
    let x = num(&mut rt, "7");
    let arr = Val::Array(rt.alloc_array(vec![x, x, x]));
    let mut host = Counter { seen: vec![] };
    assert_eq!(rt.arr_each(&mut host, arr, t, core, core, 10), Val::Void);
    assert_eq!(host.seen, vec![2, 2, 2]);
    assert_eq!(rt.arr_each(&mut host, Val::Void, t, core, core, 10), Val::Void);
    assert_eq!(host.seen.len(), 3);
}

fn td() -> TokenData {
    TokenData { line: 1, line_text: String::new() }
}

#[test]
fn load_step_uses_cache_then_checks_circularity() {
    let stack = vec!["a".to_string()];
    let cached = Expr::Literal(Literal::Void, td());
    assert!(matches!(load_step(&stack, "a", Some(cached)), Ok(LoadStep::Cached(_))));
    match load_step(&stack, "a", None) {
        Err(e) => assert_eq!(e.code, HankError::CircularDependency),
        _ => panic!("not refused"),
    }
    assert!(matches!(load_step(&stack, "b", None), Ok(LoadStep::Fetch)));
}

#[test]
fn after_fetch_maps_errors() {
    match after_fetch(Err("disk".to_string()), None, "a") {
        Err(e) => {
            assert_eq!(e.code, HankError::ResourceContentNotLoaded);
            assert_eq!(e.message, "disk");
        },
        _ => panic!(),
    }
    match after_fetch(Ok(()), None, "a") {
        Err(e) => assert_eq!(e.code, HankError::ResourceContentNotLoaded),
        _ => panic!(),
    }
    assert_eq!(after_fetch(Ok(()), Some("{ }".to_string()), "a").unwrap(), "{ }");
}

#[test]
fn string_length_counts_bytes() {
    let mut rt = Runtime::new();
    let s = Val::String(rt.alloc_text("h\u{e9}".to_string()));
    let n = rt.str_length(s);
    assert_eq!(text_of(&rt, n), "3");
    assert_eq!(rt.str_length(Val::Void), Val::Void);
}

#[test]
fn pop_right_after_push_gives_the_value_back() {
    let mut rt = Runtime::new();
    let one = num(&mut rt, "1");
    let arr = Val::Array(rt.alloc_array(vec![one]));
    let two = num(&mut rt, "2");
    rt.arr_push(arr, two);
    assert_eq!(rt.arr_pop(arr), two);
    match arr {
        Val::Array(h) => assert_eq!(rt.array(h).unwrap(), &vec![one]),
        _ => panic!(),
    }
}

#[test]
fn expect_kind_accepts_or_names_the_mismatch() {
    let mut rt = Runtime::new();
    let s = Val::String(rt.alloc_text("x".to_string()));
    assert_eq!(rt.expect_kind(s, ValueType::String, "fs.read"), Ok(()));
    let n = num(&mut rt, "3");
    match rt.expect_kind(n, ValueType::String, "fs.read") {
        Err(Val::Error(h)) => {
            let (code, args) = rt.error(h).unwrap().clone();
            assert_eq!(code, HankError::TypeMismatch);
            let texts: Vec<String> = args.iter().map(|a| text_of(&rt, *a)).collect();
            assert_eq!(texts, vec!["String", "Number", "fs.read"]);
        },
        other => panic!("{:?}", other),
    }
}

#[test]
fn structural_equality_is_symmetric_on_examples() {
    let mut rt = Runtime::new();
    let a1 = num(&mut rt, "1");
    let a2 = num(&mut rt, "2");
    let o1 = Val::Object(rt.alloc_object(vec![("k".to_string(), a1), ("n".to_string(), a2)]));
    let o2 = Val::Object(rt.alloc_object(vec![("n".to_string(), a2), ("k".to_string(), a1)]));
    let forward = rt.struct_equal(o1, o2, 10).unwrap();
    let backward = rt.struct_equal(o2, o1, 10).unwrap();
    let mut flipped: Vec<(usize, usize)> = backward.iter().map(|(x, y)| (*y, *x)).collect();
    flipped.sort();
    let mut f = forward.clone();
    f.sort();
    assert_eq!(f, flipped);
    let o3 = Val::Object(rt.alloc_object(vec![("k".to_string(), a1)]));
    assert_eq!(rt.struct_equal(o1, o3, 10), None);
    assert_eq!(rt.struct_equal(o3, o1, 10), None);
}

#[test]
fn structural_equality_checks_the_fields_of_both_objects() {
    let mut rt = Runtime::new();
    let a1 = num(&mut rt, "1");
    let a2 = num(&mut rt, "2");
    let o1 = Val::Object(rt.alloc_object(vec![("k".to_string(), a1), ("k".to_string(), a2)]));
    let o2 = Val::Object(rt.alloc_object(vec![("k".to_string(), a1), ("j".to_string(), a2)]));
    assert_eq!(rt.struct_equal(o1, o2, 10), None);
    assert_eq!(rt.struct_equal(o2, o1, 10), None);
}
