use hank::ast::{Expr, Literal, Param};
use hank::interp::{hoist_kind, param_plan, unop_kind, Hoist, ParamSource, UnOpKind};
use hank::platform::{apply_bit_op, safe_int, BitOp, PlatformExtension, SysExtension, SAFE_INT_MAX};
use hank::runner::check_circular;
use hank::stdlib::{compile, format_parts, is_match};
use hank::types::{HankError, TokenData};

fn td() -> TokenData {
    TokenData { line: 1, line_text: String::new() }
}

#[test]
fn bitwise_operations() {
    assert_eq!(apply_bit_op(BitOp::And, 12, 10), Ok(8));
    assert_eq!(apply_bit_op(BitOp::Or, 12, 10), Ok(14));
    assert_eq!(apply_bit_op(BitOp::Xor, 12, 10), Ok(6));
    assert_eq!(apply_bit_op(BitOp::Not, 5, 0), Ok(-6));
    assert_eq!(apply_bit_op(BitOp::ShiftL, 1, 52), Ok(1i64 << 52));
    assert_eq!(apply_bit_op(BitOp::ShiftR, -8, 1), Ok(-4));
}

#[test]
fn bitwise_results_must_be_safe() {
    assert_eq!(apply_bit_op(BitOp::ShiftL, 1, 53), Err(1i64 << 53));
    assert_eq!(apply_bit_op(BitOp::Not, SAFE_INT_MAX, 0), Err(-SAFE_INT_MAX - 1));
    assert!(safe_int(SAFE_INT_MAX));
    assert!(safe_int(-SAFE_INT_MAX));
    assert!(!safe_int(SAFE_INT_MAX + 1));
}

#[test]
fn bitwise_or_of_safe_values_stays_safe() {
    assert_eq!(apply_bit_op(BitOp::Or, -SAFE_INT_MAX, SAFE_INT_MAX), Ok(-1));
    let twice = apply_bit_op(BitOp::Not, apply_bit_op(BitOp::Not, 77, 0).unwrap(), 0);
    assert_eq!(twice, Ok(77));
}

#[test]
fn extension_names() {
    assert_eq!(PlatformExtension.name(), "PlatformExtension");
    assert_eq!(SysExtension.name(), "SysExtension");
}

#[test]
fn format_replaces_numbered_markers() {
    let parts = vec!["%1 and %2".to_string(), "a".to_string(), "b".to_string()];
    assert_eq!(format_parts(&parts), "a and b");
    let parts = vec!["%10 %1".to_string(), "x".to_string()];
    assert_eq!(format_parts(&parts), "x0 x");
    let parts = vec!["plain".to_string()];
    assert_eq!(format_parts(&parts), "plain");
}

#[test]
fn regex_compile_and_match() {
    let re = compile("a+b", "").unwrap();
    assert_eq!(re.source(), "a+b");
    assert!(is_match(&re, "xaab"));
    assert!(!is_match(&re, "ba"));
    let ci = compile("abc", "gi").unwrap();
    assert_eq!(ci.source(), "(?i)abc");
    assert!(is_match(&ci, "xABCx"));
    assert!(compile("(", "").is_none());
}

#[test]
fn call_binding_plan() {
    let params = vec![
        Param { name: "a".to_string(), is_optional: false, default_value: None },
        Param { name: "b".to_string(), is_optional: true, default_value: None },
        Param {
            name: "c".to_string(),
            is_optional: true,
            default_value: Some(Box::new(Expr::Literal(Literal::Number("2".to_string()), td()))),
        },
    ];
    assert_eq!(
        param_plan(&params, 1),
        Some(vec![ParamSource::Arg, ParamSource::Void, ParamSource::Default])
    );
    assert_eq!(
        param_plan(&params, 3),
        Some(vec![ParamSource::Arg, ParamSource::Arg, ParamSource::Arg])
    );
    assert_eq!(param_plan(&params, 4), None);
    assert_eq!(param_plan(&params, 0).unwrap()[0], ParamSource::Missing);
}

#[test]
fn hoisting_of_statements() {
    let def = || Expr::FuncDef(vec![], Box::new(Expr::Block(vec![], td())), td());
    let direct = Expr::Assign("f".to_string(), Box::new(def()), td());
    let nested = Expr::Assign(
        "m".to_string(),
        Box::new(Expr::Assign("f".to_string(), Box::new(def()), td())),
        td(),
    );
    let plain = Expr::Assign(
        "x".to_string(),
        Box::new(Expr::Literal(Literal::Void, td())),
        td(),
    );
    assert_eq!(hoist_kind(&direct), Hoist::Direct);
    assert_eq!(hoist_kind(&nested), Hoist::Nested);
    assert_eq!(hoist_kind(&plain), Hoist::No);
    assert_eq!(hoist_kind(&def()), Hoist::No);
}

#[test]
fn unary_operators() {
    assert_eq!(unop_kind("!"), UnOpKind::Negate);
    assert_eq!(unop_kind("?"), UnOpKind::Keep);
    assert_eq!(unop_kind("^"), UnOpKind::Return);
    assert_eq!(unop_kind("-"), UnOpKind::Discard);
    assert_eq!(unop_kind("!!"), UnOpKind::Discard);
}

#[test]
fn circular_includes_are_refused() {
    let stack = vec!["main.hank".to_string(), "lib.hank".to_string()];
    let e = check_circular(&stack, "lib.hank").unwrap_err();
    assert_eq!(e.code, HankError::CircularDependency);
    assert_eq!(e.message, "Circular Dependency: lib.hank");
    assert!(check_circular(&stack, "other.hank").is_ok());
    assert!(check_circular(&vec![], "main.hank").is_ok());
}
