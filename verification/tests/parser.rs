use hank::ast::{Expr, Literal};
use hank::lexer::Lexer;
use hank::parser::{tokens_parseable, Parser};
use hank::types::TokenData;

fn no_includes(path: String) -> Result<Expr, String> {
    Err(format!("no resource {}", path))
}

fn parse_src(src: &str) -> Result<Expr, String> {
    let mut lx = Lexer::new(src);
    let toks = lx.tokenize();
    assert!(tokens_parseable(&toks));
    let mut p = Parser::new(toks, "test.hank".to_string(), no_includes);
    p.parse()
}

fn number(e: &Expr) -> String {
    match e {
        Expr::Literal(Literal::Number(n), _) => n.clone(),
        other => panic!("not a number: {:?}", other),
    }
}

#[test]
fn parse_block_with_assignment() {
    match parse_src("{ x = 1 }").unwrap() {
        Expr::Block(stmts, td) => {
            assert_eq!(td.line, 1);
            assert_eq!(stmts.len(), 1);
            match &stmts[0] {
                Expr::Assign(name, v, _) => {
                    assert_eq!(name, "x");
                    assert_eq!(number(v), "1");
                },
                other => panic!("{:?}", other),
            }
        },
        other => panic!("{:?}", other),
    }
}

#[test]
fn parse_task_definition_with_params() {
    match parse_src("(a, ?b, c = 2) {\n ^ a\n}\n").unwrap() {
        Expr::FuncDef(params, body, _) => {
            assert_eq!(params.len(), 3);
            assert_eq!(params[0].name, "a");
            assert!(!params[0].is_optional);
            assert!(params[0].default_value.is_none());
            assert_eq!(params[1].name, "b");
            assert!(params[1].is_optional);
            assert!(params[2].is_optional);
            assert_eq!(number(params[2].default_value.as_ref().unwrap()), "2");
            match *body {
                Expr::Block(stmts, _) => {
                    assert_eq!(stmts.len(), 1);
                    assert!(matches!(&stmts[0], Expr::UnOp(op, _, _) if op == "^"));
                },
                other => panic!("{:?}", other),
            }
        },
        other => panic!("{:?}", other),
    }
}

#[test]
fn parse_empty_script() {
    assert_eq!(parse_src("\n\n").unwrap_err(), "Syntax Error: Script is empty.");
}

#[test]
fn parse_requires_a_task() {
    assert_eq!(
        parse_src("x").unwrap_err(),
        "Syntax Error: Expected main task definition (a closure or a block)."
    );
}

#[test]
fn parse_rejects_code_after_the_task() {
    assert_eq!(
        parse_src("{ }\n{ }").unwrap_err(),
        "Syntax Error: Unexpected code outside of main task. A Hank script must contain exactly one Task definition."
    );
}

#[test]
fn parse_invalid_assignment_target() {
    assert_eq!(
        parse_src("{ a.b = 1 }").unwrap_err(),
        "ERROR: Invalid assignment target in test.hank at\n\t1:\t{ a.b = 1 }"
    );
}

#[test]
fn parse_unexpected_token() {
    assert_eq!(
        parse_src("{\n ) }").unwrap_err(),
        "ERROR: Unexpected token: RParen in test.hank at\n\t2:\t ) }"
    );
}

#[test]
fn parse_expected_token() {
    assert_eq!(
        parse_src("{ ? (x { } }").unwrap_err(),
        "ERROR: Expected RParen, found LBrace in test.hank at\n\t1:\t{ ? (x { } }"
    );
}

#[test]
fn parse_macro_needs_a_string() {
    assert_eq!(
        parse_src("@ x\n{ }").unwrap_err(),
        "ERROR: Syntax Error: The '@' macro strictly requires a string literal path (e.g., @ \"utils\"). Identifier shorthand is not allowed. in test.hank at\n\t1:\t@ x"
    );
}

#[test]
fn parse_includes_bind_the_stem() {
    let mut lx = Lexer::new("@ \"lib/utils.hank\"\n(x) { ^ x }");
    let toks = lx.tokenize();
    let resolver = |path: String| -> Result<Expr, String> {
        assert_eq!(path, "lib/utils.hank");
        Ok(Expr::Block(vec![], TokenData { line: 7, line_text: "lib".to_string() }))
    };
    let mut p = Parser::new(toks, "main.hank".to_string(), resolver);
    match p.parse().unwrap() {
        Expr::Block(stmts, td) => {
            assert_eq!(stmts.len(), 2);
            assert_eq!(td.line, 1);
            assert_eq!(td.line_text, "@ \"lib/utils.hank\"");
            match &stmts[0] {
                Expr::Assign(name, v, _) => {
                    assert_eq!(name, "utils");
                    assert!(matches!(**v, Expr::Block(_, ref t) if t.line == 7));
                },
                other => panic!("{:?}", other),
            }
            assert!(matches!(stmts[1], Expr::FuncDef(..)));
        },
        other => panic!("{:?}", other),
    }
}

#[test]
fn parse_include_errors_pass_through() {
    let mut lx = Lexer::new("@ \"gone\"\n{ }");
    let toks = lx.tokenize();
    let mut p = Parser::new(toks, "main.hank".to_string(), no_includes);
    assert_eq!(p.parse().unwrap_err(), "no resource gone");
}

#[test]
fn parse_object_literal_keeps_last_value() {
    match parse_src("{ v = { a: 1, b: 2, a: 3 } }").unwrap() {
        Expr::Block(stmts, _) => match &stmts[0] {
            Expr::Assign(_, v, _) => match &**v {
                Expr::Object(fields, _) => {
                    assert_eq!(fields.len(), 2);
                    assert_eq!(fields[0].0, "a");
                    assert_eq!(number(&fields[0].1), "3");
                    assert_eq!(fields[1].0, "b");
                    assert_eq!(number(&fields[1].1), "2");
                },
                other => panic!("{:?}", other),
            },
            other => panic!("{:?}", other),
        },
        other => panic!("{:?}", other),
    }
}

#[test]
fn parse_array_and_calls() {
    match parse_src("{ v = [1, 'two',]\n#log.print(v, 3) }").unwrap() {
        Expr::Block(stmts, _) => {
            assert_eq!(stmts.len(), 2);
            match &stmts[0] {
                Expr::Assign(_, v, _) => match &**v {
                    Expr::Array(items, _) => {
                        assert_eq!(items.len(), 2);
                        assert!(matches!(&items[1], Expr::Literal(Literal::String(s), _) if s == "two"));
                    },
                    other => panic!("{:?}", other),
                },
                other => panic!("{:?}", other),
            }
            match &stmts[1] {
                Expr::FuncCall(target, args, _) => {
                    assert_eq!(args.len(), 2);
                    match &**target {
                        Expr::Field(obj, name, _) => {
                            assert_eq!(name, "print");
                            assert!(matches!(&**obj, Expr::Ident(n, true, _) if n == "log"));
                        },
                        other => panic!("{:?}", other),
                    }
                },
                other => panic!("{:?}", other),
            }
        },
        other => panic!("{:?}", other),
    }
}

#[test]
fn parse_flow_control_with_fallback_and_rescue() {
    match parse_src("{\n ? (x) { 1 }\n : { 2 }\n ~ (e) { 3 }\n}").unwrap() {
        Expr::Block(stmts, _) => match &stmts[0] {
            Expr::FlowControl { condition, fallback, rescue, catch_var, token, .. } => {
                assert!(matches!(&**condition, Expr::Ident(n, false, _) if n == "x"));
                assert!(fallback.is_some());
                assert!(rescue.is_some());
                assert_eq!(catch_var.as_deref(), Some("e"));
                assert_eq!(token.line, 2);
            },
            other => panic!("{:?}", other),
        },
        other => panic!("{:?}", other),
    }
}

#[test]
fn parse_bare_return_gives_void() {
    match parse_src("{ ^ }").unwrap() {
        Expr::Block(stmts, _) => match &stmts[0] {
            Expr::UnOp(op, v, _) => {
                assert_eq!(op, "^");
                assert!(matches!(**v, Expr::Literal(Literal::Void, _)));
            },
            other => panic!("{:?}", other),
        },
        other => panic!("{:?}", other),
    }
}

#[test]
fn parse_negation_and_grouping() {
    match parse_src("{ !(a) }").unwrap() {
        Expr::Block(stmts, _) => {
            assert!(matches!(&stmts[0], Expr::UnOp(op, inner, _) if op == "!" && matches!(**inner, Expr::Ident(_, false, _))));
        },
        other => panic!("{:?}", other),
    }
}

#[test]
fn tokens_parseable_needs_the_end_token() {
    let mut lx = Lexer::new("@ \"/\"\n{ }");
    assert!(tokens_parseable(&lx.tokenize()));
    let mut lx = Lexer::new("@ \"a/b.c\"\n{ }");
    assert!(tokens_parseable(&lx.tokenize()));
    assert!(!tokens_parseable(&vec![]));
}

#[test]
fn resolver_error_on_path_without_stem_passes_through() {
    let mut lx = Lexer::new("@ \"/\"\n{ }");
    let toks = lx.tokenize();
    let mut p = Parser::new(toks, "test.hank".to_string(), |path: String| Err(format!("cannot resolve {}", path)));
    assert_eq!(p.parse().unwrap_err(), "cannot resolve /");
}

#[test]
fn copies_of_trees_keep_their_shape() {
    let tree = parse_src("(a, b = 2) { o = { k: [1, 'x'] }\n ? (a) { ^ b } : { ^ } ~ (e) { e } }").unwrap();
    let copy = hank::ast::copy_expr(&tree);
    assert_eq!(format!("{:?}", copy), format!("{:?}", tree));
}

#[test]
fn parse_errors_show_tokens_in_debug_form() {
    assert_eq!(
        parse_src("{ ? (x \"s\") { } }").unwrap_err(),
        "ERROR: Expected RParen, found String(\"s\") in test.hank at\n\t1:\t{ ? (x \"s\") { } }"
    );
    assert_eq!(
        parse_src("{ ? (x) y }").unwrap_err(),
        "ERROR: Expected LBrace, found Identifier(\"y\") in test.hank at\n\t1:\t{ ? (x) y }"
    );
    assert_eq!(
        parse_src("{ a.1 }").unwrap_err(),
        "ERROR: Expected identifier, found Number(1) in test.hank at\n\t1:\t{ a.1 }"
    );
}
