use hank::ast::{Expr, Literal};
use hank::runner::{enter, LoadStep, TreeCache};
use hank::types::{HankError, TokenData};

fn td() -> TokenData {
    TokenData { line: 1, line_text: String::new() }
}

fn tree(n: &str) -> Expr {
    Expr::Literal(Literal::Number(n.to_string()), td())
}

#[test]
fn second_load_gives_cached_tree() {
    let mut cache = TreeCache::new();
    let mut stack: Vec<String> = vec!["main".to_string()];
    assert!(matches!(cache.begin(&stack, "inc"), Ok(LoadStep::Fetch)));
    let content = enter(&mut stack, Ok(()), Some("x".to_string()), "inc").unwrap();
    assert_eq!(content, "x");
    assert_eq!(stack, vec!["main".to_string(), "inc".to_string()]);
    cache.finish(&mut stack, "inc", &tree("7"));
    assert_eq!(stack, vec!["main".to_string()]);
    match cache.begin(&stack, "inc") {
        Ok(LoadStep::Cached(t)) => assert_eq!(format!("{:?}", t), format!("{:?}", tree("7"))),
        _ => panic!("expected the cached tree"),
    }
    assert_eq!(stack, vec!["main".to_string()]);
}

#[test]
fn cached_tree_wins_over_the_stack() {
    let mut cache = TreeCache::new();
    let mut stack: Vec<String> = vec!["a".to_string()];
    match cache.begin(&stack, "a") {
        Err(e) => assert_eq!(e.code, HankError::CircularDependency),
        _ => panic!("expected a circular dependency"),
    }
    cache.finish(&mut stack, "a", &tree("1"));
    stack.push("a".to_string());
    assert!(matches!(cache.begin(&stack, "a"), Ok(LoadStep::Cached(_))));
}

#[test]
fn forgotten_tree_is_fetched_again() {
    let mut cache = TreeCache::new();
    let mut stack: Vec<String> = Vec::new();
    cache.finish(&mut stack, "a", &tree("1"));
    cache.finish(&mut stack, "b", &tree("2"));
    cache.forget("a");
    assert!(matches!(cache.begin(&stack, "a"), Ok(LoadStep::Fetch)));
    match cache.tree("b") {
        Some(t) => assert_eq!(format!("{:?}", t), format!("{:?}", tree("2"))),
        None => panic!("b should stay cached"),
    }
    assert!(cache.tree("a").is_none());
}

#[test]
fn later_tree_for_an_id_stands() {
    let mut cache = TreeCache::new();
    let mut stack: Vec<String> = Vec::new();
    cache.finish(&mut stack, "a", &tree("1"));
    cache.finish(&mut stack, "a", &tree("2"));
    match cache.tree("a") {
        Some(t) => assert_eq!(format!("{:?}", t), format!("{:?}", tree("2"))),
        None => panic!("a should be cached"),
    }
}

#[test]
fn enter_keeps_stack_on_failure() {
    let mut stack: Vec<String> = vec!["main".to_string()];
    match enter(&mut stack, Err("boom".to_string()), None, "r") {
        Err(e) => {
            assert_eq!(e.code, HankError::ResourceContentNotLoaded);
            assert_eq!(e.message, "boom");
        },
        Ok(_) => panic!("expected an error"),
    }
    assert!(enter(&mut stack, Ok(()), None, "r").is_err());
    assert_eq!(stack, vec!["main".to_string()]);
}
