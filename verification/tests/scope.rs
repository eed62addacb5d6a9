use hank::scope::Scopes;

#[test]
fn get_after_set_in_the_same_frame() {
    let mut s: Scopes<i32> = Scopes::new();
    let root = s.open_frame(None);
    assert_eq!(s.get(root, "x"), None);
    s.set(root, "x".to_string(), 1);
    assert_eq!(s.get(root, "x"), Some(&1));
    s.set(root, "x".to_string(), 2);
    assert_eq!(s.get(root, "x"), Some(&2));
    assert!(s.has(root, "x"));
    assert!(!s.has(root, "y"));
}

#[test]
fn set_keeps_other_names() {
    let mut s: Scopes<i32> = Scopes::new();
    let root = s.open_frame(None);
    s.set(root, "a".to_string(), 1);
    s.set(root, "b".to_string(), 2);
    assert_eq!(s.get(root, "a"), Some(&1));
    assert_eq!(s.get(root, "b"), Some(&2));
}

#[test]
fn child_frames_fall_back_and_shadow() {
    let mut s: Scopes<&str> = Scopes::new();
    let root = s.open_frame(None);
    let child = s.open_frame(Some(root));
    assert_eq!(s.frame_count(), 2);
    s.set(root, "v".to_string(), "outer");
    assert_eq!(s.get(child, "v"), Some(&"outer"));
    s.set(child, "v".to_string(), "inner");
    assert_eq!(s.get(child, "v"), Some(&"inner"));
    assert_eq!(s.get(root, "v"), Some(&"outer"));
    let sibling = s.open_frame(Some(root));
    assert_eq!(s.get(sibling, "v"), Some(&"outer"));
    assert_eq!(s.get(7, "v"), None);
}
