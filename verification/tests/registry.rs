use hank::error_registry::HankErrorRegistry;
use hank::types::{HankError, ValueType};

#[test]
fn get_messages_lists_every_code_once() {
    let m = HankErrorRegistry::get_messages();
    assert_eq!(m.len(), 20);
    assert_eq!(m[0].0, HankError::UnexpectedCharacter);
    assert_eq!(m[0].1, "Unexpected character: {0}");
    let tm = m.iter().find(|(c, _)| *c == HankError::TypeMismatch).unwrap();
    assert_eq!(tm.1, "Type Mismatch: Expected {0}, got {1} in {2}");
    for i in 0..m.len() {
        for j in (i + 1)..m.len() {
            assert_ne!(m[i].0, m[j].0);
        }
    }
}

#[test]
fn create_fills_placeholders() {
    let e = HankErrorRegistry::create(
        HankError::TypeMismatch,
        vec!["Number".to_string(), "String".to_string(), "bin.and".to_string()],
        None,
        None,
        None,
    );
    assert_eq!(e.code, HankError::TypeMismatch);
    assert_eq!(e.message, "Type Mismatch: Expected Number, got String in bin.and");
    assert_eq!(e.to_string(), e.message);
}

#[test]
fn create_frames_with_position() {
    let e = HankErrorRegistry::create(
        HankError::CircularDependency,
        vec!["a.hank".to_string()],
        Some("main.hank"),
        Some(3),
        Some("@ \"a.hank\""),
    );
    assert_eq!(e.message, "ERROR: Circular Dependency: a.hank in main.hank at\n\t3:\t@ \"a.hank\"");
}

#[test]
fn create_without_all_position_parts_is_unframed() {
    let e = HankErrorRegistry::create(HankError::TooManyArguments, vec![], Some("f"), None, Some("x"));
    assert_eq!(e.message, "Too many arguments");
}

#[test]
fn create_replaces_in_order() {
    let e = HankErrorRegistry::create(
        HankError::GenericRuntimeError,
        vec!["{1}".to_string(), "z".to_string()],
        None,
        None,
        None,
    );
    assert_eq!(e.message, "z");
}

#[test]
fn error_codes() {
    assert_eq!(HankError::UnexpectedCharacter.code(), 1001);
    assert_eq!(HankError::ExpectedIdentifier.code(), 2007);
    assert_eq!(HankError::MacroResourceNotFound.code(), 3004);
    assert_eq!(HankError::TypeMismatch.code(), 4007);
}

#[test]
fn value_type_names() {
    assert_eq!(ValueType::Object.name(), "Map");
    assert_eq!(ValueType::Number.name(), "Number");
    assert_eq!(ValueType::Void.name(), "Void");
}
