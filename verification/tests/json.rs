use hank::json::{json_text, parse_json, JsonValue};
use hank::runtime::{Runtime, Val};

fn text_of(rt: &Runtime, v: Val) -> String {
    match v {
        Val::Number(h) | Val::String(h) => rt.text(h).unwrap().to_string(),
        other => panic!("no text: {:?}", other),
    }
}

#[test]
fn parse_json_reads_nested_values() {
    let j = parse_json("[1, \"a\", null, {\"k\": false}]").unwrap();
    assert_eq!(
        j,
        JsonValue::Array(vec![
            JsonValue::Number("1".to_string()),
            JsonValue::Str("a".to_string()),
            JsonValue::Null,
            JsonValue::Object(vec![("k".to_string(), JsonValue::Bool(false))]),
        ])
    );
}

#[test]
fn parse_json_refuses_broken_text() {
    assert_eq!(parse_json("[1,"), None);
    assert_eq!(parse_json(""), None);
}

#[test]
fn json_parse_stores_values() {
    let mut rt = Runtime::new();
    let v = rt.json_parse("{\"b\": false, \"a\": [2.5, true, null, \"x\"]}");
    let fields = match v {
        Val::Object(h) => rt.object(h).unwrap().clone(),
        other => panic!("not an object: {:?}", other),
    };
    assert_eq!(fields.len(), 2);
    assert_eq!(fields[0].0, "a");
    assert_eq!(fields[1].0, "b");
    assert_eq!(fields[1].1, Val::Void);
    let items = match fields[0].1 {
        Val::Array(h) => rt.array(h).unwrap().clone(),
        other => panic!("not an array: {:?}", other),
    };
    assert_eq!(items.len(), 4);
    assert_eq!(text_of(&rt, items[0]), "2.5");
    assert_eq!(text_of(&rt, items[1]), "1");
    assert_eq!(items[2], Val::Void);
    assert!(matches!(items[3], Val::String(_)));
    assert_eq!(text_of(&rt, items[3]), "x");
}

#[test]
fn json_parse_of_no_json_is_nothing() {
    let mut rt = Runtime::new();
    assert_eq!(rt.json_parse("{oops"), Val::Void);
    assert_eq!(rt.text(0), None);
}

#[test]
fn json_stringify_writes_text() {
    let mut rt = Runtime::new();
    let two = Val::Number(rt.alloc_text("2".to_string()));
    let hi = Val::String(rt.alloc_text("hi".to_string()));
    let arr = Val::Array(rt.alloc_array(vec![two, hi, Val::Void]));
    let obj = Val::Object(rt.alloc_object(vec![("list".to_string(), arr)]));
    let j = rt.value_to_json(obj);
    assert_eq!(
        j,
        Some(JsonValue::Object(vec![(
            "list".to_string(),
            JsonValue::Array(vec![
                JsonValue::Number("2".to_string()),
                JsonValue::Str("hi".to_string()),
                JsonValue::Null
            ])
        )]))
    );
    let s = rt.json_stringify(j);
    assert_eq!(text_of(&rt, s), "{\"list\":[2,\"hi\",null]}");
}

#[test]
fn opaque_values_have_no_json() {
    let mut rt = Runtime::new();
    let arr = Val::Array(rt.alloc_array(vec![Val::Opaque(0)]));
    assert_eq!(rt.value_to_json(Val::Opaque(3)), None);
    assert_eq!(rt.value_to_json(arr), None);
    assert_eq!(rt.json_stringify(None), Val::Void);
}

#[test]
fn tasks_and_errors_are_null() {
    let rt = Runtime::new();
    assert_eq!(rt.value_to_json(Val::Task(0)), Some(JsonValue::Null));
    assert_eq!(rt.value_to_json(Val::Error(0)), Some(JsonValue::Null));
}

#[test]
fn json_text_refuses_a_number_that_is_no_json() {
    assert_eq!(json_text(&JsonValue::Number("abc".to_string())), None);
    assert_eq!(json_text(&JsonValue::Number("1.5".to_string())), Some("1.5".to_string()));
    let mut rt = Runtime::new();
    assert_eq!(rt.json_stringify(Some(JsonValue::Number("abc".to_string()))), Val::Void);
}

#[test]
fn stored_json_reads_back() {
    let mut rt = Runtime::new();
    let v = rt.json_parse("{\"a\": [true, false, null, \"s\", 2]}");
    assert_eq!(
        rt.value_to_json(v),
        Some(JsonValue::Object(vec![(
            "a".to_string(),
            JsonValue::Array(vec![
                JsonValue::Number("1".to_string()),
                JsonValue::Null,
                JsonValue::Null,
                JsonValue::Str("s".to_string()),
                JsonValue::Number("2".to_string()),
            ])
        )]))
    );
}

#[test]
fn written_json_text_is_stored_as_a_string() {
    let mut rt = Runtime::new();
    let v = rt.store_json_text(Some("[1]".to_string()));
    assert!(matches!(v, Val::String(0)));
    assert_eq!(text_of(&rt, v), "[1]");
    assert_eq!(rt.store_json_text(None), Val::Void);
    assert_eq!(rt.text(1), None);
}
