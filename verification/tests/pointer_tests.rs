use json_archive::value::value_eq;
use json_archive::{DiagnosticCode, JsonPointer, JsonValue};

fn text(x: &str) -> JsonValue {
    JsonValue::Text(x.to_string())
}

fn obj(pairs: Vec<(&str, JsonValue)>) -> JsonValue {
    JsonValue::Obj(pairs.into_iter().map(|(k, v)| (k.to_string(), v)).collect())
}

fn arr(items: Vec<JsonValue>) -> JsonValue {
    JsonValue::Arr(items)
}

#[test]
fn test_empty_pointer() {
    let pointer = JsonPointer::new("").unwrap();
    let value = obj(vec![("foo", text("bar"))]);
    assert!(value_eq(pointer.get(&value).unwrap(), &value));
}

#[test]
fn test_simple_object_access() {
    let pointer = JsonPointer::new("/foo").unwrap();
    let value = obj(vec![("foo", text("bar"))]);
    assert!(value_eq(pointer.get(&value).unwrap(), &text("bar")));
}

#[test]
fn test_nested_object_access() {
    let pointer = JsonPointer::new("/foo/bar").unwrap();
    let value = obj(vec![("foo", obj(vec![("bar", text("baz"))]))]);
    assert!(value_eq(pointer.get(&value).unwrap(), &text("baz")));
}

#[test]
fn test_array_access() {
    let pointer = JsonPointer::new("/items/0").unwrap();
    let value = obj(vec![("items", arr(vec![text("first"), text("second")]))]);
    assert!(value_eq(pointer.get(&value).unwrap(), &text("first")));
}

#[test]
fn test_escape_sequences() {
    let pointer = JsonPointer::new("/foo~1bar").unwrap();
    let value = obj(vec![("foo/bar", text("baz"))]);
    assert!(value_eq(pointer.get(&value).unwrap(), &text("baz")));

    let pointer = JsonPointer::new("/foo~0bar").unwrap();
    let value = obj(vec![("foo~bar", text("baz"))]);
    assert!(value_eq(pointer.get(&value).unwrap(), &text("baz")));
}

#[test]
fn test_set_object() {
    let pointer = JsonPointer::new("/foo").unwrap();
    let mut value = obj(vec![("foo", text("bar"))]);
    pointer.set(&mut value, text("new_value")).unwrap();
    assert!(value_eq(&value, &obj(vec![("foo", text("new_value"))])));
}

#[test]
fn test_set_array_append() {
    let pointer = JsonPointer::new("/items/2").unwrap();
    let mut value = obj(vec![("items", arr(vec![text("first"), text("second")]))]);
    pointer.set(&mut value, text("third")).unwrap();
    let expected = obj(vec![("items", arr(vec![text("first"), text("second"), text("third")]))]);
    assert!(value_eq(&value, &expected));
}

#[test]
fn test_remove_object() {
    let pointer = JsonPointer::new("/foo").unwrap();
    let mut value = obj(vec![("foo", text("bar")), ("baz", text("qux"))]);
    let removed = pointer.remove(&mut value).unwrap();
    assert!(value_eq(&removed, &text("bar")));
    assert!(value_eq(&value, &obj(vec![("baz", text("qux"))])));
}

#[test]
fn test_remove_array() {
    let pointer = JsonPointer::new("/items/0").unwrap();
    let mut value = obj(vec![("items", arr(vec![text("first"), text("second"), text("third")]))]);
    let removed = pointer.remove(&mut value).unwrap();
    assert!(value_eq(&removed, &text("first")));
    assert!(value_eq(&value, &obj(vec![("items", arr(vec![text("second"), text("third")]))])));
}

#[test]
fn test_pointer_round_trips_through_to_string() {
    for path in ["", "/foo", "/a/b/0", "/foo~1bar", "/foo~0bar", "/x~0~1y/z"] {
        let p = JsonPointer::new(path).unwrap();
        let printed = p.to_string();
        let q = JsonPointer::new(&printed).unwrap();
        assert_eq!(printed, q.to_string());
        assert_eq!(printed, path);
    }
}

#[test]
fn test_set_past_end_is_path_not_found() {
    let pointer = JsonPointer::new("/items/5").unwrap();
    let mut value = obj(vec![("items", arr(vec![text("only")]))]);
    let err = pointer.set(&mut value, text("nope")).unwrap_err();
    assert_eq!(err.code, DiagnosticCode::PathNotFound);
    assert!(value_eq(&value, &obj(vec![("items", arr(vec![text("only")]))])));
}

#[test]
fn test_bad_array_index_is_diagnosed() {
    let pointer = JsonPointer::new("/items/zero").unwrap();
    let value = obj(vec![("items", arr(vec![text("only")]))]);
    let err = pointer.get(&value).unwrap_err();
    assert_eq!(err.code, DiagnosticCode::InvalidArrayIndex);
}

#[test]
fn test_indexing_scalar_is_type_mismatch() {
    let pointer = JsonPointer::new("/foo/bar").unwrap();
    let value = obj(vec![("foo", text("leaf"))]);
    let err = pointer.get(&value).unwrap_err();
    assert_eq!(err.code, DiagnosticCode::TypeMismatch);
}

#[test]
fn test_root_remove_is_refused() {
    let pointer = JsonPointer::new("").unwrap();
    let mut value = obj(vec![("foo", text("bar"))]);
    let err = pointer.remove(&mut value).unwrap_err();
    assert_eq!(err.code, DiagnosticCode::InvalidPointerSyntax);
}

#[test]
fn test_path_without_leading_slash_is_refused() {
    let err = JsonPointer::new("foo/bar").unwrap_err();
    assert_eq!(err.code, DiagnosticCode::InvalidPointerSyntax);
}

#[test]
fn test_object_order_does_not_matter_for_equality() {
    let a = obj(vec![("x", text("1")), ("y", text("2"))]);
    let b = obj(vec![("y", text("2")), ("x", text("1"))]);
    assert!(value_eq(&a, &b));
    let c = arr(vec![text("1"), text("2")]);
    let d = arr(vec![text("2"), text("1")]);
    assert!(!value_eq(&c, &d));
}
