use json_archive::value::value_eq;
use json_archive::{apply_add, apply_change, apply_move, apply_remove, diff, Event, JsonValue};

fn text(x: &str) -> JsonValue {
    JsonValue::Text(x.to_string())
}

fn num(n: i64) -> JsonValue {
    JsonValue::Num(n.to_string())
}

fn obj(pairs: Vec<(&str, JsonValue)>) -> JsonValue {
    JsonValue::Obj(pairs.into_iter().map(|(k, v)| (k.to_string(), v)).collect())
}

fn arr(items: Vec<JsonValue>) -> JsonValue {
    JsonValue::Arr(items)
}

fn apply_all(state: &mut JsonValue, events: &[Event]) {
    for e in events {
        match e {
            Event::Add { path, value, .. } => {
                apply_add(state, path, clone_value(value)).unwrap();
            },
            Event::Change { path, new_value, .. } => {
                apply_change(state, path, clone_value(new_value)).unwrap();
            },
            Event::Remove { path, .. } => {
                apply_remove(state, path).unwrap();
            },
            Event::Move { path, moves, .. } => {
                apply_move(state, path, moves.clone()).unwrap();
            },
            _ => {},
        }
    }
}

fn clone_value(v: &JsonValue) -> JsonValue {
    v.deep_clone()
}

#[test]
fn test_object_add() {
    let old = obj(vec![("a", num(1))]);
    let new = obj(vec![("a", num(1)), ("b", num(2))]);
    let result = diff(&old, &new, "", "obs-1");

    assert_eq!(result.len(), 1);
    match &result[0] {
        Event::Add { path, value, .. } => {
            assert_eq!(path, "/b");
            assert!(value_eq(value, &num(2)));
        },
        _ => panic!("Expected Add event"),
    }
}

#[test]
fn test_object_remove() {
    let old = obj(vec![("a", num(1)), ("b", num(2))]);
    let new = obj(vec![("a", num(1))]);
    let result = diff(&old, &new, "", "obs-1");

    assert_eq!(result.len(), 1);
    match &result[0] {
        Event::Remove { path, .. } => {
            assert_eq!(path, "/b");
        },
        _ => panic!("Expected Remove event"),
    }
}

#[test]
fn test_object_change() {
    let old = obj(vec![("a", num(1))]);
    let new = obj(vec![("a", num(2))]);
    let result = diff(&old, &new, "", "obs-1");

    assert_eq!(result.len(), 1);
    match &result[0] {
        Event::Change { path, new_value, .. } => {
            assert_eq!(path, "/a");
            assert!(value_eq(new_value, &num(2)));
        },
        _ => panic!("Expected Change event"),
    }
}

#[test]
fn test_nested_object() {
    let old = obj(vec![("user", obj(vec![("name", text("Alice")), ("age", num(30))]))]);
    let new = obj(vec![("user", obj(vec![("name", text("Alice")), ("age", num(31))]))]);
    let result = diff(&old, &new, "", "obs-1");

    assert_eq!(result.len(), 1);
    match &result[0] {
        Event::Change { path, new_value, .. } => {
            assert_eq!(path, "/user/age");
            assert!(value_eq(new_value, &num(31)));
        },
        _ => panic!("Expected Change event"),
    }
}

#[test]
fn test_array_add() {
    let old = arr(vec![text("a"), text("b")]);
    let new = arr(vec![text("a"), text("b"), text("c")]);
    let result = diff(&old, &new, "", "obs-1");

    assert_eq!(result.len(), 1);
    match &result[0] {
        Event::Add { path, value, .. } => {
            assert_eq!(path, "/2");
            assert!(value_eq(value, &text("c")));
        },
        _ => panic!("Expected Add event"),
    }
}

#[test]
fn test_array_remove() {
    let old = arr(vec![text("a"), text("b"), text("c")]);
    let new = arr(vec![text("a"), text("b")]);
    let result = diff(&old, &new, "", "obs-1");

    assert_eq!(result.len(), 1);
    match &result[0] {
        Event::Remove { path, .. } => {
            assert_eq!(path, "/2");
        },
        _ => panic!("Expected Remove event"),
    }
}

#[test]
fn test_array_move() {
    let old = arr(vec![text("a"), text("b"), text("c")]);
    let new = arr(vec![text("c"), text("a"), text("b")]);
    let result = diff(&old, &new, "", "obs-1");

    assert!(!result.is_empty());

    let has_move = result.iter().any(|e| matches!(e, Event::Move { .. }));
    assert!(has_move, "Expected at least one Move event");
}

#[test]
fn test_escape_sequences_in_keys() {
    let old = obj(vec![]);
    let new = obj(vec![("foo/bar", text("value")), ("foo~bar", text("value2"))]);
    let result = diff(&old, &new, "", "obs-1");

    assert_eq!(result.len(), 2);

    let paths: Vec<&String> = result
        .iter()
        .filter_map(|e| match e {
            Event::Add { path, .. } => Some(path),
            _ => None,
        })
        .collect();

    assert!(paths.contains(&&"/foo~1bar".to_string()));
    assert!(paths.contains(&&"/foo~0bar".to_string()));
}

#[test]
fn test_move_batch_reconstructs_target() {
    let old = arr(vec![text("a"), text("b"), text("c")]);
    let new = arr(vec![text("c"), text("a"), text("b")]);
    let script = diff(&old, &new, "", "obs-1");

    let mut state = clone_value(&old);
    apply_all(&mut state, &script);
    assert!(value_eq(&state, &new), "the script must reconstruct the target exactly");
}

#[test]
fn test_move_pairs_applied_naively_go_wrong() {
    // The wire contract: each pair inserts at `to` first, then removes from
    // `from + 1` when the element moved down, from `from` otherwise.
    // Applying the same pairs as independent remove-then-insert steps, with
    // no index adjustment, lands on a different, wrong array.
    let old = arr(vec![text("a"), text("b"), text("c")]);
    let new = arr(vec![text("c"), text("a"), text("b")]);
    let script = diff(&old, &new, "", "obs-1");

    let mut pairs: Vec<(usize, usize)> = Vec::new();
    for e in &script {
        if let Event::Move { moves, .. } = e {
            pairs.extend(moves.iter().cloned());
        }
    }
    assert!(!pairs.is_empty());

    let mut naive: Vec<JsonValue> = match &old {
        JsonValue::Arr(items) => items.iter().map(clone_value).collect(),
        _ => unreachable!(),
    };
    for (from, to) in &pairs {
        let e = naive.remove(*from);
        naive.insert(*to, e);
    }
    let naive_value = arr(naive);
    assert!(
        !value_eq(&naive_value, &new),
        "ignoring the in-batch index adjustment must give a different array"
    );
}

#[test]
fn test_diff_apply_round_trip_mixed_document() {
    let old = obj(vec![
        ("kept", num(1)),
        ("gone", text("x")),
        ("nested", obj(vec![("inner", num(5)), ("same", text("s"))])),
        ("list", arr(vec![num(1), num(2), num(3)])),
    ]);
    let new = obj(vec![
        ("kept", num(1)),
        ("fresh", text("y")),
        ("nested", obj(vec![("inner", num(6)), ("same", text("s"))])),
        ("list", arr(vec![num(3), num(1), num(2), num(4)])),
    ]);
    let script = diff(&old, &new, "", "obs-1");
    let mut state = clone_value(&old);
    apply_all(&mut state, &script);
    assert!(value_eq(&state, &new));
}

#[test]
fn test_equal_values_diff_to_nothing() {
    let a = obj(vec![("x", arr(vec![num(1), obj(vec![("y", text("z"))])]))]);
    let b = obj(vec![("x", arr(vec![num(1), obj(vec![("y", text("z"))])]))]);
    assert_eq!(diff(&a, &b, "", "obs-1").len(), 0);
}
