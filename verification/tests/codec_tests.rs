use json_archive::codec::{decode_event, encode_event, EventDeserializer};
use json_archive::value::value_eq;
use json_archive::{DiagnosticCode, Event, JsonValue, Observation};

fn text(x: &str) -> JsonValue {
    JsonValue::Text(x.to_string())
}

fn num(n: i64) -> JsonValue {
    JsonValue::Num(n.to_string())
}

fn obj(pairs: Vec<(&str, JsonValue)>) -> JsonValue {
    JsonValue::Obj(pairs.into_iter().map(|(k, v)| (k.to_string(), v)).collect())
}

fn arr(items: Vec<JsonValue>) -> JsonValue {
    JsonValue::Arr(items)
}

#[test]
fn test_deserialize_observe_event() {
    let wire = vec![text("observe"), text("obs-1"), text("2025-01-01T00:00:00Z"), num(1)];
    let result = decode_event(&wire);
    assert!(result.diagnostics.is_empty());
    assert!(matches!(
        result.event,
        Some(Event::Observe { observation_id, timestamp: _, change_count })
        if observation_id == "obs-1" && change_count == 1
    ));
}

#[test]
fn test_deserialize_add_event() {
    let wire = vec![text("add"), text("/count"), num(42), text("obs-1")];
    let result = decode_event(&wire);
    assert!(result.diagnostics.is_empty());
    match result.event {
        Some(Event::Add { path, value, observation_id }) => {
            assert_eq!(path, "/count");
            assert!(value_eq(&value, &num(42)));
            assert_eq!(observation_id, "obs-1");
        },
        _ => panic!("expected an add event"),
    }
}

#[test]
fn test_deserialize_invalid_event_type() {
    let wire = vec![text("invalid"), text("some"), text("data")];
    let result = decode_event(&wire);
    assert_eq!(result.diagnostics.len(), 1);
    assert_eq!(result.diagnostics[0].code, DiagnosticCode::UnknownEventType);
    assert!(result.event.is_none());
    assert!(!result.diagnostics[0].is_fatal());
}

#[test]
fn test_deserialize_wrong_field_count() {
    let wire = vec![text("observe"), text("obs-1")];
    let result = decode_event(&wire);
    assert_eq!(result.diagnostics.len(), 1);
    assert_eq!(result.diagnostics[0].code, DiagnosticCode::WrongFieldCount);
    assert!(result.event.is_none());
}

#[test]
fn test_deserialize_move_event() {
    let pairs = arr(vec![arr(vec![num(0), num(2)]), arr(vec![num(1), num(0)])]);
    let wire = vec![text("move"), text("/items"), pairs, text("obs-1")];
    let result = decode_event(&wire);
    assert!(result.diagnostics.is_empty());
    assert!(matches!(
        result.event,
        Some(Event::Move { path, moves, observation_id })
        if path == "/items" && moves == vec![(0, 2), (1, 0)] && observation_id == "obs-1"
    ));
}

#[test]
fn test_deserialize_bad_timestamp_is_wrong_field_type() {
    let wire = vec![text("observe"), text("obs-1"), text("not a time"), num(1)];
    let result = decode_event(&wire);
    assert_eq!(result.diagnostics.len(), 1);
    assert_eq!(result.diagnostics[0].code, DiagnosticCode::WrongFieldType);
    assert!(result.event.is_none());
}

#[test]
fn test_deserialize_empty_array() {
    let wire: Vec<JsonValue> = vec![];
    let result = decode_event(&wire);
    assert_eq!(result.diagnostics.len(), 1);
    assert_eq!(result.diagnostics[0].code, DiagnosticCode::WrongFieldCount);
    assert!(result.event.is_none());
}

#[test]
fn test_event_deserializer_new_is_empty() {
    let d = EventDeserializer::new();
    assert!(d.event.is_none());
    assert!(d.diagnostics.is_empty());
}

#[test]
fn test_event_serialization() {
    let observe_event = Event::Observe {
        observation_id: "obs-1".to_string(),
        timestamp: "2025-01-01T00:00:00Z".to_string(),
        change_count: 2,
    };
    let wire = encode_event(&observe_event);
    assert_eq!(wire.len(), 4);
    assert!(value_eq(&wire[0], &text("observe")));
    assert!(value_eq(&wire[1], &text("obs-1")));
    assert!(value_eq(&wire[2], &text("2025-01-01T00:00:00Z")));
    assert!(value_eq(&wire[3], &num(2)));

    let add_event = Event::Add {
        path: "/test".to_string(),
        value: text("value"),
        observation_id: "obs-1".to_string(),
    };
    let wire = encode_event(&add_event);
    assert_eq!(wire.len(), 4);
    assert!(value_eq(&wire[0], &text("add")));
    assert!(value_eq(&wire[1], &text("/test")));
    assert!(value_eq(&wire[2], &text("value")));
    assert!(value_eq(&wire[3], &text("obs-1")));

    let events = vec![
        Event::Observe {
            observation_id: "obs-1".to_string(),
            timestamp: "2025-01-01T00:00:00Z".to_string(),
            change_count: 2,
        },
        Event::Add {
            path: "/test".to_string(),
            value: text("value"),
            observation_id: "obs-1".to_string(),
        },
        Event::Change {
            path: "/test".to_string(),
            new_value: text("new"),
            observation_id: "obs-1".to_string(),
        },
        Event::Remove { path: "/test".to_string(), observation_id: "obs-1".to_string() },
        Event::Move {
            path: "/items".to_string(),
            moves: vec![(0, 1)],
            observation_id: "obs-1".to_string(),
        },
        Event::Snapshot {
            observation_id: "snap-1".to_string(),
            timestamp: "2025-01-01T00:00:00Z".to_string(),
            object: obj(vec![("test", text("state"))]),
        },
    ];

    for event in events {
        let wire = encode_event(&event);
        let decoded = decode_event(&wire);
        assert!(decoded.diagnostics.is_empty());
        let back = decoded.event.expect("the round trip must yield an event");
        let rewire = encode_event(&back);
        assert_eq!(wire.len(), rewire.len());
        for k in 0..wire.len() {
            assert!(value_eq(&wire[k], &rewire[k]));
        }
    }
}

#[test]
fn test_observation_to_events() {
    let mut obs = Observation::new("obs-1".to_string(), "2025-01-01T00:00:00Z".to_string());
    obs.add_event(Event::Add {
        path: "/test".to_string(),
        value: text("value"),
        observation_id: "obs-1".to_string(),
    });
    obs.add_event(Event::Change {
        path: "/test".to_string(),
        new_value: text("new"),
        observation_id: "obs-1".to_string(),
    });

    let events = obs.to_events();
    assert_eq!(events.len(), 3);

    match &events[0] {
        Event::Observe { change_count, .. } => assert_eq!(*change_count, 2),
        _ => panic!("First event should be observe"),
    }
}
