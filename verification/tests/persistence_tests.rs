use todo_store::store::{ParseError, Store};

#[test]
fn save_then_load_round_trips_exactly() {
    let mut todo = Store::new();
    todo.insert_at("alpha".to_string(), "2024-01-01 00:00:00 UTC".to_string());
    todo.insert_at("beta".to_string(), "2024-01-02 00:00:00 UTC".to_string());
    todo.start_at(&"beta".to_string(), "2024-01-03 00:00:00 UTC".to_string());
    todo.complete_at(&"alpha".to_string(), "2024-01-04 00:00:00 UTC".to_string());
    let saved = todo.to_json();
    let loaded = Store::from_json(&saved).unwrap();
    assert_eq!(loaded.len(), todo.len());
    for name in ["alpha", "beta"] {
        let a = todo.get(&name.to_string()).unwrap();
        let b = loaded.get(&name.to_string()).unwrap();
        assert_eq!(a.status, b.status);
        assert_eq!(a.enqueued_at, b.enqueued_at);
        assert_eq!(a.started_at, b.started_at);
        assert_eq!(a.finished_at, b.finished_at);
    }
}

#[test]
fn round_trip_keeps_awkward_names_and_values() {
    let mut todo = Store::new();
    todo.insert_at("we\"ird\\name".to_string(), "a \"quoted\" \\ time".to_string());
    todo.insert_at("".to_string(), "t".to_string());
    todo.insert_at("sp ace\tand\nnewline".to_string(), "v".to_string());
    let saved = todo.to_json();
    let loaded = Store::from_json(&saved).unwrap();
    assert_eq!(loaded.len(), 3);
    let item = loaded.get(&"we\"ird\\name".to_string()).unwrap();
    assert_eq!(item.enqueued_at.as_deref(), Some("a \"quoted\" \\ time"));
    assert!(loaded.get(&"".to_string()).is_some());
    assert!(loaded.get(&"sp ace\tand\nnewline".to_string()).is_some());
}

#[test]
fn rendered_form_is_pretty_json() {
    let mut todo = Store::new();
    todo.insert_at("a".to_string(), "t0".to_string());
    assert_eq!(
        todo.to_json(),
        "{\n  \"a\": {\n    \"status\": \"Todo\",\n    \"enqueued_at\": \"t0\"\n  }\n}"
    );
    assert_eq!(Store::new().to_json(), "{}");
}

#[test]
fn rendered_form_is_readable_by_a_json_parser() {
    let mut todo = Store::new();
    todo.insert_at("task one".to_string(), "t0".to_string());
    todo.complete_at(&"task one".to_string(), "t1".to_string());
    let saved = todo.to_json();
    let value: serde_json::Value = serde_json::from_str(&saved).unwrap();
    let obj = value.as_object().unwrap();
    assert_eq!(obj.len(), 1);
    let item = obj.get("task one").unwrap().as_object().unwrap();
    assert_eq!(item.get("status").unwrap().as_str(), Some("Done"));
    assert_eq!(item.get("enqueued_at").unwrap().as_str(), Some("t0"));
    assert_eq!(item.get("finished_at").unwrap().as_str(), Some("t1"));
}

#[test]
fn loading_a_json_parsers_output_works() {
    let text = "{\n  \"x\": { \"status\": \"Todo\", \"enqueued_at\": \"now\" }\n}\n";
    let loaded = Store::from_json(text).unwrap();
    assert_eq!(loaded.len(), 1);
    let item = loaded.get(&"x".to_string()).unwrap();
    assert_eq!(item.status.as_deref(), Some("Todo"));
    assert_eq!(item.enqueued_at.as_deref(), Some("now"));
}

#[test]
fn malformed_content_is_refused() {
    assert!(matches!(Store::from_json("not json"), Err(ParseError::Malformed)));
    assert!(matches!(Store::from_json("{"), Err(ParseError::Malformed)));
    assert!(matches!(Store::from_json("{ \"a\": }"), Err(ParseError::Malformed)));
    assert!(matches!(
        Store::from_json("{ \"a\": { \"status\": \"x\" } } trailing"),
        Err(ParseError::Malformed)
    ));
    assert!(matches!(
        Store::from_json("{ \"a\": { \"weird\": \"x\" } }"),
        Err(ParseError::Malformed)
    ));
    assert!(matches!(
        Store::from_json("{ \"a\": {}, \"a\": {} }"),
        Err(ParseError::Malformed)
    ));
    assert!(matches!(Store::from_json("[]"), Err(ParseError::Malformed)));
}

#[test]
fn empty_item_objects_load() {
    let loaded = Store::from_json("{ \"bare\": {} }").unwrap();
    assert_eq!(loaded.len(), 1);
    let item = loaded.get(&"bare".to_string()).unwrap();
    assert!(item.status.is_none());
    let filtered = loaded.names_with_status(&"Todo".to_string());
    assert!(filtered.is_empty());
}
