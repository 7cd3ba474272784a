use todo_store::store::Store;

fn status_of(todo: &Store, name: &str) -> String {
    todo.get(&name.to_string()).unwrap().status.clone().unwrap()
}

#[test]
fn test_new() {
    let todo = Store::from_json("");
    assert!(todo.is_ok());
}

#[test]
fn test_insert() {
    let mut todo = Store::from_json("").unwrap();
    todo.insert("test".to_string());
    assert_eq!(todo.len(), 1);
    assert!(todo.get(&"test".to_string()).is_some());
    assert_eq!(status_of(&todo, "test"), "Todo");
}

#[test]
fn test_save() {
    let mut todo = Store::from_json("").unwrap();
    todo.insert("test".to_string());
    assert!(Store::from_json(&todo.to_json()).is_ok());
}

#[test]
fn test_complete() {
    let mut todo = Store::from_json("").unwrap();
    todo.insert("test".to_string());
    todo.complete(&"test".to_string());
    assert_eq!(todo.len(), 1);
    assert!(todo.get(&"test".to_string()).is_some());
    assert_eq!(status_of(&todo, "test"), "Done");
}

#[test]
fn test_start() {
    let mut todo = Store::from_json("").unwrap();
    todo.insert("test".to_string());
    todo.start(&"test".to_string());
    assert_eq!(todo.len(), 1);
    assert!(todo.get(&"test".to_string()).is_some());
    assert_eq!(status_of(&todo, "test"), "Started");
}

#[test]
fn test_list() {
    let mut todo = Store::from_json("").unwrap();
    todo.insert("test".to_string());
    todo.insert("test2".to_string());
    todo.list();
    assert_eq!(todo.len(), 2);
}

#[test]
fn fresh_content_is_empty() {
    assert_eq!(Store::from_json("").unwrap().len(), 0);
    assert_eq!(Store::from_json("  \n\t\r\n ").unwrap().len(), 0);
    assert_eq!(Store::from_json("{}").unwrap().len(), 0);
    assert_eq!(Store::from_json(" { } ").unwrap().len(), 0);
}

#[test]
fn insert_stamps_enqueued_at() {
    let mut todo = Store::new();
    todo.insert("a".to_string());
    let item = todo.get(&"a".to_string()).unwrap();
    assert_eq!(item.status.as_deref(), Some("Todo"));
    assert!(!item.enqueued_at.as_deref().unwrap().is_empty());
    assert!(item.started_at.is_none());
    assert!(item.finished_at.is_none());
}

#[test]
fn start_keeps_enqueued_at() {
    let mut todo = Store::new();
    todo.insert_at("a".to_string(), "t0".to_string());
    let r = todo.start(&"a".to_string());
    assert_eq!(r, Some(()));
    let item = todo.get(&"a".to_string()).unwrap();
    assert_eq!(item.status.as_deref(), Some("Started"));
    assert_eq!(item.enqueued_at.as_deref(), Some("t0"));
    assert!(!item.started_at.as_deref().unwrap().is_empty());
}

#[test]
fn complete_stamps_finished_at() {
    let mut todo = Store::new();
    todo.insert_at("a".to_string(), "t0".to_string());
    let r = todo.complete(&"a".to_string());
    assert_eq!(r, Some(()));
    let item = todo.get(&"a".to_string()).unwrap();
    assert_eq!(item.status.as_deref(), Some("Done"));
    assert_eq!(item.enqueued_at.as_deref(), Some("t0"));
    assert_eq!(item.started_at, None);
    assert!(!item.finished_at.as_deref().unwrap().is_empty());
}

#[test]
fn timestamps_never_overwritten() {
    let mut todo = Store::new();
    todo.insert_at("a".to_string(), "t0".to_string());
    todo.start_at(&"a".to_string(), "t1".to_string());
    todo.start_at(&"a".to_string(), "t2".to_string());
    todo.complete_at(&"a".to_string(), "t3".to_string());
    todo.complete_at(&"a".to_string(), "t4".to_string());
    let item = todo.get(&"a".to_string()).unwrap();
    assert_eq!(item.enqueued_at.as_deref(), Some("t0"));
    assert_eq!(item.started_at.as_deref(), Some("t1"));
    assert_eq!(item.finished_at.as_deref(), Some("t3"));
    assert_eq!(item.status.as_deref(), Some("Done"));
}

#[test]
fn insert_overwrites_existing() {
    let mut todo = Store::new();
    todo.insert_at("a".to_string(), "t0".to_string());
    todo.start_at(&"a".to_string(), "t1".to_string());
    todo.insert_at("a".to_string(), "t5".to_string());
    assert_eq!(todo.len(), 1);
    let item = todo.get(&"a".to_string()).unwrap();
    assert_eq!(item.status.as_deref(), Some("Todo"));
    assert_eq!(item.enqueued_at.as_deref(), Some("t5"));
    assert!(item.started_at.is_none());
}

#[test]
fn missing_name_is_signalled_and_nothing_changes() {
    let mut todo = Store::new();
    todo.insert_at("here".to_string(), "t0".to_string());
    let before = todo.to_json();
    assert_eq!(todo.start(&"absent".to_string()), None);
    assert_eq!(todo.complete(&"absent".to_string()), None);
    assert_eq!(todo.len(), 1);
    assert_eq!(todo.to_json(), before);
}

#[test]
fn scenario_single_item_lifecycle() {
    let mut todo = Store::new();
    assert_eq!(todo.len(), 0);
    let name = "buy milk".to_string();
    todo.insert(name.clone());
    assert_eq!(todo.len(), 1);
    assert_eq!(status_of(&todo, "buy milk"), "Todo");
    todo.start(&name);
    assert_eq!(status_of(&todo, "buy milk"), "Started");
    todo.complete(&name);
    assert_eq!(status_of(&todo, "buy milk"), "Done");
    let saved = todo.to_json();
    let loaded = Store::from_json(&saved).unwrap();
    let before = todo.get(&name).unwrap();
    let after = loaded.get(&name).unwrap();
    assert_eq!(after.status.as_deref(), Some("Done"));
    assert_eq!(after.enqueued_at, before.enqueued_at);
    assert_eq!(after.started_at, before.started_at);
    assert_eq!(after.finished_at, before.finished_at);
    assert!(after.enqueued_at.is_some());
    assert!(after.started_at.is_some());
    assert!(after.finished_at.is_some());
}

#[test]
fn scenario_filter_by_status() {
    let mut todo = Store::new();
    todo.insert("a".to_string());
    todo.insert("b".to_string());
    todo.complete(&"a".to_string());
    let done = todo.names_with_status(&"Done".to_string());
    assert_eq!(done, vec!["a".to_string()]);
    let pending = todo.names_with_status(&"Todo".to_string());
    assert_eq!(pending, vec!["b".to_string()]);
    let started = todo.names_with_status(&"Started".to_string());
    assert!(started.is_empty());
}

#[test]
fn list_all_and_filter_enumerate_the_same_items() {
    let mut todo = Store::new();
    todo.insert("a".to_string());
    todo.insert("b".to_string());
    todo.start(&"b".to_string());
    let all = todo.names_with_status(&"all".to_string());
    assert_eq!(all, vec!["a".to_string(), "b".to_string()]);
    assert_eq!(todo.list_by_status(&"all".to_string()), todo.list());
    let mut merged = todo.names_with_status(&"Todo".to_string());
    merged.extend(todo.names_with_status(&"Started".to_string()));
    merged.sort();
    assert_eq!(merged, all);
}

#[test]
fn listing_renders_names_fields_and_counts() {
    let mut todo = Store::new();
    todo.insert_at("a".to_string(), "t0".to_string());
    todo.insert_at("b".to_string(), "t1".to_string());
    todo.start_at(&"b".to_string(), "t2".to_string());
    assert_eq!(
        todo.list(),
        "a:\n\tstatus: Todo\n\tenqueued_at: t0\nb:\n\tstatus: Started\n\tenqueued_at: t1\n\tstarted_at: t2\n"
    );
    assert_eq!(
        todo.list_by_status(&"Started".to_string()),
        "b:\n\tstatus: Started\n\tenqueued_at: t1\n\tstarted_at: t2\ntotal: 3\n"
    );
    assert_eq!(todo.list_by_status(&"Done".to_string()), "");
}
