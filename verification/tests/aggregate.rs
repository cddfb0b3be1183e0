use event_projection::events::{event_agg, Event, EventType, SourceType};
use event_projection::value::Value;

fn s(x: &str) -> String {
    x.to_string()
}

fn obj(entries: Vec<(&str, Value)>) -> Value {
    Value::Obj(entries.into_iter().map(|(k, v)| (k.to_string(), v)).collect())
}

fn save(id: u128, added: i64, data: Value) -> Event {
    Event::new(id, Some(data), EventType::Save, SourceType::Game, added)
}

fn tombstone(id: u128, added: i64) -> Event {
    Event::new(id, None, EventType::Drop, SourceType::Game, added)
}

fn get_str(doc: &Value, key: &str) -> Option<String> {
    match doc.get(&key.to_string()) {
        Some(Value::Str(x)) => Some(x.clone()),
        _ => None,
    }
}

#[test]
fn single_save_projects_all_fields() {
    let events = vec![save(
        7,
        10,
        obj(vec![("name", Value::Str(s("three"))), ("description", Value::Str(s("foo")))]),
    )];
    let rows = event_agg(&events);
    assert_eq!(rows.len(), 1);
    assert_eq!(rows[0].id, 7);
    assert_eq!(rows[0].source, SourceType::Game);
    assert_eq!(rows[0].added, 10);
    assert_eq!(rows[0].updated, 10);
    assert_eq!(get_str(&rows[0].data, "name"), Some(s("three")));
    assert_eq!(get_str(&rows[0].data, "description"), Some(s("foo")));
}

#[test]
fn explicit_null_clears_field_omitted_field_kept() {
    let events = vec![
        save(
            7,
            10,
            obj(vec![("name", Value::Str(s("three"))), ("description", Value::Str(s("foo")))]),
        ),
        save(7, 20, obj(vec![("description", Value::Null)])),
    ];
    let rows = event_agg(&events);
    assert_eq!(rows.len(), 1);
    assert_eq!(get_str(&rows[0].data, "name"), Some(s("three")));
    assert_eq!(rows[0].data.get(&s("description")), None);
    assert_eq!(rows[0].added, 10);
    assert_eq!(rows[0].updated, 20);
}

#[test]
fn drop_suppresses_projection() {
    let events = vec![
        save(7, 10, obj(vec![("name", Value::Str(s("gone")))])),
        tombstone(7, 20),
    ];
    let rows = event_agg(&events);
    assert_eq!(rows.len(), 0);
}

#[test]
fn dropped_entity_leaves_others_alone() {
    let events = vec![
        save(1, 10, obj(vec![("name", Value::Str(s("kept")))])),
        save(2, 11, obj(vec![("name", Value::Str(s("doomed")))])),
        tombstone(2, 12),
    ];
    let rows = event_agg(&events);
    assert_eq!(rows.len(), 1);
    assert_eq!(rows[0].id, 1);
}

#[test]
fn later_save_resurrects_dropped_entity() {
    let events = vec![
        save(7, 10, obj(vec![("name", Value::Str(s("a")))])),
        tombstone(7, 20),
        save(7, 30, obj(vec![("name", Value::Str(s("b")))])),
    ];
    let rows = event_agg(&events);
    assert_eq!(rows.len(), 1);
    assert_eq!(get_str(&rows[0].data, "name"), Some(s("b")));
    assert_eq!(rows[0].added, 10);
    assert_eq!(rows[0].updated, 30);
}

#[test]
fn three_entities_project_three_rows_in_order() {
    let events = vec![
        save(1, 10, obj(vec![("name", Value::Str(s("one")))])),
        save(2, 11, obj(vec![("name", Value::Str(s("two")))])),
        save(3, 12, obj(vec![("name", Value::Str(s("three")))])),
    ];
    let rows = event_agg(&events);
    assert_eq!(rows.len(), 3);
    assert_eq!(rows[0].id, 1);
    assert_eq!(rows[1].id, 2);
    assert_eq!(rows[2].id, 3);
}

#[test]
fn timestamps_span_first_to_last_event() {
    let events = vec![
        save(9, 100, obj(vec![("name", Value::Str(s("v1")))])),
        save(9, 200, obj(vec![("name", Value::Str(s("v2")))])),
        save(9, 300, obj(vec![("name", Value::Str(s("v3")))])),
    ];
    let rows = event_agg(&events);
    assert_eq!(rows.len(), 1);
    assert_eq!(rows[0].added, 100);
    assert_eq!(rows[0].updated, 300);
    assert_eq!(get_str(&rows[0].data, "name"), Some(s("v3")));
}

#[test]
fn save_without_document_contributes_nothing() {
    let events = vec![
        save(4, 10, obj(vec![("name", Value::Str(s("kept")))])),
        Event::new(4, None, EventType::Save, SourceType::Game, 20),
    ];
    let rows = event_agg(&events);
    assert_eq!(rows.len(), 1);
    assert_eq!(get_str(&rows[0].data, "name"), Some(s("kept")));
    assert_eq!(rows[0].updated, 20);
}

#[test]
fn empty_log_projects_nothing() {
    let events: Vec<Event> = vec![];
    let rows = event_agg(&events);
    assert_eq!(rows.len(), 0);
}

#[test]
fn lone_tombstone_never_projects() {
    let events = vec![tombstone(5, 10)];
    let rows = event_agg(&events);
    assert_eq!(rows.len(), 0);
}

#[test]
fn fields_accumulate_across_saves() {
    let events = vec![
        save(8, 10, obj(vec![("name", Value::Str(s("n")))])),
        save(8, 20, obj(vec![("description", Value::Str(s("d")))])),
    ];
    let rows = event_agg(&events);
    assert_eq!(rows.len(), 1);
    assert_eq!(get_str(&rows[0].data, "name"), Some(s("n")));
    assert_eq!(get_str(&rows[0].data, "description"), Some(s("d")));
}
