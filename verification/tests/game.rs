use event_projection::events::{event_agg, Event, EventType, SourceType};
use event_projection::game::{game_agg, GameData, GameEvent};
use event_projection::value::Value;

fn s(x: &str) -> String {
    x.to_string()
}

fn game_save(id: u128, added: i64, name: Option<&str>, description: Option<Option<&str>>) -> GameEvent {
    let data = GameData {
        name: name.map(|x| x.to_string()),
        description: description.map(|d| d.map(|x| x.to_string())),
    };
    GameEvent::new(id, Some(data), EventType::Save, added)
}

fn game_drop(id: u128, added: i64) -> GameEvent {
    GameEvent::new(id, None, EventType::Drop, added)
}

#[test]
fn save_game_projects_both_fields() {
    let events = vec![game_save(1, 10, Some("three"), Some(Some("foo")))];
    let rows = game_agg(&events);
    assert_eq!(rows.len(), 1);
    assert_eq!(rows[0].id, 1);
    assert_eq!(rows[0].name, Some(s("three")));
    assert_eq!(rows[0].description, Some(Some(s("foo"))));
    assert_eq!(rows[0].added, 10);
    assert_eq!(rows[0].updated, 10);
}

#[test]
fn drop_game_suppresses_projection() {
    let events = vec![
        game_save(1, 10, Some("three"), Some(Some("foo"))),
        game_drop(1, 20),
    ];
    let rows = game_agg(&events);
    assert_eq!(rows.len(), 0);
}

#[test]
fn cleared_field_is_removed_kept_field_stays() {
    let events = vec![
        game_save(1, 10, Some("three"), Some(Some("foo"))),
        game_save(1, 20, None, Some(None)),
    ];
    let rows = game_agg(&events);
    assert_eq!(rows.len(), 1);
    assert_eq!(rows[0].name, Some(s("three")));
    assert_eq!(rows[0].description, Some(None));
    assert_eq!(rows[0].updated, 20);
}

#[test]
fn omitted_field_keeps_prior_value() {
    let events = vec![
        game_save(1, 10, Some("first"), Some(Some("d1"))),
        game_save(1, 20, Some("second"), None),
    ];
    let rows = game_agg(&events);
    assert_eq!(rows.len(), 1);
    assert_eq!(rows[0].name, Some(s("second")));
    assert_eq!(rows[0].description, Some(Some(s("d1"))));
}

#[test]
fn three_games_project_three_rows() {
    let events = vec![
        game_save(1, 10, Some("one"), None),
        game_save(2, 11, Some("two"), None),
        game_save(3, 12, Some("three"), None),
    ];
    let rows = game_agg(&events);
    assert_eq!(rows.len(), 3);
}

#[test]
fn dropped_game_can_be_resurrected() {
    let events = vec![
        game_save(1, 10, Some("a"), None),
        game_drop(1, 20),
        game_save(1, 30, Some("b"), None),
    ];
    let rows = game_agg(&events);
    assert_eq!(rows.len(), 1);
    assert_eq!(rows[0].name, Some(s("b")));
    assert_eq!(rows[0].added, 10);
    assert_eq!(rows[0].updated, 30);
}

#[test]
fn flat_fold_matches_merge_patch_on_the_two_field_schema() {
    // The same history written as generic documents and as flat game data
    // must project the same observable state.
    let flat = vec![
        game_save(1, 10, Some("three"), Some(Some("foo"))),
        game_save(1, 20, None, Some(None)),
        game_save(1, 30, Some("final"), None),
    ];
    let generic = vec![
        Event::new(
            1,
            Some(Value::Obj(vec![
                (s("name"), Value::Str(s("three"))),
                (s("description"), Value::Str(s("foo"))),
            ])),
            EventType::Save,
            SourceType::Game,
            10,
        ),
        Event::new(
            1,
            Some(Value::Obj(vec![(s("description"), Value::Null)])),
            EventType::Save,
            SourceType::Game,
            20,
        ),
        Event::new(
            1,
            Some(Value::Obj(vec![(s("name"), Value::Str(s("final")))])),
            EventType::Save,
            SourceType::Game,
            30,
        ),
    ];
    let flat_rows = game_agg(&flat);
    let generic_rows = event_agg(&generic);
    assert_eq!(flat_rows.len(), 1);
    assert_eq!(generic_rows.len(), 1);
    assert_eq!(flat_rows[0].name, Some(s("final")));
    match generic_rows[0].data.get(&s("name")) {
        Some(Value::Str(x)) => assert_eq!(x, "final"),
        _ => panic!("name missing from merged document"),
    }
    // cleared in both: removed from the document, `Some(None)` in the row
    assert_eq!(generic_rows[0].data.get(&s("description")), None);
    assert_eq!(flat_rows[0].description, Some(None));
    assert_eq!((flat_rows[0].added, flat_rows[0].updated), (10, 30));
    assert_eq!((generic_rows[0].added, generic_rows[0].updated), (10, 30));
}
