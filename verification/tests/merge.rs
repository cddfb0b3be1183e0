use event_projection::value::Value;

fn s(x: &str) -> String {
    x.to_string()
}

fn obj(entries: Vec<(&str, Value)>) -> Value {
    Value::Obj(entries.into_iter().map(|(k, v)| (k.to_string(), v)).collect())
}

fn to_json(v: &Value) -> serde_json::Value {
    match v {
        Value::Null => serde_json::Value::Null,
        Value::Bool(b) => serde_json::Value::Bool(*b),
        Value::Int(n) => serde_json::Value::Number(serde_json::Number::from(*n)),
        Value::Str(x) => serde_json::Value::String(x.clone()),
        Value::Arr(vs) => serde_json::Value::Array(vs.iter().map(to_json).collect()),
        Value::Obj(es) => {
            let mut m = serde_json::Map::new();
            for (k, val) in es {
                m.insert(k.clone(), to_json(val));
            }
            serde_json::Value::Object(m)
        }
    }
}

#[test]
fn non_object_patch_replaces_target() {
    let target = obj(vec![("a", Value::Int(1))]);
    let r = target.merge_patch(&Value::Str(s("flat")));
    assert_eq!(r, Value::Str(s("flat")));
}

#[test]
fn object_patch_adds_and_overwrites_keys() {
    let target = obj(vec![("a", Value::Int(1)), ("b", Value::Int(2))]);
    let patch = obj(vec![("b", Value::Int(20)), ("c", Value::Int(3))]);
    let r = target.merge_patch(&patch);
    assert_eq!(r.get(&s("a")), Some(&Value::Int(1)));
    assert_eq!(r.get(&s("b")), Some(&Value::Int(20)));
    assert_eq!(r.get(&s("c")), Some(&Value::Int(3)));
}

#[test]
fn null_removes_key_set_by_earlier_patch() {
    // Applying p1 then p2 where p2 nulls `k` removes `k`; applying only p1
    // keeps it.
    let p1 = obj(vec![("k", Value::Str(s("v"))), ("other", Value::Int(7))]);
    let p2 = obj(vec![("k", Value::Null)]);
    let once = obj(vec![]).merge_patch(&p1);
    assert_eq!(once.get(&s("k")), Some(&Value::Str(s("v"))));
    let twice = once.merge_patch(&p2);
    assert_eq!(twice.get(&s("k")), None);
    assert_eq!(twice.get(&s("other")), Some(&Value::Int(7)));
}

#[test]
fn null_on_absent_key_is_a_no_op() {
    let target = obj(vec![("a", Value::Int(1))]);
    let patch = obj(vec![("zzz", Value::Null)]);
    let r = target.merge_patch(&patch);
    assert_eq!(r, obj(vec![("a", Value::Int(1))]));
}

#[test]
fn merging_twice_equals_merging_once() {
    let target = obj(vec![("a", Value::Int(1)), ("b", obj(vec![("x", Value::Bool(true))]))]);
    let patch = obj(vec![
        ("a", Value::Null),
        ("b", obj(vec![("x", Value::Bool(false)), ("y", Value::Int(2))])),
        ("c", Value::Str(s("new"))),
    ]);
    let once = target.merge_patch(&patch);
    let twice = once.deep_clone().merge_patch(&patch);
    assert_eq!(to_json(&twice), to_json(&once));
}

#[test]
fn nested_objects_merge_recursively() {
    let target = obj(vec![(
        "outer",
        obj(vec![("keep", Value::Int(1)), ("change", Value::Int(2))]),
    )]);
    let patch = obj(vec![(
        "outer",
        obj(vec![("change", Value::Int(20)), ("add", Value::Int(3))]),
    )]);
    let r = target.merge_patch(&patch);
    match r.get(&s("outer")) {
        Some(inner) => {
            assert_eq!(inner.get(&s("keep")), Some(&Value::Int(1)));
            assert_eq!(inner.get(&s("change")), Some(&Value::Int(20)));
            assert_eq!(inner.get(&s("add")), Some(&Value::Int(3)));
        }
        None => panic!("outer key lost"),
    }
}

#[test]
fn arrays_and_scalars_replace_not_merge() {
    let target = obj(vec![("a", Value::Arr(vec![Value::Int(1), Value::Int(2)]))]);
    let patch = obj(vec![("a", Value::Arr(vec![Value::Int(9)]))]);
    let r = target.merge_patch(&patch);
    assert_eq!(r.get(&s("a")), Some(&Value::Arr(vec![Value::Int(9)])));
}

#[test]
fn object_patch_on_scalar_starts_from_empty() {
    let r = Value::Int(5).merge_patch(&obj(vec![("k", Value::Int(1))]));
    assert_eq!(r, obj(vec![("k", Value::Int(1))]));
}

#[test]
fn deep_clone_copies_structurally() {
    let v = obj(vec![
        ("a", Value::Arr(vec![Value::Bool(false), Value::Null])),
        ("b", obj(vec![("x", Value::Str(s("t")))])),
    ]);
    assert_eq!(v.deep_clone(), v);
}

#[test]
fn matches_reference_merge() {
    let target = obj(vec![
        ("a", Value::Int(1)),
        ("b", obj(vec![("x", Value::Str(s("old"))), ("y", Value::Bool(true))])),
        ("c", Value::Arr(vec![Value::Int(1), Value::Int(2)])),
    ]);
    let patch = obj(vec![
        ("b", obj(vec![("x", Value::Null), ("z", Value::Int(9))])),
        ("c", Value::Arr(vec![Value::Int(3)])),
        ("d", Value::Str(s("new"))),
    ]);
    let mut expected = to_json(&target);
    json_patch::merge(&mut expected, &to_json(&patch));
    let got = target.merge_patch(&patch);
    assert_eq!(to_json(&got), expected);
}
