use toj::json::Json;
use toj::merge::{merge, merge_chain, merged};

fn num(n: u64) -> Json {
    Json::Number(serde_json::Number::from(n))
}

fn text(s: &str) -> Json {
    Json::String(s.to_string())
}

fn obj(members: Vec<(&str, Json)>) -> Json {
    Json::Object(members.into_iter().map(|(k, v)| (k.to_string(), v)).collect())
}

fn deer(members: Vec<(&str, Json)>) -> Json {
    obj(vec![("animals", obj(vec![("deer", obj(members))]))])
}

fn ancestor_layer() -> Json {
    deer(vec![("leg-count", num(4)), ("diet", text("herbivore"))])
}

fn descendant_layer() -> Json {
    deer(vec![("avg-weight-kg", num(40))])
}

#[test]
fn chain_of_two_adds_members() {
    let r = merge_chain(vec![ancestor_layer(), descendant_layer()]);
    let expected = deer(vec![
        ("leg-count", num(4)),
        ("diet", text("herbivore")),
        ("avg-weight-kg", num(40)),
    ]);
    assert_eq!(r, expected);
}

#[test]
fn chain_of_three_deletes_member() {
    let specific = deer(vec![("diet", Json::Null)]);
    let r = merge_chain(vec![ancestor_layer(), descendant_layer(), specific]);
    let expected = deer(vec![("leg-count", num(4)), ("avg-weight-kg", num(40))]);
    assert_eq!(r, expected);
}

#[test]
fn chain_of_one_is_its_layer() {
    let r = merge_chain(vec![ancestor_layer()]);
    assert_eq!(r, ancestor_layer());
}

#[test]
fn merge_with_itself_is_unchanged() {
    let v = || {
        obj(vec![
            ("a", num(1)),
            ("b", obj(vec![("c", text("x")), ("d", Json::Array(vec![num(1), num(2)]))])),
            ("e", Json::Bool(true)),
        ])
    };
    assert_eq!(merged(v(), v()), v());
}

#[test]
fn tombstone_removes_present_key() {
    let base = obj(vec![("a", num(1)), ("b", num(2))]);
    let r = merged(base, obj(vec![("a", Json::Null)]));
    assert_eq!(r, obj(vec![("b", num(2))]));
}

#[test]
fn tombstone_on_absent_key_is_no_op() {
    let base = obj(vec![("a", num(1))]);
    let r = merged(base, obj(vec![("z", Json::Null)]));
    assert_eq!(r, obj(vec![("a", num(1))]));
}

#[test]
fn scalar_overlay_replaces_object() {
    let base = obj(vec![("a", num(1))]);
    assert_eq!(merged(base, num(7)), num(7));
}

#[test]
fn array_overlay_replaces_array_whole() {
    let base = Json::Array(vec![num(1), num(2), num(3)]);
    let overlay = Json::Array(vec![num(9)]);
    assert_eq!(merged(base, overlay), Json::Array(vec![num(9)]));
}

#[test]
fn null_overlay_at_top_replaces() {
    let base = obj(vec![("a", num(1))]);
    assert_eq!(merged(base, Json::Null), Json::Null);
}

#[test]
fn object_overlay_replaces_scalar_base() {
    let overlay = obj(vec![("a", num(1)), ("n", Json::Null)]);
    let r = merged(text("s"), overlay);
    assert_eq!(r, obj(vec![("a", num(1)), ("n", Json::Null)]));
}

#[test]
fn last_layer_wins_in_chain() {
    let a = obj(vec![("k", num(1)), ("only-a", Json::Bool(false))]);
    let b = obj(vec![("k", text("two"))]);
    let c = obj(vec![("k", num(3))]);
    let r = merge_chain(vec![a, b, c]);
    assert_eq!(r, obj(vec![("k", num(3)), ("only-a", Json::Bool(false))]));
}

#[test]
fn nested_objects_merge_deeply() {
    let base = obj(vec![("o", obj(vec![("x", num(1)), ("y", num(2))]))]);
    let overlay = obj(vec![("o", obj(vec![("y", num(5)), ("z", num(6))]))]);
    let r = merged(base, overlay);
    assert_eq!(r, obj(vec![("o", obj(vec![("x", num(1)), ("y", num(5)), ("z", num(6))]))]));
}

#[test]
fn merge_in_place_updates_base() {
    let mut base = obj(vec![("a", num(1))]);
    merge(&mut base, obj(vec![("b", num(2))]));
    assert_eq!(base, obj(vec![("a", num(1)), ("b", num(2))]));
}

#[test]
fn well_formed_values_are_accepted() {
    assert!(ancestor_layer().is_wf());
    assert!(Json::Array(vec![obj(vec![("a", num(1))]), num(2)]).is_wf());
}

#[test]
fn duplicate_keys_are_refused() {
    assert!(!obj(vec![("a", num(1)), ("a", num(2))]).is_wf());
    let nested = obj(vec![("o", obj(vec![("k", num(1)), ("j", num(1)), ("k", num(2))]))]);
    assert!(!nested.is_wf());
    let in_array = Json::Array(vec![obj(vec![("k", num(1)), ("k", num(1))])]);
    assert!(!in_array.is_wf());
}
