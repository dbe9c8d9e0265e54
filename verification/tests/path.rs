use just_orm::json::Json;
use just_orm::path::{
    find_nested_property, get_nested_property, matches_condition, member_of, set_nested_property,
    update_nested_object,
};
use just_orm::text::split_key;

fn json(text: &str) -> Json {
    Json::parse(text).unwrap()
}

fn get(doc: &Json, key: &str) -> Json {
    get_nested_property(doc, &split_key(key)).clone()
}

fn set(doc: &str, key: &str, value: &str) -> Json {
    let mut doc = json(doc);
    set_nested_property(&mut doc, &split_key(key), json(value));
    doc
}

fn merge(target: &str, patch: &str) -> Json {
    let mut target = json(target);
    update_nested_object(&mut target, &json(patch));
    target
}

fn matches(doc: &str, condition: &str) -> bool {
    matches_condition(&json(doc), &json(condition))
}

#[test]
fn member_of_gives_the_value_or_null() {
    let doc = json(r#"{"a":1}"#);
    assert_eq!(*member_of(&doc, "a"), json("1"));
    assert_eq!(*member_of(&doc, "b"), Json::Null);
    assert_eq!(*member_of(&json("[1]"), "0"), Json::Null);
    assert_eq!(*member_of(&json("5"), "a"), Json::Null);
}

#[test]
fn get_nested_follows_the_path() {
    let doc = json(r#"{"a":{"b":{"c":[1,2]}},"x":"y"}"#);
    assert_eq!(get(&doc, "x"), json("\"y\""));
    assert_eq!(get(&doc, "a.b"), json(r#"{"c":[1,2]}"#));
    assert_eq!(get(&doc, "a.b.c"), json("[1,2]"));
}

#[test]
fn get_nested_gives_null_for_what_is_absent() {
    let doc = json(r#"{"a":{"b":1},"n":null,"list":[{"k":1}]}"#);
    assert_eq!(get(&doc, "missing"), Json::Null);
    assert_eq!(get(&doc, "a.missing"), Json::Null);
    assert_eq!(get(&doc, "a.b.c"), Json::Null);
    assert_eq!(get(&doc, "a.b.c.d.e.f"), Json::Null);
    assert_eq!(get(&doc, "n.x"), Json::Null);
    assert_eq!(get(&doc, "list.0"), Json::Null);
    assert_eq!(get(&doc, ""), Json::Null);
    assert_eq!(get(&json("7"), "a"), Json::Null);
}

#[test]
fn get_nested_with_no_key_gives_the_document() {
    let doc = json(r#"{"a":1}"#);
    assert_eq!(*get_nested_property(&doc, &Vec::new()), doc);
}

#[test]
fn get_nested_does_not_read_a_dotted_member() {
    let doc = json(r#"{"a.b":1}"#);
    assert_eq!(get(&doc, "a.b"), Json::Null);
}

#[test]
fn set_nested_assigns_a_single_key() {
    assert_eq!(set(r#"{"a":1}"#, "b", "2"), json(r#"{"a":1,"b":2}"#));
    assert_eq!(set(r#"{"a":1}"#, "a", "[1]"), json(r#"{"a":[1]}"#));
}

#[test]
fn set_nested_creates_the_objects_on_the_way() {
    assert_eq!(set("{}", "a.b.c", "1"), json(r#"{"a":{"b":{"c":1}}}"#));
    assert_eq!(set(r#"{"a":{"x":0}}"#, "a.b.c", "1"), json(r#"{"a":{"b":{"c":1},"x":0}}"#));
}

#[test]
fn set_nested_puts_an_object_where_none_is() {
    assert_eq!(set(r#"{"a":5}"#, "a.b", "1"), json(r#"{"a":{"b":1}}"#));
    assert_eq!(set(r#"{"a":[1,2]}"#, "a.b", "1"), json(r#"{"a":{"b":1}}"#));
    assert_eq!(set(r#"{"a":null}"#, "a.b", "1"), json(r#"{"a":{"b":1}}"#));
    assert_eq!(set("null", "a", "1"), json(r#"{"a":1}"#));
    assert_eq!(set("7", "a.b", "1"), json(r#"{"a":{"b":1}}"#));
}

#[test]
fn set_nested_with_no_key_replaces_the_document() {
    let mut doc = json(r#"{"a":1}"#);
    set_nested_property(&mut doc, &Vec::new(), json("[2]"));
    assert_eq!(doc, json("[2]"));
}

#[test]
fn set_nested_then_get_nested_gives_the_value() {
    let docs = ["{}", r#"{"a":{"b":1}}"#, r#"{"a":5}"#, "null", "[1]", r#"{"a":{"b":{"c":{"d":0}}}}"#];
    let keys = ["a", "a.b", "a.b.c", "x.y.z", "", "a..b", "."];
    let values = ["1", "null", r#"{"k":[1]}"#, "\"s\""];
    for d in docs {
        for k in keys {
            for v in values {
                let after = set(d, k, v);
                assert_eq!(get(&after, k), json(v), "{} {} {}", d, k, v);
                assert!(after.is_well_formed());
            }
        }
    }
}

#[test]
fn merge_overwrites_what_the_patch_names_and_keeps_the_rest() {
    assert_eq!(
        merge(r#"{"id":"1","name":"Alice","age":30}"#, r#"{"name":"Alice2"}"#),
        json(r#"{"id":"1","name":"Alice2","age":30}"#)
    );
    assert_eq!(merge(r#"{"a":1}"#, "{}"), json(r#"{"a":1}"#));
}

#[test]
fn merge_resolves_dotted_keys() {
    assert_eq!(
        merge(r#"{"address":{"city":"Rome","zip":"1"}}"#, r#"{"address.city":"Paris"}"#),
        json(r#"{"address":{"city":"Paris","zip":"1"}}"#)
    );
    assert_eq!(merge("{}", r#"{"a.b.c":1}"#), json(r#"{"a":{"b":{"c":1}}}"#));
}

#[test]
fn merge_replaces_objects_and_arrays_whole() {
    assert_eq!(
        merge(r#"{"address":{"city":"Rome","zip":"1"}}"#, r#"{"address":{"city":"Paris"}}"#),
        json(r#"{"address":{"city":"Paris"}}"#)
    );
    assert_eq!(merge(r#"{"tags":[1,2,3]}"#, r#"{"tags":[9]}"#), json(r#"{"tags":[9]}"#));
}

#[test]
fn merge_applies_the_members_in_the_order_of_the_keys() {
    assert_eq!(
        merge("{}", r#"{"a.b":2,"a":{"x":1}}"#),
        json(r#"{"a":{"b":2,"x":1}}"#)
    );
    assert_eq!(merge("{}", r#"{"a.b":2,"a":5}"#), json(r#"{"a":{"b":2}}"#));
}

#[test]
fn merge_keeps_the_members_that_the_patch_does_not_name() {
    let target = r#"{"keep":{"deep":[1,2]},"also":null,"a":{"b":1}}"#;
    for patch in [r#"{"a":1}"#, r#"{"a.b.c":2,"x":3}"#, r#"{"a":{"z":1},"a.y":2}"#, "{}"] {
        let merged = merge(target, patch);
        assert_eq!(*member_of(&merged, "keep"), json(r#"{"deep":[1,2]}"#), "{}", patch);
        assert_eq!(*member_of(&merged, "also"), Json::Null, "{}", patch);
    }
}

#[test]
fn merge_twice_is_merge_once() {
    let targets = ["{}", r#"{"a":{"b":1,"c":2},"d":[1]}"#, r#"{"a":5}"#, "3"];
    let patches = [
        r#"{"a":1}"#,
        r#"{"a.b":2,"a":{"x":1}}"#,
        r#"{"a.b.c":1,"a.b":{"d":2},"a":7}"#,
        r#"{"a.b":1,"a.c":2,"d.0":3}"#,
        r#"{"x":{"y":1},"x.y.z":2,"x.w":3}"#,
    ];
    for t in targets {
        for p in patches {
            let once = merge(t, p);
            let mut twice = once.clone();
            update_nested_object(&mut twice, &json(p));
            assert_eq!(twice, once, "{} {}", t, p);
        }
    }
}

#[test]
fn matches_the_empty_condition_for_every_object() {
    assert!(matches("{}", "{}"));
    assert!(matches(r#"{"a":1,"b":{"c":2}}"#, "{}"));
    assert!(!matches("5", "{}"));
    assert!(!matches("[]", "{}"));
    assert!(!matches("null", "{}"));
}

#[test]
fn matches_a_condition_that_is_no_object_by_equality() {
    assert!(matches("5", "5"));
    assert!(!matches("5", "6"));
    assert!(matches("\"a\"", "\"a\""));
    assert!(matches("null", "null"));
    assert!(!matches("{}", "null"));
    assert!(matches("[1,2]", "[1,2]"));
    assert!(!matches("[1,2]", "[1]"));
}

#[test]
fn matches_a_subset_of_the_fields() {
    let doc = r#"{"id":"1","name":"Alice","age":30}"#;
    assert!(matches(doc, r#"{"name":"Alice"}"#));
    assert!(matches(doc, r#"{"name":"Alice","age":30}"#));
    assert!(!matches(doc, r#"{"name":"Bob"}"#));
    assert!(!matches(doc, r#"{"name":"Alice","age":31}"#));
}

#[test]
fn matches_fails_for_a_key_that_the_document_lacks() {
    assert!(!matches(r#"{"a":1}"#, r#"{"b":1}"#));
    assert!(!matches(r#"{"a":1}"#, r#"{"a.b":1}"#));
    assert!(!matches(r#"{"a":1}"#, r#"{"b":{}}"#));
    assert!(!matches(r#"{"a":1}"#, r#"{"b":false}"#));
}

#[test]
fn matches_null_only_under_a_key_that_the_document_has() {
    assert!(!matches(r#"{"a":1}"#, r#"{"b":null}"#));
    assert!(!matches(r#"{"a":{"c":1}}"#, r#"{"a.b":null}"#));
    assert!(!matches(r#"{"a":5}"#, r#"{"a.b":null}"#));
    assert!(!matches(r#"{"a":1}"#, r#"{"a":1,"b":null}"#));
    assert!(matches(r#"{"a":null}"#, r#"{"a":null}"#));
    assert!(matches(r#"{"a":{"b":null}}"#, r#"{"a.b":null}"#));
    assert!(matches(r#"{"a":{"b":null}}"#, r#"{"a":{"b":null}}"#));
    assert!(!matches(r#"{"a":{}}"#, r#"{"a":{"b":null}}"#));
}

#[test]
fn find_nested_tells_what_is_absent_from_null() {
    let doc = json(r#"{"a":{"b":null,"c":[1]},"n":null}"#);
    assert_eq!(find_nested_property(&doc, &split_key("a.b")), Some(&Json::Null));
    assert_eq!(find_nested_property(&doc, &split_key("n")), Some(&Json::Null));
    assert_eq!(find_nested_property(&doc, &split_key("a.c")), Some(&json("[1]")));
    assert_eq!(find_nested_property(&doc, &Vec::new()), Some(&doc));
    assert_eq!(find_nested_property(&doc, &split_key("a.x")), None);
    assert_eq!(find_nested_property(&doc, &split_key("n.x")), None);
    assert_eq!(find_nested_property(&doc, &split_key("a.c.0")), None);
    assert_eq!(find_nested_property(&doc, &split_key("missing")), None);
    assert_eq!(find_nested_property(&json("7"), &split_key("a")), None);
}

#[test]
fn matches_through_dotted_keys_and_nested_objects() {
    let doc = r#"{"address":{"city":"Rome","geo":{"lat":1,"lon":2}},"tags":["a"]}"#;
    assert!(matches(doc, r#"{"address.city":"Rome"}"#));
    assert!(!matches(doc, r#"{"address.city":"Paris"}"#));
    assert!(matches(doc, r#"{"address":{"city":"Rome"}}"#));
    assert!(matches(doc, r#"{"address":{"geo":{"lat":1}}}"#));
    assert!(matches(doc, r#"{"address":{"geo.lon":2}}"#));
    assert!(!matches(doc, r#"{"address":{"geo":{"lat":2}}}"#));
    assert!(matches(doc, r#"{"address.geo":{"lon":2}}"#));
    assert!(matches(doc, r#"{"address":{}}"#));
    assert!(matches(doc, r#"{"tags":["a"]}"#));
    assert!(!matches(doc, r#"{"tags":["a","b"]}"#));
    assert!(!matches(doc, r#"{"tags":{}}"#));
}

#[test]
fn matches_still_with_a_member_that_the_condition_does_not_mention() {
    let condition = json(r#"{"name":"Alice","address.city":"Rome"}"#);
    let mut doc = json(r#"{"name":"Alice","address":{"city":"Rome"}}"#);
    assert!(matches_condition(&doc, &condition));
    set_nested_property(&mut doc, &split_key("extra"), json("[1,2,3]"));
    assert!(matches_condition(&doc, &condition));
    let mut other = json(r#"{"name":"Bob"}"#);
    assert!(!matches_condition(&other, &condition));
    set_nested_property(&mut other, &split_key("extra"), json("1"));
    assert!(!matches_condition(&other, &condition));
}
