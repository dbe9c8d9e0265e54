use just_orm::array::{
    clone_items, pull_elements, pull_from_array, push_to_array, update_elements, update_in_array,
};
use just_orm::json::Json;
use just_orm::text::split_key;

fn json(text: &str) -> Json {
    Json::parse(text).unwrap()
}

fn items(text: &str) -> Vec<Json> {
    match json(text) {
        Json::Array(items) => items,
        _ => panic!("no array"),
    }
}

#[test]
fn clone_items_copies_every_element() {
    assert_eq!(clone_items(&items(r#"[1,"a",{"b":[2]}]"#)), items(r#"[1,"a",{"b":[2]}]"#));
    assert_eq!(clone_items(&Vec::new()), Vec::<Json>::new());
}

#[test]
fn pull_elements_keeps_what_does_not_match_in_order() {
    let all = items(r#"[{"k":1,"n":"a"},{"k":2,"n":"b"},{"k":1,"n":"c"},{"k":3,"n":"d"}]"#);
    assert_eq!(pull_elements(&all, &json(r#"{"k":1}"#)), items(r#"[{"k":2,"n":"b"},{"k":3,"n":"d"}]"#));
    assert_eq!(pull_elements(&all, &json(r#"{"k":9}"#)), all);
    assert_eq!(pull_elements(&all, &json("{}")), Vec::<Json>::new());
    assert_eq!(pull_elements(&items("[1,2,1,3,1]"), &json("1")), items("[2,3]"));
}

#[test]
fn update_elements_patches_what_matches_and_keeps_the_length() {
    let all = items(r#"[{"k":1,"n":"a"},{"k":2,"n":"b"},{"k":1,"n":"c"}]"#);
    assert_eq!(
        update_elements(&all, &json(r#"{"k":1}"#), &json(r#"{"n":"z","m.x":true}"#)),
        items(r#"[{"k":1,"n":"z","m":{"x":true}},{"k":2,"n":"b"},{"k":1,"n":"z","m":{"x":true}}]"#)
    );
    assert_eq!(update_elements(&all, &json(r#"{"k":9}"#), &json(r#"{"n":"z"}"#)), all);
}

#[test]
fn update_elements_turns_a_matching_scalar_into_an_object() {
    assert_eq!(
        update_elements(&items("[5,6]"), &json("5"), &json(r#"{"a":1}"#)),
        items(r#"[{"a":1},6]"#)
    );
}

#[test]
fn push_to_array_appends_one_element() {
    let doc = json(r#"{"id":"1","tags":["a"],"n":{"list":[]}}"#);
    assert_eq!(
        push_to_array(doc.clone(), &split_key("tags"), &json("\"b\"")),
        Some(json(r#"{"id":"1","tags":["a","b"],"n":{"list":[]}}"#))
    );
    assert_eq!(
        push_to_array(doc, &split_key("n.list"), &json(r#"{"x":1}"#)),
        Some(json(r#"{"id":"1","tags":["a"],"n":{"list":[{"x":1}]}}"#))
    );
}

#[test]
fn push_to_array_gives_none_where_no_array_is() {
    let doc = json(r#"{"id":"1","tags":"a","n":{}}"#);
    assert_eq!(push_to_array(doc.clone(), &split_key("tags"), &json("1")), None);
    assert_eq!(push_to_array(doc.clone(), &split_key("missing"), &json("1")), None);
    assert_eq!(push_to_array(doc.clone(), &split_key("n"), &json("1")), None);
    assert_eq!(push_to_array(doc, &split_key("n.list"), &json("1")), None);
}

#[test]
fn pull_from_array_removes_the_matching_elements() {
    let doc = json(r#"{"id":"1","items":[{"sku":"a","q":1},{"sku":"b","q":2},{"sku":"a","q":3}]}"#);
    assert_eq!(
        pull_from_array(doc.clone(), &split_key("items"), &json(r#"{"sku":"a"}"#)),
        Some(json(r#"{"id":"1","items":[{"sku":"b","q":2}]}"#))
    );
    assert_eq!(pull_from_array(doc, &split_key("id"), &json("{}")), None);
}

#[test]
fn update_in_array_patches_the_matching_elements() {
    let doc = json(r#"{"id":"1","items":[{"sku":"a","q":1},{"sku":"b","q":2}]}"#);
    assert_eq!(
        update_in_array(doc.clone(), &split_key("items"), &json(r#"{"sku":"b"}"#), &json(r#"{"q":5}"#)),
        Some(json(r#"{"id":"1","items":[{"sku":"a","q":1},{"sku":"b","q":5}]}"#))
    );
    assert_eq!(update_in_array(doc, &split_key("nothing"), &json("{}"), &json("{}")), None);
}
