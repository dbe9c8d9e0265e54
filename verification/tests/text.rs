use just_orm::text::{
    chars_of, file_name_of, has_record_extension, id_of_file_name, key_less, split_key,
};

fn strings(items: &[&str]) -> Vec<String> {
    items.iter().map(|s| s.to_string()).collect()
}

#[test]
fn chars_of_gives_the_characters_in_order() {
    assert_eq!(chars_of("a.é"), vec!['a', '.', 'é']);
    assert_eq!(chars_of(""), Vec::<char>::new());
}

#[test]
fn key_less_orders_by_code_point() {
    assert!(key_less("a", "b"));
    assert!(!key_less("b", "a"));
    assert!(!key_less("a", "a"));
    assert!(key_less("", "a"));
    assert!(!key_less("a", ""));
    assert!(!key_less("", ""));
    assert!(key_less("a", "a.b"));
    assert!(key_less("a!", "a.b"));
    assert!(key_less("Z", "a"));
    assert!(key_less("z", "é"));
}

#[test]
fn key_less_agrees_with_the_order_of_strings() {
    let keys = ["", "a", "a.b", "ab", "b", "é", "日本", "\u{10000}", "~"];
    for x in keys {
        for y in keys {
            assert_eq!(key_less(x, y), x < y, "{:?} {:?}", x, y);
        }
    }
}

#[test]
fn split_key_splits_at_every_dot() {
    assert_eq!(split_key("name"), strings(&["name"]));
    assert_eq!(split_key("address.city"), strings(&["address", "city"]));
    assert_eq!(split_key("a.b.c"), strings(&["a", "b", "c"]));
}

#[test]
fn split_key_keeps_empty_segments() {
    assert_eq!(split_key(""), strings(&[""]));
    assert_eq!(split_key("."), strings(&["", ""]));
    assert_eq!(split_key("a..b"), strings(&["a", "", "b"]));
    assert_eq!(split_key("a."), strings(&["a", ""]));
    assert_eq!(split_key(".a"), strings(&["", "a"]));
}

#[test]
fn split_key_agrees_with_split_of_strings() {
    for key in ["", "a", "a.b", "..", "é.日本.x", "a.b.c.d.e"] {
        let expected: Vec<String> = key.split('.').map(|s| s.to_string()).collect();
        assert_eq!(split_key(key), expected);
    }
}

#[test]
fn file_name_of_appends_the_extension() {
    assert_eq!(file_name_of("1"), "1.json");
    assert_eq!(file_name_of(""), ".json");
    assert_eq!(file_name_of("a.b"), "a.b.json");
}

#[test]
fn has_record_extension_wants_a_stem_and_the_extension() {
    assert!(has_record_extension("1.json"));
    assert!(has_record_extension("a.b.json"));
    assert!(has_record_extension("..json"));
    assert!(!has_record_extension(".json"));
    assert!(!has_record_extension("json"));
    assert!(!has_record_extension("1.txt"));
    assert!(!has_record_extension("1.json.bak"));
    assert!(!has_record_extension("1.JSON"));
    assert!(!has_record_extension(""));
}

#[test]
fn id_of_file_name_drops_the_extension() {
    assert_eq!(id_of_file_name("1.json"), "1");
    assert_eq!(id_of_file_name("a.b.json"), "a.b");
    assert_eq!(id_of_file_name("..json"), ".");
    assert_eq!(id_of_file_name("é日.json"), "é日");
    for id in ["1", "a.b", "x y", "é"] {
        assert_eq!(id_of_file_name(&file_name_of(id)), id);
    }
}
