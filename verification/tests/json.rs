use just_orm::json::{Json, Member, Number};
use just_orm::object::{find_member, find_place, put_member};

fn json(text: &str) -> Json {
    Json::parse(text).unwrap()
}

fn text(s: &str) -> Json {
    Json::String(s.to_string())
}

fn member(key: &str, value: Json) -> Member {
    Member { key: key.to_string(), value }
}

#[test]
fn parse_reads_every_kind_of_value() {
    assert_eq!(json("null"), Json::Null);
    assert_eq!(json("true"), Json::Bool(true));
    assert_eq!(json("false"), Json::Bool(false));
    assert_eq!(json("42"), Json::Number(Number::PosInt(42)));
    assert_eq!(json("0"), Json::Number(Number::PosInt(0)));
    assert_eq!(json("-7"), Json::Number(Number::NegInt(-7)));
    assert_eq!(json("1.5"), Json::Number(Number::Float("1.5".to_string())));
    assert_eq!(json("\"hi\""), text("hi"));
    assert_eq!(json("[1, \"a\"]"), Json::Array(vec![Json::Number(Number::PosInt(1)), text("a")]));
    assert_eq!(json("{\"a\": null}"), Json::Object(vec![member("a", Json::Null)]));
}

#[test]
fn parse_reads_the_limits_of_the_integers() {
    assert_eq!(json("18446744073709551615"), Json::Number(Number::PosInt(u64::MAX)));
    assert_eq!(json("-9223372036854775808"), Json::Number(Number::NegInt(i64::MIN)));
    assert_eq!(json("-1"), Json::Number(Number::NegInt(-1)));
}

#[test]
fn parse_holds_the_members_in_the_order_of_the_keys() {
    let doc = json(r#"{"name":"Alice","id":"1","a.b":0,"a":1}"#);
    assert_eq!(
        doc,
        Json::Object(vec![
            member("a", Json::Number(Number::PosInt(1))),
            member("a.b", Json::Number(Number::PosInt(0))),
            member("id", text("1")),
            member("name", text("Alice")),
        ])
    );
    assert!(doc.is_well_formed());
}

#[test]
fn parse_keeps_the_last_of_two_members_with_one_key() {
    assert_eq!(json(r#"{"a":1,"a":2}"#), json(r#"{"a":2}"#));
}

#[test]
fn parse_gives_none_for_what_is_not_json() {
    assert_eq!(Json::parse(""), None);
    assert_eq!(Json::parse("{"), None);
    assert_eq!(Json::parse("{\"a\":}"), None);
    assert_eq!(Json::parse("nul"), None);
    assert_eq!(Json::parse("1 2"), None);
    assert_eq!(Json::parse("{'a': 1}"), None);
}

#[test]
fn to_pretty_text_indents_by_two_spaces() {
    let doc = json(r#"{"name":"Alice","id":"1","tags":["a","b"],"n":{"x":1.5,"y":-2},"e":[],"o":{}}"#);
    let expected = "{\n  \"e\": [],\n  \"id\": \"1\",\n  \"n\": {\n    \"x\": 1.5,\n    \"y\": -2\n  },\n  \"name\": \"Alice\",\n  \"o\": {},\n  \"tags\": [\n    \"a\",\n    \"b\"\n  ]\n}";
    assert_eq!(doc.to_pretty_text(), expected);
}

#[test]
fn to_pretty_text_writes_every_kind_of_value() {
    assert_eq!(Json::Null.to_pretty_text(), "null");
    assert_eq!(Json::Bool(true).to_pretty_text(), "true");
    assert_eq!(Json::Number(Number::PosInt(7)).to_pretty_text(), "7");
    assert_eq!(Json::Number(Number::NegInt(-7)).to_pretty_text(), "-7");
    assert_eq!(Json::Number(Number::Float("2.5".to_string())).to_pretty_text(), "2.5");
    assert_eq!(text("a\"b").to_pretty_text(), "\"a\\\"b\"");
    assert_eq!(Json::Array(vec![]).to_pretty_text(), "[]");
    assert_eq!(Json::Object(vec![]).to_pretty_text(), "{}");
}

#[test]
fn to_pretty_text_agrees_with_the_outside_writer() {
    let source = r#"{"b":[1,{"c":null}],"a":"x","price":999.99}"#;
    let value: serde_json::Value = serde_json::from_str(source).unwrap();
    assert_eq!(json(source).to_pretty_text(), serde_json::to_string_pretty(&value).unwrap());
}

#[test]
fn survives_text_holds_of_parsed_documents() {
    assert!(json(r#"{"id":"1","price":999.99,"tags":[1,-2,null,true]}"#).survives_text());
    assert!(Json::Null.survives_text());
}

#[test]
fn survives_text_fails_where_the_keys_are_out_of_order() {
    let doc = Json::Object(vec![member("b", Json::Null), member("a", Json::Null)]);
    assert!(!doc.is_well_formed());
    assert!(!doc.survives_text());
}

#[test]
fn same_compares_values_exactly() {
    assert!(json(r#"{"a":[1,2,{"b":"c"}]}"#).same(&json(r#"{ "a" : [1, 2, {"b": "c"}] }"#)));
    assert!(!json(r#"{"a":[1,2]}"#).same(&json(r#"{"a":[2,1]}"#)));
    assert!(!json(r#"{"a":1}"#).same(&json(r#"{"a":1,"b":2}"#)));
    assert!(!json(r#"{"a":1}"#).same(&json(r#"{"b":1}"#)));
    assert!(!json("1").same(&json("1.0")));
    assert!(!json("1").same(&json("\"1\"")));
    assert!(!json("null").same(&json("false")));
    assert!(!json("[]").same(&json("{}")));
    assert!(json("1.0").same(&json("1.0")));
}

#[test]
fn numbers_are_the_same_only_within_one_kind() {
    assert!(Number::PosInt(1).same(&Number::PosInt(1)));
    assert!(!Number::PosInt(1).same(&Number::PosInt(2)));
    assert!(Number::NegInt(-1).same(&Number::NegInt(-1)));
    assert!(!Number::PosInt(1).same(&Number::NegInt(1)));
    assert!(!Number::PosInt(1).same(&Number::Float("1.0".to_string())));
    assert!(Number::Float("1.5".to_string()).same(&Number::Float("1.5".to_string())));
    assert!(!Number::Float("0.0".to_string()).same(&Number::Float("-0.0".to_string())));
}

#[test]
fn parse_spells_a_number_that_is_no_integer_as_the_writer_does() {
    assert_eq!(json("1.50"), Json::Number(Number::Float("1.5".to_string())));
    assert_eq!(json("1e2"), Json::Number(Number::Float("100.0".to_string())));
    assert_eq!(json("-0.0"), Json::Number(Number::Float("-0.0".to_string())));
    assert_eq!(json("0.0"), Json::Number(Number::Float("0.0".to_string())));
    let big: serde_json::Value = serde_json::from_str("18446744073709551616").unwrap();
    assert_eq!(json("18446744073709551616"), Json::Number(Number::Float(big.to_string())));
    assert_eq!(json("18446744073709551616").to_pretty_text(), big.to_string());
    assert_eq!(json("999.99").to_pretty_text(), "999.99");
}

#[test]
fn clone_gives_the_same_value() {
    let doc = json(r#"{"a":[1,-2,3.5,{"b":"c"}],"d":null,"e":true}"#);
    assert_eq!(doc.clone(), doc);
    let n = Number::Float("3.5".to_string());
    assert!(n.clone().same(&n));
    let m = member("k", json("[1]"));
    let copy = m.clone();
    assert_eq!(copy.key, "k");
    assert_eq!(copy.value, json("[1]"));
}

#[test]
fn a_number_is_well_formed_if_it_is_of_its_kind() {
    assert!(Number::PosInt(0).is_well_formed());
    assert!(Number::NegInt(-1).is_well_formed());
    assert!(!Number::NegInt(0).is_well_formed());
    assert!(Number::Float("1.5".to_string()).is_well_formed());
    assert!(Number::Float("-0.0".to_string()).is_well_formed());
    assert!(Number::Float("1e300".to_string()).is_well_formed());
    assert!(Number::Float("1.50".to_string()).is_well_formed());
    assert!(!Number::Float("5".to_string()).is_well_formed());
    assert!(!Number::Float("-5".to_string()).is_well_formed());
    assert!(!Number::Float("abc".to_string()).is_well_formed());
    assert!(!Number::Float("".to_string()).is_well_formed());
    assert!(!Number::Float("1.5 ".to_string()).is_well_formed());
    assert!(!Number::Float("1e999".to_string()).is_well_formed());
}

#[test]
fn a_float_that_is_no_number_is_written_as_null() {
    let bad = Json::Array(vec![Json::Number(Number::Float("abc".to_string()))]);
    assert!(!bad.is_well_formed());
    assert_eq!(bad.to_pretty_text(), "[\n  null\n]");
    assert!(!bad.survives_text());
}

#[test]
fn parsed_numbers_are_well_formed() {
    for text in ["0", "-1", "1.5", "-0.0", "1e300", "5e-324", "18446744073709551616", "0.1"] {
        assert!(json(text).is_well_formed(), "{}", text);
        assert!(json(text).survives_text(), "{}", text);
    }
}

#[test]
fn is_well_formed_wants_rising_keys_and_negative_negatives() {
    assert!(json(r#"{"a":{"b":1,"c":[{"d":1,"e":2}]}}"#).is_well_formed());
    assert!(Json::Number(Number::NegInt(-1)).is_well_formed());
    assert!(!Json::Number(Number::NegInt(0)).is_well_formed());
    assert!(!Json::Number(Number::NegInt(5)).is_well_formed());
    assert!(!Json::Object(vec![member("a", Json::Null), member("a", Json::Null)]).is_well_formed());
    assert!(!Json::Array(vec![Json::Object(vec![member("b", Json::Null), member("a", Json::Null)])])
        .is_well_formed());
    assert!(!Json::Object(vec![member("a", Json::Number(Number::NegInt(1)))]).is_well_formed());
}

#[test]
fn find_member_gives_the_first_index_with_the_key() {
    let members = vec![member("a", Json::Null), member("b", Json::Bool(true)), member("b", Json::Null)];
    assert_eq!(find_member(&members, "a"), Some(0));
    assert_eq!(find_member(&members, "b"), Some(1));
    assert_eq!(find_member(&members, "c"), None);
    assert_eq!(find_member(&Vec::new(), "a"), None);
}

#[test]
fn find_place_gives_the_first_index_with_a_later_key() {
    let members = vec![member("b", Json::Null), member("d", Json::Null)];
    assert_eq!(find_place(&members, "a"), 0);
    assert_eq!(find_place(&members, "b"), 1);
    assert_eq!(find_place(&members, "c"), 1);
    assert_eq!(find_place(&members, "e"), 2);
    assert_eq!(find_place(&Vec::new(), "a"), 0);
}

#[test]
fn put_member_keeps_the_keys_in_order() {
    let mut members: Vec<Member> = Vec::new();
    put_member(&mut members, "m".to_string(), json("1"));
    put_member(&mut members, "a".to_string(), json("2"));
    put_member(&mut members, "z".to_string(), json("3"));
    put_member(&mut members, "n".to_string(), json("4"));
    assert_eq!(Json::Object(members), json(r#"{"a":2,"m":1,"n":4,"z":3}"#));
}

#[test]
fn put_member_replaces_the_value_under_a_key_that_is_there() {
    let mut members = vec![member("a", json("1")), member("b", json("2"))];
    put_member(&mut members, "a".to_string(), json("9"));
    assert_eq!(members.len(), 2);
    assert_eq!(Json::Object(members), json(r#"{"a":9,"b":2}"#));
}
