use buffdb::json_store::{JsonPath, JsonStoreError};
use buffdb::json_value::{JsonMap, JsonNumber, JsonValue};

fn text(s: &str) -> JsonValue {
    JsonValue::String(s.to_string())
}

fn num(n: u64) -> JsonValue {
    JsonValue::Number(JsonNumber::PosInt(n))
}

fn object(members: Vec<(&str, JsonValue)>) -> JsonValue {
    let mut map = JsonMap::new();
    for (k, v) in members {
        map.insert(k.to_string(), v);
    }
    JsonValue::Object(map)
}

fn user_document() -> JsonValue {
    object(vec![(
        "user",
        object(vec![
            ("name", text("Alice")),
            ("age", num(30)),
            (
                "emails",
                JsonValue::Array(vec![text("alice@example.com"), text("alice@work.com")]),
            ),
            (
                "address",
                object(vec![("city", text("New York")), ("zip", text("10001"))]),
            ),
        ]),
    )])
}

fn member<'a>(v: &'a JsonValue, path: &[&str]) -> &'a JsonValue {
    let mut cur = v;
    for k in path {
        cur = cur.get(k).expect("member exists");
    }
    cur
}

#[test]
fn test_json_path_query() {
    let json = user_document();

    // Simple field access
    let results = JsonPath::query(&json, "$.user.name").unwrap();
    assert_eq!(results.len(), 1);
    assert_eq!(results[0], &JsonValue::String("Alice".to_string()));

    // Nested field access
    let results = JsonPath::query(&json, "$.user.address.city").unwrap();
    assert_eq!(results.len(), 1);
    assert_eq!(results[0], &JsonValue::String("New York".to_string()));

    // Array access
    let results = JsonPath::query(&json, "$.user.emails[0]").unwrap();
    assert_eq!(results.len(), 1);
    assert_eq!(results[0], &JsonValue::String("alice@example.com".to_string()));

    // Array wildcard
    let results = JsonPath::query(&json, "$.user.emails[*]").unwrap();
    assert_eq!(results.len(), 2);
}

#[test]
fn test_json_path_set() {
    let mut json = object(vec![("user", object(vec![("name", text("Alice"))]))]);

    // Set simple field
    JsonPath::set(&mut json, "$.user.age", JsonValue::Number(JsonNumber::PosInt(30))).unwrap();
    assert_eq!(member(&json, &["user", "age"]), &num(30));

    // Set nested field (creates path)
    JsonPath::set(&mut json, "$.user.address.city", JsonValue::String("NYC".to_string())).unwrap();
    assert_eq!(member(&json, &["user", "address", "city"]), &text("NYC"));

    // Set array element
    JsonPath::set(&mut json, "$.user.tags[0]", JsonValue::String("admin".to_string())).unwrap();
    assert_eq!(member(&json, &["user", "tags"]).get_index(0), Some(&text("admin")));
}

#[test]
fn query_root_selects_the_document() {
    let json = user_document();
    let results = JsonPath::query(&json, "$").unwrap();
    assert_eq!(results.len(), 1);
    assert_eq!(results[0], &json);
}

#[test]
fn query_without_root_is_rejected() {
    let json = user_document();
    match JsonPath::query(&json, "user.name") {
        Err(JsonStoreError::InvalidJsonPath(msg)) => assert_eq!(msg, "Path must start with $"),
        other => panic!("unexpected {:?}", other),
    }
    match JsonPath::query(&json, "") {
        Err(JsonStoreError::InvalidJsonPath(msg)) => assert_eq!(msg, "Path must start with $"),
        other => panic!("unexpected {:?}", other),
    }
}

#[test]
fn set_without_root_is_rejected_and_changes_nothing() {
    let mut json = user_document();
    match JsonPath::set(&mut json, "$$.user", num(1)) {
        Err(JsonStoreError::InvalidJsonPath(msg)) => assert_eq!(msg, "Path must start with $"),
        other => panic!("unexpected {:?}", other),
    }
    assert_eq!(json, user_document());
}

#[test]
fn wildcard_on_object_gives_values_in_key_order() {
    let json = object(vec![(
        "o",
        object(vec![("b", num(2)), ("c", num(3)), ("a", num(1))]),
    )]);
    let results = JsonPath::query(&json, "$.o.*").unwrap();
    assert_eq!(results, vec![&num(1), &num(2), &num(3)]);
}

#[test]
fn wildcard_on_array_and_scalar() {
    let json = object(vec![
        ("list", JsonValue::Array(vec![num(7), num(8)])),
        ("n", num(5)),
    ]);
    assert_eq!(JsonPath::query(&json, "$.list.*").unwrap(), vec![&num(7), &num(8)]);
    assert_eq!(JsonPath::query(&json, "$.n.*").unwrap().len(), 0);
}

#[test]
fn missing_members_and_positions_select_nothing() {
    let json = user_document();
    assert_eq!(JsonPath::query(&json, "$.user.phone").unwrap().len(), 0);
    assert_eq!(JsonPath::query(&json, "$.user.emails[5]").unwrap().len(), 0);
    assert_eq!(JsonPath::query(&json, "$.user.name[0]").unwrap().len(), 0);
    assert_eq!(JsonPath::query(&json, "$.user.emails[x]").unwrap().len(), 0);
    assert_eq!(JsonPath::query(&json, "$.user.emails[-1]").unwrap().len(), 0);
}

#[test]
fn index_text_allows_plus_sign_and_extra_closing_brackets() {
    let json = user_document();
    let results = JsonPath::query(&json, "$.user.emails[+1]").unwrap();
    assert_eq!(results, vec![&text("alice@work.com")]);
    let results = JsonPath::query(&json, "$.user.emails[1]]]").unwrap();
    assert_eq!(results, vec![&text("alice@work.com")]);
    let results = JsonPath::query(&json, "$.user.emails[*]]").unwrap();
    assert_eq!(results.len(), 2);
}

#[test]
fn unbracketed_part_on_empty_selection_is_harmless() {
    let json = user_document();
    assert_eq!(JsonPath::query(&json, "$.nothing.a]").unwrap().len(), 0);
}

#[test]
fn query_results_fan_out_in_order() {
    let json = object(vec![(
        "people",
        JsonValue::Array(vec![
            object(vec![("name", text("Ann"))]),
            object(vec![("age", num(4))]),
            object(vec![("name", text("Bob"))]),
        ]),
    )]);
    let results = JsonPath::query(&json, "$.people[*].name").unwrap();
    assert_eq!(results, vec![&text("Ann"), &text("Bob")]);
}

#[test]
fn set_root_replaces_the_document() {
    let mut json = user_document();
    JsonPath::set(&mut json, "$", num(9)).unwrap();
    assert_eq!(json, num(9));
}

#[test]
fn set_pads_arrays_with_null() {
    let mut json = object(vec![]);
    JsonPath::set(&mut json, "$.list[2]", num(5)).unwrap();
    let list = json.get("list").unwrap();
    assert_eq!(list, &JsonValue::Array(vec![JsonValue::Null, JsonValue::Null, num(5)]));
}

#[test]
fn set_replaces_non_objects_and_non_arrays_on_the_way() {
    let mut json = object(vec![("a", num(1)), ("b", text("x"))]);
    JsonPath::set(&mut json, "$.a.c", num(2)).unwrap();
    assert_eq!(member(&json, &["a", "c"]), &num(2));
    JsonPath::set(&mut json, "$.b[1].d", num(3)).unwrap();
    let b = json.get("b").unwrap();
    assert_eq!(b.get_index(0), Some(&JsonValue::Null));
    assert_eq!(member(b.get_index(1).unwrap(), &["d"]), &num(3));
    // a scalar document becomes an object
    let mut scalar = num(4);
    JsonPath::set(&mut scalar, "$.k", num(5)).unwrap();
    assert_eq!(scalar, object(vec![("k", num(5))]));
}

#[test]
fn set_keeps_other_members() {
    let mut json = user_document();
    JsonPath::set(&mut json, "$.user.name", text("Bea")).unwrap();
    assert_eq!(member(&json, &["user", "name"]), &text("Bea"));
    assert_eq!(member(&json, &["user", "age"]), &num(30));
    assert_eq!(member(&json, &["user", "address", "zip"]), &text("10001"));
}

#[test]
fn set_star_names_a_member() {
    let mut json = object(vec![("a", num(1))]);
    JsonPath::set(&mut json, "$.*", num(2)).unwrap();
    assert_eq!(json.get("*"), Some(&num(2)));
    assert_eq!(json.get("a"), Some(&num(1)));
}

#[test]
fn query_reads_back_what_set_wrote() {
    let mut json = user_document();
    for path in ["$.user.address.city", "$.x.y[3].z", "$.user.emails[1]", "$.new"] {
        JsonPath::set(&mut json, path, text("written")).unwrap();
        assert_eq!(JsonPath::query(&json, path).unwrap(), vec![&text("written")]);
    }
}

#[test]
fn callers_can_check_preconditions() {
    let json = user_document();
    assert!(JsonPath::query_completes(&json, "$.user.name"));
    assert!(JsonPath::query_completes(&json, "no.root]"));
    assert!(JsonPath::query_completes(&json, "$.missing.a]"));
    assert!(!JsonPath::query_completes(&json, "$.user]"));
    assert!(JsonPath::path_updatable("$.a.b[3]"));
    assert!(JsonPath::path_updatable("x.y[z]"));
    assert!(!JsonPath::path_updatable("$.a[z]"));
    assert!(!JsonPath::path_updatable("$.a[*]"));
    assert!(!JsonPath::path_updatable("$.a]"));
    assert!(!JsonPath::path_updatable(&format!("$.a[{}]", usize::MAX)));
    assert!(!JsonPath::path_updatable("$.a[99999999999999999999999]"));
}

#[test]
fn query_of_longer_path_runs_the_last_part_on_each_result() {
    let json = object(vec![(
        "items",
        JsonValue::Array(vec![
            object(vec![("id", num(1)), ("tags", JsonValue::Array(vec![text("a"), text("b")]))]),
            object(vec![("id", num(2))]),
            object(vec![("id", num(3)), ("tags", JsonValue::Array(vec![text("c")]))]),
        ]),
    )]);
    for last in ["id", "tags[*]", "tags[0]", "*"] {
        let whole = JsonPath::query(&json, &format!("$.items[*].{}", last)).unwrap();
        let mut composed: Vec<&JsonValue> = Vec::new();
        for v in JsonPath::query(&json, "$.items[*]").unwrap() {
            composed.extend(JsonPath::query(v, &format!("$.{}", last)).unwrap());
        }
        assert_eq!(whole, composed);
    }
    let ids = JsonPath::query(&json, "$.items[*].id").unwrap();
    assert_eq!(ids, vec![&num(1), &num(2), &num(3)]);
}
