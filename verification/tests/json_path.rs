use qu_interp::json_path::{json_delete, json_get, json_set, JsonTree};

#[test]
fn get_walks_nested_objects_and_arrays() {
    let doc = r#"{"user":{"name":"Ada","tags":["x","y"]}}"#;
    assert_eq!(json_get(doc, "user.name").unwrap(), JsonTree::Str("Ada".to_string()));
    assert_eq!(json_get(doc, "user.tags.1").unwrap(), JsonTree::Str("y".to_string()));
}

#[test]
fn get_on_a_missing_key_names_where_it_stopped() {
    let err = json_get(r#"{"a":{}}"#, "a.b.c").unwrap_err();
    assert!(err.contains("no key `b`"), "got: {err}");
}

#[test]
fn set_creates_missing_object_segments() {
    let out = json_set("{}", "a.b.c", JsonTree::Number("1.0".to_string())).unwrap();
    assert_eq!(out, r#"{"a":{"b":{"c":1.0}}}"#);
}

#[test]
fn set_refuses_to_grow_an_array() {
    let err = json_set(r#"{"items":[]}"#, "items.0", JsonTree::Number("1.0".to_string())).unwrap_err();
    assert!(err.contains("does not grow arrays"), "got: {err}");
}

#[test]
fn delete_removes_a_key() {
    assert_eq!(json_delete(r#"{"a":1,"b":2}"#, "a").unwrap(), r#"{"b":2}"#);
}

#[test]
fn delete_of_an_absent_path_is_a_no_op() {
    assert_eq!(json_delete(r#"{"a":1}"#, "x.y").unwrap(), r#"{"a":1}"#);
}

#[test]
fn a_path_reads_back_what_was_set() {
    let doc = json_set(r#"{"a":[1,{"b":null}]}"#, "a.1.b.c", JsonTree::Bool(true)).unwrap();
    assert_eq!(json_get(&doc, "a.1.b.c").unwrap(), JsonTree::Bool(true));
    assert_eq!(json_get(&doc, "a.0").unwrap(), JsonTree::Number("1".to_string()));
}

#[test]
fn paths_skip_empty_segments_and_read_plus_signed_indices() {
    let doc = r#"{"a":["x","y"]}"#;
    assert_eq!(json_get(doc, ".a..+1.").unwrap(), JsonTree::Str("y".to_string()));
    assert_eq!(json_get(doc, "").unwrap(), json_get(doc, "...").unwrap());
}

#[test]
fn wrong_kinds_and_bad_text_are_errors() {
    assert!(json_get("{", "a").is_err());
    assert!(json_get(r#"{"a":1}"#, "a.b").is_err());
    assert!(json_get(r#"{"a":[1]}"#, "a.3").is_err());
    assert!(json_set(r#"{"a":1}"#, "", JsonTree::Null).is_err());
    assert!(json_set(r#"{"a":1}"#, "a.b", JsonTree::Null).is_err());
    assert!(json_delete(r#"{"a":1}"#, "a.b").is_err());
    assert_eq!(json_delete(r#"{"a":[1,2,3]}"#, "a.1").unwrap(), r#"{"a":[1,3]}"#);
    assert_eq!(json_delete(r#"{"a":[1]}"#, "a.5").unwrap(), r#"{"a":[1]}"#);
}
