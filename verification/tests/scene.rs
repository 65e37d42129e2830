use dorobot_nexus::scene::{
    bool_field, name_order, number_token, quote, recording_name, slug, string_field,
};

#[test]
fn slugs_cannot_escape_the_library() {
    assert_eq!(slug("rough / 2 m·s"), "rough-2-m-s");
    assert_eq!(slug("../../etc/passwd"), "etc-passwd");
    assert_eq!(slug(""), "scene");
}

#[test]
fn a_slug_is_lower_case_and_collapses_runs_of_dashes() {
    assert_eq!(slug("Rough  PUSH--v2"), "rough-push-v2");
    assert_eq!(slug("---"), "scene");
    assert_eq!(slug("-a-"), "a");
    assert_eq!(slug("é"), "scene");
}

#[test]
fn quoting_escapes_only_backslash_and_quote() {
    assert_eq!(quote(r#"a"b\c"#), r#""a\"b\\c""#);
    assert_eq!(quote(""), r#""""#);
    assert_eq!(quote("line\nbreak"), "\"line\nbreak\"");
}

#[test]
fn a_quoted_string_reads_back_through_its_field() {
    for v in ["rough push", r#"a"b\c"#, "", "C:\\runs\\x"] {
        let text = format!("{{\n  \"name\": {},\n  \"seed\": 7\n}}\n", quote(v));
        assert_eq!(string_field(&text, "name").as_deref(), Some(v));
    }
}

#[test]
fn a_missing_or_unterminated_string_field_is_none() {
    assert_eq!(string_field(r#"{ "name": "old" }"#, "terrain"), None);
    assert_eq!(string_field(r#"{ "name": 3 }"#, "name"), None);
    assert_eq!(string_field(r#"{ "name": "open"#, "name"), None);
    assert_eq!(string_field(r#"{ "name" "x" }"#, "name"), None);
}

#[test]
fn string_fields_skip_white_space_after_the_colon() {
    let t = "{ \"name\":\n\t  \"old\", \"terrain\": \"wave\" }";
    assert_eq!(string_field(t, "name").as_deref(), Some("old"));
    assert_eq!(string_field(t, "terrain").as_deref(), Some("wave"));
}

#[test]
fn booleans_read_true_false_or_nothing() {
    let t = r#"{ "spawn_dr": true, "other": false, "bad": 1 }"#;
    assert_eq!(bool_field(t, "spawn_dr"), Some(true));
    assert_eq!(bool_field(t, "other"), Some(false));
    assert_eq!(bool_field(t, "bad"), None);
    assert_eq!(bool_field(t, "absent"), None);
}

#[test]
fn a_number_token_stops_at_the_first_non_number_character() {
    let t = r#"{ "seconds": 8, "vx": -0.45e-1,"seed": 12345 }"#;
    assert_eq!(number_token(t, "seconds").as_deref(), Some("8"));
    assert_eq!(number_token(t, "vx").as_deref(), Some("-0.45e-1"));
    assert_eq!(number_token(t, "seed").as_deref(), Some("12345"));
    assert_eq!(number_token(t, "yaw"), None);
    assert_eq!(number_token(r#"{"x": "s"}"#, "x").as_deref(), Some(""));
}

#[test]
fn the_first_occurrence_of_a_key_decides() {
    let t = r#"{ "name": "a", "name": "b" }"#;
    assert_eq!(string_field(t, "name").as_deref(), Some("a"));
}

#[test]
fn the_library_lists_by_name_ties_in_order_found() {
    let names: Vec<String> = ["rough", "baseline", "rough", "Zed", "alpha"].iter().map(|s| s.to_string()).collect();
    assert_eq!(name_order(&names), vec![3, 4, 1, 0, 2]);
    assert_eq!(name_order(&[]), Vec::<usize>::new());
}

#[test]
fn a_recording_is_named_by_scene_and_take() {
    assert_eq!(recording_name("rough push", 3), "rough-push-003");
    assert_eq!(recording_name("", 1234), "scene-1234");
}
