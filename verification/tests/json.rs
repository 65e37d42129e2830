use dorobot_nexus::json::{escape_into, is_number, Obj};

#[test]
fn fields_keep_insertion_order() {
    let s = Obj::new().integer("b", 2).integer("a", 1).done();
    assert_eq!(s, r#"{"b":2,"a":1}"#);
}

#[test]
fn strings_escape_quotes_backslashes_and_controls() {
    let s = Obj::new().str("k", "a\"b\\c\nd\u{1}e").done();
    assert_eq!(s, r#"{"k":"a\"b\\c\nd\u0001e"}"#);
}

#[test]
fn a_path_with_a_backslash_survives_a_round_trip_shape() {
    let s = Obj::new().str("path", r"C:\runs\ckpt.bin").done();
    assert_eq!(s, r#"{"path":"C:\\runs\\ckpt.bin"}"#);
}

#[test]
fn non_finite_numbers_become_null_not_nan() {
    let nan = format!("{:.3}", f64::NAN);
    let inf = format!("{:.3}", f64::INFINITY);
    let s = Obj::new().num_text("nan", Some(&nan)).num_text("inf", Some(&inf)).done();
    assert_eq!(s, r#"{"nan":null,"inf":null}"#);
}

#[test]
fn floats_are_fixed_precision_so_runs_diff_cleanly() {
    let x = format!("{:.3}", 0.25f64);
    let y = format!("{:.1}", 1.0f32 as f64);
    let s = Obj::new().num_text("x", Some(&x)).num_text("y", Some(&y)).done();
    assert_eq!(s, r#"{"x":0.250,"y":1.0}"#);
}

#[test]
fn arrays_carry_the_same_number_rules() {
    let v = vec![Some(format!("{:.2}", 1.0f64)), Some(format!("{:.2}", f32::NAN as f64))];
    let s = Obj::new().nums_text("v", &v).done();
    assert_eq!(s, r#"{"v":[1.00,null]}"#);
}

#[test]
fn an_uncomputed_grid_cell_is_null_not_zero() {
    let g = vec![
        vec![Some("0.00".to_string()), None],
        vec![Some("1.00".to_string()), Some("0.50".to_string())],
    ];
    assert_eq!(Obj::new().grid_text("cells", &g).done(), r#"{"cells":[[0.00,null],[1.00,0.50]]}"#);
}

#[test]
fn objects_nest() {
    let inner = Obj::new().integer("n", 1);
    assert_eq!(Obj::new().obj("a", inner).done(), r#"{"a":{"n":1}}"#);
}

#[test]
fn an_empty_object_is_still_valid() {
    assert_eq!(Obj::new().done(), "{}");
}

#[test]
fn an_absent_option_is_null_rather_than_a_missing_key() {
    let s = Obj::new().opt_usize("a", Some(3)).opt_usize("b", None).done();
    assert_eq!(s, r#"{"a":3,"b":null}"#);
}

#[test]
fn every_control_character_is_escaped_so_a_record_is_one_line() {
    let mut out = String::new();
    escape_into("\t\r\u{8}\u{c}\u{1f}x", &mut out);
    assert_eq!(out, r"\t\r\b\f\u001fx");
    assert!(!Obj::new().str("k\n", "v\r\n").done().contains('\n'));
}

#[test]
fn only_json_numbers_pass_as_numbers() {
    for ok in ["0", "-0.5", "12", "1e3", "1.25E-7", "60000.0"] {
        assert!(is_number(ok), "{ok}");
    }
    for bad in ["", "NaN", "inf", "-inf", "01", "1.", ".5", "+1", "1e", "0x10", "1 "] {
        assert!(!is_number(bad), "{bad}");
    }
}

#[test]
fn a_key_is_escaped_like_a_value() {
    assert_eq!(Obj::new().bool("a\"b", true).null("z").done(), r#"{"a\"b":true,"z":null}"#);
}

#[test]
fn strings_arrays_escape_each_element() {
    let s = Obj::new().strs("f", &["zealot", "a\"b"]).strs("e", &[]).done();
    assert_eq!(s, r#"{"f":["zealot","a\"b"],"e":[]}"#);
}

#[test]
fn usize_fields_print_in_decimal() {
    assert_eq!(Obj::new().usize("n", 0).integer("m", u64::MAX).done(), r#"{"n":0,"m":18446744073709551615}"#);
}

#[test]
fn default_is_the_empty_object() {
    assert_eq!(Obj::default().done(), "{}");
}

#[test]
fn every_call_is_one_member_in_call_order_duplicates_kept() {
    let s = Obj::new()
        .integer("a", 1)
        .str("b", "x")
        .integer("a", 2)
        .null("c")
        .bool("d", false)
        .strs("e", &["p", "q"])
        .obj("f", Obj::new())
        .done();
    assert_eq!(s, r#"{"a":1,"b":"x","a":2,"c":null,"d":false,"e":["p","q"],"f":{}}"#);
    assert!(!s.contains(",}") && !s.starts_with("{,"));
}
