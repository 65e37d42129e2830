use dorobot_nexus::zealot::{iterations_for, parse_rb, parse_row, ZealotStream, DEFAULT_BIN, TERMS};

const ROW: &str = "   0   1.00      -0.362     6144     0.842    1.00e-3   0.0071     4.2";
const HEAD: &str = "iter   curr   step_rew    falls   torso_z         lr       kl     sec";

fn reward(text: &str) -> f32 {
    text.parse().unwrap_or(f32::NAN)
}

fn term(rb: &dorobot_nexus::zealot::Rb, name: &str) -> f32 {
    rb.term(name).map(|v| v.parse().unwrap_or(f32::NAN)).unwrap_or(0.0)
}

#[test]
fn a_data_row_parses_and_the_header_does_not() {
    let r = parse_row(ROW).expect("data row should parse");
    assert!((reward(&r.reward) - -0.362).abs() < 1e-6);
    assert!((r.secs.parse::<f64>().unwrap_or(0.0) - 4.2).abs() < 1e-6);
    assert!(parse_row(HEAD).is_none(), "header must not parse as data");
}

#[test]
fn a_nan_reward_survives_rather_than_being_swallowed() {
    let row = ROW.replace("-0.362", "NaN");
    assert!(reward(&parse_row(&row).expect("row").reward).is_nan());
}

#[test]
fn the_breakdown_yields_terms_and_counts() {
    let rb = parse_rb(
        "[rb] iter 3 track_lin_vel=0.51 upright=0.90 \
         action_rate=-0.01 torque_leg=-0.04 term_fell=12 samples=6144",
    )
    .expect("rb line should parse");
    assert_eq!(rb.samples, 6144);
    assert_eq!(rb.fell, 12);
    assert!((term(&rb, "upright") - 0.90).abs() < 1e-6);
    assert_eq!(term(&rb, "not_a_term"), 0.0);
}

#[test]
fn non_metric_output_is_ignored() {
    assert!(parse_rb("[khal] backend = WebGPU").is_none());
    assert!(parse_row("[khal] backend = WebGPU").is_none());
    assert!(parse_row("contact reduction ENABLED (per-pair merged)").is_none());
}

#[test]
fn real_zealot_output_parses() {
    let row = parse_row("   0   1.00        NaN     6144     0.842    1.00e-3      NaN     4.2")
        .expect("real table row should parse");
    assert!(reward(&row.reward).is_nan());
    assert!((row.secs.parse::<f64>().unwrap_or(0.0) - 4.2).abs() < 1e-6);

    let rb = parse_rb(
        "[rb] iter 0 track_lin_vel=NaN track_ang_vel=NaN upright=NaN base_height=NaN \
         pose=NaN bilateral_symmetry=NaN action_rate=0.00000 action_rate_hipz_hipx=0.00000 \
         body_ang_vel=NaN lin_vel_z=NaN dof_pos_limits=0.00000 torque_leg=NaN \
         torque_ankle=NaN self_coll=0.00000 termination=-2.00000 term_illegal=0 \
         term_fell=6144 term_timeout=0 samples=6144 terrain_level=0.500",
    )
    .expect("real breakdown line should parse");
    assert_eq!(rb.samples, 6144);
    assert_eq!(rb.fell, 6144);
    assert_eq!(term(&rb, "action_rate"), 0.0);
    assert!(term(&rb, "track_lin_vel").is_nan());
    assert!((rb.fell as f32 / rb.samples as f32 - 1.0).abs() < 1e-6);
}

#[test]
fn the_first_of_two_equal_terms_wins_and_tokens_without_equals_are_skipped() {
    let rb = parse_rb("[rb] iter 1 upright=0.5 upright=0.7 samples=x term_fell=+3 a=b=c").expect("rb");
    assert_eq!(rb.term("upright").map(|s| s.as_str()), Some("0.5"));
    assert_eq!(rb.samples, 0);
    assert_eq!(rb.fell, 3);
    assert_eq!(rb.term("a").map(|s| s.as_str()), Some("b=c"));
    let keys: Vec<&str> = rb.pairs.iter().map(|(k, _)| k.as_str()).collect();
    assert_eq!(keys, ["upright", "upright", "a"]);
}

#[test]
fn a_row_needs_exactly_eight_fields_and_an_iteration_number() {
    assert!(parse_row("1 2 3 4 5 6 7").is_none());
    assert!(parse_row("1 2 3 4 5 6 7 8 9").is_none());
    assert!(parse_row("-1 2 3 4 5 6 7 8").is_none());
    let r = parse_row("+7 a b c d e f g").expect("a signed iteration number still counts");
    assert_eq!((r.reward.as_str(), r.secs.as_str()), ("b", "g"));
}

#[test]
fn the_rb_prefix_is_exact() {
    assert!(parse_rb("[rb]").is_none());
    assert!(parse_rb(" [rb] samples=1").is_none());
    assert_eq!(parse_rb("[rb] ").expect("empty breakdown").pairs.len(), 0);
}

#[test]
fn zealot_terms_are_its_own_names() {
    assert_eq!(TERMS, ["track_lin_vel", "upright", "action_rate", "torque_leg"]);
    assert!(DEFAULT_BIN.ends_with("biped_train_gpu"));
}

#[test]
fn a_row_is_held_until_its_breakdown_arrives() {
    let mut z = ZealotStream::new();
    assert!(z.feed("[khal] backend = WebGPU").is_none());
    assert!(z.feed(ROW).is_none());
    let s = z
        .feed("[rb] iter 0 track_lin_vel=0.51 upright=0.90 term_fell=12 samples=6144")
        .expect("a breakdown completes the iteration");
    assert_eq!(s.step, 6144);
    assert_eq!(s.reward, "-0.362");
    assert_eq!(s.secs, "4.2");
    assert_eq!((s.samples, s.fell), (6144, 12));
    assert_eq!(
        s.terms,
        vec![Some("0.51".to_string()), Some("0.90".to_string()), None, None]
    );
    let s2 = z.feed("[rb] samples=100").expect("second");
    assert_eq!(s2.step, 6244);
    assert_eq!(s2.reward, "-0.362");
}

#[test]
fn a_breakdown_before_any_row_reports_the_zero_row() {
    let mut z = ZealotStream::new();
    let s = z.feed("[rb] samples=5 term_fell=5").expect("sample");
    assert_eq!((s.reward.as_str(), s.secs.as_str(), s.step), ("0", "0", 5));
}

#[test]
fn the_step_count_saturates_rather_than_wrapping() {
    let mut z = ZealotStream::new();
    z.feed("[rb] samples=18446744073709551615");
    let s = z.feed("[rb] samples=7").expect("sample");
    assert_eq!(s.step, u64::MAX);
}

#[test]
fn an_env_step_budget_converts_to_iterations() {
    assert_eq!(iterations_for(2_000_000, 256), 325);
    assert_eq!(iterations_for(6144, 256), 1);
    assert_eq!(iterations_for(100, 256), 1);
    assert_eq!(iterations_for(12_288, 256), 2);
}
