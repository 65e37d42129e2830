use dorobot_nexus::cli::{
    crosssim_json, poll_window,
    backends, capabilities_json, dispatch, end_json, entry_points, error_json, features, parse_i32,
    probe_command, probe_json, run_arg, sample_json, score_obj, start_json, Headless, ProbeCommand,
    ProbeState,
};
use dorobot_nexus::env::TERM_NAMES;
use dorobot_nexus::trainer::{SampleText, RUN_ID};

/// A sample as the stream renders it: fixed precision per measure.
fn sample(step: u64, reward: f32, fall_rate: f32, episode_len: f32, steps_per_sec: f64, terms: &[f32]) -> SampleText {
    SampleText {
        step,
        reward: format!("{:.5}", reward as f64),
        fall_rate: format!("{:.5}", fall_rate as f64),
        episode_len: format!("{:.2}", episode_len as f64),
        steps_per_sec: format!("{:.1}", steps_per_sec),
        terms: terms.iter().map(|v| format!("{:.5}", *v as f64)).collect(),
    }
}

fn args(v: &[&str]) -> Vec<String> {
    v.iter().map(|s| s.to_string()).collect()
}

#[test]
fn cli_a_flag_is_never_read_as_a_run_id() {
    assert_eq!(run_arg(&args(&["dorobot-nexus", "--probe", "--json"]), 1), RUN_ID);
}

#[test]
fn cli_an_explicit_run_id_is_taken() {
    assert_eq!(run_arg(&args(&["dorobot-nexus", "--probe", "other-run", "--json"]), 1), "other-run");
}

#[test]
fn cli_a_trailing_flag_falls_back_to_the_default_run() {
    assert_eq!(run_arg(&args(&["dorobot-nexus", "--crosssim"]), 1), RUN_ID);
}

#[test]
fn main_a_flag_is_never_read_as_a_run_id() {
    assert_eq!(run_arg(&args(&["dorobot-nexus", "--probe", "--json"]), 1), RUN_ID);
}

#[test]
fn main_an_explicit_run_id_is_taken() {
    assert_eq!(run_arg(&args(&["dorobot-nexus", "--probe", "other-run", "--json"]), 1), "other-run");
}

#[test]
fn main_a_trailing_flag_falls_back_to_the_default_run() {
    assert_eq!(run_arg(&args(&["dorobot-nexus", "--crosssim"]), 1), RUN_ID);
}

#[test]
fn a_single_dash_value_is_still_a_run_id() {
    assert_eq!(run_arg(&args(&["x", "--probe", "-"]), 1), "-");
    assert_eq!(run_arg(&args(&["x", "--probe", "-r"]), 1), "-r");
    assert_eq!(run_arg(&args(&["x"]), 5), RUN_ID);
    assert_eq!(run_arg(&args(&["x", "--probe", ""]), 1), "");
}

#[test]
fn cli_a_sample_names_its_reward_terms() {
    let out = sample_json(&sample(8192, 0.5, 0.25, 24.0, 60000.0, &[0.1, 0.2, 0.3, 0.4]));
    assert!(out.contains(r#""event":"sample""#));
    assert!(out.contains(r#""step":8192"#));
    assert!(out.contains(r#""track_lin_vel":0.10000"#), "{out}");
    assert!(out.contains(r#""torque":0.40000"#), "{out}");
}

#[test]
fn main_a_sample_names_its_reward_terms() {
    let out = sample_json(&sample(8192, 0.5, 0.25, 24.0, 60000.0, &[0.1, 0.2, 0.3, 0.4]));
    assert!(out.contains(r#""event":"sample""#));
    assert!(out.contains(r#""step":8192"#));
    assert!(out.contains(r#""track_lin_vel":0.10000"#), "{out}");
    assert!(out.contains(r#""torque":0.40000"#), "{out}");
}

#[test]
fn cli_a_sample_with_fewer_terms_than_names_omits_rather_than_invents() {
    let out = sample_json(&sample(0, 0.0, 0.0, 0.0, 0.0, &[0.1]));
    assert!(out.contains("track_lin_vel"));
    assert!(!out.contains("torque"), "{out}");
}

#[test]
fn main_a_sample_with_fewer_terms_than_names_omits_rather_than_invents() {
    let out = sample_json(&sample(0, 0.0, 0.0, 0.0, 0.0, &[0.1]));
    assert!(out.contains("track_lin_vel"));
    assert!(!out.contains("torque"), "{out}");
}

#[test]
fn cli_a_non_finite_metric_does_not_break_the_stream() {
    assert!(sample_json(&sample(0, f32::NAN, 0.0, 0.0, 0.0, &[])).contains(r#""reward":null"#));
}

#[test]
fn main_a_non_finite_metric_does_not_break_the_stream() {
    assert!(sample_json(&sample(0, f32::NAN, 0.0, 0.0, 0.0, &[])).contains(r#""reward":null"#));
}

#[test]
fn a_sample_record_is_exact() {
    let out = sample_json(&sample(8192, 0.5, 0.25, 24.0, 60000.0, &[0.1, 0.2, 0.3, 0.4, 9.0]));
    assert_eq!(
        out,
        r#"{"event":"sample","step":8192,"reward":0.50000,"fall_rate":0.25000,"episode_len":24.00,"steps_per_sec":60000.0,"terms":{"track_lin_vel":0.10000,"upright":0.20000,"action_rate":0.30000,"torque":0.40000}}"#
    );
    let none = sample_json(&sample(1, f32::INFINITY, 0.0, 0.0, 0.0, &[]));
    assert!(none.contains(r#""reward":null"#) && none.ends_with(r#""terms":{}}"#), "{none}");
}

#[test]
fn the_term_names_are_the_reward_shape() {
    assert_eq!(TERM_NAMES, ["track_lin_vel", "upright", "action_rate", "torque"]);
}

#[test]
fn scores_nest_with_null_for_what_did_not_finish() {
    let o = score_obj("1.00000", "0.50000", "NaN", "0.00000");
    assert_eq!(o.done(), r#"{"survival":1.00000,"tracking":0.50000,"reward":null,"fall_rate":0.00000}"#);
}

#[test]
fn capabilities_wins_over_every_other_flag() {
    assert!(matches!(dispatch(&args(&["x", "--headless", "--capabilities"]), false), Some(Headless::Capabilities)));
    assert!(matches!(dispatch(&args(&["x", "--sweep", "--track-check"]), true), Some(Headless::TrackCheck)));
    assert!(dispatch(&args(&["x", "--json"]), true).is_none());
    assert!(dispatch(&args(&[]), false).is_none());
}

#[test]
fn the_probe_and_crosssim_take_the_run_after_them() {
    assert!(matches!(dispatch(&args(&["x", "--probe", "--json"]), false), Some(Headless::Probe(r)) if r == RUN_ID));
    assert!(matches!(dispatch(&args(&["x", "--crosssim", "r2"]), false), Some(Headless::CrossSim(r)) if r == "r2"));
    assert!(matches!(dispatch(&args(&["x", "--crosssim", "a", "--probe", "b"]), false), Some(Headless::Probe(r)) if r == "b"));
}

#[test]
fn counts_default_when_missing_or_unreadable() {
    assert!(matches!(dispatch(&args(&["x", "--headless"]), false), Some(Headless::Train(2_000_000))));
    assert!(matches!(dispatch(&args(&["x", "--headless", "500"]), false), Some(Headless::Train(500))));
    assert!(matches!(dispatch(&args(&["x", "--headless", "lots"]), false), Some(Headless::Train(2_000_000))));
    assert!(matches!(dispatch(&args(&["x", "--curriculum"]), true), Some(Headless::Curriculum(20, 1))));
    assert!(matches!(dispatch(&args(&["x", "--curriculum", "5", "3"]), true), Some(Headless::Curriculum(5, 3))));
    assert!(matches!(dispatch(&args(&["x", "--curriculum", "5", "--sweep"]), true), Some(Headless::Curriculum(5, 1))));
}

#[test]
fn curriculum_exists_only_in_zealot_builds() {
    assert!(dispatch(&args(&["x", "--curriculum"]), false).is_none());
    assert!(matches!(dispatch(&args(&["x", "--curriculum", "--sweep"]), false), Some(Headless::Sweep)));
}

#[test]
fn probe_commands_are_read_by_their_first_word() {
    assert!(matches!(probe_command("   "), ProbeCommand::Blank));
    assert!(matches!(probe_command("quit"), ProbeCommand::Quit));
    assert!(matches!(probe_command("exit now"), ProbeCommand::Quit));
    assert!(matches!(probe_command("state"), ProbeCommand::State));
    assert!(matches!(probe_command(" restart "), ProbeCommand::Restart));
    assert!(matches!(probe_command("step"), ProbeCommand::Step(1)));
    assert!(matches!(probe_command("step -3"), ProbeCommand::Step(-3)));
    assert!(matches!(probe_command("step x"), ProbeCommand::Step(1)));
    assert!(matches!(probe_command("seek 0.5"), ProbeCommand::Seek(Some(t)) if t == "0.5"));
    assert!(matches!(probe_command("seek"), ProbeCommand::Seek(None)));
    assert!(matches!(probe_command("push 1.5 extra"), ProbeCommand::Push(Some(t)) if t == "1.5"));
    assert!(matches!(probe_command("jump 3"), ProbeCommand::Unknown(w) if w == "jump"));
}

#[test]
fn signed_integers_parse_like_std() {
    for t in ["0", "-0", "+7", "-2147483648", "2147483647", "007"] {
        assert_eq!(parse_i32(t), t.parse::<i32>().ok(), "{t}");
    }
    for t in ["", "-", "+", "2147483648", "-2147483649", "--1", "+-1", "-+1", "1.5", " 1", "99999999999999999999999"] {
        assert_eq!(parse_i32(t), None, "{t}");
    }
}

#[test]
fn stream_records_are_exact() {
    assert_eq!(error_json("no checkpoint"), r#"{"event":"error","message":"no checkpoint"}"#);
    assert_eq!(
        start_json("cpu", "built without the zealot feature", 256, 2_000_000, true),
        r#"{"event":"start","backend":"cpu","backend_note":"built without the zealot feature","envs":256,"total_steps":2000000,"randomize":true}"#
    );
    assert_eq!(end_json(3), r#"{"event":"end","samples":3}"#);
}

#[test]
fn a_probe_state_reports_the_frame_under_the_cursor() {
    let p = ProbeState {
        label: "run · step 4k".into(),
        cursor: 5,
        frames: 240,
        progress: format!("{:.5}", 5.0f64 / 239.0),
        last_push: None,
        cart_x: format!("{:.5}", 0.25f32 as f64),
        angle: format!("{:.5}", f32::NAN as f64),
        action: "-1.00000".into(),
        reward: "0.50000".into(),
        fell: false,
    };
    assert_eq!(
        probe_json("ready", &p),
        r#"{"event":"ready","label":"run · step 4k","cursor":5,"frames":240,"progress":0.02092,"last_push":null,"cart_x":0.25000,"angle":null,"action":-1.00000,"reward":0.50000,"fell":false}"#
    );
}

#[test]
fn capabilities_say_what_can_actually_run() {
    assert_eq!(backends(true, false), ["cpu"]);
    assert_eq!(backends(false, true), ["cpu"]);
    assert_eq!(backends(true, true), ["cpu", "zealot"]);
    assert_eq!(features(false), Vec::<&str>::new());
    let e = entry_points(true);
    let mut sorted = e.clone();
    sorted.sort_unstable();
    assert_eq!(e, sorted);
    assert!(e.contains(&"--curriculum") && !entry_points(false).contains(&"--curriculum"));
    assert_eq!(
        capabilities_json("dorobot-nexus", "0.1.0", false, false, "zealot/bin"),
        r#"{"event":"capabilities","name":"dorobot-nexus","version":"0.1.0","features":[],"backends":["cpu"],"entry_points":["--capabilities","--crosssim","--headless","--json","--no-random","--probe","--sweep","--track-check"],"zealot_binary":false,"zealot_binary_path":"zealot/bin","run_id":"balance-track-01"}"#
    );
}

#[test]
fn a_poll_prints_each_sample_once() {
    assert_eq!(poll_window(0, 3), (0, 3));
    assert_eq!(poll_window(3, 5), (3, 5));
    assert_eq!(poll_window(5, 5), (5, 5));
    assert_eq!(poll_window(7, 4), (4, 7));
}

#[test]
fn a_crosssim_record_reports_a_missing_arm_as_null() {
    let b = score_obj("0.50000", "0.25000", "NaN", "1.00000");
    assert_eq!(
        crosssim_json("MuJoCo · 2 attempts", true, None, None, Some(b)),
        r#"{"event":"crosssim","label":"MuJoCo · 2 attempts","done":true,"worst_gap":null,"a":null,"b":{"survival":0.50000,"tracking":0.25000,"reward":null,"fall_rate":1.00000}}"#
    );
    assert_eq!(
        crosssim_json("x", false, Some("0.12500"), None, None),
        r#"{"event":"crosssim","label":"x","done":false,"worst_gap":0.12500,"a":null,"b":null}"#
    );
}
