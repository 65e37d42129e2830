use dorobot_nexus::mujoco::{harness_path, why_unavailable, HARNESS, SCENE, VENV_PY};

#[test]
fn the_first_missing_piece_is_named() {
    assert_eq!(
        why_unavailable(false, false, false).as_deref(),
        Some(format!("no MuJoCo harness at {HARNESS} — run scripts/setup-zealot.sh").as_str())
    );
    assert_eq!(
        why_unavailable(true, false, false).as_deref(),
        Some(format!("no MuJoCo interpreter at {VENV_PY}").as_str())
    );
    assert_eq!(why_unavailable(true, true, false).as_deref(), Some(format!("no G1 scene at {SCENE}").as_str()));
    assert_eq!(why_unavailable(true, true, true), None);
}

#[test]
fn the_harness_lives_in_the_zealot_stack() {
    assert_eq!(harness_path(), "zealot-stack/zealot/scripts/sim2sim_g1_mujoco.py");
}

use dorobot_nexus::mujoco::parse_harness;

const OUT: &str = "\
obs frame 53 (with gyro, step cue)
policy joints: 12, held joints: 17
attempt 1: timeout after 20.0s, traveled 0.00 m
attempt 2: timeout after 20.0s, traveled 0.00 m

2 completed attempts; mean survival 20.0s, best 20.0s
video → /tmp/x.mp4";

const OUT_FALLS: &str = "\
obs frame 45 (no gyro)
attempt 1: fell after 3.2s, traveled 0.94 m
attempt 2: timeout after 20.0s, traveled 7.31 m
attempt 3: fell after 5.8s, traveled 1.90 m
STANCE feet lateral sep: mean=0.212 p5=0.180
SPECTRUM left_hip_pitch: 4.2% of action power above 5 Hz";

#[test]
fn attempts_and_frame_width_are_read() {
    let r = parse_harness(OUT);
    assert_eq!(r.obs_frame, 53);
    assert_eq!(r.attempts.len(), 2);
    assert!(!r.attempts[0].fell, "timeout is survival, not a fall");
    assert_eq!(r.attempts[0].metres.parse::<f32>().ok(), Some(0.0));

    let r = parse_harness(OUT_FALLS);
    assert_eq!(r.obs_frame, 45);
    assert_eq!(r.attempts.len(), 3);
    assert!(r.attempts[0].fell);
    assert!(!r.attempts[1].fell, "timeout is survival, not a fall");
    assert!((r.attempts[1].metres.parse::<f32>().unwrap() - 7.31).abs() < 1e-4);
    assert_eq!(r.attempts[0].seconds, "3.2");
}

#[test]
fn diagnostics_on_the_stream_are_ignored() {
    assert_eq!(parse_harness(OUT_FALLS).attempts.len(), 3);
    assert_eq!(parse_harness(OUT).attempts.len(), 2);
}

#[test]
fn fall_rate_counts_falls_not_timeouts() {
    let r = parse_harness(OUT_FALLS);
    assert_eq!(r.attempts.iter().filter(|a| a.fell).count(), 2);
    assert_eq!(parse_harness(OUT).attempts.iter().filter(|a| a.fell).count(), 0);
}

#[test]
fn a_run_with_no_attempts_is_empty_not_zero_scored() {
    let r = parse_harness("Traceback (most recent call last):\n  ModuleNotFoundError: mujoco\n");
    assert!(r.attempts.is_empty());
    assert_eq!(r.obs_frame, 0);
}

#[test]
fn attempt_lines_are_trimmed_and_need_their_separators() {
    let r = parse_harness("  attempt 9: fell after  2.5 s, traveled 1.0 m  \r\nattempt 1: fell 3s, traveled 1 m\nattempt 2: fell after 3s traveled 1 m\nattempt 3: fell after 3s, traveled \nobs frame x\nobs frame 48");
    assert_eq!(r.attempts.len(), 1);
    assert_eq!((r.attempts[0].seconds.as_str(), r.attempts[0].metres.as_str()), ("2.5", "1.0"));
    assert_eq!(r.obs_frame, 48);
}

fn same_reading(a: &str, b: &str) -> bool {
    let (x, y) = (parse_harness(a), parse_harness(b));
    x.obs_frame == y.obs_frame
        && x.attempts.len() == y.attempts.len()
        && x.attempts.iter().zip(y.attempts.iter()).all(|(p, q)| {
            p.seconds == q.seconds && p.metres == q.metres && p.fell == q.fell
        })
}

#[test]
fn noise_before_or_after_the_report_reads_the_same() {
    let noise = "Traceback (most recent call last):\n  ModuleNotFoundError: mujoco\nSTANCE feet lateral sep: mean=0.212\nvideo → /tmp/x.mp4";
    assert!(same_reading(&format!("{OUT_FALLS}\n{noise}"), OUT_FALLS));
    assert!(same_reading(&format!("{noise}\n{OUT_FALLS}"), OUT_FALLS));
    let r = parse_harness(noise);
    assert!(r.attempts.is_empty());
    assert_eq!(r.obs_frame, 0);
}
