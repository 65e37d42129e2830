use dorobot_nexus::probe::{Playback, Playhead};

#[test]
fn stepping_is_bounded_at_both_ends() {
    let len = 240;
    let mut p = Playhead::new();
    p.step_by(len, -10);
    assert_eq!(p.cursor, 0);
    p.step_by(len, 10_000);
    assert_eq!(p.cursor, len - 1);
}

#[test]
fn seeking_maps_the_ends_exactly() {
    let len = 240usize;
    let mut p = Playhead::new();
    let at = |t: f64| ((t.clamp(0.0, 1.0) * (len - 1) as f64) as usize).min(len - 1);
    p.seek(len, at(0.0));
    assert_eq!(p.cursor, 0);
    p.seek(len, at(1.0));
    assert_eq!(p.cursor, len - 1);
    p.seek(len, 10_000);
    assert_eq!(p.cursor, len - 1);
    assert!(!p.playing);
}

#[test]
fn playback_stops_on_the_last_frame() {
    let mut p = Playhead::new();
    for _ in 0..10 {
        p.tick(3);
    }
    assert_eq!(p.cursor, 2);
    assert!(!p.playing);
}

#[test]
fn play_at_the_end_replays_from_the_start() {
    let mut p = Playhead { cursor: 4, playing: false };
    p.toggle_play(5);
    assert_eq!(p, Playhead { cursor: 0, playing: true });
    p.toggle_play(5);
    assert_eq!(p, Playhead { cursor: 0, playing: false });
    p.step_by(5, 2);
    p.toggle_play(5);
    assert_eq!(p, Playhead { cursor: 2, playing: true });
}

#[test]
fn an_empty_recording_leaves_the_playhead_alone() {
    let mut p = Playhead { cursor: 3, playing: true };
    p.tick(0);
    p.toggle_play(0);
    p.seek(0, 1);
    assert_eq!(p, Playhead { cursor: 3, playing: true });
    p.step_by(0, 1);
    assert_eq!(p, Playhead { cursor: 3, playing: false });
}

#[test]
fn restart_rewinds_without_changing_play_state() {
    let mut p = Playhead { cursor: 7, playing: false };
    p.restart();
    assert_eq!(p, Playhead { cursor: 0, playing: false });
    assert_eq!(Playhead::new(), Playhead { cursor: 0, playing: true });
}

#[test]
fn stepping_by_extreme_amounts_does_not_overflow() {
    let mut p = Playhead { cursor: 5, playing: true };
    p.step_by(10, i32::MIN);
    assert_eq!(p.cursor, 0);
    let mut q = Playhead { cursor: 5, playing: true };
    q.step_by(usize::MAX, i32::MAX);
    assert_eq!(q.cursor, 5 + i32::MAX as usize);
}

#[test]
fn a_push_discards_the_future_it_invalidated() {
    let mut p = Playhead { cursor: 5, playing: false };
    assert_eq!(p.push(240), Some(6));
    assert_eq!(p, Playhead { cursor: 5, playing: true });
    let mut q = Playhead { cursor: 3, playing: false };
    assert_eq!(q.push(0), None);
    assert!(!q.playing);
}

#[test]
fn rollout_playback_loops() {
    let mut p = Playback::new();
    p.advance(7);
    assert_eq!(p.shown(5), Some(2));
    assert_eq!(p.shown(0), None);
    p.toggle();
    p.advance(3);
    assert_eq!(p.frame, 7);
    p.step_forward();
    assert_eq!(p, Playback { frame: 8, playing: false });
    p.step_back();
    p.step_back();
    assert_eq!(p.frame, 6);
    p.restart();
    assert_eq!(p, Playback { frame: 0, playing: true });
    p.step_back();
    assert_eq!(p, Playback { frame: 0, playing: false });
}

#[test]
fn rollout_playback_wraps_and_seeks_within_the_rollout() {
    let mut p = Playback { frame: usize::MAX, playing: true };
    p.advance(2);
    assert_eq!(p.frame, 1);
    p.seek(500, 120);
    assert_eq!(p, Playback { frame: 119, playing: false });
    p.seek(3, 0);
    assert_eq!(p.frame, 0);
    p.advance(5);
    assert_eq!(p.frame, 0);
    let mut q = Playback { frame: 9, playing: false };
    q.rewind();
    assert_eq!(q, Playback { frame: 0, playing: false });
}
