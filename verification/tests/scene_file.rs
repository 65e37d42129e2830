use dorobot_nexus::scene::{
    fmt_number, knobs, number_token, read_recording, recording_json, scene_json, string_field,
    terrain_mesh_name, bool_field, RecordingText, SceneText,
};

fn fmt(v: f32) -> String {
    fmt_number(&format!("{v:.4}"))
}

struct Scene {
    name: &'static str,
    terrain: &'static str,
    seconds: f32,
    vx: f32,
    vy: f32,
    yaw: f32,
    seed: u64,
    friction: f32,
    kp_scale: f32,
    mass_dr: f32,
    push_vel: f32,
    spawn_dr: bool,
    terrain_amp: f32,
    terrain_slope_deg: f32,
    base_height: f32,
}

fn baseline() -> Scene {
    Scene {
        name: "baseline",
        terrain: "",
        seconds: 6.0,
        vx: 0.3,
        vy: 0.0,
        yaw: 0.0,
        seed: 0xC0FFEE,
        friction: 1.0,
        kp_scale: 1.0,
        mass_dr: 1.0,
        push_vel: 0.0,
        spawn_dr: false,
        terrain_amp: 1.0,
        terrain_slope_deg: 0.0,
        base_height: 0.82,
    }
}

fn text(s: &Scene) -> SceneText {
    SceneText {
        name: s.name.to_string(),
        terrain: s.terrain.to_string(),
        seconds: fmt(s.seconds),
        vx: fmt(s.vx),
        vy: fmt(s.vy),
        yaw: fmt(s.yaw),
        seed: s.seed,
        friction: fmt(s.friction),
        kp_scale: fmt(s.kp_scale),
        mass_dr: fmt(s.mass_dr),
        push_vel: fmt(s.push_vel),
        spawn_dr: s.spawn_dr,
        terrain_amp: fmt(s.terrain_amp),
        terrain_slope_deg: fmt(s.terrain_slope_deg),
        base_height: fmt(s.base_height),
    }
}

fn num(t: &str, k: &str) -> Option<f32> {
    number_token(t, k).and_then(|v| v.parse().ok())
}

#[test]
fn a_scene_round_trips_through_json() {
    let s = Scene {
        name: "rough push",
        terrain: "rough",
        seconds: 8.0,
        vx: 0.45,
        vy: -0.1,
        yaw: 0.25,
        seed: 12345,
        friction: 0.6,
        kp_scale: 1.25,
        mass_dr: 1.3,
        push_vel: 0.8,
        spawn_dr: true,
        terrain_amp: 1.8,
        terrain_slope_deg: 12.0,
        base_height: 0.61,
    };
    let t = scene_json(&text(&s));
    assert_eq!(string_field(&t, "name").as_deref(), Some(s.name));
    assert_eq!(string_field(&t, "terrain").as_deref(), Some(s.terrain));
    assert_eq!(num(&t, "seconds"), Some(s.seconds));
    assert_eq!(num(&t, "vx"), Some(s.vx));
    assert_eq!(num(&t, "vy"), Some(s.vy));
    assert_eq!(num(&t, "yaw"), Some(s.yaw));
    assert_eq!(num(&t, "seed").map(|v| v as u64), Some(s.seed));
    assert_eq!(num(&t, "friction"), Some(s.friction));
    assert_eq!(num(&t, "kp_scale"), Some(s.kp_scale));
    assert_eq!(num(&t, "mass_dr"), Some(s.mass_dr));
    assert_eq!(num(&t, "push_vel"), Some(s.push_vel));
    assert_eq!(bool_field(&t, "spawn_dr"), Some(s.spawn_dr));
    assert_eq!(num(&t, "terrain_amp"), Some(s.terrain_amp));
    assert_eq!(num(&t, "terrain_slope_deg"), Some(s.terrain_slope_deg));
    assert_eq!(num(&t, "base_height"), Some(s.base_height));
}

#[test]
fn a_scene_file_is_one_field_per_line() {
    let t = scene_json(&text(&baseline()));
    assert_eq!(
        t,
        "{\n  \"name\": \"baseline\",\n  \"terrain\": \"\",\n  \"seconds\": 6,\n  \"vx\": 0.3,\n  \"vy\": 0,\n  \"yaw\": 0,\n  \"seed\": 12648430,\n  \"friction\": 1,\n  \"kp_scale\": 1,\n  \"mass_dr\": 1,\n  \"push_vel\": 0,\n  \"spawn_dr\": false,\n  \"terrain_amp\": 1,\n  \"terrain_slope_deg\": 0,\n  \"base_height\": 0.82\n}\n"
    );
}

#[test]
fn a_missing_field_keeps_its_default_rather_than_failing() {
    let t = r#"{ "name": "old", "terrain": "wave" }"#;
    assert_eq!(string_field(t, "name").as_deref(), Some("old"));
    assert_eq!(string_field(t, "terrain").as_deref(), Some("wave"));
    assert_eq!(num(t, "kp_scale").unwrap_or(baseline().kp_scale), baseline().kp_scale);
}

#[test]
fn a_name_that_shows_a_later_key_is_where_reading_stops_early() {
    let mut s = text(&baseline());
    s.name = "x\"seed".to_string();
    let t = scene_json(&s);
    assert_eq!(string_field(&t, "name").as_deref(), Some("x\"seed"));
    assert_ne!(number_token(&t, "seed").as_deref(), Some("12648430"));
}

#[test]
fn trailing_zeros_and_points_are_trimmed() {
    assert_eq!(fmt(6.0), "6");
    assert_eq!(fmt(0.45), "0.45");
    assert_eq!(fmt(-0.1), "-0.1");
    assert_eq!(fmt(0.0), "0");
    assert_eq!(fmt(-0.00001), "-0");
    assert_eq!(fmt_number("0.0000"), "0");
    assert_eq!(fmt_number("-.000"), "0");
    assert_eq!(fmt_number("100"), "1");
    assert_eq!(fmt_number(""), "0");
    assert_eq!(fmt(f32::NAN), "NaN");
}

#[test]
fn knobs_fully_determine_the_physics() {
    let s = baseline();
    let k = knobs(&text(&s), s.push_vel > 0.0);
    let keys: Vec<&str> = k.iter().map(|(a, _)| *a).collect();
    for want in ["BIPED_FRICTION", "BIPED_KP_SCALE", "BIPED_MASS_DR", "BIPED_SPAWN_DR"] {
        assert!(keys.contains(&want), "missing {want}");
    }
    assert!(k.contains(&("BIPED_TERRAIN", "0".to_string())));
}

#[test]
fn a_terrain_scene_names_its_family() {
    let s = Scene { terrain: "step", ..baseline() };
    let k = knobs(&text(&s), s.push_vel > 0.0);
    assert!(k.contains(&("BIPED_TERRAIN", "1".to_string())));
    assert!(k.contains(&("BIPED_TERRAIN_FAMILY", "step".to_string())));
}

#[test]
fn without_pushes_the_interval_is_pushed_out_of_reach() {
    let s = baseline();
    let k = knobs(&text(&s), false);
    assert_eq!(
        k[k.len() - 2..].to_vec(),
        vec![("BIPED_PUSH_VEL", "0".to_string()), ("BIPED_PUSH_INTERVAL", "1000000".to_string())]
    );
    let p = Scene { push_vel: 0.8, spawn_dr: true, ..baseline() };
    let k = knobs(&text(&p), true);
    assert_eq!(k.last(), Some(&("BIPED_PUSH_VEL", "0.8".to_string())));
    assert!(k.contains(&("BIPED_SPAWN_DR", "1".to_string())));
    assert!(k.contains(&("BIPED_DRIVE_SEED", "12648430".to_string())));
}

fn mesh(s: &Scene) -> Option<String> {
    terrain_mesh_name(&text(s), &format!("{:.2}", s.terrain_amp), &format!("{:.1}", s.terrain_slope_deg))
}

#[test]
fn a_terrain_variant_gets_its_own_mesh_identity() {
    let a = Scene { terrain: "rough", ..baseline() };
    let b = Scene { terrain_amp: 2.5, ..Scene { terrain: "rough", ..baseline() } };
    let c = Scene { terrain_slope_deg: 10.0, ..Scene { terrain: "rough", ..baseline() } };
    let d = Scene { seed: 99, ..Scene { terrain: "rough", ..baseline() } };
    let names: Vec<String> = [&a, &b, &c, &d].iter().map(|s| mesh(s).expect("named")).collect();
    let mut uniq = names.clone();
    uniq.sort();
    uniq.dedup();
    assert_eq!(uniq.len(), 4, "variants collided: {names:?}");
    assert!(names[0].starts_with("terrain_rough_a1.00_s0.0_"));
    assert_eq!(names[3], "terrain_rough_a1.00_s0.0_63.stl");
}

#[test]
fn flat_ground_needs_no_mesh() {
    assert!(mesh(&baseline()).is_none());
}

#[test]
fn a_recording_round_trips_and_names_its_scene() {
    let r = RecordingText {
        name: "run-7".into(),
        scene: "rough push".into(),
        frames: 301,
        resets: 4,
        distance: fmt(3.75),
        rollout: "/tmp/x.json".into(),
    };
    let back = read_recording(&recording_json(&r)).expect("parse");
    assert_eq!(back.name, r.name);
    assert_eq!(back.scene, r.scene);
    assert_eq!(back.frames.and_then(|v| v.parse::<f32>().ok()).map(|v| v as usize), Some(301));
    assert_eq!(back.resets.and_then(|v| v.parse::<f32>().ok()).map(|v| v as usize), Some(4));
    assert_eq!(back.distance.and_then(|v| v.parse::<f32>().ok()), Some(3.75));
    assert_eq!(back.rollout, r.rollout);
}

#[test]
fn a_recording_needs_a_name_and_a_rollout() {
    assert!(read_recording(r#"{ "rollout": "/x" }"#).is_none());
    assert!(read_recording(r#"{ "name": "a" }"#).is_none());
    let r = read_recording(r#"{ "name": "a", "rollout": "/x" }"#).expect("minimal");
    assert_eq!((r.scene.as_str(), r.frames, r.distance), ("", None, None));
}
