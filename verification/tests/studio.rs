use dorobot_nexus::studio::{
    can_sweep, disk_scene_id, find_array, fingerprint, is_disk_scene, seed_from_label, seed_label,
    select_ckpts, sweep_target, SweepTarget,
};

#[test]
fn a_disk_scene_is_told_apart_by_its_prefix() {
    let id = disk_scene_id("rough push");
    assert_eq!(id, "disk:rough push");
    assert!(is_disk_scene(&id));
    assert!(!is_disk_scene("disk"));
    assert!(!is_disk_scene("g1-flat"));
}

#[test]
fn a_seed_label_reads_back_as_its_seed() {
    for seed in [0u64, 0xC0FFEE, 12345, u64::MAX] {
        assert_eq!(seed_from_label(&seed_label(seed)), seed);
    }
    assert_eq!(seed_label(0xC0FFEE), "0xC0FFEE");
}

#[test]
fn an_unreadable_seed_label_falls_back_to_zealots_default() {
    assert_eq!(seed_from_label("not hex"), 0xC0FFEE);
    assert_eq!(seed_from_label(""), 0xC0FFEE);
    assert_eq!(seed_from_label("0x0xff"), 0xff);
    assert_eq!(seed_from_label("ff"), 0xff);
}

#[test]
fn the_fingerprint_is_fnv1a_in_eight_hex_digits() {
    assert_eq!(fingerprint(b""), ("811c9dc5".to_string(), 0));
    assert_eq!(fingerprint(b"a"), ("e40c292c".to_string(), 0));
    assert_eq!(fingerprint(&vec![0u8; 2048]).1, 2);
}

#[test]
fn only_checkpoint_files_are_listed_newest_first() {
    let entries = vec![
        ("README.md".to_string(), 10u64),
        ("dorobot_nexus.safetensors".to_string(), 4096u64),
        ("curriculum.safetensors".to_string(), 2048u64),
        ("dorobot_nexus.safetensors.3".to_string(), 1023u64),
        ("curriculum.safetensors.bak".to_string(), 1u64),
    ];
    let out = select_ckpts("/repo", &entries);
    let labels: Vec<&str> = out.iter().map(|c| c.label.as_str()).collect();
    assert_eq!(labels, ["dorobot_nexus.safetensors.3", "dorobot_nexus.safetensors", "curriculum.safetensors"]);
    assert_eq!(out[1].path, "/repo/dorobot_nexus.safetensors");
    assert_eq!(out[1].kb, 4);
    assert_eq!(out[0].kb, 0);
}

#[test]
fn an_array_is_read_to_its_matching_bracket() {
    let t = r#"{"frames": [[1,2],[3,[4]]], "joints": ["a","b"]}"#;
    assert_eq!(find_array(t, "\"frames\"").as_deref(), Some("[1,2],[3,[4]]"));
    assert_eq!(find_array(t, "\"joints\"").as_deref(), Some(r#""a","b""#));
    assert_eq!(find_array(t, "\"missing\""), None);
    assert_eq!(find_array(r#"{"k": [1,2"#, "\"k\"").as_deref(), Some(""));
}

#[test]
fn a_sweep_prefers_the_zealot_export() {
    assert!(matches!(sweep_target("z.safetensors", true, 3), Some(SweepTarget::Zealot(p)) if p == "z.safetensors"));
    assert!(matches!(sweep_target("z", false, 1), Some(SweepTarget::BuiltIn)));
    assert!(sweep_target("z", false, 0).is_none());
    assert!(can_sweep(false, 2));
    assert!(!can_sweep(false, 0));
}

#[test]
fn checkpoint_labels_order_by_code_point() {
    let entries = vec![
        ("dorobot_nexus.safetensors.10".to_string(), 0u64),
        ("dorobot_nexus.safetensors.9".to_string(), 0u64),
        ("dorobot_nexus.safetensors.é".to_string(), 0u64),
    ];
    let out = select_ckpts("r", &entries);
    let labels: Vec<&str> = out.iter().map(|c| c.label.as_str()).collect();
    assert_eq!(labels, ["dorobot_nexus.safetensors.é", "dorobot_nexus.safetensors.9", "dorobot_nexus.safetensors.10"]);
}

use dorobot_nexus::studio::{joint_names, number_after, rollout_rows, split_pieces};

const ROLLOUT: &str = r#"{
  "dt": 0.02,
  "joint_names": ["left_hip_pitch", "left_knee" , "", "right_hip_pitch"],
  "resets": [0],
  "base": [[0,0,0.8,0,0,0,1],[0.1,0,0.8,0,0,0,1],[1,2]],
  "joints": [[0.1, -0.2], [0.3,0.4], []]
}"#;

#[test]
fn a_rollouts_joint_names_are_unquoted_and_empties_dropped() {
    let raw = find_array(ROLLOUT, "\"joint_names\"").expect("names");
    assert_eq!(joint_names(&raw), ["left_hip_pitch", "left_knee", "right_hip_pitch"]);
    assert_eq!(joint_names(""), Vec::<String>::new());
}

#[test]
fn a_rollouts_rows_keep_their_cell_texts() {
    let raw = find_array(ROLLOUT, "\"joints\"").expect("joints");
    let rows = rollout_rows(&raw);
    assert_eq!(rows, vec![vec!["0.1".to_string(), "-0.2".to_string()], vec!["0.3".to_string(), "0.4".to_string()]]);
    let base = rollout_rows(&find_array(ROLLOUT, "\"base\"").expect("base"));
    assert_eq!(base.len(), 3);
    assert_eq!(base[0].len(), 7);
    assert_eq!(base[2], vec!["1".to_string(), "2".to_string()]);
}

#[test]
fn a_rollouts_time_step_is_read_up_to_the_comma() {
    assert_eq!(number_after(ROLLOUT, "\"dt\"").as_deref(), Some("0.02"));
    assert_eq!(number_after(r#"{"dt": 5 }"#, "\"dt\"").as_deref(), Some("5"));
    assert_eq!(number_after(r#"{"dt": 5"#, "\"dt\""), None);
    assert_eq!(number_after(r#"{"x": 5}"#, "\"dt\""), None);
}

#[test]
fn splitting_keeps_empty_pieces_like_std() {
    for (s, p) in [("a,b,,c", ","), ("", ","), (",", ","), ("[1],[2]", "],"), ("abc", "abc"), ("aaa", "aa")] {
        let want: Vec<String> = s.split(p).map(|x| x.to_string()).collect();
        assert_eq!(split_pieces(s, p), want, "{s:?} by {p:?}");
    }
}
