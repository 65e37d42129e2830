use dorobot_nexus::ckpt::{newest_first, run_dir, Manifest};

fn manifest() -> Manifest {
    Manifest {
        run: "test-run".into(),
        scene: "balance + velocity tracking".into(),
        seed: 7,
        step: 1_000_000,
        score: format!("{:.6}", 0.812_345f64),
        n_obs: 5,
        n_act: 1,
        hidden: 64,
        terms: vec![
            ("track_lin_vel".into(), format!("{}", 1.0f64)),
            ("upright".into(), format!("{}", 0.5f64)),
        ],
    }
}

#[test]
fn a_checkpoint_round_trips_with_its_provenance() {
    let m = manifest();
    let m2 = Manifest::from_text(&m.to_text());
    assert_eq!(m2.seed, 7);
    assert_eq!(m2.step, 1_000_000);
    assert_eq!(m2.n_obs, 5);
    assert_eq!(m2.terms.len(), 2);
    assert_eq!(m2.terms[0].0, "track_lin_vel");
    assert!((m2.score.parse::<f64>().unwrap_or(0.0) - 0.812_345).abs() < 1e-6);
    assert_eq!(m2.scene, m.scene);
    assert_eq!(m2.run, m.run);
    assert_eq!((m2.n_act, m2.hidden), (1, 64));
    assert_eq!(m2.terms, m.terms);
}

#[test]
fn a_manifest_is_written_one_field_per_line() {
    assert_eq!(
        manifest().to_text(),
        "run test-run\nscene balance + velocity tracking\nseed 7\nstep 1000000\nscore 0.812345\nshape 5 1 64\nterm track_lin_vel 1\nterm upright 0.5\n"
    );
}

#[test]
fn unknown_and_malformed_lines_keep_their_defaults() {
    let m = Manifest::from_text("future thing\nseed x\nstep\r\n  run   a   b  \nshape 5\nterm\ncomment");
    assert_eq!(m.seed, 0);
    assert_eq!(m.step, 0);
    assert_eq!(m.run, "a b");
    assert_eq!((m.n_obs, m.n_act, m.hidden), (5, 0, 0));
    assert_eq!(m.terms, vec![(String::new(), String::new())]);
    assert_eq!(m.score, "");
    assert_eq!(m.scene, "");
}

#[test]
fn a_later_line_overrides_an_earlier_one() {
    let m = Manifest::from_text("step 5\nstep 9\nscore 0.1 extra\n");
    assert_eq!(m.step, 9);
    assert_eq!(m.score, "0.1");
}

#[test]
fn checkpoints_list_newest_first_ties_in_order_found() {
    assert_eq!(newest_first(&[3, 9, 1, 9, 3]), vec![1, 3, 0, 4, 2]);
    assert_eq!(newest_first(&[]), Vec::<usize>::new());
    assert_eq!(newest_first(&[0]), vec![0]);
}

#[test]
fn a_run_owns_a_directory_under_runs() {
    assert_eq!(run_dir("balance-track-01"), "runs/balance-track-01");
    assert_eq!(run_dir("/abs/run"), "/abs/run");
}
