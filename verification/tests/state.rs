use dorobot_nexus::state::{checkpoint_name, elapsed_label, steps_label, RunState};
use dorobot_nexus::ux::Screen;

#[test]
fn run_states_have_lower_case_labels() {
    assert_eq!(RunState::Training.label(), "training");
    assert_eq!(RunState::Stopped.label(), "stopped");
    assert_eq!(RunState::Trained.label(), "trained");
    assert_eq!(RunState::Validated.label(), "validated");
    assert_eq!(RunState::Failed.label(), "failed");
}

#[test]
fn a_checkpoint_is_named_by_its_step_in_millions() {
    assert_eq!(checkpoint_name(1_000_000), "ckpt-001M");
    assert_eq!(checkpoint_name(999_999), "ckpt-000M");
    assert_eq!(checkpoint_name(12_345_000_000), "ckpt-12345M");
}

#[test]
fn elapsed_time_gains_hours_only_from_an_hour_on() {
    assert_eq!(elapsed_label(0), "00:00");
    assert_eq!(elapsed_label(3599), "59:59");
    assert_eq!(elapsed_label(3600), "1:00:00");
    assert_eq!(elapsed_label(40_000), "11:06:40");
}

#[test]
fn progress_is_in_whole_millions() {
    assert_eq!(steps_label(2_500_000, 10_000_000), "2M / 10M");
    assert_eq!(steps_label(0, 0), "0M / 0M");
}

#[test]
fn the_rail_captions_each_screen() {
    let all = [Screen::Runs, Screen::Scene, Screen::Task, Screen::Train, Screen::Inspect, Screen::Validate];
    let labels: Vec<&str> = all.iter().map(|s| s.label()).collect();
    assert_eq!(labels, ["Runs", "Scene", "Task", "Train", "Inspect", "Validate"]);
}

#[test]
fn run_state_chips_have_tones() {
    assert_eq!(RunState::Training.tone(), 4);
    assert_eq!(RunState::Stopped.tone(), 0);
    assert_eq!(RunState::Trained.tone(), 1);
    assert_eq!(RunState::Validated.tone(), 1);
    assert_eq!(RunState::Failed.tone(), 3);
}
