//! The training loop's interface: the run it writes under, how it is told to
//! stop, and what it reports each interval. The loop itself (floating-point
//! learning) lives with the application.

use vstd::prelude::*;

verus! {

/// The run the built-in trainer writes its checkpoints under.
pub const RUN_ID: &'static str = "balance-track-01";

/// What a console can ask of a running trainer.
pub enum Cmd {
    Stop,
}

/// One training interval as the stream reports it: the step count, and each
/// measure already rendered at the fixed precision the stream uses — reward,
/// fall rate and the reward terms at five places, episode length at two,
/// throughput at one. A measure that was not finite renders as text that is
/// not a JSON number (`NaN`, `inf`).
pub struct SampleText {
    pub step: u64,
    pub reward: String,
    pub fall_rate: String,
    pub episode_len: String,
    pub steps_per_sec: String,
    /// Positional: value `i` belongs to `env::TERM_NAMES[i]`.
    pub terms: Vec<String>,
}

} // verus!
