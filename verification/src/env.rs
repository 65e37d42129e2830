//! The vectorised environment's configuration that is not physics.

use vstd::prelude::*;

verus! {

/// The reward terms, in the order a sample carries their values.
pub const TERM_NAMES: [&'static str; 4] = ["track_lin_vel", "upright", "action_rate", "torque"];

/// The reward term names as text.
pub open spec fn term_names_of() -> Seq<Seq<char>> {
    seq![
        "track_lin_vel"@,
        "upright"@,
        "action_rate"@,
        "torque"@,
    ]
}

/// Which numerical integrator steps the dynamics. Sim-to-sim runs one policy
/// under both and compares what it achieves.
#[derive(Clone, Copy, Debug, PartialEq, Eq)]
pub enum Integrator {
    /// Semi-implicit Euler: the training integrator.
    Euler,
    /// Fourth-order Runge–Kutta: the reference.
    Rk4,
}

} // verus!
