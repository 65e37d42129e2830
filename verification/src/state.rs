//! The run model's words: a run's state, and the labels the rail prints for
//! checkpoints, elapsed time and progress. The metrics themselves are
//! floating point and live with the application.

use vstd::prelude::*;

use crate::text::{decimal, push_padded, push_radix, push_str, zero_pad};

verus! {

/// Where a run is in its life.
#[derive(Clone, Copy, Debug, PartialEq, Eq, Structural)]
pub enum RunState {
    Training,
    Stopped,
    Trained,
    Validated,
    Failed,
}

pub open spec fn label_of(s: RunState) -> Seq<char> {
    match s {
        RunState::Training => seq!['t', 'r', 'a', 'i', 'n', 'i', 'n', 'g'],
        RunState::Stopped => seq!['s', 't', 'o', 'p', 'p', 'e', 'd'],
        RunState::Trained => seq!['t', 'r', 'a', 'i', 'n', 'e', 'd'],
        RunState::Validated => seq!['v', 'a', 'l', 'i', 'd', 'a', 't', 'e', 'd'],
        RunState::Failed => seq!['f', 'a', 'i', 'l', 'e', 'd'],
    }
}

impl RunState {
    pub fn label(&self) -> (l: &'static str)
        ensures
            l@ == label_of(*self),
    {
        match self {
            RunState::Training => {
                proof {
                    reveal_strlit("training");
                }
                "training"
            },
            RunState::Stopped => {
                proof {
                    reveal_strlit("stopped");
                }
                "stopped"
            },
            RunState::Trained => {
                proof {
                    reveal_strlit("trained");
                }
                "trained"
            },
            RunState::Validated => {
                proof {
                    reveal_strlit("validated");
                }
                "validated"
            },
            RunState::Failed => {
                proof {
                    reveal_strlit("failed");
                }
                "failed"
            },
        }
    }
}

/// A chip's tone: 0 neutral, 1 ok, 2 warn, 3 stop, 4 accent.
pub open spec fn tone_of(s: RunState) -> u8 {
    match s {
        RunState::Training => 4,
        RunState::Stopped => 0,
        RunState::Trained => 1,
        RunState::Validated => 1,
        RunState::Failed => 3,
    }
}

impl RunState {
    /// The tone of this state's chip.
    pub fn tone(&self) -> (t: u8)
        ensures
            t == tone_of(*self),
    {
        match self {
            RunState::Training => 4,
            RunState::Stopped => 0,
            RunState::Trained => 1,
            RunState::Validated => 1,
            RunState::Failed => 3,
        }
    }
}

/// A robot the app can simulate.
#[derive(Clone, Debug)]
pub struct Robot {
    pub name: String,
    /// Its URDF, relative to the workspace.
    pub urdf: String,
    /// The directory its meshes resolve against.
    pub assets: String,
    /// Movable joints.
    pub dof: u32,
}

/// `ckpt-NNNM`: the step in millions, at least three digits.
pub open spec fn checkpoint_name_of(step: nat) -> Seq<char> {
    seq!['c', 'k', 'p', 't', '-'] + zero_pad(decimal(step / 1_000_000), 3) + seq!['M']
}

/// A checkpoint's display name.
pub fn checkpoint_name(step: u64) -> (s: String)
    ensures
        s@ == checkpoint_name_of(step as nat),
{
    let mut s = String::from_str("ckpt-");
    proof {
        reveal_strlit("ckpt-");
    }
    push_padded(&mut s, step / 1_000_000, 3);
    crate::text::push_char(&mut s, 'M');
    s
}

/// Elapsed time as `MM:SS`, or `H:MM:SS` from an hour on.
pub open spec fn elapsed_label_of(t: nat) -> Seq<char> {
    if t < 3600 {
        zero_pad(decimal(t / 60), 2) + seq![':'] + zero_pad(decimal(t % 60), 2)
    } else {
        decimal(t / 3600) + seq![':'] + zero_pad(decimal((t % 3600) / 60), 2) + seq![':']
            + zero_pad(decimal(t % 60), 2)
    }
}

/// A run's elapsed time, from whole seconds.
pub fn elapsed_label(t: u64) -> (s: String)
    ensures
        s@ == elapsed_label_of(t as nat),
{
    let mut s = String::new();
    if t < 3600 {
        push_padded(&mut s, t / 60, 2);
        crate::text::push_char(&mut s, ':');
        push_padded(&mut s, t % 60, 2);
    } else {
        push_radix(&mut s, t / 3600, 10, false);
        crate::text::push_char(&mut s, ':');
        push_padded(&mut s, (t % 3600) / 60, 2);
        crate::text::push_char(&mut s, ':');
        push_padded(&mut s, t % 60, 2);
    }
    assert(s@ =~= elapsed_label_of(t as nat));
    s
}

/// `SM / TM`: steps done and budgeted, in whole millions.
pub open spec fn steps_label_of(steps: nat, total: nat) -> Seq<char> {
    decimal(steps / 1_000_000) + seq!['M', ' ', '/', ' '] + decimal(total / 1_000_000) + seq!['M']
}

pub fn steps_label(steps: u64, total: u64) -> (s: String)
    ensures
        s@ == steps_label_of(steps as nat, total as nat),
{
    let mut s = String::new();
    push_radix(&mut s, steps / 1_000_000, 10, false);
    push_str(&mut s, "M / ");
    proof {
        reveal_strlit("M / ");
    }
    push_radix(&mut s, total / 1_000_000, 10, false);
    crate::text::push_char(&mut s, 'M');
    assert(s@ =~= steps_label_of(steps as nat, total as nat));
    s
}

} // verus!
