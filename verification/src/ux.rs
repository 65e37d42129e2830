//! The console's navigation: its six screens and the captions the rail shows.

use vstd::prelude::*;

verus! {

/// The six destinations, in the order the operator's questions arrive.
#[derive(Clone, Copy, Debug, PartialEq, Eq)]
pub enum Screen {
    Runs,
    Scene,
    Task,
    Train,
    Inspect,
    Validate,
}

/// The caption of a screen on the rail.
pub open spec fn screen_label_of(s: Screen) -> Seq<char> {
    match s {
        Screen::Runs => "Runs"@,
        Screen::Scene => "Scene"@,
        Screen::Task => "Task"@,
        Screen::Train => "Train"@,
        Screen::Inspect => "Inspect"@,
        Screen::Validate => "Validate"@,
    }
}

impl Screen {
    pub fn label(&self) -> (l: &'static str)
        ensures
            l@ == screen_label_of(*self),
    {
        match self {
            Screen::Runs => "Runs",
            Screen::Scene => "Scene",
            Screen::Task => "Task",
            Screen::Train => "Train",
            Screen::Inspect => "Inspect",
            Screen::Validate => "Validate",
        }
    }
}

} // verus!
