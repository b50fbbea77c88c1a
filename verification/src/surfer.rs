//! River surfer: the phases and per-frame events of a hoverbike run down a river.
use vstd::prelude::*;

verus! {

#[derive(Debug, Clone, Copy, PartialEq, Eq, Structural)]
pub enum SurferPhase {
    Riding,
    /// Crossed the finish gate.
    Finished,
    /// Beached on a bank or wrapped around a rock.
    Crashed,
}

impl SurferPhase {
    /// The status-line word for the phase.
    pub fn label(self) -> (text: &'static str)
        ensures
            self == SurferPhase::Riding ==> text@ == "RIDING"@,
            self == SurferPhase::Finished ==> text@ == "FINISHED"@,
            self == SurferPhase::Crashed ==> text@ == "WRECKED"@,
    {
        match self {
            SurferPhase::Riding => "RIDING",
            SurferPhase::Finished => "FINISHED",
            SurferPhase::Crashed => "WRECKED",
        }
    }
}

/// What one frame produced, for sound and labels.
#[derive(Debug, Clone, Copy, Default, PartialEq, Eq, Structural)]
pub struct SurferEvents {
    pub boosted: bool,
    pub banked: bool,
    pub hit_rock: bool,
    pub finished: bool,
}

} // verus!
