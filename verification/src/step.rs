use vstd::prelude::*;

verus! {

/// What a simulation step does with one mass once the forces are applied.
#[derive(Debug, Clone, Copy, PartialEq, Eq)]
pub enum MassStep {
    /// A fixed mass is left where it is.
    Skip,
    /// A held mass keeps its position and loses its velocity.
    Hold,
    /// A paused simulation stops the step here: forces were only computed for display.
    Stop,
    /// The mass goes through boundary collisions and Verlet integration.
    Integrate,
}

/// Decides what a simulation step does with a mass: fixed masses are skipped,
/// held ones are held in place, and otherwise a paused step stops, while a
/// running step integrates the mass.
pub fn mass_step(fixed: bool, held: bool, paused: bool) -> (r: MassStep)
    ensures
        fixed ==> r == MassStep::Skip,
        !fixed && held ==> r == MassStep::Hold,
        !fixed && !held && paused ==> r == MassStep::Stop,
        !fixed && !held && !paused ==> r == MassStep::Integrate,
{
    if fixed {
        MassStep::Skip
    } else if held {
        MassStep::Hold
    } else if paused {
        MassStep::Stop
    } else {
        MassStep::Integrate
    }
}

} // verus!
