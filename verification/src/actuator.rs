use vstd::prelude::*;

verus! {

/// The kind of actuator attached to a spring (a muscle).
#[derive(Debug, Clone, Copy, PartialEq, Eq)]
pub enum SpringActuatorType {
    /// Follows the wave to expand and contract, changing the rest length.
    ClassicMuscle,
    /// Follows the wave to tense up and relax, changing the stiffness.
    RelaxationMuscle,
}

/// The kind of actuator attached to a mass (a bladder).
#[derive(Debug, Clone, Copy, PartialEq, Eq)]
pub enum MassActuatorType {
    /// Follows the wave to change the radius of the mass.
    Balloon,
    /// Follows the wave to change the mass itself.
    Tank,
}

} // verus!
