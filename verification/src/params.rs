//! What a simulation is told about its edges and its forces.

use vstd::prelude::*;

use crate::fixed::Real;

verus! {

/// What becomes of a particle that leaves the world.
#[derive(Clone, Copy, Debug, PartialEq, Eq, Structural)]
pub enum EdgeType {
    /// It comes back in on the opposite side.
    Wrapping,
    /// It is put back at the edge it crossed and sent inward, at its speed
    /// times `multiplier`, plus `pushback`.
    Bouncing { multiplier: Real, pushback: Real },
    /// It is removed.
    Deleting,
}

/// The settings of a simulation.
#[derive(Clone, Copy, Debug)]
pub struct ParticleSimulationParams {
    pub edge_type: EdgeType,
    /// Whether particles closer than one unit push each other apart with a
    /// force that stays bounded as they approach.
    pub prevent_particle_ejecting: bool,
}

} // verus!
