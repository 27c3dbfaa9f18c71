//! Worlds as they are first set up: a hundred units to the cell, twenty-five
//! species, and particles strewn at a given density.

use vstd::prelude::*;

use crate::fixed::{clamp, saturate, Real, LIMIT, UNIT};
use crate::metadata::ParticleSimulationMetadata;
use crate::params::{EdgeType, ParticleSimulationParams};
use crate::particle::Particle;
use crate::simulation::ParticleSimulation;
use crate::type_data::ParticleTypeData;

verus! {

/// The width of a cell: a hundred.
pub const DEFAULT_BUCKET_SIZE: Real = 100_000_000;

/// The number of species.
pub const DEFAULT_TYPES: usize = 25;

/// The scale of the attractions: five.
pub const DEFAULT_ATTRACTION_SCALE: Real = 5_000_000;

/// The particles to a unit of area: four thousandths.
pub const PARTICLE_DENSITY: Real = 4_000;

/// The most cells along one axis for which the world is no larger than the
/// greatest real number.
pub const MAX_BUCKETS: usize = 10_000;

/// The number of particles that fill a world `width` by `height` to
/// `density` particles to the unit of area, rounded down, and no more than
/// can be counted.
pub open spec fn population(width: int, height: int, density: int) -> int {
    if density <= 0 || width <= 0 || height <= 0 {
        0
    } else {
        let full = (width * height * clamp(density)) / (UNIT * UNIT * UNIT);
        if full > usize::MAX {
            usize::MAX as int
        } else {
            full
        }
    }
}

/// A grid of `count` empty cells.
pub open spec fn empty_cells(count: nat) -> Seq<Seq<Particle>> {
    Seq::new(count, |k: int| Seq::empty())
}

/// The number of particles that fill a world of the given size to `density`.
pub fn population_of(size: [Real; 2], density: Real) -> (count: usize)
    requires
        0 <= size[0] <= LIMIT,
        0 <= size[1] <= LIMIT,
    ensures
        count == population(size[0] as int, size[1] as int, density as int),
{
    if density <= 0 || size[0] <= 0 || size[1] <= 0 {
        return 0;
    }
    let thick: i128 = saturate(density as i128) as i128;
    proof {
        assert(0 <= size[0] * size[1] <= 1_000_000_000_000_000_000_000_000) by (nonlinear_arith)
            requires
                0 <= size[0] <= 1_000_000_000_000,
                0 <= size[1] <= 1_000_000_000_000,
        ;
    }
    let area: i128 = (size[0] as i128) * (size[1] as i128);
    proof {
        assert(0 <= area * thick <= 1_000_000_000_000_000_000_000_000_000_000_000_000)
            by (nonlinear_arith)
            requires
                0 <= area <= 1_000_000_000_000_000_000_000_000,
                0 <= thick <= 1_000_000_000_000,
        ;
        assert(UNIT * UNIT * UNIT == 1_000_000_000_000_000_000);
    }
    let full: i128 = (area * thick) / 1_000_000_000_000_000_000;
    if full > usize::MAX as i128 {
        usize::MAX
    } else {
        full as usize
    }
}

/// Empties the world and strews particles over it to `density` particles
/// to the unit of area.
pub fn fill_simulation_with_particles(particle_simulation: &mut ParticleSimulation, density: Real)
    requires
        old(particle_simulation).wf(),
        old(particle_simulation).type_data.count() >= 1,
    ensures
        final(particle_simulation).wf(),
        final(particle_simulation).species_known(),
        final(particle_simulation).metadata == (ParticleSimulationMetadata {
            num_particles: population(
                old(particle_simulation).world_width(),
                old(particle_simulation).world_height(),
                density as int,
            ) as usize,
            ..old(particle_simulation).metadata
        }),
        old(particle_simulation).seeded_from(
            empty_cells(old(particle_simulation).cells().len()),
            final(particle_simulation).metadata.num_particles as int,
            final(particle_simulation).cells(),
        ),
        final(particle_simulation).buckets.size == old(particle_simulation).buckets.size,
        final(particle_simulation).bucket_size == old(particle_simulation).bucket_size,
        final(particle_simulation).type_data == old(particle_simulation).type_data,
        final(particle_simulation).params == old(particle_simulation).params,
{
    particle_simulation.clear_particles();
    let ghost cleared = *particle_simulation;
    proof {
        assert forall|k: int| 0 <= k < cleared.cells().len() implies #[trigger] cleared.cells()[k]
            =~= Seq::<Particle>::empty() by {}
        assert(cleared.cells() =~= empty_cells(old(particle_simulation).cells().len()));
    }
    let size: [Real; 2] = particle_simulation.size();
    proof {
        assert(0 <= size[0]) by (nonlinear_arith)
            requires
                size[0] == particle_simulation.buckets.width() * particle_simulation.bucket_size,
                particle_simulation.buckets.width() >= 1,
                particle_simulation.bucket_size >= 1,
        ;
        assert(0 <= size[1]) by (nonlinear_arith)
            requires
                size[1] == particle_simulation.buckets.height() * particle_simulation.bucket_size,
                particle_simulation.buckets.height() >= 1,
                particle_simulation.bucket_size >= 1,
        ;
    }
    let particle_count: usize = population_of(size, density);
    particle_simulation.add_random_particles(particle_count);
    proof {
        let list = choose|list: Seq<Particle>|
            list.len() == particle_count && #[trigger] cleared.seeds(list)
                && particle_simulation.cells() == crate::organize::placed_all(
                cleared.cells(),
                cleared.bucket_size as int,
                cleared.buckets.width(),
                cleared.buckets.height(),
                cleared.params.edge_type,
                list,
            );
        assert(old(particle_simulation).seeds(list));
    }
}

/// Strews particles over the world until it holds as many as fill it to
/// `density`. A world that holds as many or more is left as it is.
pub fn top_up_simulation(particle_simulation: &mut ParticleSimulation, density: Real)
    requires
        old(particle_simulation).wf(),
        old(particle_simulation).type_data.count() >= 1,
    ensures
        final(particle_simulation).wf(),
        old(particle_simulation).species_known() ==> final(particle_simulation).species_known(),
        final(particle_simulation).metadata == (ParticleSimulationMetadata {
            num_particles: if population(
                old(particle_simulation).world_width(),
                old(particle_simulation).world_height(),
                density as int,
            ) > old(particle_simulation).metadata.num_particles {
                population(
                    old(particle_simulation).world_width(),
                    old(particle_simulation).world_height(),
                    density as int,
                ) as usize
            } else {
                old(particle_simulation).metadata.num_particles
            },
            ..old(particle_simulation).metadata
        }),
        old(particle_simulation).seeded_from(
            old(particle_simulation).cells(),
            final(particle_simulation).metadata.num_particles - old(
                particle_simulation,
            ).metadata.num_particles,
            final(particle_simulation).cells(),
        ),
        final(particle_simulation).buckets.size == old(particle_simulation).buckets.size,
        final(particle_simulation).bucket_size == old(particle_simulation).bucket_size,
        final(particle_simulation).type_data == old(particle_simulation).type_data,
        final(particle_simulation).params == old(particle_simulation).params,
{
    let size: [Real; 2] = particle_simulation.size();
    proof {
        assert(0 <= size[0]) by (nonlinear_arith)
            requires
                size[0] == particle_simulation.buckets.width() * particle_simulation.bucket_size,
                particle_simulation.buckets.width() >= 1,
                particle_simulation.bucket_size >= 1,
        ;
        assert(0 <= size[1]) by (nonlinear_arith)
            requires
                size[1] == particle_simulation.buckets.height() * particle_simulation.bucket_size,
                particle_simulation.buckets.height() >= 1,
                particle_simulation.bucket_size >= 1,
        ;
    }
    let particle_count: usize = population_of(size, density);
    let held: usize = particle_simulation.metadata.num_particles;
    let missing: usize = if particle_count > held {
        particle_count - held
    } else {
        0
    };
    particle_simulation.add_random_particles(missing);
}

/// A world of `size[0]` by `size[1]` cells that wraps round, with random
/// attractions among twenty-five species, and with particles strewn over it
/// to `density` where that is more than nothing.
pub fn simulation_from_size(size: [usize; 2], density: Real) -> (particle_simulation:
    ParticleSimulation)
    requires
        1 <= size[0] <= MAX_BUCKETS,
        1 <= size[1] <= MAX_BUCKETS,
    ensures
        particle_simulation.wf(),
        particle_simulation.species_known(),
        particle_simulation.type_data.wf(),
        particle_simulation.type_data.count() == DEFAULT_TYPES,
        particle_simulation.type_data.scale() == DEFAULT_ATTRACTION_SCALE,
        particle_simulation.type_data.base_within_unit(),
        particle_simulation.buckets.size == size,
        particle_simulation.bucket_size == DEFAULT_BUCKET_SIZE,
        particle_simulation.params.edge_type == EdgeType::Wrapping,
        particle_simulation.params.prevent_particle_ejecting,
        particle_simulation.metadata == (ParticleSimulationMetadata {
            is_active: true,
            steps: 0,
            total_time: None,
            tick_time: None,
            send_time: None,
            tps_limit: Some(crate::metadata::DEFAULT_TPS_LIMIT),
            update_id: 0,
            num_particles: population(
                size[0] * DEFAULT_BUCKET_SIZE,
                size[1] * DEFAULT_BUCKET_SIZE,
                density as int,
            ) as usize,
        }),
{
    let bucket_size: Real = 100_000_000;
    proof {
        assert(size[0] * size[1] <= usize::MAX) by (nonlinear_arith)
            requires
                size[0] <= 10_000,
                size[1] <= 10_000,
        ;
    }
    let mut particle_simulation = ParticleSimulation::new(
        bucket_size,
        size,
        ParticleSimulationParams { edge_type: EdgeType::Wrapping, prevent_particle_ejecting: true },
        ParticleSimulationMetadata::default(),
        ParticleTypeData::new_random(25, 5_000_000),
    );
    if density > 0 {
        fill_simulation_with_particles(&mut particle_simulation, density);
    }
    particle_simulation
}

/// A world of thirty by twenty cells, filled to the usual density.
pub fn new_simulation() -> (particle_simulation: ParticleSimulation)
    ensures
        particle_simulation.wf(),
        particle_simulation.species_known(),
        particle_simulation.type_data.wf(),
        particle_simulation.buckets.size[0] == 30,
        particle_simulation.buckets.size[1] == 20,
        particle_simulation.metadata.num_particles == 24_000,
{
    let particle_simulation = simulation_from_size([30, 20], 4_000);
    proof {
        assert(population(30 * DEFAULT_BUCKET_SIZE, 20 * DEFAULT_BUCKET_SIZE, 4_000) == 24_000)
            by (nonlinear_arith)
            requires
                UNIT == 1_000_000,
                DEFAULT_BUCKET_SIZE == 100_000_000,
                LIMIT == 1_000_000_000_000,
                usize::MAX >= 0xffff_ffff,
        ;
    }
    particle_simulation
}

} // verus!
