use particle_life::fixed::{Real, UNIT};
use particle_life::metadata::ParticleSimulationMetadata;
use particle_life::organize::{bounce_back, extract, remainder, wrap_around};
use particle_life::params::{EdgeType, ParticleSimulationParams};
use particle_life::particle::Particle;
use particle_life::simulation::ParticleSimulation;
use particle_life::type_data::ParticleTypeData;

const CELL: Real = 100 * UNIT;

fn world(size: [usize; 2], edge_type: EdgeType, types: ParticleTypeData) -> ParticleSimulation {
    ParticleSimulation::new(
        CELL,
        size,
        ParticleSimulationParams { edge_type, prevent_particle_ejecting: true },
        ParticleSimulationMetadata::default(),
        types,
    )
}

fn one_species(attraction: Real) -> ParticleTypeData {
    ParticleTypeData::new_from_fn(1, UNIT, |_| attraction)
}

fn all_particles(sim: &ParticleSimulation) -> Vec<Particle> {
    sim.buckets.data.iter().flatten().copied().collect()
}

fn find(sim: &ParticleSimulation, typ: usize) -> Particle {
    let found: Vec<Particle> = all_particles(sim).into_iter().filter(|p| p.typ == typ).collect();
    assert_eq!(found.len(), 1);
    found[0]
}

fn check_in_order(sim: &ParticleSimulation) {
    let width = sim.buckets.size[0];
    let mut count = 0;
    for (k, bucket) in sim.buckets.data.iter().enumerate() {
        for p in bucket {
            assert_eq!(p.position[0].div_euclid(sim.bucket_size), (k % width) as Real);
            assert_eq!(p.position[1].div_euclid(sim.bucket_size), (k / width) as Real);
            count += 1;
        }
    }
    assert_eq!(sim.metadata.num_particles, count);
    assert!(sim.impulses.data.iter().all(|list| list.is_empty()));
}

#[test]
fn new_world_is_empty() {
    let metadata = ParticleSimulationMetadata {
        num_particles: 9,
        update_id: 3,
        ..ParticleSimulationMetadata::default()
    };
    let sim = ParticleSimulation::new(
        CELL,
        [3, 2],
        ParticleSimulationParams { edge_type: EdgeType::Deleting, prevent_particle_ejecting: false },
        metadata,
        one_species(0),
    );
    assert_eq!(sim.buckets.size, [3, 2]);
    assert_eq!(sim.impulses.size, [3, 2]);
    assert_eq!(sim.buckets.data.len(), 6);
    assert!(all_particles(&sim).is_empty());
    assert_eq!(sim.metadata.num_particles, 0);
    assert_eq!(sim.metadata.update_id, 3);
    assert_eq!(sim.params.edge_type, EdgeType::Deleting);
    assert_eq!(sim.size(), [300 * UNIT, 200 * UNIT]);
}

#[test]
fn position_of_bucket_is_its_near_corner() {
    let sim = world([3, 2], EdgeType::Wrapping, one_species(0));
    assert_eq!(sim.position_of_bucket([0, 0]), [0, 0]);
    assert_eq!(sim.position_of_bucket([2, 1]), [200 * UNIT, 100 * UNIT]);
}

#[test]
fn cell_of_a_position() {
    let sim = world([3, 2], EdgeType::Wrapping, one_species(0));
    assert_eq!(sim.bucket_index_of_position([0, 0]), Some([0, 0]));
    assert_eq!(sim.bucket_index_of_position([CELL - 1, CELL - 1]), Some([0, 0]));
    assert_eq!(sim.bucket_index_of_position([250 * UNIT, 150 * UNIT]), Some([2, 1]));
    assert_eq!(sim.bucket_index_of_position([3 * CELL - 1, 2 * CELL - 1]), Some([2, 1]));
}

#[test]
fn a_position_on_an_edge_belongs_to_the_higher_cell() {
    let sim = world([3, 2], EdgeType::Wrapping, one_species(0));
    assert_eq!(sim.bucket_index_of_position([CELL, 0]), Some([1, 0]));
    assert_eq!(sim.bucket_index_of_position([0, CELL]), Some([0, 1]));
    assert_eq!(sim.bucket_index_of_position([2 * CELL, CELL]), Some([2, 1]));
}

#[test]
fn positions_outside_the_world_have_no_cell() {
    let sim = world([3, 2], EdgeType::Wrapping, one_species(0));
    assert_eq!(sim.bucket_index_of_position([-1, 0]), None);
    assert_eq!(sim.bucket_index_of_position([0, -1]), None);
    assert_eq!(sim.bucket_index_of_position([-1, -1]), None);
    assert_eq!(sim.bucket_index_of_position([3 * CELL, 0]), None);
    assert_eq!(sim.bucket_index_of_position([0, 2 * CELL]), None);
    assert_eq!(sim.bucket_index_of_position([i64::MAX, i64::MAX]), None);
    assert_eq!(sim.bucket_index_of_position([i64::MIN, 5]), None);
}

#[test]
fn insert_puts_the_particle_in_its_cell() {
    let mut sim = world([3, 2], EdgeType::Wrapping, one_species(0));
    let p = Particle::new([250 * UNIT, 150 * UNIT], [1, 2], 0);
    assert_eq!(sim.insert_particle(p), Some(()));
    assert_eq!(sim.metadata.num_particles, 1);
    assert_eq!(sim.buckets.index([2, 1]).len(), 1);
    assert_eq!(sim.buckets.index([2, 1])[0].position, p.position);
    assert_eq!(sim.buckets.index([2, 1])[0].velocity, p.velocity);
    check_in_order(&sim);
}

#[test]
fn insert_outside_the_world_fails_and_changes_nothing() {
    let mut sim = world([3, 2], EdgeType::Wrapping, one_species(0));
    assert_eq!(sim.insert_particle(Particle::new([-1, 5], [0, 0], 0)), None);
    assert_eq!(sim.insert_particle(Particle::new([300 * UNIT, 5], [0, 0], 0)), None);
    assert_eq!(sim.insert_particle(Particle::new([5, 200 * UNIT], [0, 0], 0)), None);
    assert_eq!(sim.metadata.num_particles, 0);
    assert!(all_particles(&sim).is_empty());
}

#[test]
fn clear_removes_every_particle_and_keeps_the_shape() {
    let mut sim = world([3, 2], EdgeType::Wrapping, one_species(0));
    sim.add_random_particles(50);
    assert_eq!(sim.metadata.num_particles, 50);
    sim.clear_particles();
    assert_eq!(sim.metadata.num_particles, 0);
    assert!(all_particles(&sim).is_empty());
    assert_eq!(sim.buckets.size, [3, 2]);
    assert_eq!(sim.buckets.data.len(), 6);
}

#[test]
fn add_random_particles_seeds_inside_the_world() {
    let types = ParticleTypeData::new_random(7, UNIT);
    let mut sim = world([3, 2], EdgeType::Wrapping, types);
    sim.add_random_particles(500);
    assert_eq!(sim.metadata.num_particles, 500);
    let all = all_particles(&sim);
    assert_eq!(all.len(), 500);
    for p in &all {
        assert!(0 <= p.position[0] && p.position[0] < 300 * UNIT);
        assert!(0 <= p.position[1] && p.position[1] < 200 * UNIT);
        assert_eq!(p.velocity, [0, 0]);
        assert!(p.typ < 7);
    }
    assert!(all.iter().any(|p| p.position != all[0].position));
    assert!(all.iter().any(|p| p.typ != all[0].typ));
    assert!(sim.buckets.data.iter().all(|bucket| !bucket.is_empty()));
    check_in_order(&sim);
    sim.add_random_particles(0);
    assert_eq!(sim.metadata.num_particles, 500);
}

#[test]
fn randomize_rewrites_only_species_above() {
    let types = ParticleTypeData::new_random(10, UNIT);
    let mut sim = world([2, 2], EdgeType::Wrapping, types);
    sim.add_random_particles(300);
    let before = all_particles(&sim);
    assert!(before.iter().any(|p| p.typ >= 3));
    sim.type_data = sim.type_data.resize(3);
    sim.randomize_particles_above_type(3);
    let after = all_particles(&sim);
    assert_eq!(after.len(), before.len());
    for (old, new) in before.iter().zip(after.iter()) {
        assert_eq!(new.position, old.position);
        assert_eq!(new.velocity, old.velocity);
        assert!(new.typ < 3);
        if old.typ < 3 {
            assert_eq!(new.typ, old.typ);
        }
    }
    check_in_order(&sim);
    sim.step_simulation();
    check_in_order(&sim);
}

#[test]
fn single_pair_at_two_radii() {
    // Ten apart is two radii exactly, which is not beyond two radii: the
    // pair repels, each by the radius over the squared distance times the way.
    let mut sim = world([2, 2], EdgeType::Wrapping, one_species(UNIT));
    sim.insert_particle(Particle::new([50 * UNIT, 50 * UNIT], [0, 0], 0)).unwrap();
    sim.insert_particle(Particle::new([60 * UNIT, 50 * UNIT], [0, 0], 0)).unwrap();
    sim.step_simulation();
    let mut all = all_particles(&sim);
    all.sort_by_key(|p| p.position[0]);
    assert_eq!(all[0].velocity, [-450_000, 0]);
    assert_eq!(all[1].velocity, [450_000, 0]);
    assert_eq!(all[0].position, [49_750_000, 50 * UNIT]);
    assert_eq!(all[1].position, [60_250_000, 50 * UNIT]);
    assert!(all[0].velocity[0] != 0 && all[1].velocity[0] != 0);
    assert!(all[0].velocity[0].signum() == -all[1].velocity[0].signum());
}

#[test]
fn single_pair_attraction() {
    let mut sim = world([2, 2], EdgeType::Wrapping, one_species(UNIT));
    sim.insert_particle(Particle::new([50 * UNIT, 50 * UNIT], [0, 0], 0)).unwrap();
    sim.insert_particle(Particle::new([70 * UNIT, 50 * UNIT], [0, 0], 0)).unwrap();
    sim.step_simulation();
    let mut all = all_particles(&sim);
    all.sort_by_key(|p| p.position[0]);
    assert_eq!(all[0].velocity, [45_000, 0]);
    assert_eq!(all[1].velocity, [-45_000, 0]);
    assert_eq!(all[0].position, [50_025_000, 50 * UNIT]);
    assert_eq!(all[1].position, [69_975_000, 50 * UNIT]);
    assert!(all[1].position[0] - all[0].position[0] < 20 * UNIT);
    check_in_order(&sim);
}

#[test]
fn asymmetric_pair() {
    // Species 1 draws species 0, and species 0 repels species 1: the first
    // goes toward the second, and the second goes away from the first.
    let types = ParticleTypeData::new_from_fn(2, UNIT, |index: [usize; 2]| {
        if index == [0, 1] {
            UNIT
        } else if index == [1, 0] {
            -UNIT
        } else {
            0
        }
    });
    let mut sim = world([2, 2], EdgeType::Wrapping, types);
    sim.insert_particle(Particle::new([50 * UNIT, 50 * UNIT], [0, 0], 0)).unwrap();
    sim.insert_particle(Particle::new([70 * UNIT, 50 * UNIT], [0, 0], 1)).unwrap();
    sim.step_simulation();
    let a = find(&sim, 0);
    let b = find(&sim, 1);
    assert_eq!(a.velocity, [45_000, 0]);
    assert_eq!(b.velocity, [45_000, 0]);
    assert_eq!(a.position, [50_025_000, 50 * UNIT]);
    assert_eq!(b.position, [70_025_000, 50 * UNIT]);
}

#[test]
fn crossing_between_cells() {
    let mut sim = world([2, 1], EdgeType::Wrapping, one_species(UNIT));
    sim.insert_particle(Particle::new([99_900_000, 50 * UNIT], [UNIT, 0], 0)).unwrap();
    sim.step_simulation();
    assert!(sim.buckets.index([0, 0]).is_empty());
    let moved = sim.buckets.index([1, 0]);
    assert_eq!(moved.len(), 1);
    assert_eq!(moved[0].position, [100_400_000, 50 * UNIT]);
    assert_eq!(moved[0].velocity, [900_000, 0]);
    check_in_order(&sim);
}

#[test]
fn wrapping_crossing() {
    let mut sim = world([2, 1], EdgeType::Wrapping, one_species(UNIT));
    sim.insert_particle(Particle::new([199_900_000, 50 * UNIT], [UNIT, 0], 0)).unwrap();
    sim.step_simulation();
    let back = sim.buckets.index([0, 0]);
    assert_eq!(back.len(), 1);
    assert_eq!(back[0].position, [400_000, 50 * UNIT]);
    assert!(0 <= back[0].position[0] && back[0].position[0] < UNIT);
    assert!(sim.buckets.index([1, 0]).is_empty());
    assert_eq!(sim.metadata.num_particles, 1);
    check_in_order(&sim);
}

#[test]
fn wrapping_crossing_in_a_world_of_one_cell() {
    let mut sim = world([1, 1], EdgeType::Wrapping, one_species(UNIT));
    sim.insert_particle(Particle::new([99_900_000, 50 * UNIT], [UNIT, 0], 0)).unwrap();
    sim.step_simulation();
    let back = sim.buckets.index([0, 0]);
    assert_eq!(back.len(), 1);
    assert_eq!(back[0].position, [400_000, 50 * UNIT]);
    check_in_order(&sim);
}

#[test]
fn wrapping_crossing_below_zero() {
    let mut sim = world([2, 2], EdgeType::Wrapping, one_species(UNIT));
    sim.insert_particle(Particle::new([100_000, 50 * UNIT], [-UNIT, -200 * UNIT], 0)).unwrap();
    sim.step_simulation();
    let all = all_particles(&sim);
    assert_eq!(all.len(), 1);
    assert_eq!(all[0].position, [199_600_000, 150 * UNIT]);
    assert_eq!(sim.buckets.index([1, 1]).len(), 1);
    check_in_order(&sim);
}

#[test]
fn forces_reach_across_a_wrapping_edge() {
    // 195 and 15 are 20 apart round the world, and 180 the long way.
    let mut sim = world([2, 1], EdgeType::Wrapping, one_species(UNIT));
    sim.insert_particle(Particle::new([195 * UNIT, 50 * UNIT], [0, 0], 0)).unwrap();
    sim.insert_particle(Particle::new([15 * UNIT, 50 * UNIT], [0, 0], 0)).unwrap();
    sim.step_simulation();
    let mut all = all_particles(&sim);
    all.sort_by_key(|p| p.position[0]);
    assert_eq!(all[0].velocity, [-45_000, 0]);
    assert_eq!(all[1].velocity, [45_000, 0]);
    assert_eq!(all[0].position, [14_975_000, 50 * UNIT]);
    assert_eq!(all[1].position, [195_025_000, 50 * UNIT]);
}

#[test]
fn forces_stop_at_an_edge_that_does_not_wrap() {
    for edge in [EdgeType::Deleting, EdgeType::Bouncing { multiplier: UNIT, pushback: 0 }] {
        let mut sim = world([3, 1], edge, one_species(UNIT));
        sim.insert_particle(Particle::new([295 * UNIT, 50 * UNIT], [0, 0], 0)).unwrap();
        sim.insert_particle(Particle::new([15 * UNIT, 50 * UNIT], [0, 0], 0)).unwrap();
        sim.step_simulation();
        for p in all_particles(&sim) {
            assert_eq!(p.velocity, [0, 0]);
        }
        assert_eq!(sim.metadata.num_particles, 2);
    }
}

#[test]
fn forces_come_from_all_eight_cells_around() {
    let offsets: [[Real; 2]; 8] =
        [[-1, 1], [0, 1], [1, 1], [-1, 0], [1, 0], [-1, -1], [0, -1], [1, -1]];
    for offset in offsets {
        let mut sim = world([3, 3], EdgeType::Deleting, ParticleTypeData::new_from_fn(
            2,
            UNIT,
            |index: [usize; 2]| if index == [0, 1] { UNIT } else { 0 },
        ));
        let middle = [150 * UNIT, 150 * UNIT];
        let other = [middle[0] + 60 * offset[0] * UNIT, middle[1] + 60 * offset[1] * UNIT];
        sim.insert_particle(Particle::new(middle, [0, 0], 0)).unwrap();
        sim.insert_particle(Particle::new(other, [0, 0], 1)).unwrap();
        sim.step_simulation();
        let drawn = find(&sim, 0);
        let still = find(&sim, 1);
        assert_eq!(still.velocity, [0, 0]);
        assert_eq!(drawn.velocity[0].signum(), offset[0]);
        assert_eq!(drawn.velocity[1].signum(), offset[1]);
    }
}

#[test]
fn bouncing_pushback() {
    let edge = EdgeType::Bouncing { multiplier: 0, pushback: 2_500_000 };
    let mut sim = world([2, 2], edge, one_species(UNIT));
    sim.insert_particle(Particle::new([0, 50 * UNIT], [-3 * UNIT, 0], 0)).unwrap();
    sim.step_simulation();
    let all = all_particles(&sim);
    assert_eq!(all.len(), 1);
    assert_eq!(all[0].position, [0, 50 * UNIT]);
    assert_eq!(all[0].velocity, [2_500_000, 0]);
    assert_eq!(sim.metadata.num_particles, 1);
}

#[test]
fn bouncing_at_the_far_edge_keeps_a_margin() {
    let edge = EdgeType::Bouncing { multiplier: 500_000, pushback: UNIT };
    let mut sim = world([2, 2], edge, one_species(UNIT));
    sim.insert_particle(Particle::new([199 * UNIT, 199 * UNIT], [4 * UNIT, 10 * UNIT], 0)).unwrap();
    sim.step_simulation();
    let all = all_particles(&sim);
    assert_eq!(all.len(), 1);
    assert_eq!(all[0].position, [200 * UNIT - 10, 200 * UNIT - 10]);
    // Damped to 3.6 and 9, then halved and pushed back by one, inward.
    assert_eq!(all[0].velocity, [-2_800_000, -5_500_000]);
    check_in_order(&sim);
}

#[test]
fn delete_on_exit() {
    let mut sim = world([2, 2], EdgeType::Deleting, one_species(UNIT));
    sim.insert_particle(Particle::new([100_000, 50 * UNIT], [-10 * UNIT, 0], 0)).unwrap();
    sim.insert_particle(Particle::new([150 * UNIT, 150 * UNIT], [0, 0], 0)).unwrap();
    assert_eq!(sim.metadata.num_particles, 2);
    sim.step_simulation();
    assert_eq!(sim.metadata.num_particles, 1);
    let all = all_particles(&sim);
    assert_eq!(all.len(), 1);
    assert_eq!(all[0].position, [150 * UNIT, 150 * UNIT]);
}

#[test]
fn wrapping_and_bouncing_keep_the_population() {
    let edges =
        [EdgeType::Wrapping, EdgeType::Bouncing { multiplier: UNIT, pushback: 2_500_000 }];
    for edge in edges {
        let mut sim = world([3, 2], edge, ParticleTypeData::new_random(5, 5 * UNIT));
        sim.add_random_particles(400);
        for p in sim.buckets.data.iter_mut().flatten() {
            p.velocity = [(p.position[1] % 61) * UNIT - 30 * UNIT, (p.position[0] % 47) * UNIT - 23 * UNIT];
        }
        for _ in 0..30 {
            sim.step_simulation();
            assert_eq!(sim.metadata.num_particles, 400);
            check_in_order(&sim);
        }
    }
}

#[test]
fn deleting_never_raises_the_population() {
    let mut sim = world([3, 2], EdgeType::Deleting, ParticleTypeData::new_random(5, 5 * UNIT));
    sim.add_random_particles(400);
    for p in sim.buckets.data.iter_mut().flatten() {
        p.velocity = [(p.position[1] % 61) * UNIT - 30 * UNIT, (p.position[0] % 47) * UNIT - 23 * UNIT];
    }
    let mut last = 400;
    for _ in 0..30 {
        sim.step_simulation();
        assert!(sim.metadata.num_particles <= last);
        last = sim.metadata.num_particles;
        check_in_order(&sim);
    }
    assert!(last < 400);
}

#[test]
fn deleting_counts_each_particle_that_left() {
    let mut sim = world([2, 2], EdgeType::Deleting, one_species(0));
    let moves: [([Real; 2], [Real; 2]); 5] = [
        ([UNIT, UNIT], [-4 * UNIT, 0]),
        ([199 * UNIT, UNIT], [4 * UNIT, 0]),
        ([UNIT, 199 * UNIT], [0, 4 * UNIT]),
        ([100 * UNIT, 100 * UNIT], [4 * UNIT, 4 * UNIT]),
        ([50 * UNIT, 150 * UNIT], [200 * UNIT, 0]),
    ];
    for (position, velocity) in moves {
        sim.insert_particle(Particle::new(position, velocity, 0)).unwrap();
    }
    sim.step_simulation();
    assert_eq!(sim.metadata.num_particles, 2);
    let mut all = all_particles(&sim);
    all.sort_by_key(|p| p.position[0]);
    assert_eq!(all[0].position, [102 * UNIT, 102 * UNIT]);
    assert_eq!(all[1].position, [150 * UNIT, 150 * UNIT]);
    check_in_order(&sim);
}

#[test]
fn a_step_clears_the_impulses() {
    let mut sim = world([2, 2], EdgeType::Wrapping, one_species(UNIT));
    sim.add_random_particles(40);
    sim.move_particles();
    assert!(sim.impulses.data.iter().all(|list| list.is_empty()));
    sim.organize_particles();
    check_in_order(&sim);
}

#[test]
fn extract_takes_out_what_is_not_in_the_cell() {
    let inside = Particle::new([150 * UNIT, 250 * UNIT], [0, 0], 0);
    let on_edge = Particle::new([200 * UNIT, 250 * UNIT], [0, 0], 1);
    let near_edge = Particle::new([100 * UNIT, 200 * UNIT], [0, 0], 2);
    let below = Particle::new([150 * UNIT, 200 * UNIT - 1], [0, 0], 3);
    let mut bucket = vec![on_edge, inside, below, near_edge];
    // Cell 7 of a grid three wide is the cell (1, 2).
    let out = extract(&mut bucket, 7, 3, CELL);
    let kept: Vec<usize> = bucket.iter().map(|p| p.typ).collect();
    let taken: Vec<usize> = out.iter().map(|p| p.typ).collect();
    assert_eq!(kept, vec![0, 2]);
    assert_eq!(taken, vec![1, 3]);
}

#[test]
fn remainder_is_never_negative() {
    assert_eq!(remainder(7, 5), 2);
    assert_eq!(remainder(-7, 5), 3);
    assert_eq!(remainder(-5, 5), 0);
    assert_eq!(remainder(0, 5), 0);
    assert_eq!(remainder(-1, 200 * UNIT), 200 * UNIT - 1);
    assert_eq!(remainder(i64::MIN, 10), 2);
}

#[test]
fn wrap_around_and_bounce_back() {
    let size = [200 * UNIT, 100 * UNIT];
    let p = Particle::new([-UNIT, 250 * UNIT], [3, 4], 2);
    let wrapped = wrap_around(p, size);
    assert_eq!(wrapped.position, [199 * UNIT, 50 * UNIT]);
    assert_eq!(wrapped.velocity, [3, 4]);
    assert_eq!(wrapped.typ, 2);
    let p = Particle::new([-UNIT, 250 * UNIT], [-2 * UNIT, 4 * UNIT], 2);
    let bounced = bounce_back(p, size, 500_000, 250_000);
    assert_eq!(bounced.position, [0, 100 * UNIT - 10]);
    assert_eq!(bounced.velocity, [1_250_000, -2_250_000]);
    let p = Particle::new([UNIT, 250 * UNIT], [-2 * UNIT, -4 * UNIT], 2);
    let bounced = bounce_back(p, size, UNIT, 0);
    assert_eq!(bounced.position, [UNIT, 100 * UNIT - 10]);
    assert_eq!(bounced.velocity, [-2 * UNIT, -4 * UNIT]);
}

#[test]
fn wrap_equivalence() {
    let size = [200 * UNIT, 100 * UNIT];
    let starts: [([Real; 2], [Real; 2], [Real; 2]); 4] = [
        ([199_900_000, 50 * UNIT], [UNIT, 0], [0, 0]),
        ([100_000, 99 * UNIT], [-3 * UNIT, 7 * UNIT], [250_000, -125_000]),
        ([0, 0], [-1, -1], [0, 0]),
        ([150 * UNIT, 20 * UNIT], [500 * UNIT, -900 * UNIT], [UNIT, UNIT]),
    ];
    for (position, velocity, impulse) in starts {
        let mut here = Particle::new(position, velocity, 0);
        here.apply_velocity(impulse);
        for (kx, ky) in [(1, 1), (-1, 2), (3, -4)] {
            let mut there = Particle::new(
                [position[0] + kx * size[0], position[1] + ky * size[1]],
                velocity,
                0,
            );
            there.apply_velocity(impulse);
            assert_eq!(wrap_around(there, size).position, wrap_around(here, size).position);
            assert_eq!(wrap_around(there, size).velocity, wrap_around(here, size).velocity);
        }
    }
}

#[test]
fn wrap_equivalence_of_whole_grids() {
    let mut here = world([3, 2], EdgeType::Wrapping, ParticleTypeData::new_random(5, 5 * UNIT));
    here.add_random_particles(300);
    for p in here.buckets.data.iter_mut().flatten() {
        p.velocity = [(p.position[1] % 61) * UNIT - 30 * UNIT, (p.position[0] % 47) * UNIT - 23 * UNIT];
    }
    here.move_particles();
    for (kx, ky) in [(1, 1), (-2, 1), (0, -3)] {
        let mut there = here.clone();
        for p in there.buckets.data.iter_mut().flatten() {
            p.position = [p.position[0] + kx * 300 * UNIT, p.position[1] + ky * 200 * UNIT];
        }
        let mut home = here.clone();
        home.organize_particles();
        there.organize_particles();
        check_in_order(&there);
        assert_eq!(there.metadata.num_particles, 300);
        for (a, b) in home.buckets.data.iter().zip(there.buckets.data.iter()) {
            let mut a: Vec<_> = a.iter().map(|p| (p.position, p.velocity, p.typ)).collect();
            let mut b: Vec<_> = b.iter().map(|p| (p.position, p.velocity, p.typ)).collect();
            a.sort();
            b.sort();
            assert_eq!(a, b);
        }
    }
}

#[test]
fn receive_takes_newer_copies_only() {
    let mut ui = world([2, 2], EdgeType::Wrapping, one_species(0));
    ui.metadata.update_id = 4;
    let copy = |update_id: u64, particles: usize| {
        let mut sim = world([2, 2], EdgeType::Wrapping, one_species(0));
        sim.add_random_particles(particles);
        sim.metadata.update_id = update_id;
        sim
    };
    assert!(ui.receive(copy(5, 50)));
    assert_eq!(ui.metadata.num_particles, 50);
    assert!(ui.receive(copy(7, 70)));
    assert!(!ui.receive(copy(6, 60)));
    assert_eq!(ui.metadata.update_id, 7);
    assert_eq!(ui.metadata.num_particles, 70);
    assert_eq!(all_particles(&ui).len(), 70);
    assert!(ui.receive(copy(7, 71)));
    assert_eq!(ui.metadata.num_particles, 71);
}
