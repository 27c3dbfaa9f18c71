use particle_life::fixed::UNIT;
use particle_life::metadata::ParticleSimulationMetadata;
use particle_life::params::{EdgeType, ParticleSimulationParams};
use particle_life::particle::Particle;
use particle_life::render::{is_bright, sort_by_type};
use particle_life::simulation::ParticleSimulation;
use particle_life::type_data::ParticleTypeData;

fn small_world(types: usize) -> ParticleSimulation {
    ParticleSimulation::new(
        100 * UNIT,
        [3, 2],
        ParticleSimulationParams { edge_type: EdgeType::Wrapping, prevent_particle_ejecting: true },
        ParticleSimulationMetadata::default(),
        ParticleTypeData::new_from_fn(types, UNIT, |_| 0),
    )
}

#[test]
fn sort_by_type_groups_species_and_keeps_their_order() {
    let species = [2usize, 0, 1, 2, 0, 0, 1];
    let particles: Vec<Particle> = species
        .iter()
        .enumerate()
        .map(|(i, typ)| Particle::new([i as i64, 0], [0, 0], *typ))
        .collect();
    let sorted = sort_by_type(&particles, 3);
    let order: Vec<(usize, i64)> = sorted.iter().map(|p| (p.typ, p.position[0])).collect();
    assert_eq!(order, vec![(0, 1), (0, 4), (0, 5), (1, 2), (1, 6), (2, 0), (2, 3)]);
}

#[test]
fn sort_by_type_of_nothing_is_nothing() {
    assert!(sort_by_type(&Vec::new(), 5).is_empty());
    assert!(sort_by_type(&Vec::new(), 0).is_empty());
}

#[test]
fn particles_come_cell_after_cell() {
    let mut sim = small_world(2);
    sim.insert_particle(Particle::new([250 * UNIT, 150 * UNIT], [0, 0], 0)).unwrap();
    sim.insert_particle(Particle::new([50 * UNIT, 50 * UNIT], [0, 0], 1)).unwrap();
    sim.insert_particle(Particle::new([150 * UNIT, 50 * UNIT], [0, 0], 0)).unwrap();
    sim.insert_particle(Particle::new([60 * UNIT, 50 * UNIT], [0, 0], 0)).unwrap();
    let xs: Vec<i64> = sim.particles().iter().map(|p| p.position[0] / UNIT).collect();
    assert_eq!(xs, vec![50, 60, 150, 250]);
}

#[test]
fn snapshot_holds_every_particle_with_its_color() {
    let mut sim = small_world(3);
    sim.insert_particle(Particle::new([250 * UNIT, 150 * UNIT], [0, 0], 2)).unwrap();
    sim.insert_particle(Particle::new([50 * UNIT, 50 * UNIT], [0, 0], 1)).unwrap();
    sim.insert_particle(Particle::new([150 * UNIT, 50 * UNIT], [0, 0], 0)).unwrap();
    sim.insert_particle(Particle::new([60 * UNIT, 50 * UNIT], [0, 0], 2)).unwrap();
    let snapshot = sim.snapshot_for_render(false);
    assert_eq!(snapshot.size, [300 * UNIT, 200 * UNIT]);
    assert_eq!(snapshot.bucket_size, 100 * UNIT);
    assert!(snapshot.cell_corners.is_empty());
    let drawn: Vec<(usize, i64, [u8; 3])> =
        snapshot.particles.iter().map(|p| (p.typ, p.position[0] / UNIT, p.color)).collect();
    assert_eq!(
        drawn,
        vec![
            (0, 150, [255, 0, 0]),
            (1, 50, [0, 255, 0]),
            (2, 60, [0, 0, 255]),
            (2, 250, [0, 0, 255]),
        ]
    );
}

#[test]
fn snapshot_with_debug_graphics_has_the_corners_of_the_cells() {
    let sim = small_world(1);
    let snapshot = sim.snapshot_for_render(true);
    assert!(snapshot.particles.is_empty());
    assert_eq!(
        snapshot.cell_corners,
        vec![
            [0, 0],
            [100 * UNIT, 0],
            [200 * UNIT, 0],
            [0, 100 * UNIT],
            [100 * UNIT, 100 * UNIT],
            [200 * UNIT, 100 * UNIT],
        ]
    );
    assert_eq!(sim.cell_corners(), snapshot.cell_corners);
}

#[test]
fn snapshot_after_steps_is_sorted() {
    let mut sim = ParticleSimulation::new(
        100 * UNIT,
        [3, 2],
        ParticleSimulationParams { edge_type: EdgeType::Wrapping, prevent_particle_ejecting: true },
        ParticleSimulationMetadata::default(),
        ParticleTypeData::new_random(9, 5 * UNIT),
    );
    sim.add_random_particles(300);
    for _ in 0..5 {
        sim.step_simulation();
    }
    let snapshot = sim.snapshot_for_render(false);
    assert_eq!(snapshot.particles.len(), 300);
    for pair in snapshot.particles.windows(2) {
        assert!(pair[0].typ <= pair[1].typ);
    }
    for p in &snapshot.particles {
        assert_eq!(p.color, sim.type_data.colors[p.typ]);
    }
}

#[test]
fn brightness_weighs_green_most_and_blue_least() {
    assert!(is_bright([255, 0, 0]));
    assert!(is_bright([0, 255, 0]));
    assert!(!is_bright([0, 0, 255]));
    assert!(!is_bright([0, 0, 0]));
    assert!(is_bright([255, 255, 255]));
    assert!(is_bright([0, 255, 255]));
    assert!(is_bright([255, 0, 255]));
    // 0.299 of red squared is a quarter at red 0.9144 of full.
    assert!(!is_bright([233, 0, 0]));
    assert!(is_bright([234, 0, 0]));
}
