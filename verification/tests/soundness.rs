use particle_life::fixed::UNIT;
use particle_life::matrix::Matrix;
use particle_life::metadata::ParticleSimulationMetadata;
use particle_life::params::{EdgeType, ParticleSimulationParams};
use particle_life::particle::Particle;
use particle_life::simulation::ParticleSimulation;
use particle_life::type_data::ParticleTypeData;

fn sound_world() -> ParticleSimulation {
    let mut sim = ParticleSimulation::new(
        100 * UNIT,
        [3, 2],
        ParticleSimulationParams { edge_type: EdgeType::Wrapping, prevent_particle_ejecting: true },
        ParticleSimulationMetadata::default(),
        ParticleTypeData::new_random(4, 5 * UNIT),
    );
    sim.add_random_particles(60);
    sim
}

#[test]
fn a_matrix_is_sound_when_its_storage_matches_its_size() {
    let mut m = Matrix::from_element([3, 2], 0u8);
    assert!(m.is_sound());
    m.data.pop();
    assert!(!m.is_sound());
    m.data.push(0);
    m.size = [2, 2];
    assert!(!m.is_sound());
    m.size = [usize::MAX, usize::MAX];
    assert!(!m.is_sound());
    m.size = [6, 1];
    assert!(m.is_sound());
}

#[test]
fn what_the_library_builds_is_sound() {
    let mut sim = sound_world();
    assert!(sim.is_sound());
    assert!(sim.is_shaped());
    assert!(sim.is_well_formed());
    assert!(sim.species_are_known());
    assert!(sim.type_data.is_sound());
    for _ in 0..5 {
        sim.step_simulation();
        assert!(sim.is_sound());
    }
    sim.type_data.rescale_attractions(-UNIT);
    sim.type_data.set_attraction(1, 2, 3 * UNIT);
    assert!(sim.is_sound());
    sim.clear_particles();
    assert!(sim.is_sound());
}

#[test]
fn a_misplaced_particle_is_found() {
    let mut sim = sound_world();
    sim.buckets.data[0].push(Particle::new([150 * UNIT, 0], [0, 0], 0));
    sim.metadata.num_particles += 1;
    assert!(!sim.is_well_formed());
    assert!(!sim.is_sound());
    assert!(sim.is_shaped());
}

#[test]
fn a_particle_outside_the_world_is_found() {
    let mut sim = sound_world();
    sim.buckets.data[0][0].position[0] = -1;
    assert!(!sim.is_well_formed());
}

#[test]
fn a_wrong_count_is_found() {
    let mut sim = sound_world();
    sim.metadata.num_particles = 59;
    assert!(!sim.is_well_formed());
    sim.metadata.num_particles = 61;
    assert!(!sim.is_well_formed());
    sim.metadata.num_particles = 60;
    assert!(sim.is_well_formed());
}

#[test]
fn a_kept_impulse_is_found() {
    let mut sim = sound_world();
    sim.impulses.data[5].push([0, 0]);
    assert!(!sim.is_well_formed());
}

#[test]
fn an_unknown_species_is_found() {
    let mut sim = sound_world();
    sim.buckets.data[0][0].typ = 4;
    assert!(sim.is_well_formed());
    assert!(!sim.species_are_known());
    assert!(!sim.is_sound());
    sim.randomize_particles_above_type(4);
    assert!(sim.is_sound());
}

#[test]
fn an_unsound_shape_is_found() {
    let mut sim = sound_world();
    sim.bucket_size = 9;
    assert!(!sim.is_shaped());
    let mut sim = sound_world();
    sim.bucket_size = 400_000 * UNIT;
    assert!(!sim.is_shaped());
    let mut sim = sound_world();
    sim.impulses.size = [2, 3];
    assert!(!sim.is_shaped());
    let mut sim = sound_world();
    sim.buckets.size = [6, 1];
    sim.impulses.size = [6, 1];
    assert!(sim.is_shaped());
    assert!(!sim.is_well_formed());
}

#[test]
fn an_unsound_table_is_found() {
    let sound = ParticleTypeData::new_random(4, 5 * UNIT);
    let mut t = sound.clone();
    t.attraction_scale = UNIT;
    assert!(!t.is_sound());
    let mut t = sound.clone();
    t.scaled_attractions.data[3] += 1;
    assert!(!t.is_sound());
    let mut t = sound.clone();
    t.colors[2] = [1, 2, 3];
    assert!(!t.is_sound());
    let mut t = sound.clone();
    t.colors.pop();
    assert!(!t.is_sound());
    let mut t = sound.clone();
    t.base_attractions.size = [2, 8];
    t.scaled_attractions.size = [2, 8];
    assert!(!t.is_sound());
    assert!(sound.is_sound());
}
