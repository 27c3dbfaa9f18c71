use particle_life::fixed::{Real, LIMIT, UNIT};
use particle_life::params::{EdgeType, ParticleSimulationParams};
use particle_life::particle::{
    impulse_from_delta, Particle, EDGE_MARGIN, JITTER, MINIMUM_DISTANCE, PARTICLE_RADIUS,
};
use particle_life::type_data::ParticleTypeData;

const REACH: Real = 100 * UNIT;

fn params(prevent: bool) -> ParticleSimulationParams {
    ParticleSimulationParams { edge_type: EdgeType::Wrapping, prevent_particle_ejecting: prevent }
}

#[test]
fn radius_is_five() {
    assert_eq!(PARTICLE_RADIUS, 5 * UNIT);
    assert_eq!(MINIMUM_DISTANCE, 2 * PARTICLE_RADIUS);
    assert_eq!(JITTER, UNIT / 10);
    assert_eq!(EDGE_MARGIN, 10);
}

#[test]
fn beyond_two_radii_attraction_over_squared_distance() {
    let gain = impulse_from_delta([20 * UNIT, 0], UNIT, REACH, true);
    assert_eq!(gain, [50_000, 0]);
    let gain = impulse_from_delta([0, -20 * UNIT], UNIT, REACH, true);
    assert_eq!(gain, [0, -50_000]);
    let gain = impulse_from_delta([30 * UNIT, 40 * UNIT], 2 * UNIT, REACH, false);
    assert_eq!(gain, [24_000, 32_000]);
}

#[test]
fn negative_attraction_pushes_away() {
    let gain = impulse_from_delta([20 * UNIT, 0], -UNIT, REACH, true);
    assert_eq!(gain, [-50_000, 0]);
}

#[test]
fn beyond_reach_nothing_is_gained() {
    assert_eq!(impulse_from_delta([101 * UNIT, 0], UNIT, REACH, true), [0, 0]);
    assert_eq!(impulse_from_delta([100 * UNIT, 1], UNIT, REACH, true), [0, 0]);
    assert_eq!(impulse_from_delta([-80 * UNIT, 80 * UNIT], UNIT, REACH, false), [0, 0]);
}

#[test]
fn at_reach_exactly_the_force_is_felt() {
    assert_eq!(impulse_from_delta([100 * UNIT, 0], UNIT, REACH, true), [10_000, 0]);
}

#[test]
fn at_two_radii_exactly_particles_repel() {
    assert_eq!(impulse_from_delta([10 * UNIT, 0], UNIT, REACH, true), [-500_000, 0]);
    assert_eq!(impulse_from_delta([10 * UNIT, 0], UNIT, REACH, false), [-500_000, 0]);
    assert_eq!(impulse_from_delta([10 * UNIT + 1, 0], UNIT, REACH, false), [99_999, 0]);
}

#[test]
fn within_two_radii_repulsion_ignores_attraction() {
    let with = impulse_from_delta([3 * UNIT, 4 * UNIT], 100 * UNIT, REACH, true);
    let without = impulse_from_delta([3 * UNIT, 4 * UNIT], -100 * UNIT, REACH, false);
    assert_eq!(with, [-600_000, -800_000]);
    assert_eq!(without, with);
}

#[test]
fn between_one_and_two_radii_the_flag_changes_nothing() {
    let on = impulse_from_delta([UNIT, 0], UNIT, REACH, true);
    let off = impulse_from_delta([UNIT, 0], UNIT, REACH, false);
    assert_eq!(on, [-5 * UNIT, 0]);
    assert_eq!(off, on);
}

#[test]
fn under_one_with_the_flag_the_impulse_is_one_radius_long() {
    assert_eq!(impulse_from_delta([500_000, 0], UNIT, REACH, true), [5 * UNIT, 0]);
    assert_eq!(impulse_from_delta([300_000, 400_000], UNIT, REACH, true), [3 * UNIT, 4 * UNIT]);
    assert_eq!(impulse_from_delta([-300_000, 400_000], UNIT, REACH, true), [-3 * UNIT, 4 * UNIT]);
    assert_eq!(impulse_from_delta([1, 0], UNIT, REACH, true), [5 * UNIT, 0]);
}

#[test]
fn under_one_without_the_flag_the_repulsion_grows() {
    assert_eq!(impulse_from_delta([500_000, 0], UNIT, REACH, false), [-10 * UNIT, 0]);
    assert_eq!(impulse_from_delta([1, 0], UNIT, REACH, false), [-LIMIT, 0]);
}

#[test]
fn repulsion_bound_on_a_sweep_of_distances() {
    let radius_squared = (PARTICLE_RADIUS as i128) * (PARTICLE_RADIUS as i128);
    let mut dx: Real = 1;
    while dx < UNIT {
        let mut dy: Real = 0;
        while dy * dy + dx * dx < UNIT * UNIT {
            let gain = impulse_from_delta([dx, -dy], UNIT, REACH, true);
            let length_squared =
                (gain[0] as i128) * (gain[0] as i128) + (gain[1] as i128) * (gain[1] as i128);
            assert!(length_squared <= radius_squared);
            assert!(gain[0] > 0);
            dy = dy * 3 + 7;
        }
        dx = dx * 2 + 1;
    }
}

#[test]
fn apply_velocity_adds_moves_and_damps() {
    let mut p = Particle::new([10 * UNIT, 20 * UNIT], [UNIT, -3 * UNIT], 4);
    p.apply_velocity([500_000, 0]);
    assert_eq!(p.velocity, [1_350_000, -2_700_000]);
    assert_eq!(p.position, [10_750_000, 18_500_000]);
    assert_eq!(p.typ, 4);
}

#[test]
fn damping_falls_by_nine_tenths_each_step() {
    let mut p = Particle::new([0, 0], [10 * UNIT, -10 * UNIT], 0);
    let mut expected: Real = 10 * UNIT;
    for _ in 0..40 {
        p.apply_velocity([0, 0]);
        expected = expected * 9 / 10;
        assert_eq!(p.velocity, [expected, -expected]);
    }
}

#[test]
fn damping_cuts_toward_zero() {
    let mut p = Particle::new([0, 0], [1, -1], 0);
    p.apply_velocity([0, 0]);
    assert_eq!(p.velocity, [0, 0]);
    assert_eq!(p.position, [0, 0]);
    let mut p = Particle::new([0, 0], [19, -19], 0);
    p.apply_velocity([0, 0]);
    assert_eq!(p.velocity, [17, -17]);
    assert_eq!(p.position, [9, -9]);
}

#[test]
fn velocity_saturates_at_the_limit() {
    let mut p = Particle::new([0, 0], [LIMIT, -LIMIT], 0);
    p.apply_velocity([LIMIT, -LIMIT]);
    assert_eq!(p.position, [LIMIT / 2, -LIMIT / 2]);
    assert_eq!(p.velocity, [LIMIT / 10 * 9, -LIMIT / 10 * 9]);
}

#[test]
fn constrain_to_size_holds_the_particle_inside() {
    let size = [200 * UNIT, 100 * UNIT];
    let mut p = Particle::new([-UNIT, 50 * UNIT], [7, 8], 1);
    assert_eq!(p.constrain_to_size(size), [UNIT, 0]);
    assert_eq!(p.position, [0, 50 * UNIT]);
    assert_eq!(p.velocity, [7, 8]);
    let mut p = Particle::new([200 * UNIT, 100 * UNIT - 10], [0, 0], 1);
    assert_eq!(p.constrain_to_size(size), [-UNIT, 0]);
    assert_eq!(p.position, [200 * UNIT - 10, 100 * UNIT - 10]);
    let mut p = Particle::new([5, 100 * UNIT - 9], [0, 0], 1);
    assert_eq!(p.constrain_to_size(size), [0, -UNIT]);
    assert_eq!(p.position, [5, 100 * UNIT - 10]);
    let mut p = Particle::new([-1, -1], [0, 0], 1);
    assert_eq!(p.constrain_to_size(size), [UNIT, UNIT]);
    assert_eq!(p.position, [0, 0]);
}

#[test]
fn update_impulse_adds_the_pair_force() {
    let types = ParticleTypeData::new_from_fn(2, 2 * UNIT, |index: [usize; 2]| {
        if index == [0, 1] {
            UNIT
        } else if index == [1, 0] {
            -UNIT
        } else {
            0
        }
    });
    let a = Particle::new([50 * UNIT, 50 * UNIT], [0, 0], 0);
    let b = Particle::new([70 * UNIT, 50 * UNIT], [0, 0], 1);
    let mut impulse = [1_000, -1_000];
    a.update_impulse_with_particle(b, &types, &params(true), REACH, &mut impulse);
    assert_eq!(impulse, [101_000, -1_000]);
    let mut impulse = [0, 0];
    b.update_impulse_with_particle(a, &types, &params(true), REACH, &mut impulse);
    assert_eq!(impulse, [100_000, 0]);
}

#[test]
fn particles_in_one_place_are_parted_by_jitter() {
    let types = ParticleTypeData::new_from_fn(1, UNIT, |_| UNIT);
    let a = Particle::new([50 * UNIT, 50 * UNIT], [0, 0], 0);
    for _ in 0..200 {
        let mut impulse = [0, 0];
        a.update_impulse_with_particle(a, &types, &params(false), REACH, &mut impulse);
        // The way is at most a tenth along each axis and never zero, so the
        // repulsion is at least the radius over the longest such way.
        assert!(impulse[0] != 0 && impulse[1] != 0);
        let length_squared = (impulse[0] as i128).pow(2) + (impulse[1] as i128).pow(2);
        assert!(length_squared >= 1_250 * (UNIT as i128).pow(2));
        let mut impulse = [0, 0];
        a.update_impulse_with_particle(a, &types, &params(true), REACH, &mut impulse);
        assert!(impulse[0] != 0 && impulse[1] != 0);
        let length_squared = (impulse[0] as i128).pow(2) + (impulse[1] as i128).pow(2);
        assert!(length_squared <= 25 * (UNIT as i128).pow(2));
        assert!(length_squared >= 24 * (UNIT as i128).pow(2));
    }
}

#[test]
fn jitter_takes_both_signs() {
    let types = ParticleTypeData::new_from_fn(1, UNIT, |_| UNIT);
    let a = Particle::new([0, 0], [0, 0], 0);
    let mut plus = 0;
    let mut minus = 0;
    for _ in 0..400 {
        let mut impulse = [0, 0];
        a.update_impulse_with_particle(a, &types, &params(true), REACH, &mut impulse);
        if impulse[0] > 0 {
            plus += 1;
        } else {
            minus += 1;
        }
    }
    assert!(plus > 0 && minus > 0);
}
