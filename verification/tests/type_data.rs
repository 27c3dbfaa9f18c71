use particle_life::fixed::{Real, LIMIT, UNIT};
use particle_life::type_data::{ParticleTypeData, MAX_TYPES};

fn table(n: usize, scale: Real) -> ParticleTypeData {
    ParticleTypeData::new_from_fn(n, scale, |index: [usize; 2]| {
        (10 * index[0] as Real + index[1] as Real) * UNIT / 100
    })
}

fn check_scaled(t: &ParticleTypeData) {
    let n = t.num_types();
    assert_eq!(t.base_attractions.size, [n, n]);
    assert_eq!(t.scaled_attractions.size, [n, n]);
    assert_eq!(t.colors.len(), n);
    for i in 0..n {
        for j in 0..n {
            let base = *t.base_attractions.index([i, j]);
            let scaled = (base as i128 * t.attraction_scale() as i128) / (UNIT as i128);
            let scaled = scaled.clamp(-(LIMIT as i128), LIMIT as i128) as Real;
            assert_eq!(*t.scaled_attractions.index([i, j]), scaled);
            assert_eq!(t.get_attraction(i, j), scaled);
        }
    }
}

#[test]
fn at_most_two_hundred_and_fifty_types() {
    assert_eq!(MAX_TYPES, 250);
    let t = table(MAX_TYPES, UNIT);
    assert_eq!(t.num_types(), 250);
    check_scaled(&t);
}

#[test]
fn new_from_fn_keeps_what_the_function_gave() {
    let t = table(3, 2 * UNIT);
    assert_eq!(t.num_types(), 3);
    assert_eq!(t.attraction_scale(), 2 * UNIT);
    assert_eq!(*t.base_attractions.index([2, 1]), 210_000);
    assert_eq!(*t.base_attractions.index([1, 2]), 120_000);
    assert_eq!(t.get_attraction(2, 1), 420_000);
    assert_eq!(t.get_attraction(1, 2), 240_000);
    check_scaled(&t);
}

#[test]
fn attraction_need_not_be_symmetric() {
    let t = ParticleTypeData::new_from_fn(2, UNIT, |index: [usize; 2]| {
        if index == [0, 1] {
            UNIT
        } else if index == [1, 0] {
            -UNIT
        } else {
            0
        }
    });
    assert_eq!(t.get_attraction(0, 1), UNIT);
    assert_eq!(t.get_attraction(1, 0), -UNIT);
    assert_eq!(t.get_attraction(0, 0), 0);
}

#[test]
fn new_random_draws_within_minus_one_and_one() {
    let t = ParticleTypeData::new_random(40, 5 * UNIT);
    assert_eq!(t.num_types(), 40);
    assert_eq!(t.attraction_scale(), 5 * UNIT);
    assert!(t.base_attractions.data.iter().all(|v| -UNIT <= *v && *v <= UNIT));
    let first = t.base_attractions.data[0];
    assert!(t.base_attractions.data.iter().any(|v| *v != first));
    assert!(t.base_attractions.data.iter().any(|v| *v < 0));
    assert!(t.base_attractions.data.iter().any(|v| *v > 0));
    check_scaled(&t);
}

#[test]
fn rescale_recomputes_every_scaled_attraction() {
    let mut t = table(4, UNIT);
    let base = t.base_attractions.data.clone();
    t.rescale_attractions(-3 * UNIT);
    assert_eq!(t.attraction_scale(), -3 * UNIT);
    assert_eq!(t.base_attractions.data, base);
    assert_eq!(t.get_attraction(3, 2), -960_000);
    check_scaled(&t);
    t.rescale_attractions(0);
    assert!(t.scaled_attractions.data.iter().all(|v| *v == 0));
}

#[test]
fn resize_to_fewer_keeps_the_common_entries() {
    let t = table(5, 2 * UNIT);
    let smaller = t.resize(3);
    assert_eq!(smaller.num_types(), 3);
    assert_eq!(smaller.attraction_scale(), 2 * UNIT);
    for i in 0..3 {
        for j in 0..3 {
            assert_eq!(smaller.base_attractions.index([i, j]), t.base_attractions.index([i, j]));
        }
    }
    check_scaled(&smaller);
}

#[test]
fn resize_to_more_keeps_the_old_and_draws_the_new() {
    let t = ParticleTypeData::new_from_fn(2, UNIT, |index: [usize; 2]| {
        (7 + index[0] as Real + 2 * index[1] as Real) * UNIT
    });
    let larger = t.resize(6);
    assert_eq!(larger.num_types(), 6);
    for i in 0..6 {
        for j in 0..6 {
            let value = *larger.base_attractions.index([i, j]);
            if i < 2 && j < 2 {
                assert_eq!(value, *t.base_attractions.index([i, j]));
            } else {
                assert!(-UNIT <= value && value <= UNIT);
            }
        }
    }
    check_scaled(&larger);
}

#[test]
fn set_attraction_changes_base_and_scaled() {
    let mut t = table(3, 4 * UNIT);
    let before = t.base_attractions.data.clone();
    t.set_attraction(1, 2, -250_000);
    assert_eq!(*t.base_attractions.index([1, 2]), -250_000);
    assert_eq!(t.get_attraction(1, 2), -UNIT);
    for i in 0..3 {
        for j in 0..3 {
            if [i, j] != [1, 2] {
                assert_eq!(*t.base_attractions.index([i, j]), before[i + 3 * j]);
            }
        }
    }
    check_scaled(&t);
}

#[test]
fn colors_sweep_the_wheel() {
    let t = table(3, UNIT);
    assert_eq!(t.colors, vec![[255, 0, 0], [0, 255, 0], [0, 0, 255]]);
    let t = table(4, UNIT);
    assert_eq!(t.colors, vec![[255, 0, 0], [127, 255, 0], [0, 255, 255], [127, 0, 255]]);
    let t = table(6, UNIT);
    assert_eq!(
        t.colors,
        vec![[255, 0, 0], [255, 255, 0], [0, 255, 0], [0, 255, 255], [0, 0, 255], [255, 0, 255]]
    );
    let t = table(1, UNIT);
    assert_eq!(t.colors, vec![[255, 0, 0]]);
}

#[test]
fn every_color_is_fully_saturated() {
    let t = table(MAX_TYPES, UNIT);
    for color in &t.colors {
        assert_eq!(*color.iter().max().unwrap(), 255);
        assert_eq!(*color.iter().min().unwrap(), 0);
    }
}
