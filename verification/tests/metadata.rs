use particle_life::metadata::{ParticleSimulationMetadata, DEFAULT_TPS_LIMIT, MAX_TPS_LIMIT};
use std::time::Duration;

fn at(update_id: u64) -> ParticleSimulationMetadata {
    ParticleSimulationMetadata { update_id, ..ParticleSimulationMetadata::default() }
}

fn deliver(local: &mut ParticleSimulationMetadata, incoming: ParticleSimulationMetadata) -> bool {
    if local.accepts(&incoming) {
        *local = incoming;
        true
    } else {
        false
    }
}

#[test]
fn default_metadata() {
    let m = ParticleSimulationMetadata::default();
    assert!(m.is_active);
    assert_eq!(m.steps, 0);
    assert_eq!(m.total_time, None);
    assert_eq!(m.tick_time, None);
    assert_eq!(m.send_time, None);
    assert_eq!(m.tps_limit, Some(30));
    assert_eq!(DEFAULT_TPS_LIMIT, 30);
    assert_eq!(m.update_id, 0);
    assert_eq!(m.num_particles, 0);
}

#[test]
fn a_copy_is_taken_unless_it_is_older() {
    assert!(at(4).accepts(&at(5)));
    assert!(at(4).accepts(&at(4)));
    assert!(!at(4).accepts(&at(3)));
    assert!(at(0).accepts(&at(0)));
    assert!(at(0).accepts(&at(u64::MAX)));
    assert!(!at(u64::MAX).accepts(&at(0)));
}

#[test]
fn snapshot_ordering() {
    let mut ui = at(4);
    assert!(deliver(&mut ui, at(5)));
    assert!(deliver(&mut ui, at(7)));
    assert!(!deliver(&mut ui, at(6)));
    assert_eq!(ui.update_id, 7);
}

#[test]
fn two_copies_in_either_order_leave_the_greatest() {
    for prior in 0..6u64 {
        for a in 0..6u64 {
            for b in 0..6u64 {
                let mut first = at(prior);
                deliver(&mut first, at(a));
                deliver(&mut first, at(b));
                let mut second = at(prior);
                deliver(&mut second, at(b));
                deliver(&mut second, at(a));
                assert_eq!(first.update_id, prior.max(a).max(b));
                assert_eq!(second.update_id, first.update_id);
            }
        }
    }
}

#[test]
fn record_edit_counts_up() {
    let mut m = at(41);
    m.record_edit();
    assert_eq!(m.update_id, 42);
    assert!(m.is_active);
    assert_eq!(m.tps_limit, Some(30));
}

#[test]
fn the_worker_waits_only_when_paused_without_steps() {
    let mut m = ParticleSimulationMetadata::default();
    assert!(!m.is_idle());
    assert!(m.wants_step());
    m.is_active = false;
    assert!(m.is_idle());
    assert!(!m.wants_step());
    m.steps = 2;
    assert!(!m.is_idle());
    assert!(m.wants_step());
}

#[test]
fn finish_step_records_times_and_counts_steps_down() {
    let tick = Some(Duration::from_millis(3));
    let total = Some(Duration::from_millis(33));
    let mut m = ParticleSimulationMetadata { steps: 5, ..ParticleSimulationMetadata::default() };
    m.finish_step(total, tick, None);
    assert_eq!(m.steps, 0);
    assert_eq!(m.total_time, total);
    assert_eq!(m.tick_time, tick);
    assert_eq!(m.send_time, None);
    let mut m = ParticleSimulationMetadata {
        is_active: false,
        steps: 5,
        ..ParticleSimulationMetadata::default()
    };
    m.finish_step(None, tick, total);
    assert_eq!(m.steps, 4);
    assert_eq!(m.send_time, total);
    assert!(!m.is_active);
}

#[test]
fn request_step_counts_up_and_stops_at_the_most() {
    let mut m = ParticleSimulationMetadata::default();
    m.request_step();
    m.request_step();
    assert_eq!(m.steps, 2);
    m.steps = usize::MAX;
    m.request_step();
    assert_eq!(m.steps, usize::MAX);
}

#[test]
fn toggle_active_forgets_times() {
    let tick = Some(Duration::from_millis(3));
    let mut m = ParticleSimulationMetadata {
        total_time: tick,
        tick_time: tick,
        send_time: tick,
        ..ParticleSimulationMetadata::default()
    };
    m.toggle_active();
    assert!(!m.is_active);
    assert_eq!(m.total_time, None);
    assert_eq!(m.tick_time, None);
    assert_eq!(m.send_time, tick);
    m.tick_time = tick;
    m.total_time = tick;
    m.toggle_active();
    assert!(m.is_active);
    assert_eq!(m.total_time, None);
    assert_eq!(m.tick_time, tick);
}

#[test]
fn limit_for_cuts_off_above_the_highest() {
    assert_eq!(MAX_TPS_LIMIT, 240);
    assert_eq!(ParticleSimulationMetadata::limit_for(5), Some(5));
    assert_eq!(ParticleSimulationMetadata::limit_for(240), Some(240));
    assert_eq!(ParticleSimulationMetadata::limit_for(241), None);
    assert_eq!(ParticleSimulationMetadata::limit_for(0), Some(0));
}

#[test]
fn tick_nanos_is_a_second_over_the_limit() {
    let mut m = ParticleSimulationMetadata::default();
    assert_eq!(m.tick_nanos(), Some(33_333_333));
    m.tps_limit = Some(240);
    assert_eq!(m.tick_nanos(), Some(4_166_666));
    m.tps_limit = Some(1);
    assert_eq!(m.tick_nanos(), Some(1_000_000_000));
    m.tps_limit = Some(0);
    assert_eq!(m.tick_nanos(), None);
    m.tps_limit = None;
    assert_eq!(m.tick_nanos(), None);
}
