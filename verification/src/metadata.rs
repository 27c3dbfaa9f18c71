//! What a simulation records about itself, and the rules by which the worker
//! that advances it and the front end that edits it exchange copies.

use std::time::Duration;
use vstd::prelude::*;

verus! {

/// The state of a simulation that is no particle: whether it runs, how many
/// single steps are owed, how long the last tick took, how fast it may run,
/// the number of its last edit, and how many particles it holds.
#[derive(Clone, Copy, Debug)]
pub struct ParticleSimulationMetadata {
    pub is_active: bool,
    /// Single steps asked for while paused and not yet made.
    pub steps: usize,
    pub total_time: Option<Duration>,
    pub tick_time: Option<Duration>,
    pub send_time: Option<Duration>,
    /// The most ticks per second, or `None` for no limit.
    pub tps_limit: Option<usize>,
    /// Counts the edits; a copy with a lower number is out of date.
    pub update_id: u64,
    pub num_particles: usize,
}

/// The ticks per second of a new simulation.
pub const DEFAULT_TPS_LIMIT: usize = 30;

/// The highest limit on ticks per second; a request above it asks for none.
pub const MAX_TPS_LIMIT: usize = 240;

/// The number that an endpoint at `local` holds after a copy numbered
/// `incoming` has arrived: a copy is taken unless it is older.
pub open spec fn id_after(local: u64, incoming: u64) -> u64 {
    if incoming >= local {
        incoming
    } else {
        local
    }
}

/// The number that an endpoint at `local` holds after the copies numbered
/// `incoming` have arrived in that order.
pub open spec fn id_after_all(local: u64, incoming: Seq<u64>) -> u64
    decreases incoming.len(),
{
    if incoming.len() == 0 {
        local
    } else {
        id_after(id_after_all(local, incoming.drop_last()), incoming.last())
    }
}

/// The greatest of `local` and the numbers in `incoming`.
pub open spec fn greatest(local: u64, incoming: Seq<u64>) -> u64
    decreases incoming.len(),
{
    if incoming.len() == 0 {
        local
    } else if incoming.last() >= greatest(local, incoming.drop_last()) {
        incoming.last()
    } else {
        greatest(local, incoming.drop_last())
    }
}

/// Two copies leave an endpoint with the greatest of the three numbers, in
/// whichever order they arrive.
pub proof fn lemma_two_copies_any_order(prior: u64, a: u64, b: u64)
    ensures
        id_after(id_after(prior, a), b) == id_after(id_after(prior, b), a),
        id_after(id_after(prior, a), b) >= prior,
        id_after(id_after(prior, a), b) >= a,
        id_after(id_after(prior, a), b) >= b,
        id_after(id_after(prior, a), b) == prior || id_after(id_after(prior, a), b) == a
            || id_after(id_after(prior, a), b) == b,
{
}

/// Any number of copies, in any order, leave an endpoint with the greatest
/// number among them and its own.
pub proof fn lemma_copies_leave_greatest(local: u64, incoming: Seq<u64>)
    ensures
        id_after_all(local, incoming) == greatest(local, incoming),
        id_after_all(local, incoming) >= local,
        forall|k: int| 0 <= k < incoming.len() ==> id_after_all(local, incoming) >= incoming[k],
    decreases incoming.len(),
{
    if incoming.len() > 0 {
        lemma_copies_leave_greatest(local, incoming.drop_last());
        assert forall|k: int| 0 <= k < incoming.len() implies id_after_all(local, incoming)
            >= incoming[k] by {
            if k < incoming.len() - 1 {
                assert(incoming.drop_last()[k] == incoming[k]);
            }
        }
    }
}

impl Default for ParticleSimulationMetadata {
    /// A running simulation without particles, limited to thirty ticks per
    /// second, that has seen no edit.
    fn default() -> (m: Self)
        ensures
            m.is_active,
            m.steps == 0,
            m.total_time.is_none(),
            m.tick_time.is_none(),
            m.send_time.is_none(),
            m.tps_limit == Some(DEFAULT_TPS_LIMIT),
            m.update_id == 0,
            m.num_particles == 0,
    {
        ParticleSimulationMetadata {
            is_active: true,
            steps: 0,
            total_time: None,
            tick_time: None,
            send_time: None,
            tps_limit: Some(30),
            update_id: 0,
            num_particles: 0,
        }
    }
}

impl ParticleSimulationMetadata {
    /// Whether a copy with the metadata `incoming` replaces the one that
    /// holds `self`: it does unless it is older.
    pub fn accepts(&self, incoming: &ParticleSimulationMetadata) -> (r: bool)
        ensures
            r == (incoming.update_id >= self.update_id),
            id_after(self.update_id, incoming.update_id) == (if r {
                incoming.update_id
            } else {
                self.update_id
            }),
    {
        incoming.update_id >= self.update_id
    }

    /// Numbers an edit: the copy that carries it is newer than all before.
    pub fn record_edit(&mut self)
        requires
            old(self).update_id < u64::MAX,
        ensures
            final(self).update_id == old(self).update_id + 1,
            *final(self) == (ParticleSimulationMetadata {
                update_id: final(self).update_id,
                ..*old(self)
            }),
    {
        self.update_id = self.update_id + 1;
    }

    /// Whether the worker has nothing to do until an edit arrives: the
    /// simulation is paused and no single step is owed.
    pub fn is_idle(&self) -> (r: bool)
        ensures
            r == (!self.is_active && self.steps == 0),
    {
        !self.is_active && self.steps == 0
    }

    /// Whether the worker makes a step now: the simulation runs, or a single
    /// step is owed.
    pub fn wants_step(&self) -> (r: bool)
        ensures
            r == (self.is_active || self.steps > 0),
            r == !(!self.is_active && self.steps == 0),
    {
        self.is_active || self.steps > 0
    }

    /// Records a step that the worker has made, with the times it measured.
    /// A running simulation owes no single steps afterwards; a paused one
    /// owes one less.
    pub fn finish_step(
        &mut self,
        total_time: Option<Duration>,
        tick_time: Option<Duration>,
        send_time: Option<Duration>,
    )
        requires
            old(self).is_active || old(self).steps > 0,
        ensures
            *final(self) == (ParticleSimulationMetadata {
                total_time,
                tick_time,
                send_time,
                steps: if old(self).is_active {
                    0
                } else {
                    (old(self).steps - 1) as usize
                },
                ..*old(self)
            }),
    {
        self.total_time = total_time;
        self.tick_time = tick_time;
        self.send_time = send_time;
        if self.is_active {
            self.steps = 0;
        } else {
            self.steps = self.steps - 1;
        }
    }

    /// Asks for one single step more. At the most that can be counted,
    /// nothing changes.
    pub fn request_step(&mut self)
        ensures
            *final(self) == (ParticleSimulationMetadata {
                steps: if old(self).steps < usize::MAX {
                    (old(self).steps + 1) as usize
                } else {
                    old(self).steps
                },
                ..*old(self)
            }),
    {
        if self.steps < usize::MAX {
            self.steps = self.steps + 1;
        }
    }

    /// Pauses a running simulation, or sets a paused one running. The time
    /// of a whole tick is forgotten; that of the step too, on pausing.
    pub fn toggle_active(&mut self)
        ensures
            *final(self) == (ParticleSimulationMetadata {
                is_active: !old(self).is_active,
                total_time: None,
                tick_time: if old(self).is_active {
                    None
                } else {
                    old(self).tick_time
                },
                ..*old(self)
            }),
    {
        if self.is_active {
            self.tick_time = None;
        }
        self.total_time = None;
        self.is_active = !self.is_active;
    }

    /// The limit that a request for `requested` ticks per second sets: the
    /// request itself up to [`MAX_TPS_LIMIT`], and none above.
    pub fn limit_for(requested: usize) -> (r: Option<usize>)
        ensures
            r == (if requested <= MAX_TPS_LIMIT {
                Some(requested)
            } else {
                None
            }),
    {
        if requested <= 240 {
            Some(requested)
        } else {
            None
        }
    }

    /// The nanoseconds that one tick may take under the limit, or `None`
    /// where there is no limit or the limit is zero.
    pub fn tick_nanos(&self) -> (r: Option<u64>)
        ensures
            r == (match self.tps_limit {
                Some(limit) if limit > 0 => Some((1_000_000_000int / (limit as int)) as u64),
                _ => None,
            }),
    {
        match self.tps_limit {
            Some(limit) => {
                if limit > 0 {
                    Some(1_000_000_000u64 / (limit as u64))
                } else {
                    None
                }
            },
            None => None,
        }
    }
}

} // verus!
