//! The simulation: a grid of cells, each with the particles whose positions
//! fall in it.

use vstd::prelude::*;

use crate::fixed::{Real, LIMIT};
use crate::forces::{impulses_of_grid, integrated};
use crate::grid::{
    cell_coordinate, cell_of, cells_of, in_cell, in_order, lemma_coordinate,
    lemma_coordinate_between, lemma_total_of_empty, lemma_total_take, lemma_total_update,
    species_below, total,
};
use crate::matrix::{flat_index, lemma_flat_index, Matrix};
use crate::metadata::{id_after, ParticleSimulationMetadata};
use crate::organize::{
    all_strays, bounce_back, cell_fits, destination, kept_cells, lemma_destination,
    lemma_kept_and_strays, lemma_kept_cells, lemma_placed_all, lemma_population_falls,
    lemma_population_kept, lemma_reorganized_in_order, lemma_strays_grow, outside, placed,
    placed_all, reorganized, strays, wrap_around,
};
use crate::parallel::{extract_in_parallel, impulses_in_parallel};
use crate::params::{EdgeType, ParticleSimulationParams};
use crate::particle::{stepped, Particle, EDGE_MARGIN};
use crate::random::{random_below, random_between};
use crate::type_data::{lemma_index_of_place, ParticleTypeData};

verus! {

/// A world of `buckets.size[0]` by `buckets.size[1]` square cells, each
/// `bucket_size` wide, and the particles in it.
#[derive(Clone, Debug)]
pub struct ParticleSimulation {
    /// For each cell, the particles whose positions fall in it.
    pub buckets: Matrix<Vec<Particle>>,
    /// For each cell, room for one impulse per particle while a step is
    /// made. Empty between steps.
    pub impulses: Matrix<Vec<[Real; 2]>>,
    pub bucket_size: Real,
    pub type_data: ParticleTypeData,
    pub params: ParticleSimulationParams,
    pub metadata: ParticleSimulationMetadata,
}

impl ParticleSimulation {
    /// The particles of each cell, cell by cell in the order of the storage.
    pub open spec fn cells(&self) -> Seq<Seq<Particle>> {
        cells_of(self.buckets)
    }

    /// The width of the world.
    pub open spec fn world_width(&self) -> int {
        self.buckets.width() * self.bucket_size
    }

    /// The height of the world.
    pub open spec fn world_height(&self) -> int {
        self.buckets.height() * self.bucket_size
    }

    /// The shape is sound: there is at least one cell, a cell is at least as
    /// wide as the margin kept at the far edges, and the world is no larger
    /// than the greatest real number.
    pub open spec fn shaped(&self) -> bool {
        &&& self.buckets.wf()
        &&& self.impulses.wf()
        &&& self.impulses.size == self.buckets.size
        &&& self.buckets.width() >= 1
        &&& self.buckets.height() >= 1
        &&& self.bucket_size >= EDGE_MARGIN
        &&& self.world_width() <= LIMIT
        &&& self.world_height() <= LIMIT
    }

    /// The simulation is sound between steps: its shape is sound, every
    /// particle is in the list of the cell that its position falls in, no
    /// impulse is kept, and the particles are counted.
    pub open spec fn wf(&self) -> bool {
        &&& self.shaped()
        &&& in_order(self.cells(), self.bucket_size as int, self.buckets.width())
        &&& forall|k: int|
            0 <= k < self.impulses.data.len() ==> (#[trigger] self.impulses.data[k]).len() == 0
        &&& self.metadata.num_particles == total(self.cells())
    }

    /// Every particle's species is in the table.
    pub open spec fn species_known(&self) -> bool {
        species_below(self.cells(), self.type_data.count())
    }

    /// The cell of a position, or `None` where it is outside the world.
    pub open spec fn cell_at(&self, position: [Real; 2]) -> Option<(int, int)> {
        cell_of(
            position[0] as int,
            position[1] as int,
            self.bucket_size as int,
            self.buckets.width(),
            self.buckets.height(),
        )
    }

    /// The cells after `particle` has joined the list of the cell at `(cx, cy)`.
    pub open spec fn cells_with(&self, cx: int, cy: int, particle: Particle) -> Seq<Seq<Particle>> {
        let k = flat_index(self.buckets.width(), cx, cy);
        self.cells().update(k, self.cells()[k].push(particle))
    }

    /// Whether `cells` can be the cells once every particle has gained its
    /// impulse from the particles around it and made its step.
    pub open spec fn moved_to(&self, cells: Seq<Seq<Particle>>) -> bool {
        exists|impulses: Seq<Seq<[Real; 2]>>|
            #[trigger] impulses_of_grid(
                self.buckets,
                self.bucket_size as int,
                self.type_data,
                self.params,
                impulses,
            ) && cells == integrated(self.cells(), impulses)
    }

    /// Whether the shape is sound.
    pub fn is_shaped(&self) -> (r: bool)
        ensures
            r == self.shaped(),
    {
        if !self.buckets.is_sound() || !self.impulses.is_sound() || self.impulses.size[0]
            != self.buckets.size[0] || self.impulses.size[1] != self.buckets.size[1]
            || self.buckets.size[0] < 1 || self.buckets.size[1] < 1 || self.bucket_size < 10 {
            proof {
                if self.impulses.size == self.buckets.size {
                    assert(self.impulses.size[0] == self.buckets.size[0]);
                    assert(self.impulses.size[1] == self.buckets.size[1]);
                }
            }
            return false;
        }
        proof {
            assert(self.impulses.size =~= self.buckets.size);
        }
        let most: u64 = 1_000_000_000_000u64 / (self.bucket_size as u64);
        proof {
            let s = self.bucket_size as int;
            let w = self.buckets.width();
            let h = self.buckets.height();
            vstd::arithmetic::div_mod::lemma_fundamental_div_mod(LIMIT as int, s);
            vstd::arithmetic::div_mod::lemma_mod_bound(LIMIT as int, s);
            assert(s * most == most * s) by (nonlinear_arith);
            if w <= most {
                assert(w * s <= most * s) by (nonlinear_arith)
                    requires
                        w <= most,
                        s > 0,
                ;
            } else {
                assert(w * s >= (most + 1) * s) by (nonlinear_arith)
                    requires
                        w >= most + 1,
                        s > 0,
                ;
                assert((most + 1) * s == most * s + s) by (nonlinear_arith);
            }
            if h <= most {
                assert(h * s <= most * s) by (nonlinear_arith)
                    requires
                        h <= most,
                        s > 0,
                ;
            } else {
                assert(h * s >= (most + 1) * s) by (nonlinear_arith)
                    requires
                        h >= most + 1,
                        s > 0,
                ;
                assert((most + 1) * s == most * s + s) by (nonlinear_arith);
            }
        }
        self.buckets.size[0] as u64 <= most && self.buckets.size[1] as u64 <= most
    }

    /// Whether the simulation is sound between steps.
    pub fn is_well_formed(&self) -> (r: bool)
        ensures
            r == self.wf(),
    {
        if !self.is_shaped() {
            return false;
        }
        let ghost s = self.bucket_size as int;
        let ghost w = self.buckets.width();
        let ghost h = self.buckets.height();
        let width: usize = self.buckets.size[0];
        let mut counted: usize = 0;
        let mut k: usize = 0;
        while k < self.buckets.data.len()
            invariant
                k <= self.buckets.data.len(),
                self.shaped(),
                s == self.bucket_size,
                w == self.buckets.width(),
                h == self.buckets.height(),
                width == w,
                counted == total(self.cells().take(k as int)),
                counted <= self.metadata.num_particles,
                forall|c: int|
                    0 <= c < k ==> (#[trigger] self.impulses.data[c]).len() == 0,
                forall|c: int, i: int|
                    0 <= c < k && 0 <= i < self.cells()[c].len() ==> in_cell(
                        #[trigger] self.cells()[c][i],
                        s,
                        c % w,
                        c / w,
                    ),
            decreases self.buckets.data.len() - k,
        {
            let bucket: &Vec<Particle> = &self.buckets.data[k];
            proof {
                assert(self.cells()[k as int] == bucket@);
                lemma_total_take(self.cells(), k as int);
                lemma_index_of_place(w, h, k as int);
                assert(0 <= (k % width) * s && (k % width + 1) * s <= w * s) by (nonlinear_arith)
                    requires
                        0 <= k % width,
                        k % width + 1 <= w,
                        s >= 1,
                ;
                assert(0 <= (k / width) * s && (k / width + 1) * s <= h * s) by (nonlinear_arith)
                    requires
                        0 <= k / width,
                        k / width + 1 <= h,
                        s >= 1,
                ;
                assert((k % width + 1) * s == (k % width) * s + s) by (nonlinear_arith);
                assert((k / width + 1) * s == (k / width) * s + s) by (nonlinear_arith);
                assert(k % width <= w * s && k / width <= h * s) by (nonlinear_arith)
                    requires
                        0 <= k % width < w,
                        0 <= k / width < h,
                        s >= 1,
                        w >= 1,
                        h >= 1,
                ;
            }
            if self.impulses.data[k].len() != 0 || bucket.len() > self.metadata.num_particles
                - counted {
                proof {
                    lemma_total_take(self.cells(), k + 1);
                }
                return false;
            }
            let low_x: Real = ((k % width) as i64) * self.bucket_size;
            let low_y: Real = ((k / width) as i64) * self.bucket_size;
            let high_x: Real = low_x + self.bucket_size;
            let high_y: Real = low_y + self.bucket_size;
            let mut i: usize = 0;
            while i < bucket.len()
                invariant
                    i <= bucket.len(),
                    k < self.buckets.data.len(),
                    self.cells()[k as int] == bucket@,
                    s == self.bucket_size,
                    s >= 1,
                    w == self.buckets.width(),
                    width == w,
                    low_x == (k % width) * s,
                    low_y == (k / width) * s,
                    high_x == (k % width + 1) * s,
                    high_y == (k / width + 1) * s,
                        forall|t: int|
                        0 <= t < i ==> in_cell(#[trigger] bucket[t], s, k as int % w, k as int / w),
                decreases bucket.len() - i,
            {
                let p: Particle = bucket[i];
                let inside: bool = low_x <= p.position[0] && p.position[0] < high_x && low_y
                    <= p.position[1] && p.position[1] < high_y;
                proof {
                    lemma_coordinate(p.position[0] as int, s, 0);
                    lemma_coordinate(p.position[1] as int, s, 0);
                    if low_x <= p.position[0] && p.position[0] < high_x {
                        lemma_coordinate_between(p.position[0] as int, s, k as int % w);
                    }
                    if low_y <= p.position[1] && p.position[1] < high_y {
                        lemma_coordinate_between(p.position[1] as int, s, k as int / w);
                    }
                    assert(inside == in_cell(p, s, k as int % w, k as int / w));
                    assert(self.cells()[k as int][i as int] == p);
                }
                if !inside {
                    return false;
                }
                i += 1;
            }
            counted = counted + bucket.len();
            k += 1;
        }
        proof {
            assert(self.cells().take(self.buckets.data.len() as int) =~= self.cells());
        }
        counted == self.metadata.num_particles
    }

    /// Whether every particle's species is in the table.
    pub fn species_are_known(&self) -> (r: bool)
        ensures
            r == self.species_known(),
    {
        let num_types: usize = self.type_data.num_types();
        let mut k: usize = 0;
        while k < self.buckets.data.len()
            invariant
                k <= self.buckets.data.len(),
                num_types == self.type_data.count(),
                forall|c: int, i: int|
                    0 <= c < k && 0 <= i < self.cells()[c].len() ==> (
                    #[trigger] self.cells()[c][i]).typ < num_types,
            decreases self.buckets.data.len() - k,
        {
            let bucket: &Vec<Particle> = &self.buckets.data[k];
            let mut i: usize = 0;
            while i < bucket.len()
                invariant
                    i <= bucket.len(),
                    k < self.buckets.data.len(),
                    self.cells()[k as int] == bucket@,
                    num_types == self.type_data.count(),
                    forall|t: int| 0 <= t < i ==> (#[trigger] bucket[t]).typ < num_types,
                decreases bucket.len() - i,
            {
                if bucket[i].typ >= num_types {
                    proof {
                        assert(self.cells()[k as int][i as int] == bucket[i as int]);
                        assert(!(self.cells()[k as int][i as int].typ < self.type_data.count()));
                    }
                    return false;
                }
                i += 1;
            }
            k += 1;
        }
        true
    }

    /// Whether the simulation is sound, its table of species too, and every
    /// particle's species is in the table: all that a step asks for.
    pub fn is_sound(&self) -> (r: bool)
        ensures
            r == (self.wf() && self.type_data.wf() && self.species_known()),
    {
        self.is_well_formed() && self.type_data.is_sound() && self.species_are_known()
    }

    /// An empty world of `buckets[0]` by `buckets[1]` cells, each
    /// `bucket_size` wide. The count of particles in `metadata` starts at zero.
    pub fn new(
        bucket_size: Real,
        buckets: [usize; 2],
        params: ParticleSimulationParams,
        metadata: ParticleSimulationMetadata,
        type_data: ParticleTypeData,
    ) -> (sim: Self)
        requires
            bucket_size >= EDGE_MARGIN,
            buckets[0] >= 1,
            buckets[1] >= 1,
            buckets[0] * bucket_size <= LIMIT,
            buckets[1] * bucket_size <= LIMIT,
            buckets[0] * buckets[1] <= usize::MAX,
        ensures
            sim.wf(),
            sim.species_known(),
            sim.buckets.size == buckets,
            sim.bucket_size == bucket_size,
            sim.params == params,
            sim.type_data == type_data,
            sim.metadata == (ParticleSimulationMetadata { num_particles: 0, ..metadata }),
            forall|k: int| 0 <= k < sim.cells().len() ==> (#[trigger] sim.cells()[k]).len() == 0,
    {
        let empty: Vec<Particle> = Vec::new();
        let none: Vec<[Real; 2]> = Vec::new();
        let sim = ParticleSimulation {
            buckets: Matrix::from_element(buckets, empty),
            impulses: Matrix::from_element(buckets, none),
            bucket_size,
            type_data,
            params,
            metadata: ParticleSimulationMetadata { num_particles: 0, ..metadata },
        };
        proof {
            assert forall|k: int| 0 <= k < sim.cells().len() implies (#[trigger] sim.cells()[k]).len()
                == 0 by {
                assert(cloned(empty, sim.buckets.data[k]));
            }
            assert forall|k: int| 0 <= k < sim.impulses.data.len() implies (
            #[trigger] sim.impulses.data[k]).len() == 0 by {
                assert(cloned(none, sim.impulses.data[k]));
            }
            lemma_total_of_empty(sim.cells());
        }
        sim
    }

    /// The width and the height of the world.
    pub fn size(&self) -> (r: [Real; 2])
        requires
            self.shaped(),
        ensures
            r[0] == self.world_width(),
            r[1] == self.world_height(),
    {
        proof {
            assert(0 <= self.buckets.width() <= LIMIT) by (nonlinear_arith)
                requires
                    self.buckets.width() * self.bucket_size <= LIMIT,
                    self.bucket_size >= 1,
                    self.buckets.width() >= 1,
            ;
            assert(0 <= self.buckets.height() <= LIMIT) by (nonlinear_arith)
                requires
                    self.buckets.height() * self.bucket_size <= LIMIT,
                    self.bucket_size >= 1,
                    self.buckets.height() >= 1,
            ;
        }
        [
            (self.buckets.size[0] as i64) * self.bucket_size,
            (self.buckets.size[1] as i64) * self.bucket_size,
        ]
    }

    /// The corner of the cell at `index` that is nearest the origin.
    pub fn position_of_bucket(&self, index: [usize; 2]) -> (r: [Real; 2])
        requires
            self.shaped(),
            self.buckets.in_bounds(index[0] as int, index[1] as int),
        ensures
            r[0] == index[0] * self.bucket_size,
            r[1] == index[1] * self.bucket_size,
    {
        proof {
            assert(0 <= self.buckets.width() <= LIMIT) by (nonlinear_arith)
                requires
                    self.buckets.width() * self.bucket_size <= LIMIT,
                    self.bucket_size >= 1,
                    self.buckets.width() >= 1,
            ;
            assert(0 <= self.buckets.height() <= LIMIT) by (nonlinear_arith)
                requires
                    self.buckets.height() * self.bucket_size <= LIMIT,
                    self.bucket_size >= 1,
                    self.buckets.height() >= 1,
            ;
            assert(0 <= index[0] * self.bucket_size <= self.buckets.width() * self.bucket_size)
                by (nonlinear_arith)
                requires
                    0 <= index[0] < self.buckets.width(),
                    self.bucket_size >= 1,
            ;
            assert(0 <= index[1] * self.bucket_size <= self.buckets.height() * self.bucket_size)
                by (nonlinear_arith)
                requires
                    0 <= index[1] < self.buckets.height(),
                    self.bucket_size >= 1,
            ;
        }
        [(index[0] as i64) * self.bucket_size, (index[1] as i64) * self.bucket_size]
    }

    /// The cell of a position, or `None` where it is outside the world.
    pub fn bucket_index_of_position(&self, position: [Real; 2]) -> (r: Option<[usize; 2]>)
        requires
            self.bucket_size > 0,
        ensures
            r.is_some() == self.cell_at(position).is_some(),
            r matches Some(index) ==> self.cell_at(position) == Some(
                (index[0] as int, index[1] as int),
            ),
    {
        if position[0] < 0 || position[1] < 0 {
            return None;
        }
        let cx: u64 = (position[0] / self.bucket_size) as u64;
        let cy: u64 = (position[1] / self.bucket_size) as u64;
        proof {
            lemma_coordinate(position[0] as int, self.bucket_size as int, 0);
            lemma_coordinate(position[1] as int, self.bucket_size as int, 0);
        }
        if cx >= self.buckets.size[0] as u64 || cy >= self.buckets.size[1] as u64 {
            return None;
        }
        Some([cx as usize, cy as usize])
    }

    /// Puts a particle in the cell that its position falls in. A particle
    /// outside the world is refused, and nothing changes.
    pub fn insert_particle(&mut self, particle: Particle) -> (r: Option<()>)
        requires
            old(self).wf(),
            old(self).metadata.num_particles < usize::MAX,
        ensures
            final(self).wf(),
            r.is_some() == old(self).cell_at(particle.position).is_some(),
            r.is_none() ==> *final(self) == *old(self),
            old(self).cell_at(particle.position) matches Some((cx, cy)) ==> {
                &&& final(self).cells() == old(self).cells_with(cx, cy, particle)
                &&& final(self).metadata == (ParticleSimulationMetadata {
                    num_particles: (old(self).metadata.num_particles + 1) as usize,
                    ..old(self).metadata
                })
            },
            final(self).buckets.size == old(self).buckets.size,
            final(self).impulses == old(self).impulses,
            final(self).bucket_size == old(self).bucket_size,
            final(self).type_data == old(self).type_data,
            final(self).params == old(self).params,
            old(self).species_known() && particle.typ < old(self).type_data.count()
                ==> final(self).species_known(),
    {
        match self.bucket_index_of_position(particle.position) {
            None => None,
            Some(index) => {
                let ghost before = *self;
                let ghost k = flat_index(self.buckets.width(), index[0] as int, index[1] as int);
                proof {
                    lemma_flat_index(
                        self.buckets.width(),
                        self.buckets.height(),
                        index[0] as int,
                        index[1] as int,
                    );
                }
                self.buckets.data[index[0] + index[1] * self.buckets.size[0]].push(particle);
                self.metadata.num_particles = self.metadata.num_particles + 1;
                proof {
                    assert(self.cells() =~= before.cells_with(
                        index[0] as int,
                        index[1] as int,
                        particle,
                    ));
                    lemma_total_update(before.cells(), k, before.cells()[k].push(particle));
                    assert(in_order(
                        self.cells(),
                        self.bucket_size as int,
                        self.buckets.width(),
                    )) by {
                        assert forall|c: int, i: int|
                            0 <= c < self.cells().len() && 0 <= i < self.cells()[c].len()
                            implies in_cell(
                            #[trigger] self.cells()[c][i],
                            self.bucket_size as int,
                            c % self.buckets.width(),
                            c / self.buckets.width(),
                        ) by {
                            if c == k && i == before.cells()[k].len() {
                            } else {
                                assert(self.cells()[c][i] == before.cells()[c][i]);
                            }
                        }
                    }
                    if before.species_known() && particle.typ < before.type_data.count() {
                        assert forall|c: int, i: int|
                            0 <= c < self.cells().len() && 0 <= i < self.cells()[c].len()
                            implies (#[trigger] self.cells()[c][i]).typ
                            < self.type_data.count() by {
                            if c == k && i == before.cells()[k].len() {
                            } else {
                                assert(self.cells()[c][i] == before.cells()[c][i]);
                            }
                        }
                    }
                }
                Some(())
            },
        }
    }

    /// Removes every particle. The shape of the world stays.
    pub fn clear_particles(&mut self)
        requires
            old(self).wf(),
        ensures
            final(self).wf(),
            final(self).species_known(),
            forall|k: int|
                0 <= k < final(self).cells().len() ==> (#[trigger] final(self).cells()[k]).len()
                    == 0,
            final(self).metadata == (ParticleSimulationMetadata {
                num_particles: 0,
                ..old(self).metadata
            }),
            final(self).buckets.size == old(self).buckets.size,
            final(self).impulses == old(self).impulses,
            final(self).bucket_size == old(self).bucket_size,
            final(self).type_data == old(self).type_data,
            final(self).params == old(self).params,
    {
        self.metadata.num_particles = 0;
        let mut k: usize = 0;
        while k < self.buckets.data.len()
            invariant
                k <= self.buckets.data.len(),
                self.buckets.data.len() == old(self).buckets.data.len(),
                self.buckets.size == old(self).buckets.size,
                self.impulses == old(self).impulses,
                self.bucket_size == old(self).bucket_size,
                self.type_data == old(self).type_data,
                self.params == old(self).params,
                self.metadata == (ParticleSimulationMetadata {
                    num_particles: 0,
                    ..old(self).metadata
                }),
                forall|c: int| 0 <= c < k ==> (#[trigger] self.buckets.data[c]).len() == 0,
            decreases self.buckets.data.len() - k,
        {
            self.buckets.data[k].clear();
            k += 1;
        }
        proof {
            lemma_total_of_empty(self.cells());
        }
    }

    /// Whether `list` can be the particles that seeding adds: each at rest,
    /// inside the world, and of a species in the table.
    pub open spec fn seeds(&self, list: Seq<Particle>) -> bool {
        forall|j: int|
            0 <= j < list.len() ==> {
                &&& (#[trigger] list[j]).velocity[0] == 0
                &&& list[j].velocity[1] == 0
                &&& list[j].typ < self.type_data.count()
                &&& self.cell_at(list[j].position).is_some()
            }
    }

    /// Whether `cells` can be the cells `base` after `count` particles have
    /// been seeded, one after the other.
    pub open spec fn seeded_from(
        &self,
        base: Seq<Seq<Particle>>,
        count: int,
        cells: Seq<Seq<Particle>>,
    ) -> bool {
        exists|list: Seq<Particle>|
            list.len() == count && #[trigger] self.seeds(list) && cells == placed_all(
                base,
                self.bucket_size as int,
                self.buckets.width(),
                self.buckets.height(),
                self.params.edge_type,
                list,
            )
    }

    /// Adds `count` particles at rest, each at a random place in the world
    /// and of a random species.
    pub fn add_random_particles(&mut self, count: usize)
        requires
            old(self).wf(),
            old(self).type_data.count() >= 1,
            old(self).metadata.num_particles + count <= usize::MAX,
        ensures
            final(self).wf(),
            old(self).seeded_from(old(self).cells(), count as int, final(self).cells()),
            old(self).species_known() ==> final(self).species_known(),
            final(self).metadata == (ParticleSimulationMetadata {
                num_particles: (old(self).metadata.num_particles + count) as usize,
                ..old(self).metadata
            }),
            final(self).buckets.size == old(self).buckets.size,
            final(self).impulses == old(self).impulses,
            final(self).bucket_size == old(self).bucket_size,
            final(self).type_data == old(self).type_data,
            final(self).params == old(self).params,
    {
        let size: [Real; 2] = self.size();
        let ghost s = self.bucket_size as int;
        let ghost w = self.buckets.width();
        let ghost h = self.buckets.height();
        let ghost edge = self.params.edge_type;
        let ghost added: Seq<Particle> = Seq::empty();
        proof {
            assert(w * s >= 1) by (nonlinear_arith)
                requires
                    w >= 1,
                    s >= 1,
            ;
            assert(h * s >= 1) by (nonlinear_arith)
                requires
                    h >= 1,
                    s >= 1,
            ;
        }
        let mut n: usize = 0;
        while n < count
            invariant
                n <= count,
                self.wf(),
                size[0] == w * s,
                size[1] == h * s,
                size[0] >= 1,
                size[1] >= 1,
                s == self.bucket_size,
                w == self.buckets.width(),
                h == self.buckets.height(),
                edge == self.params.edge_type,
                added.len() == n,
                old(self).seeds(added),
                self.cells() == placed_all(old(self).cells(), s, w, h, edge, added),
                old(self).species_known() ==> self.species_known(),
                old(self).metadata.num_particles + count <= usize::MAX,
                self.metadata == (ParticleSimulationMetadata {
                    num_particles: (old(self).metadata.num_particles + n) as usize,
                    ..old(self).metadata
                }),
                self.buckets.size == old(self).buckets.size,
                self.impulses == old(self).impulses,
                self.bucket_size == old(self).bucket_size,
                self.type_data == old(self).type_data,
                self.params == old(self).params,
                self.type_data.count() >= 1,
            decreases count - n,
        {
            let x: Real = random_between(0, size[0] - 1);
            let y: Real = random_between(0, size[1] - 1);
            let typ: usize = random_below(self.type_data.num_types());
            let particle = Particle::new([x, y], [0, 0], typ);
            proof {
                lemma_coordinate(x as int, s, w);
                lemma_coordinate(y as int, s, h);
                assert(self.cell_at(particle.position).is_some());
            }
            let ghost before = self.cells();
            let r = self.insert_particle(particle);
            proof {
                let longer = added.push(particle);
                assert(longer.drop_last() =~= added);
                assert(longer.last() == particle);
                assert(destination(particle, s, w, h, edge) == Some(
                    (
                        cell_coordinate(x as int, s),
                        cell_coordinate(y as int, s),
                        particle,
                    ),
                ));
                assert(self.cells() == placed(before, s, w, h, edge, particle));
                assert forall|j: int| 0 <= j < longer.len() implies {
                    &&& (#[trigger] longer[j]).velocity[0] == 0
                    &&& longer[j].velocity[1] == 0
                    &&& longer[j].typ < old(self).type_data.count()
                    &&& old(self).cell_at(longer[j].position).is_some()
                } by {
                    if j < added.len() {
                        assert(longer[j] == added[j]);
                    }
                }
                added = longer;
            }
            n += 1;
        }
    }

    /// Gives every particle whose species is not among the first
    /// `num_types` a random species among them.
    pub fn randomize_particles_above_type(&mut self, num_types: usize)
        requires
            old(self).wf(),
            num_types >= 1,
        ensures
            final(self).wf(),
            species_below(final(self).cells(), num_types as int),
            final(self).cells().len() == old(self).cells().len(),
            forall|k: int, i: int|
                0 <= k < old(self).cells().len() && 0 <= i < old(self).cells()[k].len() ==> {
                    let before = old(self).cells()[k][i];
                    let after = #[trigger] final(self).cells()[k][i];
                    &&& final(self).cells()[k].len() == old(self).cells()[k].len()
                    &&& after.position == before.position
                    &&& after.velocity == before.velocity
                    &&& before.typ < num_types ==> after.typ == before.typ
                },
            forall|k: int|
                0 <= k < old(self).cells().len() ==> (#[trigger] final(self).cells()[k]).len()
                    == old(self).cells()[k].len(),
            final(self).buckets.size == old(self).buckets.size,
            final(self).impulses == old(self).impulses,
            final(self).bucket_size == old(self).bucket_size,
            final(self).type_data == old(self).type_data,
            final(self).params == old(self).params,
            final(self).metadata == old(self).metadata,
    {
        let mut k: usize = 0;
        while k < self.buckets.data.len()
            invariant
                k <= self.buckets.data.len(),
                num_types >= 1,
                self.buckets.data.len() == old(self).buckets.data.len(),
                self.buckets.size == old(self).buckets.size,
                self.impulses == old(self).impulses,
                self.bucket_size == old(self).bucket_size,
                self.type_data == old(self).type_data,
                self.params == old(self).params,
                self.metadata == old(self).metadata,
                forall|c: int|
                    0 <= c < self.buckets.data.len() ==> (#[trigger] self.buckets.data[c]).len()
                        == old(self).buckets.data[c].len(),
                forall|c: int, i: int|
                    0 <= c < self.buckets.data.len() && 0 <= i < self.buckets.data[c].len() ==> {
                        let before = old(self).buckets.data[c][i];
                        let after = #[trigger] self.buckets.data[c][i];
                        &&& after.position == before.position
                        &&& after.velocity == before.velocity
                        &&& before.typ < num_types ==> after.typ == before.typ
                        &&& c < k ==> after.typ < num_types
                        &&& c >= k ==> after == before
                    },
            decreases self.buckets.data.len() - k,
        {
            let count: usize = self.buckets.data[k].len();
            let mut i: usize = 0;
            while i < count
                invariant
                    i <= count,
                    k < self.buckets.data.len(),
                    count == self.buckets.data[k as int].len(),
                    num_types >= 1,
                    self.buckets.data.len() == old(self).buckets.data.len(),
                    self.buckets.size == old(self).buckets.size,
                    self.impulses == old(self).impulses,
                    self.bucket_size == old(self).bucket_size,
                    self.type_data == old(self).type_data,
                    self.params == old(self).params,
                    self.metadata == old(self).metadata,
                    forall|c: int|
                        0 <= c < self.buckets.data.len() ==> (#[trigger] self.buckets.data[c]).len()
                            == old(self).buckets.data[c].len(),
                    forall|c: int, t: int|
                        0 <= c < self.buckets.data.len() && 0 <= t < self.buckets.data[c].len()
                            ==> {
                            let before = old(self).buckets.data[c][t];
                            let after = #[trigger] self.buckets.data[c][t];
                            &&& after.position == before.position
                            &&& after.velocity == before.velocity
                            &&& before.typ < num_types ==> after.typ == before.typ
                            &&& c < k || (c == k && t < i) ==> after.typ < num_types
                            &&& c > k || (c == k && t >= i) ==> after == before
                        },
                decreases count - i,
            {
                if self.buckets.data[k][i].typ >= num_types {
                    let typ: usize = random_below(num_types);
                    self.buckets.data[k][i].typ = typ;
                }
                i += 1;
            }
            k += 1;
        }
        proof {
            let s = self.bucket_size as int;
            let w = self.buckets.width();
            assert forall|c: int, i: int|
                0 <= c < self.cells().len() && 0 <= i < self.cells()[c].len() implies in_cell(
                #[trigger] self.cells()[c][i],
                s,
                c % w,
                c / w,
            ) by {
                assert(self.cells()[c][i] == self.buckets.data[c][i]);
                assert(old(self).cells()[c][i] == old(self).buckets.data[c][i]);
            }
            assert forall|c: int, i: int|
                0 <= c < self.cells().len() && 0 <= i < self.cells()[c].len() implies (
            #[trigger] self.cells()[c][i]).typ < num_types by {
                assert(self.cells()[c][i] == self.buckets.data[c][i]);
            }
            lemma_same_lengths(old(self).cells(), self.cells());
            assert forall|c: int, i: int|
                0 <= c < old(self).cells().len() && 0 <= i < old(self).cells()[c].len() implies {
                let before = old(self).cells()[c][i];
                let after = #[trigger] self.cells()[c][i];
                &&& self.cells()[c].len() == old(self).cells()[c].len()
                &&& after.position == before.position
                &&& after.velocity == before.velocity
                &&& before.typ < num_types ==> after.typ == before.typ
            } by {
                assert(self.cells()[c][i] == self.buckets.data[c][i]);
                assert(old(self).cells()[c][i] == old(self).buckets.data[c][i]);
            }
        }
    }

    /// Takes a copy that has arrived from the other endpoint, unless it is
    /// older than what is held, and says whether it was taken.
    pub fn receive(&mut self, incoming: ParticleSimulation) -> (taken: bool)
        ensures
            taken == (incoming.metadata.update_id >= old(self).metadata.update_id),
            taken ==> *final(self) == incoming,
            !taken ==> *final(self) == *old(self),
            final(self).metadata.update_id == id_after(
                old(self).metadata.update_id,
                incoming.metadata.update_id,
            ),
    {
        if self.metadata.accepts(&incoming.metadata) {
            *self = incoming;
            true
        } else {
            false
        }
    }

    /// Gives every particle its impulse and lets it make its step. The
    /// particles stay in the lists they were in, wherever they have moved.
    pub fn move_particles(&mut self)
        requires
            old(self).wf(),
            old(self).type_data.wf(),
            old(self).species_known(),
        ensures
            final(self).shaped(),
            old(self).moved_to(final(self).cells()),
            forall|k: int|
                0 <= k < final(self).impulses.data.len() ==> (
                #[trigger] final(self).impulses.data[k]).len() == 0,
            final(self).buckets.size == old(self).buckets.size,
            final(self).bucket_size == old(self).bucket_size,
            final(self).type_data == old(self).type_data,
            final(self).params == old(self).params,
            final(self).metadata == old(self).metadata,
    {
        proof {
            assert(self.impulses.data.len() == self.buckets.data.len());
        }
        impulses_in_parallel(
            &self.buckets,
            self.bucket_size,
            &self.type_data,
            &self.params,
            &mut self.impulses.data,
        );
        let ghost impulses: Seq<Seq<[Real; 2]>> = Seq::new(
            self.impulses.data.len() as nat,
            |k: int| self.impulses.data[k]@,
        );
        let ghost after = integrated(old(self).cells(), impulses);
        proof {
            assert(impulses_of_grid(
                old(self).buckets,
                old(self).bucket_size as int,
                old(self).type_data,
                old(self).params,
                impulses,
            ));
        }
        let mut k: usize = 0;
        while k < self.buckets.data.len()
            invariant
                k <= self.buckets.data.len(),
                self.buckets.data.len() == old(self).buckets.data.len(),
                self.impulses.data.len() == self.buckets.data.len(),
                impulses.len() == self.buckets.data.len(),
                self.buckets.size == old(self).buckets.size,
                self.impulses.size == old(self).impulses.size,
                self.bucket_size == old(self).bucket_size,
                self.type_data == old(self).type_data,
                self.params == old(self).params,
                self.metadata == old(self).metadata,
                after == integrated(old(self).cells(), impulses),
                forall|c: int|
                    0 <= c < impulses.len() ==> (#[trigger] impulses[c]).len() == old(
                        self,
                    ).buckets.data[c].len(),
                forall|c: int| 0 <= c < k ==> (#[trigger] self.buckets.data[c])@ == after[c],
                forall|c: int| 0 <= c < k ==> (#[trigger] self.impulses.data[c]).len() == 0,
                forall|c: int|
                    k <= c < self.buckets.data.len() ==> #[trigger] self.buckets.data[c] == old(
                        self,
                    ).buckets.data[c],
                forall|c: int|
                    k <= c < self.buckets.data.len() ==> (#[trigger] self.impulses.data[c])@
                        == impulses[c],
            decreases self.buckets.data.len() - k,
        {
            let count: usize = self.buckets.data[k].len();
            let mut i: usize = 0;
            while i < count
                invariant
                    i <= count,
                    k < self.buckets.data.len(),
                    count == self.buckets.data[k as int].len(),
                    count == old(self).buckets.data[k as int].len(),
                    self.buckets.data.len() == old(self).buckets.data.len(),
                    self.impulses.data.len() == self.buckets.data.len(),
                    impulses.len() == self.buckets.data.len(),
                    self.buckets.size == old(self).buckets.size,
                    self.impulses.size == old(self).impulses.size,
                    self.bucket_size == old(self).bucket_size,
                    self.type_data == old(self).type_data,
                    self.params == old(self).params,
                    self.metadata == old(self).metadata,
                    after == integrated(old(self).cells(), impulses),
                    impulses[k as int].len() == count,
                    forall|c: int| 0 <= c < k ==> (#[trigger] self.buckets.data[c])@ == after[c],
                    forall|c: int| 0 <= c < k ==> (#[trigger] self.impulses.data[c]).len() == 0,
                    forall|c: int|
                        k < c < self.buckets.data.len() ==> #[trigger] self.buckets.data[c] == old(
                            self,
                        ).buckets.data[c],
                    forall|c: int|
                        k <= c < self.buckets.data.len() ==> (#[trigger] self.impulses.data[c])@
                            == impulses[c],
                    forall|t: int|
                        0 <= t < i ==> #[trigger] self.buckets.data[k as int][t] == after[k as int][t],
                    forall|t: int|
                        i <= t < count ==> #[trigger] self.buckets.data[k as int][t] == old(
                            self,
                        ).buckets.data[k as int][t],
                decreases count - i,
            {
                let impulse: [Real; 2] = self.impulses.data[k][i];
                proof {
                    assert(impulse == impulses[k as int][i as int]);
                    assert(old(self).cells()[k as int][i as int] == old(
                        self,
                    ).buckets.data[k as int][i as int]);
                }
                self.buckets.data[k][i].apply_velocity(impulse);
                i += 1;
            }
            self.impulses.data[k].clear();
            proof {
                assert(self.buckets.data[k as int]@ =~= after[k as int]);
            }
            k += 1;
        }
        proof {
            assert(self.cells() =~= after);
        }
    }

    /// Puts a particle that is not in its list's cell where it ends, and
    /// says whether it is still there: an edge that removes takes it away.
    fn settle(&mut self, particle: Particle) -> (stays: bool)
        requires
            old(self).shaped(),
        ensures
            final(self).cells() == placed(
                old(self).cells(),
                old(self).bucket_size as int,
                old(self).buckets.width(),
                old(self).buckets.height(),
                old(self).params.edge_type,
                particle,
            ),
            stays == destination(
                particle,
                old(self).bucket_size as int,
                old(self).buckets.width(),
                old(self).buckets.height(),
                old(self).params.edge_type,
            ).is_some(),
            final(self).buckets.size == old(self).buckets.size,
            final(self).buckets.data.len() == old(self).buckets.data.len(),
            final(self).impulses == old(self).impulses,
            final(self).bucket_size == old(self).bucket_size,
            final(self).type_data == old(self).type_data,
            final(self).params == old(self).params,
            final(self).metadata == old(self).metadata,
    {
        let ghost s = self.bucket_size as int;
        let ghost w = self.buckets.width();
        let ghost h = self.buckets.height();
        let mut back: Particle = particle;
        let mut found: Option<[usize; 2]> = self.bucket_index_of_position(particle.position);
        if found.is_none() {
            match self.params.edge_type {
                EdgeType::Wrapping => {
                    proof {
                        assert(w * s >= 1) by (nonlinear_arith)
                            requires
                                w >= 1,
                                s >= 1,
                        ;
                        assert(h * s >= 1) by (nonlinear_arith)
                            requires
                                h >= 1,
                                s >= 1,
                        ;
                    }
                    back = wrap_around(particle, self.size());
                    found = self.bucket_index_of_position(back.position);
                },
                EdgeType::Bouncing { multiplier, pushback } => {
                    back = bounce_back(particle, self.size(), multiplier, pushback);
                    found = self.bucket_index_of_position(back.position);
                },
                EdgeType::Deleting => {},
            }
        }
        match found {
            None => false,
            Some(index) => {
                proof {
                    lemma_flat_index(w, h, index[0] as int, index[1] as int);
                }
                let ghost before = self.cells();
                self.buckets.data[index[0] + index[1] * self.buckets.size[0]].push(back);
                proof {
                    let k = flat_index(w, index[0] as int, index[1] as int);
                    assert(self.cells() =~= before.update(k, before[k].push(back)));
                }
                true
            },
        }
    }

    /// Puts the grid back in order after the particles have moved: every
    /// particle that has left its cell joins the list of the cell it is in
    /// now, and one that has left the world meets the edge.
    pub fn organize_particles(&mut self)
        requires
            old(self).shaped(),
            old(self).metadata.num_particles == total(old(self).cells()),
            forall|k: int|
                0 <= k < old(self).impulses.data.len() ==> (
                #[trigger] old(self).impulses.data[k]).len() == 0,
        ensures
            final(self).wf(),
            final(self).cells() == reorganized(
                old(self).cells(),
                old(self).bucket_size as int,
                old(self).buckets.width(),
                old(self).buckets.height(),
                old(self).params.edge_type,
            ),
            final(self).buckets.size == old(self).buckets.size,
            final(self).impulses == old(self).impulses,
            final(self).bucket_size == old(self).bucket_size,
            final(self).type_data == old(self).type_data,
            final(self).params == old(self).params,
            final(self).metadata == (ParticleSimulationMetadata {
                num_particles: final(self).metadata.num_particles,
                ..old(self).metadata
            }),
    {
        let ghost s = self.bucket_size as int;
        let ghost w = self.buckets.width();
        let ghost h = self.buckets.height();
        let ghost edge = self.params.edge_type;
        let ghost start = self.cells();
        proof {
            assert forall|k: int| 0 <= k < self.buckets.data.len() implies #[trigger] cell_fits(
                k,
                w,
                s,
            ) by {
                lemma_index_of_place(w, h, k);
                assert((k % w + 1) * s <= w * s) by (nonlinear_arith)
                    requires
                        k % w + 1 <= w,
                        s >= 1,
                ;
                assert((k / w + 1) * s <= h * s) by (nonlinear_arith)
                    requires
                        k / w + 1 <= h,
                        s >= 1,
                ;
            }
        }
        let moved: Vec<Vec<Particle>> = extract_in_parallel(
            &mut self.buckets.data,
            self.buckets.size[0],
            self.bucket_size,
        );
        let ghost base = kept_cells(start, s, w);
        let ghost every = all_strays(start, s, w, start.len() as int);
        proof {
            assert(self.cells() =~= base);
            lemma_kept_and_strays(start, s, w, start.len() as int);
            assert(start.take(start.len() as int) =~= start);
            assert(base.take(start.len() as int) =~= base);
            lemma_kept_cells(start, s, w);
        }
        let mut n: usize = 0;
        while n < moved.len()
            invariant
                n <= moved.len(),
                moved.len() == start.len(),
                start.len() == w * h,
                self.shaped(),
                s == self.bucket_size,
                w == self.buckets.width(),
                h == self.buckets.height(),
                edge == self.params.edge_type,
                base == kept_cells(start, s, w),
                base.len() == w * h,
                in_order(base, s, w),
                every == all_strays(start, s, w, start.len() as int),
                forall|k: int|
                    0 <= k < moved.len() ==> (#[trigger] moved[k])@ == strays(
                        start[k],
                        s,
                        k % w,
                        k / w,
                    ),
                self.cells() == placed_all(base, s, w, h, edge, all_strays(start, s, w, n as int)),
                self.metadata.num_particles == total(self.cells()) + every.len() - all_strays(
                    start,
                    s,
                    w,
                    n as int,
                ).len(),
                self.buckets.size == old(self).buckets.size,
                self.impulses == old(self).impulses,
                self.bucket_size == old(self).bucket_size,
                self.type_data == old(self).type_data,
                self.params == old(self).params,
                self.metadata == (ParticleSimulationMetadata {
                    num_particles: self.metadata.num_particles,
                    ..old(self).metadata
                }),
            decreases moved.len() - n,
        {
            let ghost done = all_strays(start, s, w, n as int);
            let ghost list = moved[n as int]@;
            proof {
                assert(all_strays(start, s, w, n + 1) == done + list);
                lemma_strays_grow(start, s, w, n + 1, start.len() as int);
                assert((done + list.take(0)) =~= done);
            }
            let mut j: usize = 0;
            while j < moved[n].len()
                invariant
                    j <= moved[n as int].len(),
                    n < moved.len(),
                    list == moved[n as int]@,
                    done == all_strays(start, s, w, n as int),
                    (done + list).len() <= every.len(),
                    base.len() == w * h,
                    in_order(base, s, w),
                    self.shaped(),
                    s == self.bucket_size,
                    w == self.buckets.width(),
                    h == self.buckets.height(),
                    edge == self.params.edge_type,
                    self.cells() == placed_all(base, s, w, h, edge, done + list.take(j as int)),
                    self.metadata.num_particles == total(self.cells()) + every.len() - (done
                        + list.take(j as int)).len(),
                    self.buckets.size == old(self).buckets.size,
                    self.impulses == old(self).impulses,
                    self.bucket_size == old(self).bucket_size,
                    self.type_data == old(self).type_data,
                    self.params == old(self).params,
                    self.metadata == (ParticleSimulationMetadata {
                        num_particles: self.metadata.num_particles,
                        ..old(self).metadata
                    }),
                decreases moved[n as int].len() - j,
            {
                let particle: Particle = moved[n][j];
                let ghost before = self.cells();
                let ghost so_far = done + list.take(j as int);
                let stays: bool = self.settle(particle);
                proof {
                    let longer = done + list.take(j + 1);
                    assert(longer.drop_last() =~= so_far);
                    assert(longer.last() == particle);
                    assert(self.cells() == placed_all(base, s, w, h, edge, longer));
                    lemma_destination(particle, s, w, h, edge);
                    match destination(particle, s, w, h, edge) {
                        Some((cx, cy, back)) => {
                            let k = flat_index(w, cx, cy);
                            lemma_flat_index(w, h, cx, cy);
                            lemma_placed_all(base, s, w, h, edge, so_far);
                            lemma_total_update(before, k, before[k].push(back));
                        },
                        None => {},
                    }
                }
                if !stays {
                    self.metadata.num_particles = self.metadata.num_particles - 1;
                }
                j += 1;
            }
            proof {
                assert(list.take(list.len() as int) =~= list);
            }
            n += 1;
        }
        proof {
            lemma_reorganized_in_order(start, s, w, h, edge);
        }
    }

    /// Whether `after` can be the simulation one step on: every particle
    /// has gained its impulse and made its step, and the grid has been put
    /// back in order.
    pub open spec fn steps_to(&self, after: Self) -> bool {
        exists|moved: Seq<Seq<Particle>>| #[trigger]
            self.moved_to(moved) && after.cells() == reorganized(
                moved,
                self.bucket_size as int,
                self.buckets.width(),
                self.buckets.height(),
                self.params.edge_type,
            ) && after.metadata.num_particles + (if self.params.edge_type == EdgeType::Deleting {
                outside(
                    moved,
                    self.bucket_size as int,
                    self.buckets.width(),
                    self.buckets.height(),
                    moved.len() as int,
                )
            } else {
                0
            }) == self.metadata.num_particles
    }

    /// Advances the simulation by one step.
    ///
    /// Afterwards every particle is in the list of the cell that its
    /// position falls in. Where the edges wrap round or throw back, the
    /// number of particles is what it was; where the edge removes, it has
    /// fallen by one for each particle that left the world.
    pub fn step_simulation(&mut self)
        requires
            old(self).wf(),
            old(self).type_data.wf(),
            old(self).species_known(),
        ensures
            final(self).wf(),
            final(self).species_known(),
            old(self).steps_to(*final(self)),
            final(self).metadata.num_particles <= old(self).metadata.num_particles,
            old(self).params.edge_type != EdgeType::Deleting ==> final(self).metadata.num_particles
                == old(self).metadata.num_particles,
            final(self).buckets.size == old(self).buckets.size,
            final(self).bucket_size == old(self).bucket_size,
            final(self).type_data == old(self).type_data,
            final(self).params == old(self).params,
            final(self).metadata == (ParticleSimulationMetadata {
                num_particles: final(self).metadata.num_particles,
                ..old(self).metadata
            }),
    {
        let ghost s = self.bucket_size as int;
        let ghost w = self.buckets.width();
        let ghost h = self.buckets.height();
        let ghost edge = self.params.edge_type;
        let ghost count = self.type_data.count();
        self.move_particles();
        let ghost moved = self.cells();
        proof {
            let impulses = choose|impulses: Seq<Seq<[Real; 2]>>|
                #[trigger] impulses_of_grid(
                    old(self).buckets,
                    s,
                    old(self).type_data,
                    old(self).params,
                    impulses,
                ) && moved == integrated(old(self).cells(), impulses);
            assert(moved.len() == old(self).cells().len());
            assert forall|k: int| 0 <= k < moved.len() implies (#[trigger] moved[k]).len() == old(
                self,
            ).cells()[k].len() by {}
            lemma_same_lengths(old(self).cells(), moved);
            assert forall|k: int, i: int|
                0 <= k < moved.len() && 0 <= i < moved[k].len() implies (#[trigger] moved[k][i]).typ
                < count by {
                assert(moved[k][i] == stepped(old(self).cells()[k][i], impulses[k][i]));
            }
            assert(species_below(moved, count));
        }
        self.organize_particles();
        proof {
            lemma_reorganized_in_order(moved, s, w, h, edge);
            assert(species_below(self.cells(), count));
            if edge == EdgeType::Deleting {
                lemma_population_falls(moved, s, w, h);
            } else {
                lemma_population_kept(moved, s, w, h, edge);
            }
        }
    }
}

/// Whether `after` can be `before` one step on, with the same shape and
/// settings.
pub open spec fn next_of(before: ParticleSimulation, after: ParticleSimulation) -> bool {
    &&& before.steps_to(after)
    &&& after.buckets.size == before.buckets.size
    &&& after.bucket_size == before.bucket_size
    &&& after.params == before.params
}

/// Whether each simulation of `trace` but the first is the one before it,
/// one step on.
pub open spec fn is_run(trace: Seq<ParticleSimulation>) -> bool {
    forall|n: int| 0 <= n < trace.len() - 1 ==> next_of(trace[n], #[trigger] trace[n + 1])
}

/// After a step, every particle is in the list of the cell that its
/// position falls in.
pub proof fn lemma_step_leaves_order(before: ParticleSimulation, after: ParticleSimulation)
    requires
        before.shaped(),
        before.steps_to(after),
    ensures
        in_order(after.cells(), before.bucket_size as int, before.buckets.width()),
{
    let moved = choose|moved: Seq<Seq<Particle>>| #[trigger]
        before.moved_to(moved) && after.cells() == reorganized(
            moved,
            before.bucket_size as int,
            before.buckets.width(),
            before.buckets.height(),
            before.params.edge_type,
        );
    let impulses = choose|impulses: Seq<Seq<[Real; 2]>>|
        #[trigger] impulses_of_grid(
            before.buckets,
            before.bucket_size as int,
            before.type_data,
            before.params,
            impulses,
        ) && moved == integrated(before.cells(), impulses);
    lemma_reorganized_in_order(
        moved,
        before.bucket_size as int,
        before.buckets.width(),
        before.buckets.height(),
        before.params.edge_type,
    );
}

/// Where the edges wrap round or throw back, the number of particles is
/// the same after any number of steps.
pub proof fn lemma_population_constant(trace: Seq<ParticleSimulation>, n: int)
    requires
        is_run(trace),
        0 <= n < trace.len(),
        trace[0].params.edge_type != EdgeType::Deleting,
    ensures
        trace[n].metadata.num_particles == trace[0].metadata.num_particles,
        trace[n].params == trace[0].params,
    decreases n,
{
    if n > 0 {
        lemma_population_constant(trace, n - 1);
        assert(next_of(trace[n - 1], trace[n - 1 + 1]));
    }
}

/// Where the edge removes, the number of particles never rises from one
/// step to the next, and each step lowers it by the number of particles
/// that have left the world.
pub proof fn lemma_population_never_rises(trace: Seq<ParticleSimulation>, m: int, n: int)
    requires
        is_run(trace),
        0 <= m <= n < trace.len(),
    ensures
        trace[n].metadata.num_particles <= trace[m].metadata.num_particles,
    decreases n - m,
{
    if m < n {
        lemma_population_never_rises(trace, m, n - 1);
        assert(next_of(trace[n - 1], trace[n - 1 + 1]));
    }
}

/// Grids whose lists are as long, one by one, hold as many particles.
pub proof fn lemma_same_lengths(a: Seq<Seq<Particle>>, b: Seq<Seq<Particle>>)
    requires
        a.len() == b.len(),
        forall|k: int| 0 <= k < a.len() ==> (#[trigger] b[k]).len() == a[k].len(),
    ensures
        total(a) == total(b),
    decreases a.len(),
{
    if a.len() > 0 {
        assert(b.drop_last().len() == a.drop_last().len());
        assert forall|k: int| 0 <= k < a.drop_last().len() implies (#[trigger] b.drop_last()[k]).len()
            == a.drop_last()[k].len() by {
            assert(b.drop_last()[k] == b[k]);
        }
        lemma_same_lengths(a.drop_last(), b.drop_last());
    }
}

} // verus!
