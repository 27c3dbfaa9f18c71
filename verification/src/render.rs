//! What a renderer is given: the particles, species by species, each with
//! its colour, and the outlines of the world and of its cells.

use vstd::prelude::*;

use crate::fixed::Real;
use crate::grid::{species_below, types_below};
use crate::particle::Particle;
use crate::simulation::ParticleSimulation;
use crate::type_data::lemma_index_of_place;

verus! {

/// The particles of `list` that are of species `typ`, in their order.
pub open spec fn of_type(list: Seq<Particle>, typ: int) -> Seq<Particle>
    decreases list.len(),
{
    if list.len() == 0 {
        Seq::empty()
    } else if list.last().typ == typ {
        of_type(list.drop_last(), typ).push(list.last())
    } else {
        of_type(list.drop_last(), typ)
    }
}

/// The particles of `list` that are of the first `count` species, species
/// after species, and within a species in their order.
pub open spec fn by_type(list: Seq<Particle>, count: int) -> Seq<Particle>
    decreases count,
{
    if count <= 0 {
        Seq::empty()
    } else {
        by_type(list, count - 1) + of_type(list, count - 1)
    }
}

/// The particles of the first `n` cells, cell after cell.
pub open spec fn flattened(cells: Seq<Seq<Particle>>, n: int) -> Seq<Particle>
    decreases n,
{
    if n <= 0 {
        Seq::empty()
    } else {
        flattened(cells, n - 1) + cells[n - 1]
    }
}

/// A particle as it is drawn.
#[derive(Clone, Copy, Debug)]
pub struct RenderedParticle {
    pub position: [Real; 2],
    pub typ: usize,
    /// Red, green and blue.
    pub color: [u8; 3],
}

/// All that is drawn of a simulation.
#[derive(Clone, Debug)]
pub struct RenderSnapshot {
    /// The particles, species after species.
    pub particles: Vec<RenderedParticle>,
    /// The width and the height of the world.
    pub size: [Real; 2],
    /// The width of a cell.
    pub bucket_size: Real,
    /// For each cell, the corner nearest the origin; empty unless asked for.
    pub cell_corners: Vec<[Real; 2]>,
}

/// Whether a colour is bright, so that dark text is read on it more easily
/// than light: 0.299 of its red squared, 0.587 of its green squared and
/// 0.144 of its blue squared come to more than a quarter, each channel
/// taken as a part of one.
pub open spec fn bright(color: [u8; 3]) -> bool {
    4 * (299 * (color[0] * color[0]) + 587 * (color[1] * color[1]) + 144 * (color[2] * color[2]))
        > 1000 * (255 * 255)
}

/// Whether a colour is bright.
pub fn is_bright(color: [u8; 3]) -> (r: bool)
    ensures
        r == bright(color),
{
    proof {
        assert(color[0] * color[0] <= 255 * 255) by (nonlinear_arith)
            requires
                0 <= color[0] <= 255,
        ;
        assert(color[1] * color[1] <= 255 * 255) by (nonlinear_arith)
            requires
                0 <= color[1] <= 255,
        ;
        assert(color[2] * color[2] <= 255 * 255) by (nonlinear_arith)
            requires
                0 <= color[2] <= 255,
        ;
    }
    let red: u64 = (color[0] as u64) * (color[0] as u64);
    let green: u64 = (color[1] as u64) * (color[1] as u64);
    let blue: u64 = (color[2] as u64) * (color[2] as u64);
    4 * (299 * red + 587 * green + 144 * blue) > 65_025_000
}

/// Every particle of `of_type` is of that species and comes from the list.
pub proof fn lemma_of_type(list: Seq<Particle>, typ: int)
    ensures
        of_type(list, typ).len() <= list.len(),
        forall|i: int|
            0 <= i < of_type(list, typ).len() ==> (#[trigger] of_type(list, typ)[i]).typ == typ,
    decreases list.len(),
{
    if list.len() > 0 {
        lemma_of_type(list.drop_last(), typ);
    }
}

/// Sorted by species, the particles stand in the order of their species.
pub proof fn lemma_by_type_sorted(list: Seq<Particle>, count: int)
    ensures
        forall|i: int| 0 <= i < by_type(list, count).len() ==> (#[trigger] by_type(list, count)[i]).typ
            < count,
        forall|i: int, j: int|
            0 <= i <= j < by_type(list, count).len() ==> (#[trigger] by_type(list, count)[i]).typ <= (
            #[trigger] by_type(list, count)[j]).typ,
    decreases count,
{
    if count > 0 {
        lemma_by_type_sorted(list, count - 1);
        lemma_of_type(list, count - 1);
        let front = by_type(list, count - 1);
        let back = of_type(list, count - 1);
        let all = by_type(list, count);
        assert forall|i: int| 0 <= i < all.len() implies (#[trigger] all[i]).typ < count by {
            if i < front.len() {
                assert(all[i] == front[i]);
            } else {
                assert(all[i] == back[i - front.len()]);
            }
        }
        assert forall|i: int, j: int| 0 <= i <= j < all.len() implies (#[trigger] all[i]).typ <= (
        #[trigger] all[j]).typ by {
            if j < front.len() {
                assert(all[i] == front[i]);
                assert(all[j] == front[j]);
            } else if i < front.len() {
                assert(all[i] == front[i]);
                assert(all[j] == back[j - front.len()]);
            } else {
                assert(all[i] == back[i - front.len()]);
                assert(all[j] == back[j - front.len()]);
            }
        }
    }
}

/// Sorting by species loses no particle whose species is among those
/// sorted.
pub proof fn lemma_by_type_len(list: Seq<Particle>, count: int)
    requires
        count >= 0,
        types_below(list, count),
    ensures
        by_type(list, count).len() == list.len(),
    decreases list.len(),
{
    if list.len() == 0 {
        lemma_by_type_of_empty(count);
        assert(list =~= Seq::<Particle>::empty());
    } else {
        let front = list.drop_last();
        assert forall|j: int| 0 <= j < front.len() implies (#[trigger] front[j]).typ < count by {
            assert(front[j] == list[j]);
        }
        assert(types_below(front, count));
        assert(list.last() == list[list.len() - 1]);
        assert(list.last().typ < count);
        lemma_by_type_len(front, count);
        lemma_by_type_push(list, count);
    }
}

/// One particle more in the list is one more when sorted, where its
/// species is among those sorted.
proof fn lemma_by_type_push(list: Seq<Particle>, count: int)
    requires
        count >= 0,
        list.len() > 0,
    ensures
        by_type(list, count).len() == by_type(list.drop_last(), count).len() + (if list.last().typ
            < count {
            1int
        } else {
            0int
        }),
    decreases count,
{
    if count > 0 {
        lemma_by_type_push(list, count - 1);
        let front = list.drop_last();
        assert(by_type(list, count).len() == by_type(list, count - 1).len() + of_type(
            list,
            count - 1,
        ).len());
        assert(by_type(front, count).len() == by_type(front, count - 1).len() + of_type(
            front,
            count - 1,
        ).len());
    }
}

/// Nothing sorted is nothing.
proof fn lemma_by_type_of_empty(count: int)
    ensures
        by_type(Seq::empty(), count).len() == 0,
    decreases count,
{
    if count > 0 {
        lemma_by_type_of_empty(count - 1);
    }
}

/// The particles sorted by species: those of species 0 first, then those of
/// species 1, and so on below `num_types`; within a species they keep
/// their order.
pub fn sort_by_type(particles: &Vec<Particle>, num_types: usize) -> (sorted: Vec<Particle>)
    requires
        types_below(particles@, num_types as int),
    ensures
        sorted@ == by_type(particles@, num_types as int),
        sorted.len() == particles.len(),
{
    let mut groups: Vec<Vec<Particle>> = Vec::new();
    let mut t: usize = 0;
    while t < num_types
        invariant
            t <= num_types,
            groups.len() == t,
            forall|k: int| 0 <= k < t ==> (#[trigger] groups[k])@ == Seq::<Particle>::empty(),
        decreases num_types - t,
    {
        groups.push(Vec::new());
        t += 1;
    }
    let mut i: usize = 0;
    while i < particles.len()
        invariant
            i <= particles.len(),
            groups.len() == num_types,
            types_below(particles@, num_types as int),
            forall|k: int|
                0 <= k < num_types ==> (#[trigger] groups[k])@ == of_type(
                    particles@.take(i as int),
                    k,
                ),
        decreases particles.len() - i,
    {
        let p: Particle = particles[i];
        let ghost before = groups@;
        proof {
            assert(particles@.take(i + 1).drop_last() =~= particles@.take(i as int));
            assert(particles@.take(i + 1).last() == p);
        }
        groups[p.typ].push(p);
        proof {
            assert forall|k: int| 0 <= k < num_types implies (#[trigger] groups[k])@ == of_type(
                particles@.take(i + 1),
                k,
            ) by {
                if k != p.typ {
                    assert(groups[k] == before[k]);
                }
            }
        }
        i += 1;
    }
    proof {
        assert(particles@.take(particles.len() as int) =~= particles@);
    }
    let mut sorted: Vec<Particle> = Vec::new();
    let mut t: usize = 0;
    while t < num_types
        invariant
            t <= num_types,
            groups.len() == num_types,
            forall|k: int| 0 <= k < num_types ==> (#[trigger] groups[k])@ == of_type(particles@, k),
            sorted@ == by_type(particles@, t as int),
        decreases num_types - t,
    {
        let mut j: usize = 0;
        while j < groups[t].len()
            invariant
                j <= groups[t as int].len(),
                t < num_types,
                groups.len() == num_types,
                groups[t as int]@ == of_type(particles@, t as int),
                sorted@ == by_type(particles@, t as int) + of_type(particles@, t as int).take(
                    j as int,
                ),
            decreases groups[t as int].len() - j,
        {
            let ghost before = sorted@;
            sorted.push(groups[t][j]);
            proof {
                let list = of_type(particles@, t as int);
                assert(list.take(j + 1) =~= list.take(j as int).push(list[j as int]));
                assert(sorted@ =~= by_type(particles@, t as int) + list.take(j + 1));
            }
            j += 1;
        }
        proof {
            let list = of_type(particles@, t as int);
            assert(list.take(list.len() as int) =~= list);
        }
        t += 1;
    }
    proof {
        lemma_by_type_len(particles@, num_types as int);
    }
    sorted
}

impl ParticleSimulation {
    /// All the particles, cell after cell.
    pub fn particles(&self) -> (all: Vec<Particle>)
        ensures
            all@ == flattened(self.cells(), self.cells().len() as int),
    {
        let mut all: Vec<Particle> = Vec::new();
        let mut k: usize = 0;
        while k < self.buckets.data.len()
            invariant
                k <= self.buckets.data.len(),
                all@ == flattened(self.cells(), k as int),
            decreases self.buckets.data.len() - k,
        {
            let bucket: &Vec<Particle> = &self.buckets.data[k];
            let ghost before = all@;
            let mut i: usize = 0;
            while i < bucket.len()
                invariant
                    i <= bucket.len(),
                    all@ == before + bucket@.take(i as int),
                decreases bucket.len() - i,
            {
                all.push(bucket[i]);
                proof {
                    assert(bucket@.take(i + 1) =~= bucket@.take(i as int).push(bucket[i as int]));
                    assert(all@ =~= before + bucket@.take(i + 1));
                }
                i += 1;
            }
            proof {
                assert(bucket@.take(bucket.len() as int) =~= bucket@);
                assert(self.cells()[k as int] == bucket@);
            }
            k += 1;
        }
        all
    }

    /// The corner nearest the origin of every cell, cell after cell.
    pub fn cell_corners(&self) -> (corners: Vec<[Real; 2]>)
        requires
            self.shaped(),
        ensures
            corners.len() == self.buckets.data.len(),
            forall|k: int|
                0 <= k < corners.len() ==> (#[trigger] corners[k])[0] == (k % self.buckets.width())
                    * self.bucket_size && corners[k][1] == (k / self.buckets.width())
                    * self.bucket_size,
    {
        let mut corners: Vec<[Real; 2]> = Vec::new();
        let mut k: usize = 0;
        while k < self.buckets.data.len()
            invariant
                k <= self.buckets.data.len(),
                self.shaped(),
                corners.len() == k,
                forall|c: int|
                    0 <= c < k ==> (#[trigger] corners[c])[0] == (c % self.buckets.width())
                        * self.bucket_size && corners[c][1] == (c / self.buckets.width())
                        * self.bucket_size,
            decreases self.buckets.data.len() - k,
        {
            proof {
                lemma_index_of_place(self.buckets.width(), self.buckets.height(), k as int);
            }
            let index: [usize; 2] = [k % self.buckets.size[0], k / self.buckets.size[0]];
            let corner: [Real; 2] = self.position_of_bucket(index);
            corners.push(corner);
            k += 1;
        }
        corners
    }

    /// What a renderer draws: the particles sorted by species, each with
    /// the colour of its species, the size of the world, and, where
    /// `draw_debug_graphics` is set, the corners of the cells.
    pub fn snapshot_for_render(&self, draw_debug_graphics: bool) -> (snapshot: RenderSnapshot)
        requires
            self.shaped(),
            self.type_data.wf(),
            self.species_known(),
        ensures
            snapshot.size[0] == self.world_width(),
            snapshot.size[1] == self.world_height(),
            snapshot.bucket_size == self.bucket_size,
            snapshot.particles.len() == by_type(
                flattened(self.cells(), self.cells().len() as int),
                self.type_data.count(),
            ).len(),
            forall|i: int|
                0 <= i < snapshot.particles.len() ==> {
                    let p = by_type(
                        flattened(self.cells(), self.cells().len() as int),
                        self.type_data.count(),
                    )[i];
                    &&& (#[trigger] snapshot.particles[i]).position == p.position
                    &&& snapshot.particles[i].typ == p.typ
                    &&& snapshot.particles[i].color == self.type_data.colors[p.typ as int]
                },
            !draw_debug_graphics ==> snapshot.cell_corners.len() == 0,
            draw_debug_graphics ==> snapshot.cell_corners.len() == self.buckets.data.len(),
            draw_debug_graphics ==> forall|k: int|
                0 <= k < snapshot.cell_corners.len() ==> (#[trigger] snapshot.cell_corners[k])[0] == (k
                    % self.buckets.width()) * self.bucket_size && snapshot.cell_corners[k][1] == (k
                    / self.buckets.width()) * self.bucket_size,
    {
        let all: Vec<Particle> = self.particles();
        let num_types: usize = self.type_data.num_types();
        proof {
            lemma_flattened_species(self.cells(), self.cells().len() as int, num_types as int);
        }
        let sorted: Vec<Particle> = sort_by_type(&all, num_types);
        proof {
            lemma_by_type_sorted(all@, num_types as int);
        }
        let mut particles: Vec<RenderedParticle> = Vec::new();
        let mut i: usize = 0;
        while i < sorted.len()
            invariant
                i <= sorted.len(),
                particles.len() == i,
                self.type_data.wf(),
                num_types == self.type_data.count(),
                forall|j: int| 0 <= j < sorted.len() ==> (#[trigger] sorted[j]).typ < num_types,
                forall|j: int|
                    0 <= j < i ==> {
                        &&& (#[trigger] particles[j]).position == sorted[j].position
                        &&& particles[j].typ == sorted[j].typ
                        &&& particles[j].color == self.type_data.colors[sorted[j].typ as int]
                    },
            decreases sorted.len() - i,
        {
            let p: Particle = sorted[i];
            particles.push(
                RenderedParticle {
                    position: p.position,
                    typ: p.typ,
                    color: self.type_data.colors[p.typ],
                },
            );
            i += 1;
        }
        let cell_corners: Vec<[Real; 2]> = if draw_debug_graphics {
            self.cell_corners()
        } else {
            Vec::new()
        };
        RenderSnapshot { particles, size: self.size(), bucket_size: self.bucket_size, cell_corners }
    }
}

/// The species found among the particles of the first `n` cells are found
/// in the grid.
pub proof fn lemma_flattened_species(cells: Seq<Seq<Particle>>, n: int, count: int)
    requires
        0 <= n <= cells.len(),
        species_below(cells, count),
    ensures
        types_below(flattened(cells, n), count),
    decreases n,
{
    if n > 0 {
        lemma_flattened_species(cells, n - 1, count);
        let front = flattened(cells, n - 1);
        let list = cells[n - 1];
        assert forall|j: int| 0 <= j < (front + list).len() implies (#[trigger] (front + list)[j]).typ
            < count by {
            if j < front.len() {
                assert((front + list)[j] == front[j]);
            } else {
                assert((front + list)[j] == cells[n - 1][j - front.len()]);
            }
        }
    }
}

} // verus!
