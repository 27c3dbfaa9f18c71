//! The impulses of one step: what every particle gains from the particles
//! of its own cell and of the eight cells around it.

use vstd::prelude::*;

use crate::fixed::{Real, LIMIT};
use crate::grid::{cells_of, in_order, lemma_in_order_bounds, species_below, types_below};
use crate::matrix::{flat_index, lemma_flat_index, Matrix};
use crate::params::{EdgeType, ParticleSimulationParams};
use crate::fixed::clamp;
use crate::particle::{contribution, displaced, no_impulse, pair_step, stepped, Particle};
use crate::type_data::{lemma_index_of_place, ParticleTypeData};

verus! {

/// The step from a cell to the `n`-th of the eight cells around it.
pub open spec fn neighbor_offset(n: int) -> (int, int) {
    if n == 0 {
        (-1, 1)
    } else if n == 1 {
        (0, 1)
    } else if n == 2 {
        (1, 1)
    } else if n == 3 {
        (-1, 0)
    } else if n == 4 {
        (1, 0)
    } else if n == 5 {
        (-1, -1)
    } else if n == 6 {
        (0, -1)
    } else {
        (1, -1)
    }
}

/// Along one axis of `count` cells, the cell that stands for `c` where the
/// world wraps round.
pub open spec fn wrapped_coordinate(c: int, count: int) -> int {
    if c < 0 {
        count - 1
    } else if c >= count {
        0
    } else {
        c
    }
}

/// Along one axis, how many worlds further on the cell `c` lies than the
/// cell that stands for it: -1, 0 or 1.
pub open spec fn wrap_shift(c: int, count: int) -> int {
    if c < 0 {
        -1
    } else if c >= count {
        1
    } else {
        0
    }
}

/// The `n`-th cell around `(cx, cy)` in a grid of `w` by `h` cells: the cell
/// whose particles are met, and how many worlds further on they are seen
/// along each axis. Across the edge there is a cell only where the world
/// wraps round.
pub open spec fn neighbor_cell(w: int, h: int, cx: int, cy: int, n: int, wrapping: bool) -> Option<
    (int, int, int, int),
> {
    let nx = cx + neighbor_offset(n).0;
    let ny = cy + neighbor_offset(n).1;
    if 0 <= nx < w && 0 <= ny < h {
        Some((nx, ny, 0, 0))
    } else if wrapping {
        Some(
            (
                wrapped_coordinate(nx, w),
                wrapped_coordinate(ny, h),
                wrap_shift(nx, w),
                wrap_shift(ny, h),
            ),
        )
    } else {
        None
    }
}

/// The particles of the `n`-th cell around `(cx, cy)`, each where it is seen
/// from there.
pub open spec fn neighborhood(
    buckets: Matrix<Vec<Particle>>,
    s: int,
    wrapping: bool,
    cx: int,
    cy: int,
    n: int,
) -> Seq<Particle> {
    match neighbor_cell(buckets.width(), buckets.height(), cx, cy, n, wrapping) {
        Some((nx, ny, sx, sy)) => cells_of(buckets)[flat_index(buckets.width(), nx, ny)].map_values(
            |q: Particle| displaced(q, sx * (buckets.width() * s), sy * (buckets.height() * s)),
        ),
        None => Seq::empty(),
    }
}

/// The particles of the first `n` cells around `(cx, cy)`, cell after cell.
pub open spec fn surroundings(
    buckets: Matrix<Vec<Particle>>,
    s: int,
    wrapping: bool,
    cx: int,
    cy: int,
    n: int,
) -> Seq<Particle>
    decreases n,
{
    if n <= 0 {
        Seq::empty()
    } else {
        surroundings(buckets, s, wrapping, cx, cy, n - 1) + neighborhood(
            buckets,
            s,
            wrapping,
            cx,
            cy,
            n - 1,
        )
    }
}

/// The particles that particle `i` of cell `k` meets, in the order in which
/// it meets them: the others of its own cell, then those of the eight cells
/// around.
pub open spec fn others_of(
    buckets: Matrix<Vec<Particle>>,
    s: int,
    wrapping: bool,
    k: int,
    i: int,
) -> Seq<Particle> {
    cells_of(buckets)[k].remove(i) + surroundings(
        buckets,
        s,
        wrapping,
        k % buckets.width(),
        k / buckets.width(),
        8,
    )
}

/// The impulse with which the `j`-th meeting begins: `start` for the first,
/// and for every other the impulse with which the one before ended.
pub open spec fn impulse_before(start: [Real; 2], steps: Seq<[Real; 2]>, j: int) -> [Real; 2] {
    if j == 0 {
        start
    } else {
        steps[j - 1]
    }
}

/// Whether `steps` can be the impulses of `p` after each of its meetings
/// with `others`, one after the other, starting from `start`.
pub open spec fn follows(
    p: Particle,
    others: Seq<Particle>,
    type_data: ParticleTypeData,
    reach: int,
    prevent: bool,
    start: [Real; 2],
    steps: Seq<[Real; 2]>,
) -> bool {
    &&& steps.len() == others.len()
    &&& forall|j: int|
        0 <= j < others.len() ==> pair_step(
            p,
            others[j],
            type_data.scaled_attractions.at(p.typ as int, others[j].typ as int) as int,
            reach,
            prevent,
            impulse_before(start, steps, j),
            #[trigger] steps[j],
        )
}

/// Whether `end` can be the impulse of `p` once it has met `others` one
/// after the other, starting from `start`.
#[verifier::opaque]
pub open spec fn chain(
    p: Particle,
    others: Seq<Particle>,
    type_data: ParticleTypeData,
    reach: int,
    prevent: bool,
    start: [Real; 2],
    end: [Real; 2],
) -> bool {
    exists|steps: Seq<[Real; 2]>|
        #[trigger] follows(p, others, type_data, reach, prevent, start, steps) && end
            == impulse_before(start, steps, others.len() as int)
}

/// Meeting nobody leaves the impulse as it was.
pub proof fn lemma_chain_empty(
    p: Particle,
    type_data: ParticleTypeData,
    reach: int,
    prevent: bool,
    start: [Real; 2],
)
    ensures
        chain(p, Seq::empty(), type_data, reach, prevent, start, start),
{
    reveal(chain);
    assert(follows(p, Seq::empty(), type_data, reach, prevent, start, Seq::empty()));
}

/// Meeting one particle more lengthens the chain.
pub proof fn lemma_chain_push(
    p: Particle,
    others: Seq<Particle>,
    other: Particle,
    type_data: ParticleTypeData,
    reach: int,
    prevent: bool,
    start: [Real; 2],
    mid: [Real; 2],
    end: [Real; 2],
)
    requires
        chain(p, others, type_data, reach, prevent, start, mid),
        pair_step(
            p,
            other,
            type_data.scaled_attractions.at(p.typ as int, other.typ as int) as int,
            reach,
            prevent,
            mid,
            end,
        ),
    ensures
        chain(p, others.push(other), type_data, reach, prevent, start, end),
{
    reveal(chain);
    let steps = choose|steps: Seq<[Real; 2]>|
        #[trigger] follows(p, others, type_data, reach, prevent, start, steps) && mid
            == impulse_before(start, steps, others.len() as int);
    let longer = others.push(other);
    let more = steps.push(end);
    assert forall|j: int| 0 <= j < longer.len() implies pair_step(
        p,
        longer[j],
        type_data.scaled_attractions.at(p.typ as int, longer[j].typ as int) as int,
        reach,
        prevent,
        impulse_before(start, more, j),
        #[trigger] more[j],
    ) by {
        if j < others.len() {
            assert(more[j] == steps[j]);
            assert(longer[j] == others[j]);
            assert(impulse_before(start, more, j) == impulse_before(start, steps, j));
        } else {
            assert(impulse_before(start, more, j) == mid);
        }
    }
    assert(follows(p, longer, type_data, reach, prevent, start, more));
}

/// Whether none of `others` is in the place of `p`.
pub open spec fn apart(p: Particle, others: Seq<Particle>) -> bool {
    forall|j: int|
        0 <= j < others.len() ==> (#[trigger] others[j]).position[0] != p.position[0]
            || others[j].position[1] != p.position[1]
}

/// What `p` gains in all from `others`, none of which is in its place: the
/// gains from each, added one after the other.
pub open spec fn net_impulse(
    p: Particle,
    others: Seq<Particle>,
    type_data: ParticleTypeData,
    reach: int,
    prevent: bool,
) -> (int, int)
    decreases others.len(),
{
    if others.len() == 0 {
        (0, 0)
    } else {
        let before = net_impulse(p, others.drop_last(), type_data, reach, prevent);
        let gain = contribution(
            others.last().position[0] - p.position[0],
            others.last().position[1] - p.position[1],
            type_data.scaled_attractions.at(p.typ as int, others.last().typ as int) as int,
            reach,
            prevent,
        );
        (clamp(before.0 + gain.0), clamp(before.1 + gain.1))
    }
}

/// Where no other particle is in the place of `p`, nothing is left to
/// chance: the impulse of `p` is what it gains in all.
pub proof fn lemma_chain_without_jitter(
    p: Particle,
    others: Seq<Particle>,
    type_data: ParticleTypeData,
    reach: int,
    prevent: bool,
    end: [Real; 2],
)
    requires
        chain(p, others, type_data, reach, prevent, no_impulse(), end),
        apart(p, others),
    ensures
        (end[0] as int, end[1] as int) == net_impulse(p, others, type_data, reach, prevent),
{
    reveal(chain);
    let steps = choose|steps: Seq<[Real; 2]>|
        #[trigger] follows(p, others, type_data, reach, prevent, no_impulse(), steps) && end
            == impulse_before(no_impulse(), steps, others.len() as int);
    lemma_follows_without_jitter(p, others, type_data, reach, prevent, steps, others.len() as int);
    assert(others.take(others.len() as int) =~= others);
}

/// After each of its first `n` meetings, the impulse of `p` is what it has
/// gained in all from those it has met.
proof fn lemma_follows_without_jitter(
    p: Particle,
    others: Seq<Particle>,
    type_data: ParticleTypeData,
    reach: int,
    prevent: bool,
    steps: Seq<[Real; 2]>,
    n: int,
)
    requires
        follows(p, others, type_data, reach, prevent, no_impulse(), steps),
        apart(p, others),
        0 <= n <= others.len(),
    ensures
        ({
            let now = impulse_before(no_impulse(), steps, n);
            (now[0] as int, now[1] as int) == net_impulse(
                p,
                others.take(n),
                type_data,
                reach,
                prevent,
            )
        }),
    decreases n,
{
    if n > 0 {
        lemma_follows_without_jitter(p, others, type_data, reach, prevent, steps, n - 1);
        assert(others.take(n).drop_last() =~= others.take(n - 1));
        assert(others.take(n).last() == others[n - 1]);
        let after = steps[n - 1];
        assert(pair_step(
            p,
            others[n - 1],
            type_data.scaled_attractions.at(p.typ as int, others[n - 1].typ as int) as int,
            reach,
            prevent,
            impulse_before(no_impulse(), steps, n - 1),
            after,
        ));
    }
}

/// Whether the edges wrap round.
pub open spec fn wraps(params: ParticleSimulationParams) -> bool {
    params.edge_type == EdgeType::Wrapping
}

/// Whether `impulses` can be the impulses of the particles of cell `k`: one
/// for each, reached by meeting the others in order, from nothing.
pub open spec fn impulses_of_cell(
    buckets: Matrix<Vec<Particle>>,
    s: int,
    type_data: ParticleTypeData,
    params: ParticleSimulationParams,
    k: int,
    impulses: Seq<[Real; 2]>,
) -> bool {
    &&& impulses.len() == cells_of(buckets)[k].len()
    &&& forall|i: int|
        0 <= i < impulses.len() ==> chain(
            cells_of(buckets)[k][i],
            others_of(buckets, s, wraps(params), k, i),
            type_data,
            s,
            params.prevent_particle_ejecting,
            no_impulse(),
            #[trigger] impulses[i],
        )
}

/// Whether `impulses` can be the impulses of all the particles of the grid.
pub open spec fn impulses_of_grid(
    buckets: Matrix<Vec<Particle>>,
    s: int,
    type_data: ParticleTypeData,
    params: ParticleSimulationParams,
    impulses: Seq<Seq<[Real; 2]>>,
) -> bool {
    &&& impulses.len() == buckets.data.len()
    &&& forall|k: int|
        0 <= k < impulses.len() ==> impulses_of_cell(
            buckets,
            s,
            type_data,
            params,
            k,
            #[trigger] impulses[k],
        )
}

/// What the computation of impulses asks of a grid: a sound shape, every
/// particle in the list of its cell, and every species in the table.
pub open spec fn forces_ready(
    buckets: Matrix<Vec<Particle>>,
    bucket_size: Real,
    type_data: ParticleTypeData,
) -> bool {
    &&& buckets.wf()
    &&& buckets.width() >= 1
    &&& buckets.height() >= 1
    &&& bucket_size >= 1
    &&& buckets.width() * bucket_size <= LIMIT
    &&& buckets.height() * bucket_size <= LIMIT
    &&& in_order(cells_of(buckets), bucket_size as int, buckets.width())
    &&& type_data.wf()
    &&& species_below(cells_of(buckets), type_data.count())
}

/// The grid after every particle has made its step under its impulse.
pub open spec fn integrated(cells: Seq<Seq<Particle>>, impulses: Seq<Seq<[Real; 2]>>) -> Seq<
    Seq<Particle>,
> {
    Seq::new(
        cells.len(),
        |k: int| Seq::new(cells[k].len(), |i: int| stepped(cells[k][i], impulses[k][i])),
    )
}

/// A cell of the grid with the place from which its particles are seen.
pub struct Neighbor {
    pub index: [usize; 2],
    /// Along each axis, how many worlds further on: -1, 0 or 1.
    pub shift: [i8; 2],
}

fn offset_of(n: usize) -> (r: [i8; 2])
    requires
        n < 8,
    ensures
        (r[0] as int, r[1] as int) == neighbor_offset(n as int),
{
    if n == 0 {
        [-1, 1]
    } else if n == 1 {
        [0, 1]
    } else if n == 2 {
        [1, 1]
    } else if n == 3 {
        [-1, 0]
    } else if n == 4 {
        [1, 0]
    } else if n == 5 {
        [-1, -1]
    } else if n == 6 {
        [0, -1]
    } else {
        [1, -1]
    }
}

/// Along one axis of `count` cells: the cell one `step` from `c`, and how
/// many worlds further on it lies than the cell that stands for it.
fn along(c: usize, step: i8, count: usize) -> (r: (usize, i8))
    requires
        c < count,
        -1 <= step <= 1,
    ensures
        r.0 == wrapped_coordinate(c + step, count as int),
        r.1 == wrap_shift(c + step, count as int),
        r.0 < count,
{
    if step < 0 {
        if c == 0 {
            (count - 1, -1)
        } else {
            (c - 1, 0)
        }
    } else if step > 0 {
        if c == count - 1 {
            (0, 1)
        } else {
            (c + 1, 0)
        }
    } else {
        (c, 0)
    }
}

/// The length of `shift` worlds, each `span` long.
fn worlds_on(shift: i8, span: Real) -> (r: Real)
    requires
        -1 <= shift <= 1,
        0 <= span <= LIMIT,
    ensures
        r == shift * span,
        -LIMIT <= r <= LIMIT,
{
    assert(shift * span == (if shift == 1 {
        span as int
    } else if shift == 0 {
        0
    } else {
        -span
    })) by (nonlinear_arith)
        requires
            -1 <= shift <= 1,
    ;
    if shift == 1 {
        span
    } else if shift == 0 {
        0
    } else {
        -span
    }
}

/// The `n`-th cell around `index` in a grid of `size[0]` by `size[1]` cells.
pub fn neighbor_of(size: [usize; 2], index: [usize; 2], n: usize, wrapping: bool) -> (r: Option<
    Neighbor,
>)
    requires
        index[0] < size[0],
        index[1] < size[1],
        n < 8,
    ensures
        match neighbor_cell(
            size[0] as int,
            size[1] as int,
            index[0] as int,
            index[1] as int,
            n as int,
            wrapping,
        ) {
            Some((nx, ny, sx, sy)) => r matches Some(found) && found.index[0] == nx
                && found.index[1] == ny && found.shift[0] == sx && found.shift[1] == sy,
            None => r.is_none(),
        },
        r matches Some(found) ==> found.index[0] < size[0] && found.index[1] < size[1] && -1
            <= found.shift[0] <= 1 && -1 <= found.shift[1] <= 1,
{
    let step: [i8; 2] = offset_of(n);
    let x: (usize, i8) = along(index[0], step[0], size[0]);
    let y: (usize, i8) = along(index[1], step[1], size[1]);
    if x.1 == 0 && y.1 == 0 {
        Some(Neighbor { index: [x.0, y.0], shift: [0, 0] })
    } else if wrapping {
        Some(Neighbor { index: [x.0, y.0], shift: [x.1, y.1] })
    } else {
        None
    }
}

/// The particles of the eight cells around `index`, each where it is seen
/// from there.
pub fn gather_neighbors(
    buckets: &Matrix<Vec<Particle>>,
    bucket_size: Real,
    wrapping: bool,
    index: [usize; 2],
) -> (around: Vec<Particle>)
    requires
        buckets.wf(),
        buckets.in_bounds(index[0] as int, index[1] as int),
        bucket_size >= 1,
        buckets.width() * bucket_size <= LIMIT,
        buckets.height() * bucket_size <= LIMIT,
        in_order(cells_of(*buckets), bucket_size as int, buckets.width()),
    ensures
        around@ == surroundings(
            *buckets,
            bucket_size as int,
            wrapping,
            index[0] as int,
            index[1] as int,
            8,
        ),
        forall|count: int|
            species_below(cells_of(*buckets), count) ==> #[trigger] types_below(around@, count),
{
    let ghost s = bucket_size as int;
    let ghost w = buckets.width();
    let ghost h = buckets.height();
    proof {
        assert(0 <= w <= LIMIT) by (nonlinear_arith)
            requires
                w * s <= LIMIT,
                s >= 1,
                w >= 1,
        ;
        assert(0 <= h <= LIMIT) by (nonlinear_arith)
            requires
                h * s <= LIMIT,
                s >= 1,
                h >= 1,
        ;
    }
    let span: [Real; 2] = [
        (buckets.size[0] as i64) * bucket_size,
        (buckets.size[1] as i64) * bucket_size,
    ];
    let mut around: Vec<Particle> = Vec::new();
    let mut n: usize = 0;
    while n < 8
        invariant
            n <= 8,
            buckets.wf(),
            buckets.in_bounds(index[0] as int, index[1] as int),
            s == bucket_size,
            w == buckets.width(),
            h == buckets.height(),
            s >= 1,
            span[0] == w * s,
            span[1] == h * s,
            0 <= w * s <= LIMIT,
            0 <= h * s <= LIMIT,
            in_order(cells_of(*buckets), s, w),
            around@ == surroundings(
                *buckets,
                s,
                wrapping,
                index[0] as int,
                index[1] as int,
                n as int,
            ),
            forall|count: int|
                species_below(cells_of(*buckets), count) ==> #[trigger] types_below(around@, count),
        decreases 8 - n,
    {
        let ghost before = around@;
        match neighbor_of(buckets.size, index, n, wrapping) {
            None => {
                proof {
                    assert(neighborhood(
                        *buckets,
                        s,
                        wrapping,
                        index[0] as int,
                        index[1] as int,
                        n as int,
                    ) =~= Seq::<Particle>::empty());
                    assert(before + Seq::<Particle>::empty() =~= before);
                }
            },
            Some(found) => {
                let ox: Real = worlds_on(found.shift[0], span[0]);
                let oy: Real = worlds_on(found.shift[1], span[1]);
                proof {
                    lemma_flat_index(w, h, found.index[0] as int, found.index[1] as int);
                    assert(ox == found.shift[0] * (w * s));
                    assert(oy == found.shift[1] * (h * s));
                }
                let place: usize = found.index[0] + found.index[1] * buckets.size[0];
                let list: &Vec<Particle> = &buckets.data[place];
                let ghost seen = list@.map_values(|q: Particle| displaced(q, ox as int, oy as int));
                proof {
                    assert(cells_of(*buckets)[place as int] == list@);
                    assert(neighborhood(
                        *buckets,
                        s,
                        wrapping,
                        index[0] as int,
                        index[1] as int,
                        n as int,
                    ) == seen);
                }
                let mut j: usize = 0;
                while j < list.len()
                    invariant
                        j <= list.len(),
                        buckets.wf(),
                        place < buckets.data.len(),
                        list == &buckets.data[place as int],
                        s == bucket_size,
                        w == buckets.width(),
                        h == buckets.height(),
                        s >= 1,
                        w >= 1,
                        0 <= w * s <= LIMIT,
                        0 <= h * s <= LIMIT,
                        -LIMIT <= ox <= LIMIT,
                        -LIMIT <= oy <= LIMIT,
                        in_order(cells_of(*buckets), s, w),
                        seen == list@.map_values(|q: Particle| displaced(q, ox as int, oy as int)),
                        around@ == before + seen.take(j as int),
                        forall|count: int|
                            species_below(cells_of(*buckets), count) ==> #[trigger] types_below(
                                around@,
                                count,
                            ),
                    decreases list.len() - j,
                {
                    let q: Particle = list[j];
                    proof {
                        assert(cells_of(*buckets)[place as int][j as int] == q);
                        lemma_in_order_bounds(cells_of(*buckets), s, w, h, place as int, j as int);
                    }
                    let moved = Particle {
                        position: [q.position[0] + ox, q.position[1] + oy],
                        velocity: q.velocity,
                        typ: q.typ,
                    };
                    let ghost previous = around@;
                    around.push(moved);
                    proof {
                        assert(moved.position =~= displaced(q, ox as int, oy as int).position);
                        assert(moved == seen[j as int]);
                        assert(seen.take(j + 1) =~= seen.take(j as int).push(seen[j as int]));
                        assert(around@ =~= before + seen.take(j + 1));
                        assert forall|count: int|
                            species_below(cells_of(*buckets), count) implies #[trigger] types_below(
                            around@,
                            count,
                        ) by {
                            assert(types_below(previous, count));
                            assert forall|t: int| 0 <= t < around.len() implies (
                            #[trigger] around@[t]).typ < count by {
                                if t < previous.len() {
                                    assert(around@[t] == previous[t]);
                                }
                            }
                        }
                    }
                    j += 1;
                }
                proof {
                    assert(seen.take(list.len() as int) =~= seen);
                }
            },
        }
        n += 1;
    }
    around
}

/// The impulse of particle `i` of `bucket`, which meets the others of the
/// bucket and then the particles `around`.
pub fn particle_impulse(
    bucket: &Vec<Particle>,
    i: usize,
    around: &Vec<Particle>,
    type_data: &ParticleTypeData,
    params: &ParticleSimulationParams,
    max_distance: Real,
) -> (impulse: [Real; 2])
    requires
        i < bucket.len(),
        type_data.wf(),
        forall|j: int| 0 <= j < bucket.len() ==> (#[trigger] bucket[j]).typ < type_data.count(),
        forall|j: int| 0 <= j < around.len() ==> (#[trigger] around[j]).typ < type_data.count(),
    ensures
        chain(
            bucket[i as int],
            bucket@.remove(i as int) + around@,
            *type_data,
            max_distance as int,
            params.prevent_particle_ejecting,
            no_impulse(),
            impulse,
        ),
{
    let particle: Particle = bucket[i];
    let mut impulse: [Real; 2] = [0, 0];
    let ghost reach = max_distance as int;
    let ghost prevent = params.prevent_particle_ejecting;
    let ghost met: Seq<Particle> = Seq::empty();
    proof {
        assert(impulse =~= no_impulse());
        lemma_chain_empty(particle, *type_data, reach, prevent, no_impulse());
    }
    let mut j: usize = 0;
    while j < bucket.len()
        invariant
            j <= bucket.len(),
            i < bucket.len(),
            particle == bucket[i as int],
            type_data.wf(),
            forall|j: int| 0 <= j < bucket.len() ==> (#[trigger] bucket[j]).typ < type_data.count(),
            met == (if j <= i {
                bucket@.take(j as int)
            } else {
                bucket@.take(j as int).remove(i as int)
            }),
            chain(particle, met, *type_data, reach, prevent, no_impulse(), impulse),
            reach == max_distance,
            prevent == params.prevent_particle_ejecting,
        decreases bucket.len() - j,
    {
        if j != i {
            let other: Particle = bucket[j];
            let ghost mid = impulse;
            particle.update_impulse_with_particle(
                other,
                type_data,
                params,
                max_distance,
                &mut impulse,
            );
            proof {
                lemma_chain_push(
                    particle,
                    met,
                    other,
                    *type_data,
                    reach,
                    prevent,
                    no_impulse(),
                    mid,
                    impulse,
                );
                if j < i {
                    assert(bucket@.take(j + 1) =~= met.push(other));
                } else {
                    assert(bucket@.take(j + 1).remove(i as int) =~= met.push(other));
                }
                met = met.push(other);
            }
        } else {
            proof {
                assert(bucket@.take(j + 1).remove(i as int) =~= met);
            }
        }
        j += 1;
    }
    proof {
        assert(bucket@.take(bucket.len() as int) =~= bucket@);
    }
    let ghost own = bucket@.remove(i as int);
    let mut j: usize = 0;
    while j < around.len()
        invariant
            j <= around.len(),
            i < bucket.len(),
            particle == bucket[i as int],
            type_data.wf(),
            particle.typ < type_data.count(),
            forall|j: int| 0 <= j < around.len() ==> (#[trigger] around[j]).typ < type_data.count(),
            own == bucket@.remove(i as int),
            met == own + around@.take(j as int),
            chain(particle, met, *type_data, reach, prevent, no_impulse(), impulse),
            reach == max_distance,
            prevent == params.prevent_particle_ejecting,
        decreases around.len() - j,
    {
        let other: Particle = around[j];
        let ghost mid = impulse;
        particle.update_impulse_with_particle(other, type_data, params, max_distance, &mut impulse);
        proof {
            lemma_chain_push(
                particle,
                met,
                other,
                *type_data,
                reach,
                prevent,
                no_impulse(),
                mid,
                impulse,
            );
            assert(own + around@.take(j + 1) =~= met.push(other));
            met = met.push(other);
        }
        j += 1;
    }
    proof {
        assert(around@.take(around.len() as int) =~= around@);
    }
    impulse
}

/// Fills `impulses` with the impulses of the particles of cell `k`, one for
/// each. What it held before is dropped.
pub fn cell_impulses(
    buckets: &Matrix<Vec<Particle>>,
    bucket_size: Real,
    type_data: &ParticleTypeData,
    params: &ParticleSimulationParams,
    k: usize,
    impulses: &mut Vec<[Real; 2]>,
)
    requires
        forces_ready(*buckets, bucket_size, *type_data),
        k < buckets.data.len(),
    ensures
        impulses_of_cell(
            *buckets,
            bucket_size as int,
            *type_data,
            *params,
            k as int,
            final(impulses)@,
        ),
{
    let index: [usize; 2] = [k % buckets.size[0], k / buckets.size[0]];
    proof {
        lemma_index_of_place(buckets.width(), buckets.height(), k as int);
    }
    let wrapping: bool = match params.edge_type {
        EdgeType::Wrapping => true,
        _ => false,
    };
    let around: Vec<Particle> = gather_neighbors(buckets, bucket_size, wrapping, index);
    let bucket: &Vec<Particle> = &buckets.data[k];
    proof {
        assert(cells_of(*buckets)[k as int] == bucket@);
        assert forall|j: int| 0 <= j < bucket.len() implies (#[trigger] bucket[j]).typ
            < type_data.count() by {
            assert(cells_of(*buckets)[k as int][j] == bucket[j]);
        }
        assert(types_below(around@, type_data.count()));
    }
    impulses.clear();
    let mut i: usize = 0;
    while i < bucket.len()
        invariant
            i <= bucket.len(),
            k < buckets.data.len(),
            bucket == &buckets.data[k as int],
            cells_of(*buckets)[k as int] == bucket@,
            type_data.wf(),
            wrapping == wraps(*params),
            index[0] == k % buckets.size[0],
            index[1] == k / buckets.size[0],
            forall|j: int| 0 <= j < bucket.len() ==> (#[trigger] bucket[j]).typ < type_data.count(),
            forall|j: int| 0 <= j < around.len() ==> (#[trigger] around[j]).typ < type_data.count(),
            around@ == surroundings(
                *buckets,
                bucket_size as int,
                wrapping,
                index[0] as int,
                index[1] as int,
                8,
            ),
            impulses.len() == i,
            forall|t: int|
                0 <= t < i ==> chain(
                    bucket[t],
                    others_of(*buckets, bucket_size as int, wrapping, k as int, t),
                    *type_data,
                    bucket_size as int,
                    params.prevent_particle_ejecting,
                    no_impulse(),
                    #[trigger] impulses[t],
                ),
        decreases bucket.len() - i,
    {
        let impulse: [Real; 2] = particle_impulse(
            bucket,
            i,
            &around,
            type_data,
            params,
            bucket_size,
        );
        impulses.push(impulse);
        i += 1;
    }
}

} // verus!
