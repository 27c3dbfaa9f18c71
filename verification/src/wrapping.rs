//! The world that wraps round: a grid put back in order holds every
//! particle where it comes back in, so that moving particles on by whole
//! worlds before a step changes nothing but the order within the lists.

use vstd::prelude::*;

use crate::fixed::{Real, LIMIT};
use crate::forces::{
    chain, follows, impulse_before, impulses_of_cell, impulses_of_grid, integrated, neighbor_cell,
    neighborhood, others_of, surroundings, wraps,
};
use crate::grid::{cell_coordinate, cell_of, cells_of, in_cell, lemma_coordinate};
use crate::matrix::{flat_index, lemma_flat_index, Matrix};
use crate::organize::{
    all_strays, destination, kept, kept_cells, lemma_destination, lemma_forces_ignore_shift,
    lemma_kept_cells, lemma_wrap_equivalence, lemma_wrapped_inside, placed, placed_all,
    reorganized, shiftable, strays, wrapped,
};
use crate::params::{EdgeType, ParticleSimulationParams};
use crate::particle::{displaced, no_impulse, pair_step, stepped, Particle};
use crate::type_data::{lemma_index_of_place, ParticleTypeData};

verus! {

/// How often `x` stands in `list`.
pub open spec fn occurrences(list: Seq<Particle>, x: Particle) -> nat
    decreases list.len(),
{
    if list.len() == 0 {
        0
    } else {
        occurrences(list.drop_last(), x) + (if list.last() == x {
            1nat
        } else {
            0nat
        })
    }
}

/// The place in the storage of the cell in which `p` comes back in.
pub open spec fn home(p: Particle, s: int, w: int, h: int) -> int {
    flat_index(
        w,
        cell_coordinate(wrapped(p, w * s, h * s).position[0] as int, s),
        cell_coordinate(wrapped(p, w * s, h * s).position[1] as int, s),
    )
}

/// How many particles of `list` come back in as `x` in cell `k`.
pub open spec fn arrivals_in(
    list: Seq<Particle>,
    s: int,
    w: int,
    h: int,
    k: int,
    x: Particle,
) -> nat
    decreases list.len(),
{
    if list.len() == 0 {
        0
    } else {
        arrivals_in(list.drop_last(), s, w, h, k, x) + (if home(list.last(), s, w, h) == k
            && wrapped(list.last(), w * s, h * s) == x {
            1nat
        } else {
            0nat
        })
    }
}

/// How many particles of the first `n` lists come back in as `x` in cell
/// `k`.
pub open spec fn arrivals(
    cells: Seq<Seq<Particle>>,
    s: int,
    w: int,
    h: int,
    k: int,
    x: Particle,
    n: int,
) -> nat
    decreases n,
{
    if n <= 0 {
        0
    } else {
        arrivals(cells, s, w, h, k, x, n - 1) + arrivals_in(cells[n - 1], s, w, h, k, x)
    }
}

/// The grid with every particle `(ox, oy)` further on.
pub open spec fn displaced_cells(cells: Seq<Seq<Particle>>, ox: int, oy: int) -> Seq<
    Seq<Particle>,
> {
    Seq::new(
        cells.len(),
        |k: int| Seq::new(cells[k].len(), |i: int| displaced(cells[k][i], ox, oy)),
    )
}

/// What a sound shape asks of the numbers.
pub open spec fn fits(s: int, w: int, h: int) -> bool {
    &&& s >= 1
    &&& w >= 1
    &&& h >= 1
    &&& w * s <= LIMIT
    &&& h * s <= LIMIT
}

/// Lists put end to end hold and bring in what each of them does.
proof fn lemma_concat(
    a: Seq<Particle>,
    b: Seq<Particle>,
    s: int,
    w: int,
    h: int,
    k: int,
    x: Particle,
)
    ensures
        occurrences(a + b, x) == occurrences(a, x) + occurrences(b, x),
        arrivals_in(a + b, s, w, h, k, x) == arrivals_in(a, s, w, h, k, x) + arrivals_in(
            b,
            s,
            w,
            h,
            k,
            x,
        ),
    decreases b.len(),
{
    if b.len() == 0 {
        assert(a + b =~= a);
    } else {
        lemma_concat(a, b.drop_last(), s, w, h, k, x);
        assert((a + b).drop_last() =~= a + b.drop_last());
        assert((a + b).last() == b.last());
    }
}

/// A particle inside the world comes back in where it is, as it is.
proof fn lemma_home_inside(p: Particle, s: int, w: int, h: int)
    requires
        fits(s, w, h),
        cell_of(p.position[0] as int, p.position[1] as int, s, w, h).is_some(),
    ensures
        wrapped(p, w * s, h * s) == p,
        home(p, s, w, h) == flat_index(
            w,
            cell_coordinate(p.position[0] as int, s),
            cell_coordinate(p.position[1] as int, s),
        ),
{
    lemma_coordinate(p.position[0] as int, s, w);
    lemma_coordinate(p.position[1] as int, s, h);
    vstd::arithmetic::div_mod::lemma_small_mod(p.position[0] as nat, (w * s) as nat);
    vstd::arithmetic::div_mod::lemma_small_mod(p.position[1] as nat, (h * s) as nat);
    assert(wrapped(p, w * s, h * s).position =~= p.position);
}

/// Where the world wraps round, a particle ends in the cell in which it
/// comes back in, as it comes back in.
proof fn lemma_destination_is_home(p: Particle, s: int, w: int, h: int)
    requires
        fits(s, w, h),
    ensures
        destination(p, s, w, h, EdgeType::Wrapping) matches Some((cx, cy, back)) && flat_index(
            w,
            cx,
            cy,
        ) == home(p, s, w, h) && back == wrapped(p, w * s, h * s),
        0 <= home(p, s, w, h) < w * h,
{
    lemma_wrapped_inside(p, s, w, h);
    lemma_destination(p, s, w, h, EdgeType::Wrapping);
    if cell_of(p.position[0] as int, p.position[1] as int, s, w, h).is_some() {
        lemma_home_inside(p, s, w, h);
    }
    match destination(p, s, w, h, EdgeType::Wrapping) {
        Some((cx, cy, back)) => {
            lemma_flat_index(w, h, cx, cy);
        },
        None => {},
    }
}

/// Putting particles where they end adds to each cell those that come back
/// in there.
proof fn lemma_placed_occurrences(
    base: Seq<Seq<Particle>>,
    list: Seq<Particle>,
    s: int,
    w: int,
    h: int,
    k: int,
    x: Particle,
)
    requires
        fits(s, w, h),
        base.len() == w * h,
        0 <= k < w * h,
    ensures
        placed_all(base, s, w, h, EdgeType::Wrapping, list).len() == base.len(),
        occurrences(placed_all(base, s, w, h, EdgeType::Wrapping, list)[k], x) == occurrences(
            base[k],
            x,
        ) + arrivals_in(list, s, w, h, k, x),
    decreases list.len(),
{
    if list.len() > 0 {
        let p = list.last();
        lemma_placed_occurrences(base, list.drop_last(), s, w, h, k, x);
        lemma_destination_is_home(p, s, w, h);
        let before = placed_all(base, s, w, h, EdgeType::Wrapping, list.drop_last());
        let after = placed_all(base, s, w, h, EdgeType::Wrapping, list);
        assert(after == placed(before, s, w, h, EdgeType::Wrapping, p));
        let target = home(p, s, w, h);
        let back = wrapped(p, w * s, h * s);
        assert(after == before.update(target, before[target].push(back)));
        if target == k {
            assert(after[k].drop_last() =~= before[k]);
            assert(after[k].last() == back);
        }
    }
}

/// The particles of a cell's list come back in as those kept, in that
/// cell, and as its strays, wherever they come back in.
proof fn lemma_kept_occurrences(
    list: Seq<Particle>,
    s: int,
    w: int,
    h: int,
    c: int,
    k: int,
    x: Particle,
)
    requires
        fits(s, w, h),
        0 <= c < w * h,
    ensures
        arrivals_in(list, s, w, h, k, x) == (if k == c {
            occurrences(kept(list, s, c % w, c / w), x)
        } else {
            0
        }) + arrivals_in(strays(list, s, c % w, c / w), s, w, h, k, x),
    decreases list.len(),
{
    if list.len() > 0 {
        let p = list.last();
        lemma_kept_occurrences(list.drop_last(), s, w, h, c, k, x);
        let rest_kept = kept(list.drop_last(), s, c % w, c / w);
        let rest_strays = strays(list.drop_last(), s, c % w, c / w);
        if in_cell(p, s, c % w, c / w) {
            lemma_index_of_place(w, h, c);
            lemma_coordinate(p.position[0] as int, s, w);
            lemma_coordinate(p.position[1] as int, s, h);
            assert(0 <= (c % w) * s) by (nonlinear_arith)
                requires
                    0 <= c % w,
                    s > 0,
            ;
            assert(0 <= (c / w) * s) by (nonlinear_arith)
                requires
                    0 <= c / w,
                    s > 0,
            ;
            lemma_home_inside(p, s, w, h);
            assert(rest_kept.push(p).drop_last() =~= rest_kept);
        } else {
            assert(rest_strays.push(p).drop_last() =~= rest_strays);
        }
    }
}

/// The particles of the first `n` lists come back in as those kept, each
/// in its cell, and as the strays.
proof fn lemma_arrivals_split(
    cells: Seq<Seq<Particle>>,
    s: int,
    w: int,
    h: int,
    k: int,
    x: Particle,
    n: int,
)
    requires
        fits(s, w, h),
        cells.len() == w * h,
        0 <= k < w * h,
        0 <= n <= cells.len(),
    ensures
        arrivals(cells, s, w, h, k, x, n) == (if k < n {
            occurrences(kept_cells(cells, s, w)[k], x)
        } else {
            0
        }) + arrivals_in(all_strays(cells, s, w, n), s, w, h, k, x),
    decreases n,
{
    if n > 0 {
        lemma_arrivals_split(cells, s, w, h, k, x, n - 1);
        lemma_kept_occurrences(cells[n - 1], s, w, h, n - 1, k, x);
        lemma_concat(
            all_strays(cells, s, w, n - 1),
            strays(cells[n - 1], s, (n - 1) % w, (n - 1) / w),
            s,
            w,
            h,
            k,
            x,
        );
    }
}

/// Where the world wraps round, a grid put back in order holds in each
/// cell the particles that come back in there, each as it comes back in
/// and as often as it does.
pub proof fn lemma_reorganized_holds_arrivals(
    cells: Seq<Seq<Particle>>,
    s: int,
    w: int,
    h: int,
    k: int,
    x: Particle,
)
    requires
        fits(s, w, h),
        cells.len() == w * h,
        0 <= k < w * h,
    ensures
        occurrences(reorganized(cells, s, w, h, EdgeType::Wrapping)[k], x) == arrivals(
            cells,
            s,
            w,
            h,
            k,
            x,
            cells.len() as int,
        ),
{
    lemma_kept_cells(cells, s, w);
    lemma_arrivals_split(cells, s, w, h, k, x, cells.len() as int);
    lemma_placed_occurrences(
        kept_cells(cells, s, w),
        all_strays(cells, s, w, cells.len() as int),
        s,
        w,
        h,
        k,
        x,
    );
}

/// Lists whose particles come back in alike, one by one, bring as many to
/// each cell.
proof fn lemma_arrivals_in_alike(
    a: Seq<Particle>,
    b: Seq<Particle>,
    s: int,
    w: int,
    h: int,
    k: int,
    x: Particle,
)
    requires
        a.len() == b.len(),
        forall|i: int|
            0 <= i < a.len() ==> wrapped(#[trigger] b[i], w * s, h * s) == wrapped(
                a[i],
                w * s,
                h * s,
            ),
    ensures
        arrivals_in(b, s, w, h, k, x) == arrivals_in(a, s, w, h, k, x),
    decreases a.len(),
{
    if a.len() > 0 {
        assert forall|i: int| 0 <= i < a.drop_last().len() implies wrapped(
            #[trigger] b.drop_last()[i],
            w * s,
            h * s,
        ) == wrapped(a.drop_last()[i], w * s, h * s) by {
            assert(b.drop_last()[i] == b[i]);
            assert(a.drop_last()[i] == a[i]);
        }
        lemma_arrivals_in_alike(a.drop_last(), b.drop_last(), s, w, h, k, x);
        assert(wrapped(b[b.len() - 1], w * s, h * s) == wrapped(a[a.len() - 1], w * s, h * s));
    }
}

/// Whether the particles of `b` come back in as those of `a` do, list by
/// list and one by one.
pub open spec fn alike(
    a: Seq<Seq<Particle>>,
    b: Seq<Seq<Particle>>,
    s: int,
    w: int,
    h: int,
) -> bool {
    &&& a.len() == b.len()
    &&& forall|c: int| 0 <= c < a.len() ==> (#[trigger] b[c]).len() == a[c].len()
    &&& forall|c: int, i: int|
        0 <= c < a.len() && 0 <= i < a[c].len() ==> wrapped(#[trigger] b[c][i], w * s, h * s)
            == wrapped(a[c][i], w * s, h * s)
}

/// Grids whose particles come back in alike bring as many to each cell.
proof fn lemma_arrivals_alike(
    a: Seq<Seq<Particle>>,
    b: Seq<Seq<Particle>>,
    s: int,
    w: int,
    h: int,
    k: int,
    x: Particle,
    n: int,
)
    requires
        alike(a, b, s, w, h),
        0 <= n <= a.len(),
    ensures
        arrivals(b, s, w, h, k, x, n) == arrivals(a, s, w, h, k, x, n),
    decreases n,
{
    if n > 0 {
        lemma_arrivals_alike(a, b, s, w, h, k, x, n - 1);
        assert(b[n - 1].len() == a[n - 1].len());
        assert forall|i: int| 0 <= i < a[n - 1].len() implies wrapped(
            #[trigger] b[n - 1][i],
            w * s,
            h * s,
        ) == wrapped(a[n - 1][i], w * s, h * s) by {}
        lemma_arrivals_in_alike(a[n - 1], b[n - 1], s, w, h, k, x);
    }
}

/// Where the world wraps round, grids whose particles come back in alike
/// are, put back in order, the same cell by cell but for the order within
/// the lists: each cell holds the same particles, each as often.
pub proof fn lemma_alike_reorganized(
    a: Seq<Seq<Particle>>,
    b: Seq<Seq<Particle>>,
    s: int,
    w: int,
    h: int,
    k: int,
    x: Particle,
)
    requires
        fits(s, w, h),
        a.len() == w * h,
        alike(a, b, s, w, h),
        0 <= k < w * h,
    ensures
        occurrences(reorganized(b, s, w, h, EdgeType::Wrapping)[k], x) == occurrences(
            reorganized(a, s, w, h, EdgeType::Wrapping)[k],
            x,
        ),
{
    lemma_reorganized_holds_arrivals(a, s, w, h, k, x);
    lemma_reorganized_holds_arrivals(b, s, w, h, k, x);
    lemma_arrivals_alike(a, b, s, w, h, k, x, a.len() as int);
}

/// Whether every particle of the grid can be moved on by `(ox, oy)` and
/// make its step, there as here, without a coordinate reaching the limit.
pub open spec fn all_shiftable(
    cells: Seq<Seq<Particle>>,
    impulses: Seq<Seq<[Real; 2]>>,
    ox: int,
    oy: int,
) -> bool {
    forall|c: int, i: int|
        0 <= c < cells.len() && 0 <= i < cells[c].len() ==> shiftable(
            (#[trigger] cells[c][i]).position[0] as int,
            cells[c][i].velocity[0] as int,
            impulses[c][i][0] as int,
            ox,
        ) && shiftable(
            cells[c][i].position[1] as int,
            cells[c][i].velocity[1] as int,
            impulses[c][i][1] as int,
            oy,
        )
}

/// Where the world wraps round, moving every particle on by whole worlds
/// before they make their steps leaves, once the grid is back in order, the
/// same particles in every cell, each where it would have been without the
/// move.
pub proof fn lemma_wrap_equivalence_of_grids(
    cells: Seq<Seq<Particle>>,
    impulses: Seq<Seq<[Real; 2]>>,
    s: int,
    w: int,
    h: int,
    kx: int,
    ky: int,
    k: int,
    x: Particle,
)
    requires
        fits(s, w, h),
        cells.len() == w * h,
        all_shiftable(cells, impulses, kx * (w * s), ky * (h * s)),
        0 <= k < w * h,
    ensures
        occurrences(
            reorganized(
                integrated(displaced_cells(cells, kx * (w * s), ky * (h * s)), impulses),
                s,
                w,
                h,
                EdgeType::Wrapping,
            )[k],
            x,
        ) == occurrences(
            reorganized(integrated(cells, impulses), s, w, h, EdgeType::Wrapping)[k],
            x,
        ),
{
    let ox = kx * (w * s);
    let oy = ky * (h * s);
    let here = integrated(cells, impulses);
    let there = integrated(displaced_cells(cells, ox, oy), impulses);
    assert(w * s >= 1) by (nonlinear_arith)
        requires
            w >= 1,
            s >= 1,
    ;
    assert(h * s >= 1) by (nonlinear_arith)
        requires
            h >= 1,
            s >= 1,
    ;
    assert forall|c: int, i: int| 0 <= c < here.len() && 0 <= i < here[c].len() implies wrapped(
        #[trigger] there[c][i],
        w * s,
        h * s,
    ) == wrapped(here[c][i], w * s, h * s) by {
        let p = cells[c][i];
        assert(shiftable(
            p.position[0] as int,
            p.velocity[0] as int,
            impulses[c][i][0] as int,
            ox,
        ));
        lemma_wrap_equivalence(p, impulses[c][i], w * s, h * s, kx, ky);
        assert(there[c][i] == stepped(displaced(p, ox, oy), impulses[c][i]));
        assert(here[c][i] == stepped(p, impulses[c][i]));
    }
    assert forall|c: int| 0 <= c < here.len() implies (#[trigger] there[c]).len()
        == here[c].len() by {}
    lemma_alike_reorganized(here, there, s, w, h, k, x);
}

/// Whether every particle of the grid is within the limit, and still is
/// when moved on by `(ox, oy)`.
pub open spec fn all_within(cells: Seq<Seq<Particle>>, ox: int, oy: int) -> bool {
    forall|c: int, i: int|
        0 <= c < cells.len() && 0 <= i < cells[c].len() ==> {
            &&& -LIMIT <= (#[trigger] cells[c][i]).position[0] <= LIMIT
            &&& -LIMIT <= cells[c][i].position[1] <= LIMIT
            &&& -LIMIT <= cells[c][i].position[0] + ox <= LIMIT
            &&& -LIMIT <= cells[c][i].position[1] + oy <= LIMIT
        }
}

/// Whether `there` is the grid `here` with every particle `(ox, oy)`
/// further on.
pub open spec fn moved_on(
    here: Matrix<Vec<Particle>>,
    there: Matrix<Vec<Particle>>,
    ox: int,
    oy: int,
) -> bool {
    &&& there.size == here.size
    &&& cells_of(there) == displaced_cells(cells_of(here), ox, oy)
}

/// The particles of a cell around are seen from a grid moved on as they
/// are seen from the grid itself, moved on.
proof fn lemma_neighborhood_moved_on(
    here: Matrix<Vec<Particle>>,
    there: Matrix<Vec<Particle>>,
    s: int,
    wrapping: bool,
    cx: int,
    cy: int,
    n: int,
    ox: int,
    oy: int,
)
    requires
        fits(s, here.width(), here.height()),
        here.wf(),
        here.in_bounds(cx, cy),
        moved_on(here, there, ox, oy),
        all_within(cells_of(here), ox, oy),
    ensures
        neighborhood(there, s, wrapping, cx, cy, n) == neighborhood(
            here,
            s,
            wrapping,
            cx,
            cy,
            n,
        ).map_values(|q: Particle| displaced(q, ox, oy)),
        forall|j: int|
            0 <= j < neighborhood(here, s, wrapping, cx, cy, n).len() ==> {
                let q = #[trigger] neighborhood(here, s, wrapping, cx, cy, n)[j];
                &&& -3 * LIMIT <= q.position[0] + ox <= 3 * LIMIT
                &&& -3 * LIMIT <= q.position[1] + oy <= 3 * LIMIT
            },
{
    let w = here.width();
    let h = here.height();
    assert(there.width() == w && there.height() == h);
    let seen_here = neighborhood(here, s, wrapping, cx, cy, n);
    let seen_there = neighborhood(there, s, wrapping, cx, cy, n);
    let goal = seen_here.map_values(|q: Particle| displaced(q, ox, oy));
    match neighbor_cell(w, h, cx, cy, n, wrapping) {
        Some((nx, ny, sx, sy)) => {
            lemma_flat_index(w, h, nx, ny);
            let place = flat_index(w, nx, ny);
            let dx = sx * (w * s);
            let dy = sy * (h * s);
            assert(-LIMIT <= dx <= LIMIT) by (nonlinear_arith)
                requires
                    -1 <= sx <= 1,
                    0 <= w * s <= LIMIT,
                    dx == sx * (w * s),
            ;
            assert(-LIMIT <= dy <= LIMIT) by (nonlinear_arith)
                requires
                    -1 <= sy <= 1,
                    0 <= h * s <= LIMIT,
                    dy == sy * (h * s),
            ;
            assert(seen_there.len() == goal.len());
            assert forall|j: int| 0 <= j < goal.len() implies seen_there[j] == goal[j] by {
                let q = cells_of(here)[place][j];
                assert(cells_of(there)[place][j] == displaced(q, ox, oy));
                let one = displaced(displaced(q, ox, oy), dx, dy);
                let other = displaced(displaced(q, dx, dy), ox, oy);
                assert(one.position =~= other.position);
            }
            assert(seen_there =~= goal);
            assert forall|j: int| 0 <= j < seen_here.len() implies {
                let q = #[trigger] seen_here[j];
                &&& -3 * LIMIT <= q.position[0] + ox <= 3 * LIMIT
                &&& -3 * LIMIT <= q.position[1] + oy <= 3 * LIMIT
            } by {
                let q = cells_of(here)[place][j];
                assert(seen_here[j] == displaced(q, dx, dy));
            }
        },
        None => {
            assert(seen_there =~= goal);
        },
    }
}

/// The particles of the cells around are seen from a grid moved on as they
/// are seen from the grid itself, moved on.
proof fn lemma_surroundings_moved_on(
    here: Matrix<Vec<Particle>>,
    there: Matrix<Vec<Particle>>,
    s: int,
    wrapping: bool,
    cx: int,
    cy: int,
    n: int,
    ox: int,
    oy: int,
)
    requires
        fits(s, here.width(), here.height()),
        here.wf(),
        here.in_bounds(cx, cy),
        moved_on(here, there, ox, oy),
        all_within(cells_of(here), ox, oy),
    ensures
        surroundings(there, s, wrapping, cx, cy, n) == surroundings(
            here,
            s,
            wrapping,
            cx,
            cy,
            n,
        ).map_values(|q: Particle| displaced(q, ox, oy)),
        forall|j: int|
            0 <= j < surroundings(here, s, wrapping, cx, cy, n).len() ==> {
                let q = #[trigger] surroundings(here, s, wrapping, cx, cy, n)[j];
                &&& -3 * LIMIT <= q.position[0] + ox <= 3 * LIMIT
                &&& -3 * LIMIT <= q.position[1] + oy <= 3 * LIMIT
            },
    decreases n,
{
    if n > 0 {
        lemma_surroundings_moved_on(here, there, s, wrapping, cx, cy, n - 1, ox, oy);
        lemma_neighborhood_moved_on(here, there, s, wrapping, cx, cy, n - 1, ox, oy);
        let front = surroundings(here, s, wrapping, cx, cy, n - 1);
        let back = neighborhood(here, s, wrapping, cx, cy, n - 1);
        assert((front + back).map_values(|q: Particle| displaced(q, ox, oy)) =~= front.map_values(
            |q: Particle| displaced(q, ox, oy),
        ) + back.map_values(|q: Particle| displaced(q, ox, oy)));
        assert forall|j: int| 0 <= j < (front + back).len() implies {
            let q = #[trigger] (front + back)[j];
            &&& -3 * LIMIT <= q.position[0] + ox <= 3 * LIMIT
            &&& -3 * LIMIT <= q.position[1] + oy <= 3 * LIMIT
        } by {
            if j < front.len() {
                assert((front + back)[j] == front[j]);
            } else {
                assert((front + back)[j] == back[j - front.len()]);
            }
        }
    } else {
        assert(surroundings(there, s, wrapping, cx, cy, n) =~= surroundings(
            here,
            s,
            wrapping,
            cx,
            cy,
            n,
        ).map_values(|q: Particle| displaced(q, ox, oy)));
    }
}

/// What a particle gains from others it gains from them all the same where
/// it and they are moved on alike.
proof fn lemma_chain_moved_on(
    p: Particle,
    others: Seq<Particle>,
    type_data: ParticleTypeData,
    reach: int,
    prevent: bool,
    end: [Real; 2],
    ox: int,
    oy: int,
)
    requires
        chain(p, others, type_data, reach, prevent, no_impulse(), end),
        -3 * LIMIT <= p.position[0] + ox <= 3 * LIMIT,
        -3 * LIMIT <= p.position[1] + oy <= 3 * LIMIT,
        forall|j: int|
            0 <= j < others.len() ==> -3 * LIMIT <= (#[trigger] others[j]).position[0] + ox <= 3
                * LIMIT && -3 * LIMIT <= others[j].position[1] + oy <= 3 * LIMIT,
    ensures
        chain(
            displaced(p, ox, oy),
            others.map_values(|q: Particle| displaced(q, ox, oy)),
            type_data,
            reach,
            prevent,
            no_impulse(),
            end,
        ),
{
    reveal(chain);
    let steps = choose|steps: Seq<[Real; 2]>|
        #[trigger] follows(p, others, type_data, reach, prevent, no_impulse(), steps) && end
            == impulse_before(no_impulse(), steps, others.len() as int);
    let far = others.map_values(|q: Particle| displaced(q, ox, oy));
    let moved = displaced(p, ox, oy);
    assert forall|j: int| 0 <= j < far.len() implies pair_step(
        moved,
        far[j],
        type_data.scaled_attractions.at(moved.typ as int, far[j].typ as int) as int,
        reach,
        prevent,
        impulse_before(no_impulse(), steps, j),
        #[trigger] steps[j],
    ) by {
        lemma_forces_ignore_shift(
            p,
            others[j],
            ox,
            oy,
            type_data.scaled_attractions.at(p.typ as int, others[j].typ as int) as int,
            reach,
            prevent,
            impulse_before(no_impulse(), steps, j),
            steps[j],
        );
    }
    assert(follows(moved, far, type_data, reach, prevent, no_impulse(), steps));
}

/// Impulses that the particles of a grid can gain they can gain as well
/// where all of them are moved on alike: a force depends on the way between
/// two particles alone.
pub proof fn lemma_impulses_moved_on(
    here: Matrix<Vec<Particle>>,
    there: Matrix<Vec<Particle>>,
    s: int,
    type_data: ParticleTypeData,
    params: ParticleSimulationParams,
    impulses: Seq<Seq<[Real; 2]>>,
    ox: int,
    oy: int,
)
    requires
        fits(s, here.width(), here.height()),
        here.wf(),
        moved_on(here, there, ox, oy),
        all_within(cells_of(here), ox, oy),
        impulses_of_grid(here, s, type_data, params, impulses),
    ensures
        impulses_of_grid(there, s, type_data, params, impulses),
{
    let w = here.width();
    let h = here.height();
    assert(there.data.len() == here.data.len()) by {
        assert(cells_of(there).len() == cells_of(here).len());
    }
    assert forall|k: int| 0 <= k < impulses.len() implies impulses_of_cell(
        there,
        s,
        type_data,
        params,
        k,
        #[trigger] impulses[k],
    ) by {
        assert(impulses_of_cell(here, s, type_data, params, k, impulses[k]));
        lemma_index_of_place(w, h, k);
        lemma_surroundings_moved_on(here, there, s, wraps(params), k % w, k / w, 8, ox, oy);
        let own = cells_of(here)[k];
        let around = surroundings(here, s, wraps(params), k % w, k / w, 8);
        assert(cells_of(there)[k].len() == own.len());
        assert forall|i: int| 0 <= i < impulses[k].len() implies chain(
            cells_of(there)[k][i],
            others_of(there, s, wraps(params), k, i),
            type_data,
            s,
            params.prevent_particle_ejecting,
            no_impulse(),
            #[trigger] impulses[k][i],
        ) by {
            let others = others_of(here, s, wraps(params), k, i);
            assert(others == own.remove(i) + around);
            assert forall|j: int| 0 <= j < others.len() implies -3 * LIMIT <= (
            #[trigger] others[j]).position[0] + ox <= 3 * LIMIT && -3 * LIMIT
                <= others[j].position[1] + oy <= 3 * LIMIT by {
                if j < own.remove(i).len() {
                    if j < i {
                        assert(others[j] == cells_of(here)[k][j]);
                    } else {
                        assert(others[j] == cells_of(here)[k][j + 1]);
                    }
                } else {
                    assert(others[j] == around[j - own.remove(i).len()]);
                }
            }
            assert(own[i] == cells_of(here)[k][i]);
            lemma_chain_moved_on(
                own[i],
                others,
                type_data,
                s,
                params.prevent_particle_ejecting,
                impulses[k][i],
                ox,
                oy,
            );
            assert(others_of(there, s, wraps(params), k, i) =~= others.map_values(
                |q: Particle| displaced(q, ox, oy),
            ));
        }
    }
}

} // verus!
