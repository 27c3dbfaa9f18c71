//! Putting the grid back in order after the particles have moved: every
//! particle that has left its cell is taken out and put in the list of the
//! cell it is in now, and one that has left the world meets the edge.

use vstd::prelude::*;

use crate::fixed::{
    clamp, magnitude, product, quotient_toward_zero, saturate, sum, times, Real, LIMIT,
};
use crate::grid::{
    cell_of, in_cell, in_order, lemma_cell_of, lemma_coordinate,
    lemma_coordinate_between, lemma_total_update, species_below, total, types_below,
};
use crate::matrix::{flat_index, lemma_flat_index};
use crate::params::EdgeType;
use crate::particle::{
    constrained, displaced, inward, pair_step, pushed, stepped, Particle, EDGE_MARGIN,
};
use crate::type_data::lemma_index_of_place;

verus! {

/// The particles of `list` that are in the cell `(cx, cy)`, in their order.
pub open spec fn kept(list: Seq<Particle>, s: int, cx: int, cy: int) -> Seq<Particle>
    decreases list.len(),
{
    if list.len() == 0 {
        Seq::empty()
    } else if in_cell(list.last(), s, cx, cy) {
        kept(list.drop_last(), s, cx, cy).push(list.last())
    } else {
        kept(list.drop_last(), s, cx, cy)
    }
}

/// The particles of `list` that are not in the cell `(cx, cy)`, in their
/// order.
pub open spec fn strays(list: Seq<Particle>, s: int, cx: int, cy: int) -> Seq<Particle>
    decreases list.len(),
{
    if list.len() == 0 {
        Seq::empty()
    } else if in_cell(list.last(), s, cx, cy) {
        strays(list.drop_last(), s, cx, cy)
    } else {
        strays(list.drop_last(), s, cx, cy).push(list.last())
    }
}

/// The grid with only the particles that are in the cell of their list.
pub open spec fn kept_cells(cells: Seq<Seq<Particle>>, s: int, w: int) -> Seq<Seq<Particle>> {
    Seq::new(cells.len(), |k: int| kept(cells[k], s, k % w, k / w))
}

/// The particles of the first `n` lists that are not in the cell of their
/// list, list after list.
pub open spec fn all_strays(cells: Seq<Seq<Particle>>, s: int, w: int, n: int) -> Seq<Particle>
    decreases n,
{
    if n <= 0 {
        Seq::empty()
    } else {
        all_strays(cells, s, w, n - 1) + strays(cells[n - 1], s, (n - 1) % w, (n - 1) / w)
    }
}

/// The particle where it comes back in when the world wraps round.
pub open spec fn wrapped(p: Particle, width: int, height: int) -> Particle {
    Particle {
        position: [
            ((p.position[0] as int) % width) as Real,
            ((p.position[1] as int) % height) as Real,
        ],
        ..p
    }
}

/// The velocity along one axis of a particle that has met an edge: inward,
/// at its speed times `multiplier`, plus `pushback`. Away from the edges,
/// where `way` is zero, it is unchanged.
pub open spec fn rebound(v: int, way: int, multiplier: int, pushback: int) -> int {
    if way != 0 {
        product(clamp(product(clamp(magnitude(v)), multiplier) + pushback), way)
    } else {
        v
    }
}

/// The particle as it is put back when the edges throw it back.
pub open spec fn bounced(
    p: Particle,
    width: int,
    height: int,
    multiplier: int,
    pushback: int,
) -> Particle {
    Particle {
        position: [
            constrained(p.position[0] as int, width) as Real,
            constrained(p.position[1] as int, height) as Real,
        ],
        velocity: [
            rebound(
                p.velocity[0] as int,
                inward(p.position[0] as int, width),
                multiplier,
                pushback,
            ) as Real,
            rebound(
                p.velocity[1] as int,
                inward(p.position[1] as int, height),
                multiplier,
                pushback,
            ) as Real,
        ],
        typ: p.typ,
    }
}

/// What the edge makes of a particle that has left a world `width` by
/// `height`: the particle as it comes back, or `None` where it is removed.
pub open spec fn returned(p: Particle, width: int, height: int, edge: EdgeType) -> Option<
    Particle,
> {
    match edge {
        EdgeType::Wrapping => Some(wrapped(p, width, height)),
        EdgeType::Bouncing { multiplier, pushback } => Some(
            bounced(p, width, height, multiplier as int, pushback as int),
        ),
        EdgeType::Deleting => None,
    }
}

/// The cell in which a particle that is not in its list's cell ends, with
/// the particle as it is then; or `None` where it is removed.
pub open spec fn destination(p: Particle, s: int, w: int, h: int, edge: EdgeType) -> Option<
    (int, int, Particle),
> {
    match cell_of(p.position[0] as int, p.position[1] as int, s, w, h) {
        Some((cx, cy)) => Some((cx, cy, p)),
        None => match returned(p, w * s, h * s, edge) {
            Some(back) => match cell_of(back.position[0] as int, back.position[1] as int, s, w, h) {
                Some((cx, cy)) => Some((cx, cy, back)),
                None => None,
            },
            None => None,
        },
    }
}

/// The grid after one particle that is not in its list's cell has been put
/// where it ends.
pub open spec fn placed(
    cells: Seq<Seq<Particle>>,
    s: int,
    w: int,
    h: int,
    edge: EdgeType,
    p: Particle,
) -> Seq<Seq<Particle>> {
    match destination(p, s, w, h, edge) {
        Some((cx, cy, back)) => cells.update(
            flat_index(w, cx, cy),
            cells[flat_index(w, cx, cy)].push(back),
        ),
        None => cells,
    }
}

/// The grid after the particles of `list` have been put where they end, one
/// after the other.
pub open spec fn placed_all(
    cells: Seq<Seq<Particle>>,
    s: int,
    w: int,
    h: int,
    edge: EdgeType,
    list: Seq<Particle>,
) -> Seq<Seq<Particle>>
    decreases list.len(),
{
    if list.len() == 0 {
        cells
    } else {
        placed(placed_all(cells, s, w, h, edge, list.drop_last()), s, w, h, edge, list.last())
    }
}

/// The grid back in order: the particles that are in the cell of their list
/// stay, and the others are put where they end, list after list.
pub open spec fn reorganized(
    cells: Seq<Seq<Particle>>,
    s: int,
    w: int,
    h: int,
    edge: EdgeType,
) -> Seq<Seq<Particle>> {
    placed_all(kept_cells(cells, s, w), s, w, h, edge, all_strays(cells, s, w, cells.len() as int))
}

/// How many particles of `list` are removed when they are put where they
/// end.
pub open spec fn removed(list: Seq<Particle>, s: int, w: int, h: int, edge: EdgeType) -> nat
    decreases list.len(),
{
    if list.len() == 0 {
        0
    } else if destination(list.last(), s, w, h, edge).is_none() {
        removed(list.drop_last(), s, w, h, edge) + 1
    } else {
        removed(list.drop_last(), s, w, h, edge)
    }
}

/// How many particles of the grid are outside the world.
pub open spec fn outside(cells: Seq<Seq<Particle>>, s: int, w: int, h: int, n: int) -> nat
    decreases n,
{
    if n <= 0 {
        0
    } else {
        outside(cells, s, w, h, n - 1) + outside_in(cells[n - 1], s, w, h)
    }
}

/// How many particles of `list` are outside the world.
pub open spec fn outside_in(list: Seq<Particle>, s: int, w: int, h: int) -> nat
    decreases list.len(),
{
    if list.len() == 0 {
        0
    } else if cell_of(list.last().position[0] as int, list.last().position[1] as int, s, w, h)
        .is_none() {
        outside_in(list.drop_last(), s, w, h) + 1
    } else {
        outside_in(list.drop_last(), s, w, h)
    }
}

/// Every particle of a list is kept or is a stray; those kept are in the
/// cell; and both keep the species found in the list.
pub proof fn lemma_split(list: Seq<Particle>, s: int, cx: int, cy: int)
    ensures
        kept(list, s, cx, cy).len() + strays(list, s, cx, cy).len() == list.len(),
        forall|i: int|
            0 <= i < kept(list, s, cx, cy).len() ==> in_cell(
                #[trigger] kept(list, s, cx, cy)[i],
                s,
                cx,
                cy,
            ),
        forall|i: int|
            0 <= i < strays(list, s, cx, cy).len() ==> !in_cell(
                #[trigger] strays(list, s, cx, cy)[i],
                s,
                cx,
                cy,
            ),
        forall|count: int| #[trigger]
            types_below(list, count) ==> types_below(kept(list, s, cx, cy), count) && types_below(
                strays(list, s, cx, cy),
                count,
            ),
    decreases list.len(),
{
    if list.len() > 0 {
        let front = list.drop_last();
        lemma_split(front, s, cx, cy);
        assert forall|count: int| #[trigger] types_below(list, count) implies types_below(
            kept(list, s, cx, cy),
            count,
        ) && types_below(strays(list, s, cx, cy), count) by {
            assert forall|i: int| 0 <= i < front.len() implies (#[trigger] front[i]).typ < count by {
                assert(front[i] == list[i]);
            }
            assert(types_below(front, count));
            assert(list.last() == list[list.len() - 1]);
        }
    }
}

/// A wrapped particle is inside the world.
pub proof fn lemma_wrapped_inside(p: Particle, s: int, w: int, h: int)
    requires
        s > 0,
        w >= 1,
        h >= 1,
        w * s <= i64::MAX,
        h * s <= i64::MAX,
    ensures
        cell_of(
            wrapped(p, w * s, h * s).position[0] as int,
            wrapped(p, w * s, h * s).position[1] as int,
            s,
            w,
            h,
        ).is_some(),
{
    assert(w * s >= 1) by (nonlinear_arith)
        requires
            w >= 1,
            s >= 1,
    ;
    assert(h * s >= 1) by (nonlinear_arith)
        requires
            h >= 1,
            s >= 1,
    ;
    vstd::arithmetic::div_mod::lemma_mod_bound(p.position[0] as int, w * s);
    vstd::arithmetic::div_mod::lemma_mod_bound(p.position[1] as int, h * s);
    lemma_coordinate((p.position[0] as int) % (w * s), s, w);
    lemma_coordinate((p.position[1] as int) % (h * s), s, h);
}

/// A particle that the edges have thrown back is inside the world.
pub proof fn lemma_bounced_inside(
    p: Particle,
    s: int,
    w: int,
    h: int,
    multiplier: int,
    pushback: int,
)
    requires
        s >= EDGE_MARGIN,
        w >= 1,
        h >= 1,
        w * s <= crate::fixed::LIMIT,
        h * s <= crate::fixed::LIMIT,
    ensures
        cell_of(
            bounced(p, w * s, h * s, multiplier, pushback).position[0] as int,
            bounced(p, w * s, h * s, multiplier, pushback).position[1] as int,
            s,
            w,
            h,
        ).is_some(),
{
    assert(w * s >= s) by (nonlinear_arith)
        requires
            w >= 1,
            s >= 1,
    ;
    assert(h * s >= s) by (nonlinear_arith)
        requires
            h >= 1,
            s >= 1,
    ;
    lemma_coordinate(constrained(p.position[0] as int, w * s), s, w);
    lemma_coordinate(constrained(p.position[1] as int, h * s), s, h);
}

/// Where a particle ends, it is in the cell, the cell is in bounds, and its
/// species is the one it had.
pub proof fn lemma_destination(p: Particle, s: int, w: int, h: int, edge: EdgeType)
    requires
        s > 0,
    ensures
        destination(p, s, w, h, edge) matches Some((cx, cy, back)) ==> {
            &&& 0 <= cx < w
            &&& 0 <= cy < h
            &&& in_cell(back, s, cx, cy)
            &&& back.typ == p.typ
        },
{
    match destination(p, s, w, h, edge) {
        Some((cx, cy, back)) => {
            lemma_cell_of(back.position[0] as int, back.position[1] as int, s, w, h);
        },
        None => {},
    }
}

/// A particle is removed only by an edge that removes, and only outside the
/// world.
pub proof fn lemma_destination_exists(p: Particle, s: int, w: int, h: int, edge: EdgeType)
    requires
        s >= EDGE_MARGIN,
        w >= 1,
        h >= 1,
        w * s <= crate::fixed::LIMIT,
        h * s <= crate::fixed::LIMIT,
    ensures
        destination(p, s, w, h, edge).is_none() <==> (edge == EdgeType::Deleting && cell_of(
            p.position[0] as int,
            p.position[1] as int,
            s,
            w,
            h,
        ).is_none()),
{
    match edge {
        EdgeType::Wrapping => {
            lemma_wrapped_inside(p, s, w, h);
        },
        EdgeType::Bouncing { multiplier, pushback } => {
            lemma_bounced_inside(p, s, w, h, multiplier as int, pushback as int);
        },
        EdgeType::Deleting => {},
    }
}

/// Putting particles where they end keeps the grid's shape and order, keeps
/// the species, and loses exactly the particles that are removed.
pub proof fn lemma_placed_all(
    cells: Seq<Seq<Particle>>,
    s: int,
    w: int,
    h: int,
    edge: EdgeType,
    list: Seq<Particle>,
)
    requires
        s > 0,
        w >= 1,
        h >= 1,
        cells.len() == w * h,
        in_order(cells, s, w),
    ensures
        placed_all(cells, s, w, h, edge, list).len() == cells.len(),
        in_order(placed_all(cells, s, w, h, edge, list), s, w),
        total(placed_all(cells, s, w, h, edge, list)) + removed(list, s, w, h, edge) == total(cells)
            + list.len(),
        forall|count: int|
            species_below(cells, count) && #[trigger] types_below(list, count) ==> species_below(
                placed_all(cells, s, w, h, edge, list),
                count,
            ),
    decreases list.len(),
{
    if list.len() > 0 {
        let front = list.drop_last();
        let p = list.last();
        lemma_placed_all(cells, s, w, h, edge, front);
        let before = placed_all(cells, s, w, h, edge, front);
        let after = placed_all(cells, s, w, h, edge, list);
        assert(after == placed(before, s, w, h, edge, p));
        lemma_destination(p, s, w, h, edge);
        match destination(p, s, w, h, edge) {
            Some((cx, cy, back)) => {
                let k = flat_index(w, cx, cy);
                lemma_flat_index(w, h, cx, cy);
                lemma_total_update(before, k, before[k].push(back));
                assert forall|c: int, i: int|
                    0 <= c < after.len() && 0 <= i < after[c].len() implies in_cell(
                    #[trigger] after[c][i],
                    s,
                    c % w,
                    c / w,
                ) by {
                    if c == k && i == before[k].len() {
                    } else {
                        assert(after[c][i] == before[c][i]);
                    }
                }
                assert forall|count: int|
                    species_below(cells, count) && #[trigger] types_below(
                        list,
                        count,
                    ) implies species_below(after, count) by {
                    assert forall|i: int| 0 <= i < front.len() implies (#[trigger] front[i]).typ
                        < count by {
                        assert(front[i] == list[i]);
                    }
                    assert(types_below(front, count));
                    assert(list[list.len() - 1].typ < count);
                    assert forall|c: int, i: int|
                        0 <= c < after.len() && 0 <= i < after[c].len() implies (
                    #[trigger] after[c][i]).typ < count by {
                        if c == k && i == before[k].len() {
                        } else {
                            assert(after[c][i] == before[c][i]);
                        }
                    }
                }
            },
            None => {
                assert forall|count: int|
                    species_below(cells, count) && #[trigger] types_below(
                        list,
                        count,
                    ) implies species_below(after, count) by {
                    assert forall|i: int| 0 <= i < front.len() implies (#[trigger] front[i]).typ
                        < count by {
                        assert(front[i] == list[i]);
                    }
                    assert(types_below(front, count));
                }
            },
        }
    }
}

/// The species found among the strays of the first `n` lists are found in
/// the grid.
pub proof fn lemma_strays_species(cells: Seq<Seq<Particle>>, s: int, w: int, n: int, count: int)
    requires
        0 <= n <= cells.len(),
        species_below(cells, count),
    ensures
        types_below(all_strays(cells, s, w, n), count),
    decreases n,
{
    if n > 0 {
        lemma_strays_species(cells, s, w, n - 1, count);
        let list = cells[n - 1];
        lemma_split(list, s, (n - 1) % w, (n - 1) / w);
        assert(types_below(list, count));
        let front = all_strays(cells, s, w, n - 1);
        let more = strays(list, s, (n - 1) % w, (n - 1) / w);
        assert forall|j: int| 0 <= j < (front + more).len() implies (#[trigger] (front + more)[j]).typ
            < count by {
            if j < front.len() {
                assert((front + more)[j] == front[j]);
            } else {
                assert((front + more)[j] == more[j - front.len()]);
            }
        }
    }
}

/// The particles kept and the strays of the first `n` lists are together
/// the particles of those lists.
pub proof fn lemma_kept_and_strays(cells: Seq<Seq<Particle>>, s: int, w: int, n: int)
    requires
        0 <= n <= cells.len(),
    ensures
        total(kept_cells(cells, s, w).take(n)) + all_strays(cells, s, w, n).len() == total(
            cells.take(n),
        ),
    decreases n,
{
    if n > 0 {
        lemma_kept_and_strays(cells, s, w, n - 1);
        lemma_split(cells[n - 1], s, (n - 1) % w, (n - 1) / w);
        assert(kept_cells(cells, s, w).take(n).drop_last() =~= kept_cells(cells, s, w).take(n - 1));
        assert(cells.take(n).drop_last() =~= cells.take(n - 1));
        assert(cells.take(n).last() == cells[n - 1]);
        assert(kept_cells(cells, s, w).take(n).last() == kept(
            cells[n - 1],
            s,
            (n - 1) % w,
            (n - 1) / w,
        ));
    }
}

/// The grid of the particles kept is in order, and keeps the species.
pub proof fn lemma_kept_cells(cells: Seq<Seq<Particle>>, s: int, w: int)
    ensures
        kept_cells(cells, s, w).len() == cells.len(),
        in_order(kept_cells(cells, s, w), s, w),
        forall|count: int| #[trigger]
            species_below(cells, count) ==> species_below(kept_cells(cells, s, w), count),
{
    let grid = kept_cells(cells, s, w);
    assert forall|k: int, i: int| 0 <= k < grid.len() && 0 <= i < grid[k].len() implies in_cell(
        #[trigger] grid[k][i],
        s,
        k % w,
        k / w,
    ) by {
        lemma_split(cells[k], s, k % w, k / w);
    }
    assert forall|count: int| #[trigger] species_below(cells, count) implies species_below(
        grid,
        count,
    ) by {
        assert forall|k: int, i: int| 0 <= k < grid.len() && 0 <= i < grid[k].len() implies (
        #[trigger] grid[k][i]).typ < count by {
            lemma_split(cells[k], s, k % w, k / w);
            assert forall|j: int| 0 <= j < cells[k].len() implies (#[trigger] cells[k][j]).typ
                < count by {}
            assert(types_below(cells[k], count));
            assert(types_below(kept(cells[k], s, k % w, k / w), count));
        }
    }
}

/// Lists put end to end lose what each of them loses.
pub proof fn lemma_removed_concat(
    a: Seq<Particle>,
    b: Seq<Particle>,
    s: int,
    w: int,
    h: int,
    edge: EdgeType,
)
    ensures
        removed(a + b, s, w, h, edge) == removed(a, s, w, h, edge) + removed(b, s, w, h, edge),
    decreases b.len(),
{
    if b.len() == 0 {
        assert(a + b =~= a);
    } else {
        lemma_removed_concat(a, b.drop_last(), s, w, h, edge);
        assert((a + b).drop_last() =~= a + b.drop_last());
        assert((a + b).last() == b.last());
    }
}

/// No particle is removed unless the edge removes.
pub proof fn lemma_none_removed(list: Seq<Particle>, s: int, w: int, h: int, edge: EdgeType)
    requires
        s >= EDGE_MARGIN,
        w >= 1,
        h >= 1,
        w * s <= crate::fixed::LIMIT,
        h * s <= crate::fixed::LIMIT,
        edge != EdgeType::Deleting,
    ensures
        removed(list, s, w, h, edge) == 0,
    decreases list.len(),
{
    if list.len() > 0 {
        lemma_none_removed(list.drop_last(), s, w, h, edge);
        lemma_destination_exists(list.last(), s, w, h, edge);
    }
}

/// Where the edge removes, the strays of a list that are removed are the
/// particles of the list that are outside the world.
pub proof fn lemma_removed_strays(list: Seq<Particle>, s: int, w: int, h: int, cx: int, cy: int)
    requires
        s >= EDGE_MARGIN,
        w >= 1,
        h >= 1,
        w * s <= crate::fixed::LIMIT,
        h * s <= crate::fixed::LIMIT,
        0 <= cx < w,
        0 <= cy < h,
    ensures
        removed(strays(list, s, cx, cy), s, w, h, EdgeType::Deleting) == outside_in(list, s, w, h),
    decreases list.len(),
{
    if list.len() > 0 {
        let p = list.last();
        lemma_removed_strays(list.drop_last(), s, w, h, cx, cy);
        lemma_destination_exists(p, s, w, h, EdgeType::Deleting);
        if in_cell(p, s, cx, cy) {
            lemma_coordinate(p.position[0] as int, s, w);
            lemma_coordinate(p.position[1] as int, s, h);
            assert(0 <= cx * s) by (nonlinear_arith)
                requires
                    0 <= cx,
                    s > 0,
            ;
            assert(0 <= cy * s) by (nonlinear_arith)
                requires
                    0 <= cy,
                    s > 0,
            ;
        } else {
            let rest = strays(list.drop_last(), s, cx, cy);
            assert(rest.push(p).drop_last() =~= rest);
        }
    }
}

/// Where the edge removes, the strays that are removed are the particles
/// that are outside the world.
pub proof fn lemma_removed_all(cells: Seq<Seq<Particle>>, s: int, w: int, h: int, n: int)
    requires
        s >= EDGE_MARGIN,
        w >= 1,
        h >= 1,
        w * s <= crate::fixed::LIMIT,
        h * s <= crate::fixed::LIMIT,
        cells.len() == w * h,
        0 <= n <= cells.len(),
    ensures
        removed(all_strays(cells, s, w, n), s, w, h, EdgeType::Deleting) == outside(
            cells,
            s,
            w,
            h,
            n,
        ),
    decreases n,
{
    if n > 0 {
        lemma_removed_all(cells, s, w, h, n - 1);
        lemma_index_of_place(w, h, n - 1);
        lemma_removed_strays(cells[n - 1], s, w, h, (n - 1) % w, (n - 1) / w);
        lemma_removed_concat(
            all_strays(cells, s, w, n - 1),
            strays(cells[n - 1], s, (n - 1) % w, (n - 1) / w),
            s,
            w,
            h,
            EdgeType::Deleting,
        );
    }
}

/// After a step the grid is in order: every particle is in the list of the
/// cell that its position falls in.
pub proof fn lemma_reorganized_in_order(
    cells: Seq<Seq<Particle>>,
    s: int,
    w: int,
    h: int,
    edge: EdgeType,
)
    requires
        s > 0,
        w >= 1,
        h >= 1,
        cells.len() == w * h,
    ensures
        reorganized(cells, s, w, h, edge).len() == cells.len(),
        in_order(reorganized(cells, s, w, h, edge), s, w),
        forall|count: int| #[trigger]
            species_below(cells, count) ==> species_below(
                reorganized(cells, s, w, h, edge),
                count,
            ),
{
    lemma_kept_cells(cells, s, w);
    let list = all_strays(cells, s, w, cells.len() as int);
    lemma_placed_all(kept_cells(cells, s, w), s, w, h, edge, list);
    assert forall|count: int| #[trigger] species_below(cells, count) implies species_below(
        reorganized(cells, s, w, h, edge),
        count,
    ) by {
        lemma_strays_species(cells, s, w, cells.len() as int, count);
        assert(types_below(list, count));
    }
}

/// Where the edges wrap round or throw back, a step keeps the number of
/// particles.
pub proof fn lemma_population_kept(
    cells: Seq<Seq<Particle>>,
    s: int,
    w: int,
    h: int,
    edge: EdgeType,
)
    requires
        s >= EDGE_MARGIN,
        w >= 1,
        h >= 1,
        w * s <= crate::fixed::LIMIT,
        h * s <= crate::fixed::LIMIT,
        cells.len() == w * h,
        edge != EdgeType::Deleting,
    ensures
        total(reorganized(cells, s, w, h, edge)) == total(cells),
{
    lemma_population(cells, s, w, h, edge);
    lemma_none_removed(all_strays(cells, s, w, cells.len() as int), s, w, h, edge);
}

/// Where the edge removes, a step lowers the number of particles by one for
/// each particle that is outside the world, and by no more.
pub proof fn lemma_population_falls(cells: Seq<Seq<Particle>>, s: int, w: int, h: int)
    requires
        s >= EDGE_MARGIN,
        w >= 1,
        h >= 1,
        w * s <= crate::fixed::LIMIT,
        h * s <= crate::fixed::LIMIT,
        cells.len() == w * h,
    ensures
        total(reorganized(cells, s, w, h, EdgeType::Deleting)) + outside(
            cells,
            s,
            w,
            h,
            cells.len() as int,
        ) == total(cells),
        total(reorganized(cells, s, w, h, EdgeType::Deleting)) <= total(cells),
{
    lemma_population(cells, s, w, h, EdgeType::Deleting);
    lemma_removed_all(cells, s, w, h, cells.len() as int);
}

/// A step loses exactly the strays that are removed.
pub proof fn lemma_population(cells: Seq<Seq<Particle>>, s: int, w: int, h: int, edge: EdgeType)
    requires
        s > 0,
        w >= 1,
        h >= 1,
        cells.len() == w * h,
    ensures
        total(reorganized(cells, s, w, h, edge)) + removed(
            all_strays(cells, s, w, cells.len() as int),
            s,
            w,
            h,
            edge,
        ) == total(cells),
{
    lemma_kept_cells(cells, s, w);
    let list = all_strays(cells, s, w, cells.len() as int);
    lemma_placed_all(kept_cells(cells, s, w), s, w, h, edge, list);
    lemma_kept_and_strays(cells, s, w, cells.len() as int);
    assert(cells.take(cells.len() as int) =~= cells);
    assert(kept_cells(cells, s, w).take(cells.len() as int) =~= kept_cells(cells, s, w));
}

/// Whether a coordinate `x` moved on by `shift` is still a real number, and
/// a step from there at velocity `v` with `impulse` stays within the limit,
/// as does the same step from `x`.
pub open spec fn shiftable(x: int, v: int, impulse: int, shift: int) -> bool {
    &&& -LIMIT <= x + shift <= LIMIT
    &&& -LIMIT <= x + quotient_toward_zero(pushed(v, impulse), 2) <= LIMIT
    &&& -LIMIT <= x + shift + quotient_toward_zero(pushed(v, impulse), 2) <= LIMIT
}

/// Where the world wraps round, a particle moved on by whole worlds before
/// its step comes back in, after it, where it would have without the move.
pub proof fn lemma_wrap_equivalence(
    p: Particle,
    impulse: [Real; 2],
    width: int,
    height: int,
    kx: int,
    ky: int,
)
    requires
        width > 0,
        height > 0,
        shiftable(p.position[0] as int, p.velocity[0] as int, impulse[0] as int, kx * width),
        shiftable(p.position[1] as int, p.velocity[1] as int, impulse[1] as int, ky * height),
    ensures
        wrapped(stepped(displaced(p, kx * width, ky * height), impulse), width, height) == wrapped(
            stepped(p, impulse),
            width,
            height,
        ),
{
    let q = displaced(p, kx * width, ky * height);
    let a = wrapped(stepped(q, impulse), width, height);
    let b = wrapped(stepped(p, impulse), width, height);
    let hx = quotient_toward_zero(pushed(p.velocity[0] as int, impulse[0] as int), 2);
    let hy = quotient_toward_zero(pushed(p.velocity[1] as int, impulse[1] as int), 2);
    vstd::arithmetic::div_mod::lemma_mod_multiples_vanish(kx, p.position[0] + hx, width);
    vstd::arithmetic::div_mod::lemma_mod_multiples_vanish(ky, p.position[1] + hy, height);
    vstd::arithmetic::div_mod::lemma_mod_bound(p.position[0] + hx, width);
    vstd::arithmetic::div_mod::lemma_mod_bound(p.position[1] + hy, height);
    assert(width * kx == kx * width) by (nonlinear_arith);
    assert(height * ky == ky * height) by (nonlinear_arith);
    assert(q.velocity == p.velocity);
    assert(stepped(q, impulse).position[0] == p.position[0] + kx * width + hx);
    assert(stepped(q, impulse).position[1] == p.position[1] + ky * height + hy);
    assert(stepped(p, impulse).position[0] == p.position[0] + hx);
    assert(stepped(p, impulse).position[1] == p.position[1] + hy);
    assert(a.position =~= b.position);
    assert(a.velocity =~= b.velocity);
}

/// What one particle gains from another depends on the way between them
/// alone: moving both on by the same amount changes nothing.
pub proof fn lemma_forces_ignore_shift(
    p: Particle,
    q: Particle,
    ox: int,
    oy: int,
    attraction: int,
    reach: int,
    prevent: bool,
    before: [Real; 2],
    after: [Real; 2],
)
    requires
        i64::MIN <= p.position[0] + ox <= i64::MAX,
        i64::MIN <= p.position[1] + oy <= i64::MAX,
        i64::MIN <= q.position[0] + ox <= i64::MAX,
        i64::MIN <= q.position[1] + oy <= i64::MAX,
    ensures
        pair_step(
            displaced(p, ox, oy),
            displaced(q, ox, oy),
            attraction,
            reach,
            prevent,
            before,
            after,
        ) == pair_step(p, q, attraction, reach, prevent, before, after),
{
}

/// The strays of the first lists are among the strays of all.
pub proof fn lemma_strays_grow(cells: Seq<Seq<Particle>>, s: int, w: int, m: int, n: int)
    requires
        0 <= m <= n,
    ensures
        all_strays(cells, s, w, m).len() <= all_strays(cells, s, w, n).len(),
    decreases n - m,
{
    if m < n {
        lemma_strays_grow(cells, s, w, m, n - 1);
    }
}

/// The remainder of `x` by a positive `n`, never negative.
pub fn remainder(x: Real, n: Real) -> (r: Real)
    requires
        n > 0,
    ensures
        r == (x as int) % (n as int),
        0 <= r < n,
{
    let cut: i64 = x % n;
    proof {
        vstd::arithmetic::div_mod::lemma_mod_bound(x as int, n as int);
        if x < 0 {
            let m = (-x) % (n as int);
            vstd::arithmetic::div_mod::lemma_fundamental_div_mod(-x, n as int);
            vstd::arithmetic::div_mod::lemma_mod_bound(-x, n as int);
            let q = (-x) / (n as int);
            if m == 0 {
                assert(x == n * (-q) + 0) by (nonlinear_arith)
                    requires
                        -x == n * q + m,
                        m == 0,
                ;
                vstd::arithmetic::div_mod::lemma_fundamental_div_mod_converse(
                    x as int,
                    n as int,
                    -q,
                    0,
                );
            } else {
                assert(x == n * (-q - 1) + (n - m)) by (nonlinear_arith)
                    requires
                        -x == n * q + m,
                ;
                vstd::arithmetic::div_mod::lemma_fundamental_div_mod_converse(
                    x as int,
                    n as int,
                    -q - 1,
                    n - m,
                );
            }
        }
    }
    if cut < 0 {
        cut + n
    } else {
        cut
    }
}

/// The particle where it comes back in when the world wraps round.
pub fn wrap_around(p: Particle, size: [Real; 2]) -> (back: Particle)
    requires
        size[0] > 0,
        size[1] > 0,
    ensures
        back == wrapped(p, size[0] as int, size[1] as int),
{
    let back = Particle {
        position: [remainder(p.position[0], size[0]), remainder(p.position[1], size[1])],
        velocity: p.velocity,
        typ: p.typ,
    };
    proof {
        assert(back.position =~= wrapped(p, size[0] as int, size[1] as int).position);
    }
    back
}

fn rebound_of(v: Real, way: Real, multiplier: Real, pushback: Real) -> (r: Real)
    ensures
        r == rebound(v as int, way as int, multiplier as int, pushback as int),
{
    if way != 0 {
        let speed: Real = if v < 0 {
            saturate(-(v as i128))
        } else {
            saturate(v as i128)
        };
        times(sum(times(speed, multiplier), pushback), way)
    } else {
        v
    }
}

/// The particle as it is put back when the edges throw it back.
pub fn bounce_back(p: Particle, size: [Real; 2], multiplier: Real, pushback: Real) -> (back:
    Particle)
    ensures
        back == bounced(p, size[0] as int, size[1] as int, multiplier as int, pushback as int),
{
    let mut back: Particle = p;
    let direction: [Real; 2] = back.constrain_to_size(size);
    back.velocity[0] = rebound_of(p.velocity[0], direction[0], multiplier, pushback);
    back.velocity[1] = rebound_of(p.velocity[1], direction[1], multiplier, pushback);
    proof {
        let goal = bounced(p, size[0] as int, size[1] as int, multiplier as int, pushback as int);
        assert(back.position =~= goal.position);
        assert(back.velocity =~= goal.velocity);
    }
    back
}

/// Whether the far edges of cell `k`, in a grid `width` cells wide with
/// cells `s` wide, are no further out than the greatest real number.
pub open spec fn cell_fits(k: int, width: int, s: int) -> bool {
    (k % width + 1) * s <= LIMIT && (k / width + 1) * s <= LIMIT
}

/// Takes out of the list of cell `k`, in a grid `width` cells wide, the
/// particles that are not in that cell, and returns them.
pub fn extract(bucket: &mut Vec<Particle>, k: usize, width: usize, bucket_size: Real) -> (out: Vec<
    Particle,
>)
    requires
        width >= 1,
        bucket_size >= 1,
        cell_fits(k as int, width as int, bucket_size as int),
    ensures
        final(bucket)@ == kept(
            old(bucket)@,
            bucket_size as int,
            (k % width) as int,
            (k / width) as int,
        ),
        out@ == strays(old(bucket)@, bucket_size as int, (k % width) as int, (k / width) as int),
{
    let cx: usize = k % width;
    let cy: usize = k / width;
    let ghost s = bucket_size as int;
    proof {
        assert(0 <= cx * s <= (cx + 1) * s && (cx + 1) * s == cx * s + s) by (nonlinear_arith)
            requires
                cx >= 0,
                s >= 1,
        ;
        assert(0 <= cy * s <= (cy + 1) * s && (cy + 1) * s == cy * s + s) by (nonlinear_arith)
            requires
                cy >= 0,
                s >= 1,
        ;
        assert(cx <= (cx + 1) * s) by (nonlinear_arith)
            requires
                cx >= 0,
                s >= 1,
        ;
        assert(cy <= (cy + 1) * s) by (nonlinear_arith)
            requires
                cy >= 0,
                s >= 1,
        ;
    }
    let low_x: Real = (cx as i64) * bucket_size;
    let low_y: Real = (cy as i64) * bucket_size;
    let high_x: Real = low_x + bucket_size;
    let high_y: Real = low_y + bucket_size;
    let mut stay: Vec<Particle> = Vec::new();
    let mut out: Vec<Particle> = Vec::new();
    let mut i: usize = 0;
    while i < bucket.len()
        invariant
            i <= bucket.len(),
            *bucket == *old(bucket),
            s == bucket_size,
            s >= 1,
            low_x == cx * s,
            low_y == cy * s,
            high_x == (cx + 1) * s,
            high_y == (cy + 1) * s,
            stay@ == kept(bucket@.take(i as int), s, cx as int, cy as int),
            out@ == strays(bucket@.take(i as int), s, cx as int, cy as int),
        decreases bucket.len() - i,
    {
        let p: Particle = bucket[i];
        let inside: bool = low_x <= p.position[0] && p.position[0] < high_x && low_y
            <= p.position[1] && p.position[1] < high_y;
        proof {
            lemma_coordinate(p.position[0] as int, s, 0);
            lemma_coordinate(p.position[1] as int, s, 0);
            if low_x <= p.position[0] && p.position[0] < high_x {
                lemma_coordinate_between(p.position[0] as int, s, cx as int);
            }
            if low_y <= p.position[1] && p.position[1] < high_y {
                lemma_coordinate_between(p.position[1] as int, s, cy as int);
            }
            assert(inside == in_cell(p, s, cx as int, cy as int));
            assert(bucket@.take(i + 1).drop_last() =~= bucket@.take(i as int));
            assert(bucket@.take(i + 1).last() == p);
        }
        if inside {
            stay.push(p);
        } else {
            out.push(p);
        }
        i += 1;
    }
    proof {
        assert(bucket@.take(bucket.len() as int) =~= bucket@);
    }
    *bucket = stay;
    out
}

} // verus!
