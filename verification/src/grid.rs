//! The mathematics of the grid: which cell a position falls in, how many
//! particles a grid holds, and what it means for a grid to be in order.

use vstd::prelude::*;

use crate::matrix::Matrix;
use crate::particle::Particle;

verus! {

/// The particles of each cell, cell by cell in the order of the storage.
pub open spec fn cells_of(buckets: Matrix<Vec<Particle>>) -> Seq<Seq<Particle>> {
    Seq::new(buckets.data.len() as nat, |k: int| buckets.data[k]@)
}

/// The number of particles in all the cells together.
pub open spec fn total(cells: Seq<Seq<Particle>>) -> nat
    decreases cells.len(),
{
    if cells.len() == 0 {
        0
    } else {
        total(cells.drop_last()) + cells.last().len()
    }
}

/// Replacing one cell's list changes the total by the difference in length.
pub proof fn lemma_total_update(cells: Seq<Seq<Particle>>, k: int, list: Seq<Particle>)
    requires
        0 <= k < cells.len(),
    ensures
        total(cells.update(k, list)) == total(cells) - cells[k].len() + list.len(),
    decreases cells.len(),
{
    let after = cells.update(k, list);
    if k == cells.len() - 1 {
        assert(after.drop_last() =~= cells.drop_last());
    } else {
        lemma_total_update(cells.drop_last(), k, list);
        assert(after.drop_last() =~= cells.drop_last().update(k, list));
    }
}

/// A grid of empty cells holds nothing.
pub proof fn lemma_total_of_empty(cells: Seq<Seq<Particle>>)
    requires
        forall|k: int| 0 <= k < cells.len() ==> (#[trigger] cells[k]).len() == 0,
    ensures
        total(cells) == 0,
    decreases cells.len(),
{
    if cells.len() > 0 {
        lemma_total_of_empty(cells.drop_last());
    }
}

/// The first cells of a grid hold no more than the whole grid, and one
/// cell more holds its own particles more.
pub proof fn lemma_total_take(cells: Seq<Seq<Particle>>, n: int)
    requires
        0 <= n <= cells.len(),
    ensures
        total(cells.take(n)) <= total(cells),
        n < cells.len() ==> total(cells.take(n + 1)) == total(cells.take(n)) + cells[n].len(),
    decreases cells.len() - n,
{
    if n == cells.len() {
        assert(cells.take(n) =~= cells);
    } else {
        lemma_total_take(cells, n + 1);
        assert(cells.take(n + 1).drop_last() =~= cells.take(n));
        assert(cells.take(n + 1).last() == cells[n]);
    }
}

/// The cell, along one axis, of the coordinate `x` where cells are `s` wide:
/// the quotient rounded down, so that an edge belongs to the cell above it.
pub open spec fn cell_coordinate(x: int, s: int) -> int
    recommends
        s > 0,
{
    x / s
}

/// The cell of the position `(x, y)` in a grid of `w` by `h` cells, each `s`
/// wide, or `None` where the position is outside the world.
pub open spec fn cell_of(x: int, y: int, s: int, w: int, h: int) -> Option<(int, int)> {
    if x >= 0 && y >= 0 && cell_coordinate(x, s) < w && cell_coordinate(y, s) < h {
        Some((cell_coordinate(x, s), cell_coordinate(y, s)))
    } else {
        None
    }
}

/// Whether the particle's position falls in the cell `(cx, cy)`.
pub open spec fn in_cell(p: Particle, s: int, cx: int, cy: int) -> bool {
    cell_coordinate(p.position[0] as int, s) == cx && cell_coordinate(p.position[1] as int, s)
        == cy
}

/// Whether every particle is in the list of the cell that its position
/// falls in, in a grid `w` cells wide.
pub open spec fn in_order(cells: Seq<Seq<Particle>>, s: int, w: int) -> bool {
    forall|k: int, i: int|
        0 <= k < cells.len() && 0 <= i < cells[k].len() ==> in_cell(
            #[trigger] cells[k][i],
            s,
            k % w,
            k / w,
        )
}

/// Whether every particle of the list has one of the first `count` species.
pub open spec fn types_below(list: Seq<Particle>, count: int) -> bool {
    forall|j: int| 0 <= j < list.len() ==> (#[trigger] list[j]).typ < count
}

/// Whether every particle's species is one of `count`.
pub open spec fn species_below(cells: Seq<Seq<Particle>>, count: int) -> bool {
    forall|k: int, i: int|
        0 <= k < cells.len() && 0 <= i < cells[k].len() ==> (#[trigger] cells[k][i]).typ < count
}

/// A particle in the list of an in-bounds cell of a grid in order lies
/// between the edges of that cell.
pub proof fn lemma_in_order_bounds(
    cells: Seq<Seq<Particle>>,
    s: int,
    w: int,
    h: int,
    k: int,
    i: int,
)
    requires
        s > 0,
        w > 0,
        in_order(cells, s, w),
        cells.len() == w * h,
        0 <= k < cells.len(),
        0 <= i < cells[k].len(),
    ensures
        (k % w) * s <= cells[k][i].position[0] < (k % w + 1) * s,
        (k / w) * s <= cells[k][i].position[1] < (k / w + 1) * s,
        0 <= cells[k][i].position[0] < w * s,
        0 <= cells[k][i].position[1] < h * s,
{
    let p = cells[k][i];
    lemma_coordinate(p.position[0] as int, s, w);
    lemma_coordinate(p.position[1] as int, s, h);
    crate::type_data::lemma_index_of_place(w, h, k);
    assert((k % w + 1) * s <= w * s) by (nonlinear_arith)
        requires
            k % w + 1 <= w,
            s > 0,
    ;
    assert((k / w + 1) * s <= h * s) by (nonlinear_arith)
        requires
            k / w + 1 <= h,
            s > 0,
    ;
    assert(0 <= (k % w) * s) by (nonlinear_arith)
        requires
            0 <= k % w,
            s > 0,
    ;
    assert(0 <= (k / w) * s) by (nonlinear_arith)
        requires
            0 <= k / w,
            s > 0,
    ;
}

/// A position that has a cell lies inside the world, and its cell is in
/// bounds.
pub proof fn lemma_cell_of(x: int, y: int, s: int, w: int, h: int)
    requires
        s > 0,
        cell_of(x, y, s, w, h).is_some(),
    ensures
        0 <= cell_coordinate(x, s) < w,
        0 <= cell_coordinate(y, s) < h,
        0 <= x < w * s,
        0 <= y < h * s,
{
    lemma_coordinate(x, s, w);
    lemma_coordinate(y, s, h);
}

/// Along one axis, a coordinate has one of the first `n` cells exactly when
/// it lies in `0 .. n * s`.
pub proof fn lemma_coordinate(x: int, s: int, n: int)
    requires
        s > 0,
    ensures
        (0 <= x && cell_coordinate(x, s) < n) <==> (0 <= x < n * s),
        0 <= x ==> 0 <= cell_coordinate(x, s),
        cell_coordinate(x, s) * s <= x < (cell_coordinate(x, s) + 1) * s,
{
    vstd::arithmetic::div_mod::lemma_fundamental_div_mod(x, s);
    vstd::arithmetic::div_mod::lemma_mod_bound(x, s);
    let c = x / s;
    assert(s * c == c * s) by (nonlinear_arith);
    assert((c + 1) * s == c * s + s) by (nonlinear_arith);
    if 0 <= x {
        vstd::arithmetic::div_mod::lemma_div_pos_is_pos(x, s);
        if c < n {
            assert((c + 1) * s <= n * s) by (nonlinear_arith)
                requires
                    c + 1 <= n,
                    s > 0,
            ;
        } else {
            assert(n * s <= c * s) by (nonlinear_arith)
                requires
                    n <= c,
                    s > 0,
            ;
        }
    }
}

/// The one cell that a coordinate between its edges can have.
pub proof fn lemma_coordinate_between(x: int, s: int, c: int)
    requires
        s > 0,
        c * s <= x < (c + 1) * s,
    ensures
        cell_coordinate(x, s) == c,
{
    assert(s * c == c * s) by (nonlinear_arith);
    assert((c + 1) * s == c * s + s) by (nonlinear_arith);
    vstd::arithmetic::div_mod::lemma_fundamental_div_mod_converse(x, s, c, x - c * s);
}

} // verus!
