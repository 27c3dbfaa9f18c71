//! The table of species: how many there are, how strongly each is drawn to
//! each other, and the colour of each.

use vstd::prelude::*;

use crate::fixed::{product, times, Real, UNIT};
use crate::matrix::{flat_index, lemma_flat_index, Matrix};
use crate::random::random_between;

verus! {

/// The greatest number of species.
pub const MAX_TYPES: usize = 250;

/// One channel of the colour at `hue / count` of the way round the colour
/// wheel, at full saturation and half lightness. `phase` is 1 for red, 0 for
/// green and -1 for blue: the channels follow each other a third of the wheel
/// apart. A channel rises over a sixth of the wheel, stays full for a third,
/// falls over a sixth and stays dark for a third.
pub open spec fn wheel_channel(hue: int, count: int, phase: int) -> int
    recommends
        0 <= hue < count,
        -1 <= phase <= 1,
{
    let turn = (3 * hue + phase * count) % (3 * count);
    if 2 * turn < count {
        (255 * 2 * turn) / count
    } else if 2 * turn <= 3 * count {
        255
    } else if turn < 2 * count {
        (255 * (4 * count - 2 * turn)) / count
    } else {
        0
    }
}

/// The colour of species `hue` among `count`, as red, green and blue.
pub open spec fn wheel_color(hue: int, count: int) -> Seq<int> {
    seq![wheel_channel(hue, count, 1), wheel_channel(hue, count, 0), wheel_channel(hue, count, -1)]
}

/// The species and what they do to each other.
#[derive(Clone, Debug)]
pub struct ParticleTypeData {
    /// At `[i, j]`, how strongly species `j` draws species `i`.
    pub base_attractions: Matrix<Real>,
    /// The base attractions, each multiplied by the scale.
    pub scaled_attractions: Matrix<Real>,
    /// The scale by which the base attractions are multiplied.
    pub attraction_scale: Real,
    /// The colour of each species, as red, green and blue.
    pub colors: Vec<[u8; 3]>,
}

fn channel(hue: usize, count: usize, phase: i8) -> (r: u8)
    requires
        hue < count <= MAX_TYPES,
        -1 <= phase <= 1,
    ensures
        r == wheel_channel(hue as int, count as int, phase as int),
{
    let third: i64 = count as i64;
    let whole: i64 = 3 * third;
    let shift: i64 = if phase == 1 {
        third
    } else if phase == 0 {
        0
    } else {
        -third
    };
    assert(shift == phase * count) by (nonlinear_arith)
        requires
            shift == (if phase == 1 {
                count as int
            } else if phase == 0 {
                0
            } else {
                -(count as int)
            }),
            -1 <= phase <= 1,
    ;
    let lifted: i64 = 3 * (hue as i64) + shift + whole;
    let turn: i64 = lifted % whole;
    proof {
        vstd::arithmetic::div_mod::lemma_mod_add_multiples_vanish(
            3 * hue + phase * count,
            whole as int,
        );
        vstd::arithmetic::div_mod::lemma_mod_bound(lifted as int, whole as int);
        assert(turn == (3 * hue + phase * count) % (3 * count));
        assert(0 <= turn < whole);
        assert(whole <= 750);
    }
    if 2 * turn < third {
        let value: i64 = (510 * turn) / third;
        proof {
            assert(255 * 2 * turn == 510 * turn) by (nonlinear_arith);
            assert(255 * 2 * turn <= 255 * third) by (nonlinear_arith)
                requires
                    2 * turn < third,
            ;
            vstd::arithmetic::div_mod::lemma_div_is_ordered(
                255 * 2 * turn as int,
                255 * third as int,
                third as int,
            );
            vstd::arithmetic::div_mod::lemma_div_multiples_vanish(255, third as int);
            vstd::arithmetic::div_mod::lemma_div_pos_is_pos(255 * 2 * turn as int, third as int);
        }
        value as u8
    } else if 2 * turn <= 3 * third {
        255
    } else if turn < 2 * third {
        let value: i64 = (255 * (4 * third - 2 * turn)) / third;
        proof {
            assert(0 <= 255 * (4 * third - 2 * turn) <= 255 * third) by (nonlinear_arith)
                requires
                    3 * third < 2 * turn,
                    turn < 2 * third,
            ;
            vstd::arithmetic::div_mod::lemma_div_is_ordered(
                255 * (4 * third - 2 * turn) as int,
                255 * third as int,
                third as int,
            );
            vstd::arithmetic::div_mod::lemma_div_multiples_vanish(255, third as int);
            vstd::arithmetic::div_mod::lemma_div_pos_is_pos(
                255 * (4 * third - 2 * turn) as int,
                third as int,
            );
        }
        value as u8
    } else {
        0
    }
}

impl ParticleTypeData {
    /// The number of species.
    pub open spec fn count(&self) -> int {
        self.base_attractions.width()
    }

    /// The scale by which the base attractions are multiplied.
    pub open spec fn scale(&self) -> Real {
        self.attraction_scale
    }

    /// The table is square, between 1 and [`MAX_TYPES`] species wide, every
    /// scaled attraction is its base attraction times the scale, and every
    /// species has its colour.
    pub open spec fn wf(&self) -> bool {
        &&& self.base_attractions.wf()
        &&& self.scaled_attractions.wf()
        &&& 1 <= self.count() <= MAX_TYPES
        &&& self.base_attractions.height() == self.count()
        &&& self.scaled_attractions.size == self.base_attractions.size
        &&& self.colors.len() == self.count()
        &&& forall|k: int|
            0 <= k < self.base_attractions.data.len() ==> #[trigger] self.scaled_attractions.data[k]
                == product(self.base_attractions.data[k] as int, self.scale() as int)
        &&& forall|k: int|
            0 <= k < self.colors.len() ==> (#[trigger] self.colors[k])@.map_values(|c: u8| c as int)
                == wheel_color(k, self.count())
    }

    /// Every base attraction lies between minus one and one.
    pub open spec fn base_within_unit(&self) -> bool {
        forall|k: int|
            0 <= k < self.base_attractions.data.len() ==> -UNIT
                <= #[trigger] self.base_attractions.data[k] <= UNIT
    }

    fn scale_attractions(base_attractions: &Matrix<Real>, scale: Real) -> (scaled: Matrix<Real>)
        requires
            base_attractions.wf(),
        ensures
            scaled.wf(),
            scaled.size == base_attractions.size,
            forall|k: int|
                0 <= k < base_attractions.data.len() ==> #[trigger] scaled.data[k] == product(
                    base_attractions.data[k] as int,
                    scale as int,
                ),
    {
        let mut data: Vec<Real> = Vec::new();
        let mut k: usize = 0;
        while k < base_attractions.data.len()
            invariant
                k <= base_attractions.data.len(),
                data.len() == k,
                forall|i: int|
                    0 <= i < k ==> #[trigger] data[i] == product(
                        base_attractions.data[i] as int,
                        scale as int,
                    ),
            decreases base_attractions.data.len() - k,
        {
            data.push(times(base_attractions.data[k], scale));
            k += 1;
        }
        Matrix { size: base_attractions.size, data }
    }

    fn generate_colors(num_types: usize) -> (colors: Vec<[u8; 3]>)
        requires
            1 <= num_types <= MAX_TYPES,
        ensures
            colors.len() == num_types,
            forall|k: int|
                0 <= k < num_types ==> (#[trigger] colors[k])@.map_values(|c: u8| c as int)
                    == wheel_color(k, num_types as int),
    {
        let mut colors: Vec<[u8; 3]> = Vec::new();
        let mut typ: usize = 0;
        while typ < num_types
            invariant
                typ <= num_types <= MAX_TYPES,
                colors.len() == typ,
                forall|k: int|
                    0 <= k < typ ==> (#[trigger] colors[k])@.map_values(|c: u8| c as int)
                        == wheel_color(k, num_types as int),
            decreases num_types - typ,
        {
            let color: [u8; 3] = [
                channel(typ, num_types, 1),
                channel(typ, num_types, 0),
                channel(typ, num_types, -1),
            ];
            proof {
                assert(color@.map_values(|c: u8| c as int) =~= wheel_color(
                    typ as int,
                    num_types as int,
                ));
            }
            colors.push(color);
            typ += 1;
        }
        colors
    }

    /// Whether the table is sound.
    pub fn is_sound(&self) -> (r: bool)
        ensures
            r == self.wf(),
    {
        let count: usize = self.base_attractions.size[0];
        if !self.base_attractions.is_sound() || !self.scaled_attractions.is_sound() || count < 1
            || count > 250 || self.base_attractions.size[1] != count
            || self.scaled_attractions.size[0] != count || self.scaled_attractions.size[1] != count
            || self.colors.len() != count {
            proof {
                if self.scaled_attractions.size == self.base_attractions.size {
                    assert(self.scaled_attractions.size[0] == self.base_attractions.size[0]);
                    assert(self.scaled_attractions.size[1] == self.base_attractions.size[1]);
                }
            }
            return false;
        }
        proof {
            assert(self.scaled_attractions.size =~= self.base_attractions.size);
        }
        let mut k: usize = 0;
        while k < self.base_attractions.data.len()
            invariant
                k <= self.base_attractions.data.len(),
                self.scaled_attractions.data.len() == self.base_attractions.data.len(),
                forall|i: int|
                    0 <= i < k ==> #[trigger] self.scaled_attractions.data[i] == product(
                        self.base_attractions.data[i] as int,
                        self.scale() as int,
                    ),
            decreases self.base_attractions.data.len() - k,
        {
            if self.scaled_attractions.data[k] != times(
                self.base_attractions.data[k],
                self.attraction_scale,
            ) {
                return false;
            }
            k += 1;
        }
        let mut typ: usize = 0;
        while typ < count
            invariant
                typ <= count,
                1 <= count <= MAX_TYPES,
                count == self.count(),
                self.colors.len() == count,
                forall|i: int|
                    0 <= i < typ ==> (#[trigger] self.colors[i])@.map_values(|c: u8| c as int)
                        == wheel_color(i, self.count()),
            decreases count - typ,
        {
            let color: [u8; 3] = self.colors[typ];
            let ghost seen = color@.map_values(|c: u8| c as int);
            proof {
                assert(seen[0] == color[0] && seen[1] == color[1] && seen[2] == color[2]);
            }
            if color[0] != channel(typ, count, 1) || color[1] != channel(typ, count, 0) || color[2]
                != channel(typ, count, -1) {
                proof {
                    let wanted = wheel_color(typ as int, count as int);
                    assert(seen[0] != wanted[0] || seen[1] != wanted[1] || seen[2] != wanted[2]);
                }
                return false;
            }
            proof {
                assert(seen =~= wheel_color(typ as int, count as int));
            }
            typ += 1;
        }
        true
    }

    /// A table of `num_types` species whose base attraction at each index is
    /// what `function` returned for it.
    pub fn new_from_fn<F>(num_types: usize, attraction_scale: Real, function: F) -> (t: Self) where
        F: FnMut([usize; 2]) -> Real,
        requires
            1 <= num_types <= MAX_TYPES,
            forall|index: [usize; 2]|
                index[0] < num_types && index[1] < num_types ==> function.requires((index,)),
        ensures
            t.wf(),
            t.count() == num_types,
            t.scale() == attraction_scale,
            forall|index: [usize; 2]|
                index[0] < num_types && index[1] < num_types ==> function.ensures(
                    (index,),
                    #[trigger] t.base_attractions.at(index[0] as int, index[1] as int),
                ),
    {
        assert(num_types * num_types <= usize::MAX) by (nonlinear_arith)
            requires
                num_types <= 250,
        ;
        let base_attractions = Matrix::from_fn([num_types, num_types], function);
        let scaled_attractions = ParticleTypeData::scale_attractions(
            &base_attractions,
            attraction_scale,
        );
        let colors = ParticleTypeData::generate_colors(num_types);
        ParticleTypeData { base_attractions, scaled_attractions, attraction_scale, colors }
    }

    /// A table of `num_types` species whose base attractions are drawn at
    /// random between minus one and one.
    pub fn new_random(num_types: usize, attraction_scale: Real) -> (t: Self)
        requires
            1 <= num_types <= MAX_TYPES,
        ensures
            t.wf(),
            t.count() == num_types,
            t.scale() == attraction_scale,
            t.base_within_unit(),
    {
        let draw = |index: [usize; 2]| -> (r: Real)
            ensures
                -UNIT <= r <= UNIT,
            { random_between(-1_000_000, 1_000_000) };
        let t = ParticleTypeData::new_from_fn(num_types, attraction_scale, draw);
        proof {
            assert forall|k: int| 0 <= k < t.base_attractions.data.len() implies -UNIT
                <= #[trigger] t.base_attractions.data[k] <= UNIT by {
                lemma_index_of_place(num_types as int, num_types as int, k);
                let index: [usize; 2] = [
                    (k % num_types as int) as usize,
                    (k / num_types as int) as usize,
                ];
                assert(t.base_attractions.at(index[0] as int, index[1] as int)
                    == t.base_attractions.data[k]);
            }
        }
        t
    }

    /// A table of `num_types` species with the same scale. The attractions
    /// among the species that both tables have are kept; the others are
    /// drawn at random between minus one and one.
    #[must_use]
    pub fn resize(&self, num_types: usize) -> (t: Self)
        requires
            self.wf(),
            1 <= num_types <= MAX_TYPES,
        ensures
            t.wf(),
            t.count() == num_types,
            t.scale() == self.scale(),
            forall|i: int, j: int|
                0 <= i < num_types && 0 <= j < num_types ==> (if i < self.count() && j
                    < self.count() {
                    #[trigger] t.base_attractions.at(i, j) == self.base_attractions.at(i, j)
                } else {
                    -UNIT <= t.base_attractions.at(i, j) <= UNIT
                }),
    {
        let base = &self.base_attractions;
        let keep = |index: [usize; 2]| -> (r: Real)
            requires
                base.wf(),
            ensures
                base.in_bounds(index[0] as int, index[1] as int) ==> r == base.at(
                    index[0] as int,
                    index[1] as int,
                ),
                !base.in_bounds(index[0] as int, index[1] as int) ==> -UNIT <= r <= UNIT,
            {
                match base.get(index) {
                    Some(value) => *value,
                    None => random_between(-1_000_000, 1_000_000),
                }
            };
        let t = ParticleTypeData::new_from_fn(num_types, self.attraction_scale, keep);
        proof {
            assert forall|i: int, j: int| 0 <= i < num_types && 0 <= j < num_types implies (if i
                < self.count() && j < self.count() {
                #[trigger] t.base_attractions.at(i, j) == self.base_attractions.at(i, j)
            } else {
                -UNIT <= t.base_attractions.at(i, j) <= UNIT
            }) by {
                let index: [usize; 2] = [i as usize, j as usize];
                assert(keep.ensures(
                    (index,),
                    t.base_attractions.at(index[0] as int, index[1] as int),
                ));
            }
        }
        t
    }

    /// Sets how strongly species `target` draws species `source`, before
    /// scaling, and the scaled attraction with it.
    pub fn set_attraction(&mut self, source: usize, target: usize, value: Real)
        requires
            old(self).wf(),
            source < old(self).count(),
            target < old(self).count(),
        ensures
            final(self).wf(),
            final(self).scale() == old(self).scale(),
            final(self).colors == old(self).colors,
            final(self).base_attractions.size == old(self).base_attractions.size,
            final(self).base_attractions.data@ == old(self).base_attractions.data@.update(
                flat_index(old(self).count(), source as int, target as int),
                value,
            ),
            final(self).base_attractions.at(source as int, target as int) == value,
    {
        proof {
            lemma_flat_index(self.count(), self.count(), source as int, target as int);
        }
        let place: usize = source + target * self.base_attractions.size[0];
        self.base_attractions.data[place] = value;
        self.scaled_attractions.data[place] = times(value, self.attraction_scale);
    }

    /// The number of species.
    pub fn num_types(&self) -> (n: usize)
        ensures
            n == self.count(),
    {
        self.base_attractions.size[0]
    }

    /// The scale by which the base attractions are multiplied.
    pub fn attraction_scale(&self) -> (s: Real)
        ensures
            s == self.scale(),
    {
        self.attraction_scale
    }

    /// How strongly species `target` draws species `source`, scale included.
    pub fn get_attraction(&self, source: usize, target: usize) -> (a: Real)
        requires
            self.wf(),
            source < self.count(),
            target < self.count(),
        ensures
            a == self.scaled_attractions.at(source as int, target as int),
            a == product(
                self.base_attractions.at(source as int, target as int) as int,
                self.scale() as int,
            ),
    {
        proof {
            lemma_flat_index(self.count(), self.count(), source as int, target as int);
        }
        match self.scaled_attractions.get([source, target]) {
            Some(value) => *value,
            None => 0,
        }
    }

    /// Changes the scale, and every scaled attraction with it.
    pub fn rescale_attractions(&mut self, attraction_scale: Real)
        requires
            old(self).wf(),
        ensures
            final(self).wf(),
            final(self).scale() == attraction_scale,
            final(self).base_attractions == old(self).base_attractions,
            final(self).colors == old(self).colors,
    {
        self.attraction_scale = attraction_scale;
        self.scaled_attractions = ParticleTypeData::scale_attractions(
            &self.base_attractions,
            attraction_scale,
        );
    }
}

/// Every place in the storage of a table belongs to one in-bounds index.
pub proof fn lemma_index_of_place(width: int, height: int, k: int)
    requires
        0 <= k < width * height,
        0 < width,
    ensures
        0 <= k % width < width,
        0 <= k / width < height,
        flat_index(width, k % width, k / width) == k,
{
    vstd::arithmetic::div_mod::lemma_fundamental_div_mod(k, width);
    vstd::arithmetic::div_mod::lemma_mod_bound(k, width);
    vstd::arithmetic::div_mod::lemma_div_pos_is_pos(k, width);
    assert(width * (k / width) == (k / width) * width) by (nonlinear_arith);
    if k / width >= height {
        assert((k / width) * width >= height * width) by (nonlinear_arith)
            requires
                k / width >= height,
                width > 0,
        ;
        assert(height * width == width * height) by (nonlinear_arith);
    }
}

} // verus!
