//! A fixed-shape two-dimensional container.
//!
//! The element at `[x, y]` is stored at position `x + y * size[0]` of `data`.

use vstd::prelude::*;

verus! {

/// A `size[0]` by `size[1]` table of values.
#[derive(Clone, Debug)]
pub struct Matrix<T> {
    pub size: [usize; 2],
    pub data: Vec<T>,
}

/// The place in the storage of the element at `[x, y]` of a table `width` wide.
pub open spec fn flat_index(width: int, x: int, y: int) -> int {
    x + y * width
}

/// Distinct in-bounds indices have distinct, in-range places in the storage.
pub proof fn lemma_flat_index(width: int, height: int, x: int, y: int)
    requires
        0 <= x < width,
        0 <= y < height,
    ensures
        0 <= flat_index(width, x, y) < width * height,
        flat_index(width, x, y) % width == x,
        flat_index(width, x, y) / width == y,
{
    assert(y * width <= (height - 1) * width) by (nonlinear_arith)
        requires
            0 <= y <= height - 1,
            0 < width,
    ;
    assert((height - 1) * width + width == width * height) by (nonlinear_arith);
    assert(0 <= y * width) by (nonlinear_arith)
        requires
            0 <= y,
            0 < width,
    ;
    vstd::arithmetic::div_mod::lemma_fundamental_div_mod_converse(x + y * width, width, y, x);
}

impl<T> Matrix<T> {
    /// The storage holds exactly one element for each index.
    pub open spec fn wf(&self) -> bool {
        self.data.len() == self.size[0] * self.size[1]
    }

    pub open spec fn width(&self) -> int {
        self.size[0] as int
    }

    pub open spec fn height(&self) -> int {
        self.size[1] as int
    }

    /// Whether `[x, y]` names an element.
    pub open spec fn in_bounds(&self, x: int, y: int) -> bool {
        0 <= x < self.width() && 0 <= y < self.height()
    }

    /// The element at `[x, y]`.
    pub open spec fn at(&self, x: int, y: int) -> T
        recommends
            self.wf(),
            self.in_bounds(x, y),
    {
        self.data[flat_index(self.width(), x, y)]
    }

    /// Whether the storage holds exactly one element for each index.
    pub fn is_sound(&self) -> (r: bool)
        ensures
            r == self.wf(),
    {
        proof {
            assert(self.size[0] * self.size[1] <= 0xffff_ffff_ffff_ffff * 0xffff_ffff_ffff_ffff)
                by (nonlinear_arith)
                requires
                    0 <= self.size[0] <= 0xffff_ffff_ffff_ffff,
                    0 <= self.size[1] <= 0xffff_ffff_ffff_ffff,
            ;
        }
        (self.size[0] as u128) * (self.size[1] as u128) == self.data.len() as u128
    }

    /// A table in which every element is a clone of `element`.
    pub fn from_element(size: [usize; 2], element: T) -> (m: Self) where T: Clone
        requires
            size[0] * size[1] <= usize::MAX,
        ensures
            m.wf(),
            m.size == size,
            forall|i: int| 0 <= i < m.data.len() ==> cloned(element, #[trigger] m.data[i]),
    {
        let count: usize = size[0] * size[1];
        let mut data: Vec<T> = Vec::new();
        let mut i: usize = 0;
        while i < count
            invariant
                i <= count,
                data.len() == i,
                forall|k: int| 0 <= k < i ==> cloned(element, #[trigger] data[k]),
            decreases count - i,
        {
            data.push(element.clone());
            i += 1;
        }
        Matrix { size, data }
    }

    /// A table whose element at each index is what `function` returned for it.
    /// The function is asked row by row, `[0, 0]`, `[1, 0]`, and so on.
    pub fn from_fn<F>(size: [usize; 2], mut function: F) -> (m: Self) where
        F: FnMut([usize; 2]) -> T,
        requires
            size[0] * size[1] <= usize::MAX,
            forall|index: [usize; 2]|
                index[0] < size[0] && index[1] < size[1] ==> function.requires((index,)),
        ensures
            m.wf(),
            m.size == size,
            forall|index: [usize; 2]|
                index[0] < size[0] && index[1] < size[1] ==> function.ensures(
                    (index,),
                    #[trigger] m.at(index[0] as int, index[1] as int),
                ),
    {
        let ghost given = function;
        let mut data: Vec<T> = Vec::new();
        let mut y: usize = 0;
        while y < size[1]
            invariant
                function == given,
                y <= size[1],
                size[0] * size[1] <= usize::MAX,
                data.len() == y * size[0],
                forall|index: [usize; 2]|
                    index[0] < size[0] && index[1] < size[1] ==> function.requires((index,)),
                forall|index: [usize; 2]|
                    index[0] < size[0] && index[1] < y ==> function.ensures(
                        (index,),
                        #[trigger] data[flat_index(
                            size[0] as int,
                            index[0] as int,
                            index[1] as int,
                        )],
                    ),
            decreases size[1] - y,
        {
            let mut x: usize = 0;
            while x < size[0]
                invariant
                    function == given,
                    x <= size[0],
                    y < size[1],
                    size[0] * size[1] <= usize::MAX,
                    data.len() == y * size[0] + x,
                    forall|index: [usize; 2]|
                        index[0] < size[0] && index[1] < size[1] ==> function.requires((index,)),
                    forall|index: [usize; 2]|
                        (index[0] < size[0] && index[1] < y) || (index[1] == y && index[0] < x)
                            ==> function.ensures(
                            (index,),
                            #[trigger] data[flat_index(
                                size[0] as int,
                                index[0] as int,
                                index[1] as int,
                            )],
                        ),
                decreases size[0] - x,
            {
                let index: [usize; 2] = [x, y];
                let value = function(index);
                let ghost before = data@;
                data.push(value);
                proof {
                    assert forall|other: [usize; 2]|
                        (other[0] < size[0] && other[1] < y) || (other[1] == y && other[0]
                            < x + 1) implies function.ensures(
                        (other,),
                        #[trigger] data[flat_index(
                            size[0] as int,
                            other[0] as int,
                            other[1] as int,
                        )],
                    ) by {
                        let place = flat_index(size[0] as int, other[0] as int, other[1] as int);
                        if other[1] < y {
                            lemma_flat_index(
                                size[0] as int,
                                y as int,
                                other[0] as int,
                                other[1] as int,
                            );
                            assert(size[0] * y == y * size[0]) by (nonlinear_arith);
                            assert(data[place] == before[place]);
                        } else if other[0] < x {
                            assert(data[place] == before[place]);
                        } else {
                            assert(other =~= index);
                            assert(place == before.len());
                        }
                    }
                }
                x += 1;
            }
            proof {
                assert((y + 1) * size[0] == y * size[0] + size[0]) by (nonlinear_arith);
            }
            y += 1;
        }
        proof {
            assert(size[1] * size[0] == size[0] * size[1]) by (nonlinear_arith);
        }
        let m = Matrix { size, data };
        proof {
            assert forall|index: [usize; 2]|
                index[0] < size[0] && index[1] < size[1] implies function.ensures(
                (index,),
                #[trigger] m.at(index[0] as int, index[1] as int),
            ) by {
                assert(m.at(index[0] as int, index[1] as int) == data[flat_index(
                    size[0] as int,
                    index[0] as int,
                    index[1] as int,
                )]);
            }
        }
        m
    }

    /// `Some(())` exactly when `index` names an element.
    pub fn check_index_bounds(&self, index: [usize; 2]) -> (r: Option<()>)
        ensures
            r.is_some() <==> self.in_bounds(index[0] as int, index[1] as int),
    {
        if index[0] < self.size[0] && index[1] < self.size[1] {
            Some(())
        } else {
            None
        }
    }

    /// The element at `index`, or `None` where `index` is out of bounds.
    pub fn get(&self, index: [usize; 2]) -> (r: Option<&T>)
        requires
            self.wf(),
        ensures
            r.is_some() <==> self.in_bounds(index[0] as int, index[1] as int),
            r matches Some(value) ==> *value == self.at(index[0] as int, index[1] as int),
    {
        if self.check_index_bounds(index).is_none() {
            return None;
        }
        proof {
            lemma_flat_index(self.width(), self.height(), index[0] as int, index[1] as int);
        }
        Some(&self.data[index[0] + index[1] * self.size[0]])
    }

    /// The element at `index`, to be changed in place, or `None` where `index`
    /// is out of bounds. Nothing but that element changes.
    pub fn get_mut(&mut self, index: [usize; 2]) -> (r: Option<&mut T>)
        requires
            old(self).wf(),
        ensures
            r.is_some() <==> old(self).in_bounds(index[0] as int, index[1] as int),
            r.is_none() ==> *final(self) == *old(self),
            r matches Some(value) ==> {
                &&& *value == old(self).at(index[0] as int, index[1] as int)
                &&& final(self).size == old(self).size
                &&& final(self).data@ == old(self).data@.update(
                    flat_index(old(self).width(), index[0] as int, index[1] as int),
                    *final(value),
                )
            },
    {
        if self.check_index_bounds(index).is_none() {
            return None;
        }
        proof {
            lemma_flat_index(self.width(), self.height(), index[0] as int, index[1] as int);
        }
        Some(&mut self.data[index[0] + index[1] * self.size[0]])
    }

    /// The element at `index`, which must be in bounds.
    pub fn index(&self, index: [usize; 2]) -> (r: &T)
        requires
            self.wf(),
            self.in_bounds(index[0] as int, index[1] as int),
        ensures
            *r == self.at(index[0] as int, index[1] as int),
    {
        proof {
            lemma_flat_index(self.width(), self.height(), index[0] as int, index[1] as int);
        }
        &self.data[index[0] + index[1] * self.size[0]]
    }

    /// The element at `index`, which must be in bounds, to be changed in
    /// place. Nothing but that element changes.
    pub fn index_mut(&mut self, index: [usize; 2]) -> (r: &mut T)
        requires
            old(self).wf(),
            old(self).in_bounds(index[0] as int, index[1] as int),
        ensures
            *r == old(self).at(index[0] as int, index[1] as int),
            final(self).size == old(self).size,
            final(self).data@ == old(self).data@.update(
                flat_index(old(self).width(), index[0] as int, index[1] as int),
                *final(r),
            ),
    {
        proof {
            lemma_flat_index(self.width(), self.height(), index[0] as int, index[1] as int);
        }
        &mut self.data[index[0] + index[1] * self.size[0]]
    }
}

} // verus!
