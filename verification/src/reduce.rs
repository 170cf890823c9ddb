//! Whole-array and per-axis reductions: sum, product, and mean.
//!
//! Each reduction is pinned to a left fold over the array's row-major
//! element sequence, or, per axis, over each lane.  Whole-array
//! reductions dispatch on the memory layout: a standard-layout array is
//! folded directly over its buffer, any other layout element by element
//! in logical order; both paths meet the same contract.

use vstd::prelude::*;
use crate::array::{
    insert_at, iseq, lemma_lane_entry, lemma_standard_view, remove_at, shape_count, ArrayRef,
};
use crate::element::{Additive, Dividing, Multiplicative};
use crate::shape::{elem_count, shape_fits};
use crate::NumericError;

verus! {

/// Left-fold sum of a sequence, starting from the additive identity.
pub open spec fn sum_of<T: Additive>(s: Seq<T>) -> T
    decreases s.len(),
{
    if s.len() == 0 {
        T::zero_s()
    } else {
        T::add_s(sum_of(s.drop_last()), s.last())
    }
}

/// Left-fold product of a sequence, starting from the multiplicative
/// identity.
pub open spec fn prod_of<T: Multiplicative>(s: Seq<T>) -> T
    decreases s.len(),
{
    if s.len() == 0 {
        T::one_s()
    } else {
        T::mul_s(prod_of(s.drop_last()), s.last())
    }
}

/// The mean: none on an empty sequence, a conversion failure when the
/// element count is not representable, else the sum divided by the
/// count.
pub open spec fn mean_of<T: Additive + Dividing>(s: Seq<T>) -> Result<Option<T>, NumericError> {
    if s.len() == 0 {
        Ok(None)
    } else {
        match T::from_count_s(s.len() as int) {
            Some(c) => Ok(Some(T::div_s(sum_of(s), c))),
            None => Err(NumericError::ConversionFailed),
        }
    }
}

pub proof fn lemma_sum_step<T: Additive>(s: Seq<T>, k: int)
    requires
        0 <= k < s.len(),
    ensures
        sum_of(s.take(k + 1)) == T::add_s(sum_of(s.take(k)), s[k]),
{
    assert(s.take(k + 1).drop_last() =~= s.take(k));
    assert(s.take(k + 1).last() == s[k]);
}

pub proof fn lemma_prod_step<T: Multiplicative>(s: Seq<T>, k: int)
    requires
        0 <= k < s.len(),
    ensures
        prod_of(s.take(k + 1)) == T::mul_s(prod_of(s.take(k)), s[k]),
{
    assert(s.take(k + 1).drop_last() =~= s.take(k));
    assert(s.take(k + 1).last() == s[k]);
}

impl<T: Additive> ArrayRef<T> {
    /// Sum of all elements; zero for an empty array.
    pub fn sum(&self) -> (r: T)
        requires
            self.wf(),
        ensures
            r == sum_of(self@),
    {
        let n = self.len();
        let mut acc = T::zero();
        proof {
            assert(self@.take(0) =~= Seq::<T>::empty());
        }
        if self.standard_layout() {
            proof {
                lemma_standard_view(*self);
            }
            let mut k: usize = 0;
            while k < n
                invariant
                    self.wf(),
                    n as int == self@.len(),
                    self@ == self.data@,
                    0 <= k <= n,
                    acc == sum_of(self@.take(k as int)),
                decreases n - k,
            {
                let x = self.data[k];
                acc = acc.add(x);
                proof {
                    lemma_sum_step(self@, k as int);
                }
                k = k + 1;
            }
        } else {
            let mut k: usize = 0;
            while k < n
                invariant
                    self.wf(),
                    n as int == self@.len(),
                    n as int == self.count_s(),
                    0 <= k <= n,
                    acc == sum_of(self@.take(k as int)),
                decreases n - k,
            {
                let x = self.get_ord(k);
                acc = acc.add(x);
                proof {
                    lemma_sum_step(self@, k as int);
                }
                k = k + 1;
            }
        }
        proof {
            assert(self@.take(self@.len() as int) =~= self@);
        }
        acc
    }

    /// Sum along `axis`, reducing the rank by one: entry `j` of the
    /// result is the sum of lane `j` along that axis.
    pub fn sum_axis(&self, axis: usize) -> (r: Result<ArrayRef<T>, NumericError>)
        requires
            self.wf(),
            axis < self.shape@.len() ==> shape_fits(self.shape@.remove(axis as int)),
        ensures
            axis >= self.shape@.len() ==> r == Err::<ArrayRef<T>, NumericError>(
                NumericError::AxisOutOfBounds,
            ),
            axis < self.shape@.len() ==> (r matches Ok(out) && out.wf() && out.is_standard()
                && out.shape@ == self.shape@.remove(axis as int) && out@.len() == elem_count(
                self.shape@.remove(axis as int),
            ) && forall|j: int| 0 <= j < out@.len() ==> out@[j] == sum_of(
                self.lane(axis as int, j),
            )),
    {
        if axis >= self.shape.len() {
            return Err(NumericError::AxisOutOfBounds);
        }
        let rshape = remove_at(&self.shape, axis);
        let m = shape_count(&rshape);
        let el = self.shape[axis];
        let mut out_data: Vec<T> = Vec::new();
        let mut j: usize = 0;
        while j < m
            invariant
                self.wf(),
                (axis as int) < self.shape@.len(),
                rshape@ == self.shape@.remove(axis as int),
                shape_fits(rshape@),
                m as int == elem_count(rshape@),
                el == self.shape@[axis as int],
                0 <= j <= m,
                out_data@.len() == j,
                forall|jj: int|
                    0 <= jj < j ==> #[trigger] out_data@[jj] == sum_of(
                        self.lane(axis as int, jj),
                    ),
            decreases m - j,
        {
            let jidx = ArrayRef::<T>::unrank(&rshape, j);
            let ghost lane = self.lane(axis as int, j as int);
            let mut acc = T::zero();
            let mut t: usize = 0;
            proof {
                assert(lane.take(0) =~= Seq::<T>::empty());
            }
            while t < el
                invariant
                    self.wf(),
                    (axis as int) < self.shape@.len(),
                    rshape@ == self.shape@.remove(axis as int),
                    m as int == elem_count(rshape@),
                    0 <= (j as int) < m as int,
                    iseq(jidx@) == crate::shape::ord_idx(rshape@, j as int),
                    jidx@.len() == rshape@.len(),
                    el == self.shape@[axis as int],
                    lane == self.lane(axis as int, j as int),
                    0 <= t <= el,
                    acc == sum_of(lane.take(t as int)),
                decreases el - t,
            {
                let full = insert_at(&jidx, axis, t);
                proof {
                    lemma_lane_entry(*self, axis as int, j as int, t as int);
                }
                let x = self.get(&full);
                acc = acc.add(x);
                proof {
                    assert(lane[t as int] == x);
                    lemma_sum_step(lane, t as int);
                }
                t = t + 1;
            }
            proof {
                assert(lane.take(el as int) =~= lane);
            }
            out_data.push(acc);
            j = j + 1;
        }
        let out = ArrayRef::from_vec(out_data, rshape);
        Ok(out)
    }
}

impl<T: Multiplicative> ArrayRef<T> {
    /// Product of all elements; one for an empty array.
    pub fn product(&self) -> (r: T)
        requires
            self.wf(),
        ensures
            r == prod_of(self@),
    {
        let n = self.len();
        let mut acc = T::one();
        proof {
            assert(self@.take(0) =~= Seq::<T>::empty());
        }
        if self.standard_layout() {
            proof {
                lemma_standard_view(*self);
            }
            let mut k: usize = 0;
            while k < n
                invariant
                    self.wf(),
                    n as int == self@.len(),
                    self@ == self.data@,
                    0 <= k <= n,
                    acc == prod_of(self@.take(k as int)),
                decreases n - k,
            {
                let x = self.data[k];
                acc = acc.mul(x);
                proof {
                    lemma_prod_step(self@, k as int);
                }
                k = k + 1;
            }
        } else {
            let mut k: usize = 0;
            while k < n
                invariant
                    self.wf(),
                    n as int == self@.len(),
                    n as int == self.count_s(),
                    0 <= k <= n,
                    acc == prod_of(self@.take(k as int)),
                decreases n - k,
            {
                let x = self.get_ord(k);
                acc = acc.mul(x);
                proof {
                    lemma_prod_step(self@, k as int);
                }
                k = k + 1;
            }
        }
        proof {
            assert(self@.take(self@.len() as int) =~= self@);
        }
        acc
    }

    /// Product along `axis`, reducing the rank by one.
    pub fn product_axis(&self, axis: usize) -> (r: Result<ArrayRef<T>, NumericError>)
        requires
            self.wf(),
            axis < self.shape@.len() ==> shape_fits(self.shape@.remove(axis as int)),
        ensures
            axis >= self.shape@.len() ==> r == Err::<ArrayRef<T>, NumericError>(
                NumericError::AxisOutOfBounds,
            ),
            axis < self.shape@.len() ==> (r matches Ok(out) && out.wf() && out.is_standard()
                && out.shape@ == self.shape@.remove(axis as int) && out@.len() == elem_count(
                self.shape@.remove(axis as int),
            ) && forall|j: int| 0 <= j < out@.len() ==> out@[j] == prod_of(
                self.lane(axis as int, j),
            )),
    {
        if axis >= self.shape.len() {
            return Err(NumericError::AxisOutOfBounds);
        }
        let rshape = remove_at(&self.shape, axis);
        let m = shape_count(&rshape);
        let el = self.shape[axis];
        let mut out_data: Vec<T> = Vec::new();
        let mut j: usize = 0;
        while j < m
            invariant
                self.wf(),
                (axis as int) < self.shape@.len(),
                rshape@ == self.shape@.remove(axis as int),
                shape_fits(rshape@),
                m as int == elem_count(rshape@),
                el == self.shape@[axis as int],
                0 <= j <= m,
                out_data@.len() == j,
                forall|jj: int|
                    0 <= jj < j ==> #[trigger] out_data@[jj] == prod_of(
                        self.lane(axis as int, jj),
                    ),
            decreases m - j,
        {
            let jidx = ArrayRef::<T>::unrank(&rshape, j);
            let ghost lane = self.lane(axis as int, j as int);
            let mut acc = T::one();
            let mut t: usize = 0;
            proof {
                assert(lane.take(0) =~= Seq::<T>::empty());
            }
            while t < el
                invariant
                    self.wf(),
                    (axis as int) < self.shape@.len(),
                    rshape@ == self.shape@.remove(axis as int),
                    m as int == elem_count(rshape@),
                    0 <= (j as int) < m as int,
                    iseq(jidx@) == crate::shape::ord_idx(rshape@, j as int),
                    jidx@.len() == rshape@.len(),
                    el == self.shape@[axis as int],
                    lane == self.lane(axis as int, j as int),
                    0 <= t <= el,
                    acc == prod_of(lane.take(t as int)),
                decreases el - t,
            {
                let full = insert_at(&jidx, axis, t);
                proof {
                    lemma_lane_entry(*self, axis as int, j as int, t as int);
                }
                let x = self.get(&full);
                acc = acc.mul(x);
                proof {
                    assert(lane[t as int] == x);
                    lemma_prod_step(lane, t as int);
                }
                t = t + 1;
            }
            proof {
                assert(lane.take(el as int) =~= lane);
            }
            out_data.push(acc);
            j = j + 1;
        }
        let out = ArrayRef::from_vec(out_data, rshape);
        Ok(out)
    }
}

impl<T: Additive + Dividing> ArrayRef<T> {
    /// Arithmetic mean of all elements: none when the array is empty, a
    /// conversion failure when the element count is not representable.
    pub fn mean(&self) -> (r: Result<Option<T>, NumericError>)
        requires
            self.wf(),
        ensures
            r == mean_of(self@),
    {
        let n = self.len();
        if n == 0 {
            return Ok(None);
        }
        match T::from_count(n) {
            Some(c) => {
                let s = self.sum();
                Ok(Some(s.div(c)))
            },
            None => Err(NumericError::ConversionFailed),
        }
    }

    /// Mean along `axis`: none when the axis extent is zero, a
    /// conversion failure when the extent is not representable, else
    /// the axis sums divided by the extent.
    pub fn mean_axis(&self, axis: usize) -> (r: Result<Option<ArrayRef<T>>, NumericError>)
        requires
            self.wf(),
            axis < self.shape@.len() ==> shape_fits(self.shape@.remove(axis as int)),
        ensures
            axis >= self.shape@.len() ==> r == Err::<Option<ArrayRef<T>>, NumericError>(
                NumericError::AxisOutOfBounds,
            ),
            axis < self.shape@.len() && self.shape@[axis as int] == 0 ==> r == Ok::<
                Option<ArrayRef<T>>,
                NumericError,
            >(None),
            axis < self.shape@.len() && self.shape@[axis as int] > 0 && T::from_count_s(
                self.shape@[axis as int] as int,
            ) is None ==> r == Err::<Option<ArrayRef<T>>, NumericError>(NumericError::ConversionFailed),
            axis < self.shape@.len() && self.shape@[axis as int] > 0 && T::from_count_s(
                self.shape@[axis as int] as int,
            ) is Some ==> (r matches Ok(Some(out)) && out.wf() && out.shape@ == self.shape@.remove(
                axis as int,
            ) && out@.len() == elem_count(self.shape@.remove(axis as int)) && forall|j: int|
                0 <= j < out@.len() ==> out@[j] == T::div_s(
                    sum_of(self.lane(axis as int, j)),
                    T::from_count_s(self.shape@[axis as int] as int).unwrap(),
                )),
    {
        if axis >= self.shape.len() {
            return Err(NumericError::AxisOutOfBounds);
        }
        let el = self.shape[axis];
        if el == 0 {
            return Ok(None);
        }
        match T::from_count(el) {
            Some(c) => {
                match self.sum_axis(axis) {
                    Ok(sums) => {
                        let m = sums.data.len();
                        proof {
                            lemma_standard_view(sums);
                        }
                        let mut out_data: Vec<T> = Vec::new();
                        let mut j: usize = 0;
                        while j < m
                            invariant
                                sums.wf(),
                                sums.is_standard(),
                                m as int == sums@.len(),
                                sums@ == sums.data@,
                                0 <= j <= m,
                                out_data@.len() == j,
                                forall|jj: int|
                                    0 <= jj < j ==> #[trigger] out_data@[jj] == T::div_s(
                                        sums@[jj],
                                        c,
                                    ),
                            decreases m - j,
                        {
                            let x = sums.data[j];
                            out_data.push(x.div(c));
                            j = j + 1;
                        }
                        let rshape = remove_at(&self.shape, axis);
                        let out = ArrayRef::from_vec(out_data, rshape);
                        Ok(Some(out))
                    },
                    Err(e) => Err(e),
                }
            },
            None => Err(NumericError::ConversionFailed),
        }
    }
}

} // verus!
