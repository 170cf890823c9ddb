//! The moment engine: variance and standard deviation, whole-array and
//! per-axis, computed by Welford's one-pass recurrence and parameterized
//! by the delta degrees of freedom `ddof`.
//!
//! The recurrence visits elements in logical order; for the element with
//! one-based position `i`, with running state `(mean, sum_sq)`:
//! `delta = x - mean`; `mean += delta / i`;
//! `sum_sq = fma(x - mean, delta, sum_sq)`.  The variance is
//! `sum_sq / (n - ddof)`.

use vstd::prelude::*;
use crate::array::{insert_at, iseq, lemma_lane_entry, lemma_standard_view, remove_at, shape_count, ArrayRef};
use crate::element::MomentOps;
use crate::shape::{elem_count, shape_fits};
use crate::NumericError;

verus! {

/// The element standing for the one-based count `i`, when representable.
pub open spec fn count_val<T: MomentOps>(i: int) -> T {
    match T::from_count_s(i) {
        Some(c) => c,
        None => T::zero_s(),
    }
}

/// All one-based counts up to `n` are representable in the element type.
pub open spec fn counts_ok<T: MomentOps>(n: int) -> bool {
    forall|i: int| 1 <= i <= n ==> #[trigger] T::from_count_s(i) is Some
}

/// `0 <= ddof <= n`, compared in the element type.
pub open spec fn ddof_ok<T: MomentOps>(ddof: T, n: int) -> bool {
    T::le_s(T::zero_s(), ddof) && T::le_s(ddof, count_val::<T>(n))
}

/// One step of the Welford recurrence on state `(mean, sum_sq)` for the
/// element `x` at one-based position `i`.
pub open spec fn welford_step<T: MomentOps>(prev: (T, T), x: T, i: int) -> (T, T) {
    let delta = T::sub_s(x, prev.0);
    let m = T::add_s(prev.0, T::div_s(delta, count_val::<T>(i)));
    let q = T::fma_s(T::sub_s(x, m), delta, prev.1);
    (m, q)
}

/// The Welford state after folding a whole sequence in order.
pub open spec fn welford<T: MomentOps>(s: Seq<T>) -> (T, T)
    decreases s.len(),
{
    if s.len() == 0 {
        (T::zero_s(), T::zero_s())
    } else {
        welford_step(welford(s.drop_last()), s.last(), s.len() as int)
    }
}

/// The variance of a sequence: its Welford sum of squared deviations
/// divided by `n - ddof`, with the error taxonomy of the operation.
pub open spec fn var_of<T: MomentOps>(s: Seq<T>, ddof: T) -> Result<T, NumericError> {
    let n = s.len() as int;
    if T::from_count_s(n) is None {
        Err(NumericError::ConversionFailed)
    } else if !ddof_ok::<T>(ddof, n) {
        Err(NumericError::InvalidDdof)
    } else if !counts_ok::<T>(n) {
        Err(NumericError::ConversionFailed)
    } else {
        Ok(T::div_s(welford(s).1, T::sub_s(count_val::<T>(n), ddof)))
    }
}

/// The standard deviation: the square root of the variance.
pub open spec fn std_of<T: MomentOps>(s: Seq<T>, ddof: T) -> Result<T, NumericError> {
    match var_of(s, ddof) {
        Ok(v) => Ok(T::sqrt_s(v)),
        Err(e) => Err(e),
    }
}

pub proof fn lemma_welford_take_step<T: MomentOps>(s: Seq<T>, k: int)
    requires
        0 <= k < s.len(),
    ensures
        welford(s.take(k + 1)) == welford_step(welford(s.take(k)), s[k], k + 1),
{
    assert(s.take(k + 1).drop_last() =~= s.take(k));
    assert(s.take(k + 1).last() == s[k]);
}

impl<T: MomentOps> ArrayRef<T> {
    /// Variance of all elements with the given delta degrees of
    /// freedom, by Welford's one-pass recurrence in logical order.
    pub fn var(&self, ddof: T) -> (r: Result<T, NumericError>)
        requires
            self.wf(),
        ensures
            r == var_of(self@, ddof),
    {
        let n = self.len();
        let nc = match T::from_count(n) {
            Some(c) => c,
            None => {
                return Err(NumericError::ConversionFailed);
            },
        };
        let zero = T::zero();
        if !(zero.le(ddof) && ddof.le(nc)) {
            return Err(NumericError::InvalidDdof);
        }
        let mut mean = T::zero();
        let mut q = T::zero();
        let mut k: usize = 0;
        proof {
            assert(self@.take(0) =~= Seq::<T>::empty());
        }
        while k < n
            invariant
                self.wf(),
                n as int == self@.len(),
                n as int == self.count_s(),
                T::from_count_s(n as int) is Some,
                nc == count_val::<T>(n as int),
                ddof_ok::<T>(ddof, n as int),
                0 <= k <= n,
                forall|i: int| 1 <= i <= k ==> #[trigger] T::from_count_s(i) is Some,
                (mean, q) == welford(self@.take(k as int)),
            decreases n - k,
        {
            let c = match T::from_count(k + 1) {
                Some(c) => c,
                None => {
                    return Err(NumericError::ConversionFailed);
                },
            };
            let x = self.get_ord(k);
            let delta = x.sub(mean);
            mean = mean.add(delta.div(c));
            q = x.sub(mean).fma(delta, q);
            proof {
                lemma_welford_take_step(self@, k as int);
            }
            k = k + 1;
        }
        proof {
            assert(self@.take(self@.len() as int) =~= self@);
        }
        Ok(q.div(nc.sub(ddof)))
    }

    /// Standard deviation of all elements: the square root of `var`.
    pub fn stddev(&self, ddof: T) -> (r: Result<T, NumericError>)
        requires
            self.wf(),
        ensures
            r == std_of(self@, ddof),
    {
        match self.var(ddof) {
            Ok(v) => Ok(v.sqrt()),
            Err(e) => Err(e),
        }
    }

    /// Variance along `axis`: entry `j` of the result is the variance
    /// of lane `j`, all lanes sharing the axis extent as their `n`.
    pub fn var_axis(&self, axis: usize, ddof: T) -> (r: Result<ArrayRef<T>, NumericError>)
        requires
            self.wf(),
            axis < self.shape@.len() ==> shape_fits(self.shape@.remove(axis as int)),
        ensures
            axis >= self.shape@.len() ==> r == Err::<ArrayRef<T>, NumericError>(
                NumericError::AxisOutOfBounds,
            ),
            axis < self.shape@.len() ==> {
                let el = self.shape@[axis as int] as int;
                if T::from_count_s(el) is None {
                    r == Err::<ArrayRef<T>, NumericError>(NumericError::ConversionFailed)
                } else if !ddof_ok::<T>(ddof, el) {
                    r == Err::<ArrayRef<T>, NumericError>(NumericError::InvalidDdof)
                } else if !counts_ok::<T>(el) {
                    r == Err::<ArrayRef<T>, NumericError>(NumericError::ConversionFailed)
                } else {
                    r matches Ok(out) && out.wf() && out.is_standard() && out.shape@
                        == self.shape@.remove(axis as int) && out@.len() == elem_count(
                        self.shape@.remove(axis as int),
                    ) && forall|j: int|
                        0 <= j < out@.len() ==> out@[j] == T::div_s(
                            welford(self.lane(axis as int, j)).1,
                            T::sub_s(count_val::<T>(el), ddof),
                        )
                }
            },
    {
        if axis >= self.shape.len() {
            return Err(NumericError::AxisOutOfBounds);
        }
        let el = self.shape[axis];
        let nc = match T::from_count(el) {
            Some(c) => c,
            None => {
                return Err(NumericError::ConversionFailed);
            },
        };
        let zero = T::zero();
        if !(zero.le(ddof) && ddof.le(nc)) {
            return Err(NumericError::InvalidDdof);
        }
        let mut t0: usize = 0;
        while t0 < el
            invariant
                el == self.shape@[axis as int],
                (axis as int) < self.shape@.len(),
                T::from_count_s(el as int) is Some,
                ddof_ok::<T>(ddof, el as int),
                0 <= t0 <= el,
                forall|i: int| 1 <= i <= t0 ==> #[trigger] T::from_count_s(i) is Some,
            decreases el - t0,
        {
            match T::from_count(t0 + 1) {
                Some(_c) => {},
                None => {
                    return Err(NumericError::ConversionFailed);
                },
            }
            t0 = t0 + 1;
        }
        let rshape = remove_at(&self.shape, axis);
        let m = shape_count(&rshape);
        let mut out_data: Vec<T> = Vec::new();
        let mut j: usize = 0;
        while j < m
            invariant
                self.wf(),
                (axis as int) < self.shape@.len(),
                rshape@ == self.shape@.remove(axis as int),
                shape_fits(rshape@),
                m as int == elem_count(rshape@),
                el == self.shape@[axis as int],
                T::from_count_s(el as int) is Some,
                nc == count_val::<T>(el as int),
                ddof_ok::<T>(ddof, el as int),
                counts_ok::<T>(el as int),
                0 <= j <= m,
                out_data@.len() == j,
                forall|jj: int|
                    0 <= jj < j ==> #[trigger] out_data@[jj] == T::div_s(
                        welford(self.lane(axis as int, jj)).1,
                        T::sub_s(count_val::<T>(el as int), ddof),
                    ),
            decreases m - j,
        {
            let jidx = ArrayRef::<T>::unrank(&rshape, j);
            let ghost lane = self.lane(axis as int, j as int);
            let mut mean = T::zero();
            let mut q = T::zero();
            let mut t: usize = 0;
            proof {
                assert(lane.take(0) =~= Seq::<T>::empty());
            }
            while t < el
                invariant
                    self.wf(),
                    (axis as int) < self.shape@.len(),
                    rshape@ == self.shape@.remove(axis as int),
                    m as int == elem_count(rshape@),
                    0 <= (j as int) < m as int,
                    iseq(jidx@) == crate::shape::ord_idx(rshape@, j as int),
                    jidx@.len() == rshape@.len(),
                    el == self.shape@[axis as int],
                    T::from_count_s(el as int) is Some,
                    ddof_ok::<T>(ddof, el as int),
                    counts_ok::<T>(el as int),
                    lane == self.lane(axis as int, j as int),
                    0 <= t <= el,
                    (mean, q) == welford(lane.take(t as int)),
                decreases el - t,
            {
                let c = match T::from_count(t + 1) {
                    Some(c) => c,
                    None => {
                        return Err(NumericError::ConversionFailed);
                    },
                };
                let full = insert_at(&jidx, axis, t);
                proof {
                    lemma_lane_entry(*self, axis as int, j as int, t as int);
                }
                let x = self.get(&full);
                let delta = x.sub(mean);
                mean = mean.add(delta.div(c));
                q = x.sub(mean).fma(delta, q);
                proof {
                    assert(lane[t as int] == x);
                    lemma_welford_take_step(lane, t as int);
                }
                t = t + 1;
            }
            proof {
                assert(lane.take(el as int) =~= lane);
            }
            out_data.push(q.div(nc.sub(ddof)));
            j = j + 1;
        }
        let out = ArrayRef::from_vec(out_data, rshape);
        Ok(out)
    }

    /// Standard deviation along `axis`: the elementwise square root of
    /// `var_axis`.
    pub fn stddev_axis(&self, axis: usize, ddof: T) -> (r: Result<ArrayRef<T>, NumericError>)
        requires
            self.wf(),
            axis < self.shape@.len() ==> shape_fits(self.shape@.remove(axis as int)),
        ensures
            axis >= self.shape@.len() ==> r == Err::<ArrayRef<T>, NumericError>(
                NumericError::AxisOutOfBounds,
            ),
            axis < self.shape@.len() ==> {
                let el = self.shape@[axis as int] as int;
                if T::from_count_s(el) is None {
                    r == Err::<ArrayRef<T>, NumericError>(NumericError::ConversionFailed)
                } else if !ddof_ok::<T>(ddof, el) {
                    r == Err::<ArrayRef<T>, NumericError>(NumericError::InvalidDdof)
                } else if !counts_ok::<T>(el) {
                    r == Err::<ArrayRef<T>, NumericError>(NumericError::ConversionFailed)
                } else {
                    r matches Ok(out) && out.wf() && out.shape@ == self.shape@.remove(
                        axis as int,
                    ) && out@.len() == elem_count(self.shape@.remove(axis as int)) && forall|j: int|
                        0 <= j < out@.len() ==> out@[j] == T::sqrt_s(
                            T::div_s(
                                welford(self.lane(axis as int, j)).1,
                                T::sub_s(count_val::<T>(el), ddof),
                            ),
                        )
                }
            },
    {
        match self.var_axis(axis, ddof) {
            Ok(vars) => {
                let m = vars.data.len();
                proof {
                    lemma_standard_view(vars);
                }
                let mut out_data: Vec<T> = Vec::new();
                let mut j: usize = 0;
                while j < m
                    invariant
                        vars.wf(),
                        vars.is_standard(),
                        m as int == vars@.len(),
                        vars@ == vars.data@,
                        0 <= j <= m,
                        out_data@.len() == j,
                        forall|jj: int|
                            0 <= jj < j ==> #[trigger] out_data@[jj] == T::sqrt_s(vars@[jj]),
                    decreases m - j,
                {
                    let x = vars.data[j];
                    out_data.push(x.sqrt());
                    j = j + 1;
                }
                let rshape = remove_at(&self.shape, axis);
                let out = ArrayRef::from_vec(out_data, rshape);
                Ok(out)
            },
            Err(e) => Err(e),
        }
    }
}

} // verus!
