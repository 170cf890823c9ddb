//! The cumulative operation: a running product along a chosen axis,
//! accumulated independently for every lane in traversal order over a
//! fresh standard-layout copy.

use vstd::prelude::*;
use crate::array::{
    iseq, lemma_at_view, lemma_idx_insert, lemma_lane_entry, rank_of, update_at, ArrayRef,
};
use crate::element::Multiplicative;
use crate::shape::{elem_count, lemma_ord_idx_props, lemma_ord_of_props, lemma_ord_of_update_lt,
    ord_idx, ord_of};
use crate::NumericError;

verus! {

impl<T: Multiplicative> ArrayRef<T> {
    /// Cumulative product along `axis`: within every lane, entry `0` is
    /// kept and entry `t` becomes the product of the first `t + 1` lane
    /// entries, accumulated in order.
    pub fn cumprod(&self, axis: usize) -> (r: Result<ArrayRef<T>, NumericError>)
        requires
            self.wf(),
        ensures
            axis >= self.shape@.len() ==> r == Err::<ArrayRef<T>, NumericError>(
                NumericError::AxisOutOfBounds,
            ),
            axis < self.shape@.len() ==> (r matches Ok(out) && out.wf() && out.is_standard()
                && out.shape@ == self.shape@ && out@.len() == self@.len() && forall|j: int, t: int|
                0 <= j < elem_count(self.shape@.remove(axis as int)) && 0 <= t
                    < self.shape@[axis as int] as int ==> #[trigger] out.lane(axis as int, j)[t]
                    == if t == 0 {
                    self.lane(axis as int, j)[0]
                } else {
                    T::mul_s(out.lane(axis as int, j)[t - 1], self.lane(axis as int, j)[t])
                }),
    {
        if axis >= self.shape.len() {
            return Err(NumericError::AxisOutOfBounds);
        }
        let n = self.len();
        let mut out_data: Vec<T> = Vec::new();
        let mut k: usize = 0;
        while k < n
            invariant
                self.wf(),
                (axis as int) < self.shape@.len(),
                n as int == self.count_s(),
                0 <= k <= n,
                out_data@.len() == k,
                forall|kk: int|
                    0 <= kk < k ==> #[trigger] out_data@[kk] == (if ord_idx(self.shape@, kk)[axis as int] == 0 {
                        self@[kk]
                    } else {
                        T::mul_s(
                            out_data@[ord_of(
                                self.shape@,
                                ord_idx(self.shape@, kk).update(
                                    axis as int,
                                    ord_idx(self.shape@, kk)[axis as int] - 1,
                                ),
                            )],
                            self@[kk],
                        )
                    }),
            decreases n - k,
        {
            let ghost pre = out_data@;
            let idx = ArrayRef::<T>::unrank(&self.shape, k);
            let x = self.get(&idx);
            proof {
                lemma_ord_idx_props(self.shape@, k as int);
                assert(x == self@[k as int]);
            }
            if idx[axis] == 0 {
                out_data.push(x);
                proof {
                    assert(out_data@[k as int] == self@[k as int]);
                }
            } else {
                let pidx = update_at(&idx, axis, idx[axis] - 1);
                proof {
                    lemma_ord_of_update_lt(
                        self.shape@,
                        ord_idx(self.shape@, k as int),
                        axis as int,
                        ord_idx(self.shape@, k as int)[axis as int] - 1,
                    );
                    lemma_ord_of_props(
                        self.shape@,
                        ord_idx(self.shape@, k as int).update(
                            axis as int,
                            ord_idx(self.shape@, k as int)[axis as int] - 1,
                        ),
                    );
                }
                let p = rank_of(&self.shape, &pidx);
                let prev = out_data[p];
                out_data.push(prev.mul(x));
                proof {
                    let ii = ord_idx(self.shape@, k as int);
                    assert(iseq(pidx@) == ii.update(axis as int, ii[axis as int] - 1));
                    assert(p as int == ord_of(self.shape@, ii.update(axis as int, ii[axis as int]
                        - 1)));
                    assert(out_data@[k as int] == T::mul_s(out_data@[p as int], self@[k as int]));
                }
            }
            proof {
                let ax = axis as int;
                assert forall|kk: int| 0 <= kk < k + 1 implies #[trigger] out_data@[kk] == (if
                    ord_idx(self.shape@, kk)[ax] == 0 {
                    self@[kk]
                } else {
                    T::mul_s(
                        out_data@[ord_of(
                            self.shape@,
                            ord_idx(self.shape@, kk).update(ax, ord_idx(self.shape@, kk)[ax] - 1),
                        )],
                        self@[kk],
                    )
                }) by {
                    if kk < k {
                        assert(out_data@[kk] == pre[kk]);
                        let ii = ord_idx(self.shape@, kk);
                        if ii[ax] != 0 {
                            lemma_ord_idx_props(self.shape@, kk);
                            lemma_ord_of_update_lt(self.shape@, ii, ax, ii[ax] - 1);
                            lemma_ord_of_props(self.shape@, ii.update(ax, ii[ax] - 1));
                            let o = ord_of(self.shape@, ii.update(ax, ii[ax] - 1));
                            assert(ord_of(self.shape@, ii) == kk);
                            assert(0 <= o < kk);
                            assert(out_data@[o] == pre[o]);
                        }
                    }
                }
            }
            k = k + 1;
        }
        let mut shape_copy: Vec<usize> = Vec::new();
        let mut d: usize = 0;
        while d < self.shape.len()
            invariant
                0 <= d <= self.shape@.len(),
                shape_copy@ =~= self.shape@.take(d as int),
            decreases self.shape@.len() - d,
        {
            shape_copy.push(self.shape[d]);
            d = d + 1;
        }
        proof {
            assert(shape_copy@ =~= self.shape@);
        }
        let out = ArrayRef::from_vec(out_data, shape_copy);
        proof {
            let ax = axis as int;
            assert forall|j: int, t: int|
                0 <= j < elem_count(self.shape@.remove(ax)) && 0 <= t
                    < self.shape@[ax] as int implies #[trigger] out.lane(ax, j)[t] == (if t == 0 {
                self.lane(ax, j)[0]
            } else {
                T::mul_s(out.lane(ax, j)[t - 1], self.lane(ax, j)[t])
            }) by {
                let jidx = ord_idx(self.shape@.remove(ax), j);
                lemma_ord_idx_props(self.shape@.remove(ax), j);
                let ins_t = jidx.insert(ax, t);
                lemma_lane_entry(*self, ax, j, t);
                lemma_lane_entry(out, ax, j, t);
                lemma_at_view(out, ins_t);
                lemma_at_view(*self, ins_t);
                lemma_ord_of_props(self.shape@, ins_t);
                let kk = ord_of(self.shape@, ins_t);
                assert(ord_idx(self.shape@, kk) == ins_t);
                assert(ins_t[ax] == t);
                if t == 0 {
                    assert(out.lane(ax, j)[t] == out@[kk]);
                    assert(out@[kk] == out_data@[kk]);
                    assert(out_data@[kk] == self@[kk]);
                    assert(self@[kk] == self.at_s(ins_t));
                } else {
                    let ins_p = jidx.insert(ax, t - 1);
                    assert(ins_t.update(ax, t - 1) =~= ins_p);
                    lemma_lane_entry(*self, ax, j, t - 1);
                    lemma_lane_entry(out, ax, j, t - 1);
                    lemma_at_view(out, ins_p);
                    lemma_ord_of_props(self.shape@, ins_p);
                    assert(out.lane(ax, j)[t - 1] == out@[ord_of(self.shape@, ins_p)]);
                    assert(out.lane(ax, j)[t] == out@[kk]);
                    assert(out@[kk] == out_data@[kk]);
                }
            }
        }
        Ok(out)
    }
}

} // verus!
