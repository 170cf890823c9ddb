//! The finite-difference engine: iterated forward differences of
//! arbitrary order along an axis, computed by repeatedly replacing the
//! array with the elementwise difference of its tail and head along
//! that axis.

use vstd::prelude::*;
use crate::array::{
    iseq, lemma_at_view, lemma_idx_insert, lemma_lane_entry, shape_count, update_at, ArrayRef,
};
use crate::element::Subtractive;
use crate::shape::{
    elem_count, idx_ok, lemma_fits_update, lemma_ord_idx_props, lemma_ord_of_props, ord_idx,
    ord_of, shape_fits,
};
use crate::NumericError;

verus! {

/// One forward difference of a sequence: entry `i` becomes
/// `s[i + 1] - s[i]`, shortening the sequence by one.
pub open spec fn diff1_of<T: Subtractive>(s: Seq<T>) -> Seq<T> {
    if s.len() == 0 {
        s
    } else {
        Seq::new((s.len() - 1) as nat, |i: int| T::sub_s(s[i + 1], s[i]))
    }
}

/// The `n`-times iterated forward difference of a sequence.
pub open spec fn diffn_of<T: Subtractive>(s: Seq<T>, n: int) -> Seq<T>
    decreases n,
{
    if n <= 0 {
        s
    } else {
        diff1_of(diffn_of(s, n - 1))
    }
}

/// Two well-formed arrays of the same shape and the same element
/// sequence have the same lanes.
pub proof fn lemma_view_determines_lane<T>(a: ArrayRef<T>, b: ArrayRef<T>, ax: int, j: int)
    requires
        a.wf(),
        b.wf(),
        a.shape@ == b.shape@,
        a@ == b@,
        0 <= ax < a.rank_s(),
        0 <= j < elem_count(a.shape@.remove(ax)),
    ensures
        a.lane(ax, j) == b.lane(ax, j),
{
    assert forall|t: int| 0 <= t < a.shape@[ax] as int implies a.lane(ax, j)[t] == b.lane(
        ax,
        j,
    )[t] by {
        let ins = ord_idx(a.shape@.remove(ax), j).insert(ax, t);
        lemma_lane_entry(a, ax, j, t);
        lemma_lane_entry(b, ax, j, t);
        lemma_at_view(a, ins);
        lemma_at_view(b, ins);
    }
    assert(a.lane(ax, j) =~= b.lane(ax, j));
}

impl<T: Subtractive> ArrayRef<T> {
    /// One forward-difference pass along `axis`: the result drops the
    /// last position of that axis and holds `tail - head` elementwise.
    fn diff_once(&self, axis: usize) -> (out: ArrayRef<T>)
        requires
            self.wf(),
            (axis as int) < self.shape@.len(),
            self.shape@[axis as int] >= 1,
        ensures
            out.wf(),
            out.is_standard(),
            out.shape@ == self.shape@.update(axis as int, (self.shape@[axis as int] - 1) as usize),
            forall|idx: Seq<int>|
                idx_ok(out.shape@, idx) ==> #[trigger] out.at_s(idx) == T::sub_s(
                    self.at_s(idx.update(axis as int, idx[axis as int] + 1)),
                    self.at_s(idx),
                ),
    {
        let el = self.shape[axis];
        let oshape = update_at(&self.shape, axis, el - 1);
        proof {
            lemma_fits_update(self.shape@, axis as int, (el - 1) as usize);
        }
        let m = shape_count(&oshape);
        let mut data: Vec<T> = Vec::new();
        let mut k: usize = 0;
        while k < m
            invariant
                self.wf(),
                (axis as int) < self.shape@.len(),
                el == self.shape@[axis as int],
                el >= 1,
                oshape@ == self.shape@.update(axis as int, (el - 1) as usize),
                shape_fits(oshape@),
                m as int == elem_count(oshape@),
                0 <= k <= m,
                data@.len() == k,
                forall|kk: int|
                    0 <= kk < k ==> #[trigger] data@[kk] == T::sub_s(
                        self.at_s(
                            ord_idx(oshape@, kk).update(
                                axis as int,
                                ord_idx(oshape@, kk)[axis as int] + 1,
                            ),
                        ),
                        self.at_s(ord_idx(oshape@, kk)),
                    ),
            decreases m - k,
        {
            let idx = ArrayRef::<T>::unrank(&oshape, k);
            proof {
                lemma_ord_idx_props(oshape@, k as int);
                assert(idx_ok(self.shape@, iseq(idx@))) by {
                    assert(forall|d: int|
                        0 <= d < self.shape@.len() && d != axis as int ==> oshape@[d]
                            == self.shape@[d]);
                }
            }
            let h = self.get(&idx);
            proof {
                assert(iseq(idx@)[axis as int] == idx@[axis as int] as int);
                assert(iseq(idx@)[axis as int] < oshape@[axis as int] as int);
            }
            let tidx = update_at(&idx, axis, idx[axis] + 1);
            proof {
                assert(idx_ok(self.shape@, iseq(tidx@))) by {
                    assert(forall|d: int|
                        0 <= d < self.shape@.len() && d != axis as int ==> oshape@[d]
                            == self.shape@[d]);
                }
            }
            let tv = self.get(&tidx);
            data.push(tv.sub(h));
            k = k + 1;
        }
        let out = ArrayRef::from_vec(data, oshape);
        proof {
            assert forall|idx: Seq<int>| idx_ok(out.shape@, idx) implies #[trigger] out.at_s(idx)
                == T::sub_s(
                self.at_s(idx.update(axis as int, idx[axis as int] + 1)),
                self.at_s(idx),
            ) by {
                lemma_ord_of_props(out.shape@, idx);
                lemma_at_view(out, idx);
                let kk = ord_of(out.shape@, idx);
                assert(ord_idx(out.shape@, kk) == idx);
                assert(out@[kk] == data@[kk]);
            }
        }
        out
    }

    /// Iterated forward differences of order `n` along `axis`: with
    /// `n == 0` an unmodified copy; otherwise each lane along the axis
    /// is differenced `n` times, shortening the axis extent by `n`.
    pub fn diff(&self, n: usize, axis: usize) -> (r: Result<ArrayRef<T>, NumericError>)
        requires
            self.wf(),
        ensures
            n == 0 ==> (r matches Ok(out) && out.wf() && out.is_standard() && out.shape@
                == self.shape@ && out@ == self@),
            n >= 1 && axis >= self.shape@.len() ==> r == Err::<ArrayRef<T>, NumericError>(
                NumericError::AxisOutOfBounds,
            ),
            n >= 1 && axis < self.shape@.len() && n >= self.shape@[axis as int] ==> r == Err::<
                ArrayRef<T>,
                NumericError,
            >(NumericError::InsufficientLength),
            n >= 1 && axis < self.shape@.len() && n < self.shape@[axis as int] ==> (r matches Ok(
                out,
            ) && out.wf() && out.is_standard() && out.shape@ == self.shape@.update(
                axis as int,
                (self.shape@[axis as int] - n) as usize,
            ) && forall|j: int|
                0 <= j < elem_count(self.shape@.remove(axis as int))
                    ==> #[trigger] out.lane(axis as int, j) == diffn_of(
                    self.lane(axis as int, j),
                    n as int,
                )),
    {
        if n == 0 {
            return Ok(self.to_standard());
        }
        if axis >= self.shape.len() {
            return Err(NumericError::AxisOutOfBounds);
        }
        let el = self.shape[axis];
        if n >= el {
            return Err(NumericError::InsufficientLength);
        }
        let mut cur = self.to_standard();
        proof {
            assert(cur.shape@ =~= self.shape@.update(axis as int, (el - 0) as usize));
            assert forall|j: int| 0 <= j < elem_count(self.shape@.remove(axis as int))
                implies #[trigger] cur.lane(axis as int, j) == diffn_of(
                self.lane(axis as int, j),
                0,
            ) by {
                lemma_view_determines_lane(cur, *self, axis as int, j);
            }
        }
        let mut s: usize = 0;
        while s < n
            invariant
                self.wf(),
                (axis as int) < self.shape@.len(),
                el == self.shape@[axis as int],
                0 <= s <= n,
                (n as int) < el as int,
                cur.wf(),
                cur.is_standard(),
                cur.shape@ == self.shape@.update(axis as int, (el - s) as usize),
                forall|j: int|
                    0 <= j < elem_count(self.shape@.remove(axis as int))
                        ==> #[trigger] cur.lane(axis as int, j) == diffn_of(
                        self.lane(axis as int, j),
                        s as int,
                    ),
            decreases n - s,
        {
            let next = cur.diff_once(axis);
            proof {
                let ax = axis as int;
                assert(next.shape@ =~= self.shape@.update(ax, (el - (s + 1)) as usize));
                assert(cur.shape@.remove(ax) =~= self.shape@.remove(ax));
                assert(next.shape@.remove(ax) =~= self.shape@.remove(ax));
                assert forall|j: int| 0 <= j < elem_count(self.shape@.remove(ax))
                    implies #[trigger] next.lane(ax, j) == diffn_of(
                    self.lane(ax, j),
                    s + 1,
                ) by {
                    let jidx = ord_idx(self.shape@.remove(ax), j);
                    lemma_ord_idx_props(self.shape@.remove(ax), j);
                    let cl = cur.lane(ax, j);
                    let nl = next.lane(ax, j);
                    assert(cl.len() == el - s);
                    assert(nl.len() == el - s - 1);
                    assert forall|t: int| 0 <= t < el - s - 1 implies nl[t] == T::sub_s(
                        cl[t + 1],
                        cl[t],
                    ) by {
                        let ins_t = jidx.insert(ax, t);
                        lemma_lane_entry(next, ax, j, t);
                        lemma_lane_entry(cur, ax, j, t);
                        lemma_lane_entry(cur, ax, j, t + 1);
                        assert(ins_t.update(ax, t + 1) =~= jidx.insert(ax, t + 1));
                        assert(next.at_s(ins_t) == T::sub_s(
                            cur.at_s(jidx.insert(ax, t + 1)),
                            cur.at_s(ins_t),
                        ));
                    }
                    assert(cl == diffn_of(self.lane(ax, j), s as int));
                    assert(nl =~= diff1_of(cl));
                }
            }
            cur = next;
            s = s + 1;
        }
        proof {
            assert(cur.shape@ == self.shape@.update(axis as int, (el - n) as usize));
        }
        Ok(cur)
    }
}

} // verus!
