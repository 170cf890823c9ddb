//! An owned, strided n-dimensional array view over a flat element
//! buffer.  The shape gives one extent per axis, the strides give the
//! storage step of each axis, and `offset` is the storage position of
//! the all-zero index.  The abstraction of an array is the sequence of
//! its elements in row-major (last axis fastest) logical order.

use vstd::prelude::*;
use crate::shape::{
    dot, elem_count, idx_ok, lemma_dot_ord, lemma_dot_take_bound, lemma_elem_count_pos,
    lemma_ord_idx_props, lemma_ord_of_props, ord_idx, ord_of, shape_fits,
};

verus! {

/// The integer image of a machine-word index vector.
pub open spec fn iseq(v: Seq<usize>) -> Seq<int> {
    Seq::new(v.len(), |d: int| v[d] as int)
}

pub struct ArrayRef<T> {
    pub data: Vec<T>,
    pub shape: Vec<usize>,
    pub strides: Vec<usize>,
    pub offset: usize,
}

impl<T> ArrayRef<T> {
    /// Storage position of a multi-index.
    pub open spec fn lin(self, idx: Seq<int>) -> int {
        self.offset + dot(self.strides@, idx)
    }

    /// Well-formed: one stride per axis, machine-representable extent
    /// products, and every valid index maps into the buffer.
    pub open spec fn wf(self) -> bool {
        &&& self.shape@.len() == self.strides@.len()
        &&& shape_fits(self.shape@)
        &&& forall|idx: Seq<int>|
            idx_ok(self.shape@, idx) ==> 0 <= #[trigger] self.lin(idx) < self.data@.len()
    }

    /// The element at a valid multi-index.
    pub open spec fn at_s(self, idx: Seq<int>) -> T {
        self.data@[self.lin(idx)]
    }

    pub open spec fn rank_s(self) -> int {
        self.shape@.len() as int
    }

    pub open spec fn count_s(self) -> int {
        elem_count(self.shape@)
    }

    /// The 1-D slice along axis `ax` through the position with ordinal
    /// `j` in the axis-removed shape: lanes are how per-axis operations
    /// see the array.
    pub open spec fn lane(self, ax: int, j: int) -> Seq<T> {
        Seq::new(
            self.shape@[ax] as nat,
            |t: int| self.at_s(ord_idx(self.shape@.remove(ax), j).insert(ax, t)),
        )
    }

    /// Row-major order with unit strides, offset zero, and an exactly
    /// filled buffer; such an array's abstraction is its buffer.
    pub open spec fn is_standard(self) -> bool {
        &&& self.offset == 0
        &&& self.strides@.len() == self.shape@.len()
        &&& self.data@.len() == elem_count(self.shape@)
        &&& elem_count(self.shape@) > 0 ==> forall|d: int|
            0 <= d < self.shape@.len() ==> (#[trigger] self.strides@[d]) as int == elem_count(
                self.shape@.skip(d + 1),
            )
    }
}

impl<T> View for ArrayRef<T> {
    type V = Seq<T>;

    /// The elements in row-major logical order.
    open spec fn view(&self) -> Seq<T> {
        Seq::new(
            elem_count(self.shape@) as nat,
            |k: int| self.at_s(ord_idx(self.shape@, k)),
        )
    }
}

/// A shape with a zero element count admits no valid index.
pub proof fn lemma_no_idx_when_empty(shape: Seq<usize>, idx: Seq<int>)
    requires
        elem_count(shape) == 0,
    ensures
        !idx_ok(shape, idx),
{
    lemma_elem_count_pos(shape);
    if idx_ok(shape, idx) {
        let d = choose|d: int| 0 <= d < shape.len() && !((shape[d]) as int > 0);
        assert(0 <= idx[d] < shape[d] as int);
    }
}

/// An element read through a valid index is the view entry at that
/// index's row-major ordinal.
pub proof fn lemma_at_view<T>(a: ArrayRef<T>, idx: Seq<int>)
    requires
        a.wf(),
        idx_ok(a.shape@, idx),
    ensures
        0 <= ord_of(a.shape@, idx) < a@.len(),
        a.at_s(idx) == a@[ord_of(a.shape@, idx)],
{
    lemma_ord_of_props(a.shape@, idx);
}

/// Removing one coordinate of a valid index gives a valid index of the
/// axis-removed shape, and inserting it back restores the original.
pub proof fn lemma_idx_remove(shape: Seq<usize>, idx: Seq<int>, ax: int)
    requires
        idx_ok(shape, idx),
        0 <= ax < shape.len(),
    ensures
        idx_ok(shape.remove(ax), idx.remove(ax)),
        idx.remove(ax).insert(ax, idx[ax]) == idx,
{
    assert forall|d: int| 0 <= d < shape.remove(ax).len() implies 0 <= #[trigger] idx.remove(ax)[d]
        < shape.remove(ax)[d] as int by {
        if d < ax {
            assert(idx.remove(ax)[d] == idx[d]);
            assert(shape.remove(ax)[d] == shape[d]);
        } else {
            assert(idx.remove(ax)[d] == idx[d + 1]);
            assert(shape.remove(ax)[d] == shape[d + 1]);
        }
    }
    assert(idx.remove(ax).insert(ax, idx[ax]) =~= idx);
}

/// Inserting an in-range axis coordinate into a valid index of the
/// axis-removed shape gives a valid index of the full shape.
pub proof fn lemma_idx_insert(shape: Seq<usize>, sub: Seq<int>, ax: int, t: int)
    requires
        0 <= ax < shape.len(),
        idx_ok(shape.remove(ax), sub),
        0 <= t < shape[ax] as int,
    ensures
        idx_ok(shape, sub.insert(ax, t)),
        sub.insert(ax, t)[ax] == t,
        sub.insert(ax, t).remove(ax) == sub,
    decreases 0int,
{
    let idx = sub.insert(ax, t);
    assert forall|d: int| 0 <= d < shape.len() implies 0 <= #[trigger] idx[d]
        < shape[d] as int by {
        if d < ax {
            assert(idx[d] == sub[d]);
            assert(shape.remove(ax)[d] == shape[d]);
        } else if d == ax {
        } else {
            assert(idx[d] == sub[d - 1]);
            assert(shape.remove(ax)[d - 1] == shape[d]);
        }
    }
    assert(idx.remove(ax) =~= sub);
}

/// The lane entry `(j, t)` reads the full-shape index built from the
/// reduced-shape index of ordinal `j` with `t` inserted at the axis.
pub proof fn lemma_lane_entry<T>(a: ArrayRef<T>, ax: int, j: int, t: int)
    requires
        a.wf(),
        0 <= ax < a.rank_s(),
        0 <= j < elem_count(a.shape@.remove(ax)),
        0 <= t < a.shape@[ax] as int,
    ensures
        idx_ok(a.shape@, ord_idx(a.shape@.remove(ax), j).insert(ax, t)),
        a.lane(ax, j)[t] == a.at_s(ord_idx(a.shape@.remove(ax), j).insert(ax, t)),
{
    lemma_ord_idx_props(a.shape@.remove(ax), j);
    lemma_idx_insert(a.shape@, ord_idx(a.shape@.remove(ax), j), ax, t);
}

/// A standard-layout array's view is its buffer.
pub proof fn lemma_standard_view<T>(a: ArrayRef<T>)
    requires
        a.wf(),
        a.is_standard(),
    ensures
        a@ == a.data@,
{
    if elem_count(a.shape@) > 0 {
        assert forall|k: int| 0 <= k < elem_count(a.shape@) implies a@[k] == a.data@[k] by {
            lemma_ord_idx_props(a.shape@, k);
            lemma_dot_ord(a.shape@, a.strides@, ord_idx(a.shape@, k), 1);
        }
    }
    assert(a@ =~= a.data@);
}

impl<T: Copy> ArrayRef<T> {
    /// Total number of elements.
    pub fn len(&self) -> (n: usize)
        requires
            self.wf(),
        ensures
            n as int == self.count_s(),
    {
        let mut n: usize = 1;
        let mut i: usize = 0;
        proof {
            assert(self.shape@.take(0) =~= Seq::<usize>::empty());
        }
        while i < self.shape.len()
            invariant
                self.wf(),
                0 <= i <= self.shape@.len(),
                n as int == elem_count(self.shape@.take(i as int)),
            decreases self.shape@.len() - i,
        {
            proof {
                assert(self.shape@.take(i + 1).drop_last() =~= self.shape@.take(i as int));
                assert(self.shape@.take(i + 1).last() == self.shape@[i as int]);
                assert(elem_count(self.shape@.take(i + 1)) <= usize::MAX as int);
            }
            n = n * self.shape[i];
            i = i + 1;
        }
        proof {
            assert(self.shape@.take(self.shape@.len() as int) =~= self.shape@);
        }
        n
    }

    /// The multi-index with row-major ordinal `k`.
    pub(crate) fn unrank(shape: &Vec<usize>, k: usize) -> (idx: Vec<usize>)
        requires
            (k as int) < elem_count(shape@),
        ensures
            iseq(idx@) == ord_idx(shape@, k as int),
            idx_ok(shape@, iseq(idx@)),
    {
        proof {
            lemma_ord_idx_props(shape@, k as int);
            lemma_elem_count_pos(shape@);
        }
        let ghost full = ord_idx(shape@, k as int);
        let mut tmp: Vec<usize> = Vec::new();
        let mut rem = k;
        let mut i = shape.len();
        proof {
            assert(shape@.take(shape@.len() as int) =~= shape@);
        }
        while i > 0
            invariant
                0 <= i <= shape@.len(),
                (k as int) < elem_count(shape@),
                full == ord_idx(shape@, k as int),
                full.len() == shape@.len(),
                tmp@.len() == shape@.len() - i,
                forall|m: int|
                    0 <= m < tmp@.len() ==> (#[trigger] tmp@[m]) as int == full[shape@.len() - 1
                        - m],
                ord_idx(shape@.take(i as int), rem as int) == full.take(i as int),
                0 <= (rem as int) < elem_count(shape@.take(i as int)),
            decreases i,
        {
            let ghost pre = shape@.take(i as int);
            proof {
                assert(pre.drop_last() =~= shape@.take(i - 1));
                assert(pre.last() == shape@[i - 1]);
                assert(forall|d: int| 0 <= d < pre.len() ==> pre[d] == shape@[d]);
                assert(elem_count(pre) > 0) by {
                    crate::shape::lemma_elem_count_nonneg(pre);
                }
                lemma_elem_count_pos(pre);
                lemma_ord_idx_props(pre, rem as int);
            }
            let l = shape[i - 1];
            proof {
                let li = l as int;
                let cf = elem_count(shape@.take(i - 1));
                crate::shape::lemma_elem_count_nonneg(shape@.take(i - 1));
                assert(li > 0);
                assert(elem_count(pre) == cf * li);
                vstd::arithmetic::mul::lemma_mul_is_commutative(cf, li);
                vstd::arithmetic::div_mod::lemma_multiply_divide_lt(rem as int, li, cf);
                vstd::arithmetic::div_mod::lemma_div_pos_is_pos(rem as int, li);
                vstd::arithmetic::div_mod::lemma_mod_division_less_than_divisor(rem as int, li);
                assert(ord_idx(pre, rem as int) == ord_idx(shape@.take(i - 1), rem as int
                    / li).push(rem as int % li));
                assert(full.take(i as int).drop_last() =~= full.take(i - 1));
                assert(full.take(i as int).last() == full[i - 1]);
            }
            tmp.push(rem % l);
            rem = rem / l;
            i = i - 1;
        }
        let n = shape.len();
        let mut idx: Vec<usize> = Vec::new();
        let mut d: usize = 0;
        while d < n
            invariant
                n == shape@.len(),
                tmp@.len() == n,
                0 <= d <= n,
                idx@.len() == d,
                forall|m: int|
                    0 <= m < tmp@.len() ==> (#[trigger] tmp@[m]) as int == full[shape@.len() - 1
                        - m],
                full == ord_idx(shape@, k as int),
                full.len() == shape@.len(),
                forall|m: int| 0 <= m < d ==> (#[trigger] idx@[m]) as int == full[m],
            decreases n - d,
        {
            idx.push(tmp[n - 1 - d]);
            d = d + 1;
        }
        proof {
            assert(iseq(idx@) =~= ord_idx(shape@, k as int));
        }
        idx
    }

    /// Read the element at a valid multi-index.
    pub fn get(&self, idx: &Vec<usize>) -> (r: T)
        requires
            self.wf(),
            idx_ok(self.shape@, iseq(idx@)),
        ensures
            r == self.at_s(iseq(idx@)),
    {
        let ghost full = iseq(idx@);
        let cap = self.data.len();
        let mut p: usize = self.offset;
        let mut i: usize = 0;
        proof {
            assert(self.lin(full) < self.data@.len());
            lemma_dot_take_bound(self.strides@, full, 0);
            assert(self.strides@.take(0) =~= Seq::<usize>::empty());
            assert(full.take(0) =~= Seq::<int>::empty());
        }
        while i < idx.len()
            invariant
                self.wf(),
                idx_ok(self.shape@, full),
                full == iseq(idx@),
                0 <= i <= idx@.len(),
                idx@.len() == self.strides@.len(),
                self.data@.len() == cap as int,
                p as int == self.offset + dot(self.strides@.take(i as int), full.take(i as int)),
            decreases idx@.len() - i,
        {
            proof {
                assert(self.strides@.take(i + 1).drop_last() =~= self.strides@.take(i as int));
                assert(full.take(i + 1).drop_last() =~= full.take(i as int));
                assert(self.strides@.take(i + 1).last() == self.strides@[i as int]);
                assert(full.take(i + 1).last() == full[i as int]);
                lemma_dot_take_bound(self.strides@, full, i + 1);
                assert(self.lin(full) < self.data@.len());
            }
            p = p + self.strides[i] * idx[i];
            i = i + 1;
        }
        proof {
            assert(self.strides@.take(self.strides@.len() as int) =~= self.strides@);
            assert(full.take(full.len() as int) =~= full);
            assert(p as int == self.lin(full));
        }
        self.data[p]
    }

    /// Read the element with row-major ordinal `k`.
    pub fn get_ord(&self, k: usize) -> (r: T)
        requires
            self.wf(),
            (k as int) < self.count_s(),
        ensures
            r == self@[k as int],
    {
        let idx = Self::unrank(&self.shape, k);
        self.get(&idx)
    }

    /// Build a standard-layout array holding `data` under `shape`.
    pub fn from_vec(data: Vec<T>, shape: Vec<usize>) -> (a: ArrayRef<T>)
        requires
            shape_fits(shape@),
            data@.len() == elem_count(shape@),
        ensures
            a.wf(),
            a.is_standard(),
            a.shape@ == shape@,
            a@ == data@,
    {
        let n = shape.len();
        let mut total: usize = 1;
        let mut i: usize = 0;
        proof {
            assert(shape@.take(0) =~= Seq::<usize>::empty());
        }
        while i < n
            invariant
                n == shape@.len(),
                shape_fits(shape@),
                0 <= i <= n,
                total as int == elem_count(shape@.take(i as int)),
            decreases n - i,
        {
            proof {
                assert(shape@.take(i + 1).drop_last() =~= shape@.take(i as int));
                assert(shape@.take(i + 1).last() == shape@[i as int]);
                assert(elem_count(shape@.take(i + 1)) <= usize::MAX as int);
            }
            total = total * shape[i];
            i = i + 1;
        }
        proof {
            assert(shape@.take(n as int) =~= shape@);
        }
        let mut tmp: Vec<usize> = Vec::new();
        if total == 0 {
            let mut d: usize = 0;
            while d < n
                invariant
                    0 <= d <= n,
                    tmp@.len() == d,
                decreases n - d,
            {
                tmp.push(0);
                d = d + 1;
            }
        } else {
            let mut s: usize = 1;
            let mut i2 = n;
            proof {
                assert(shape@.skip(n as int) =~= Seq::<usize>::empty());
            }
            while i2 > 0
                invariant
                    0 <= i2 <= n,
                    n == shape@.len(),
                    shape_fits(shape@),
                    elem_count(shape@) > 0,
                    tmp@.len() == n - i2,
                    s as int == elem_count(shape@.skip(i2 as int)),
                    forall|m: int|
                        0 <= m < tmp@.len() ==> (#[trigger] tmp@[m]) as int == elem_count(
                            shape@.skip(n - m),
                        ),
                decreases i2,
            {
                proof {
                    assert(shape@.skip(i2 - 1) =~= seq![shape@[i2 - 1]] + shape@.skip(i2 as int));
                    crate::shape::lemma_elem_count_concat(
                        seq![shape@[i2 - 1]],
                        shape@.skip(i2 as int),
                    );
                    assert(seq![shape@[i2 - 1]].drop_last() =~= Seq::<usize>::empty());
                    assert(seq![shape@[i2 - 1]].last() == shape@[i2 - 1]);
                    assert(elem_count(Seq::<usize>::empty()) == 1);
                    assert(elem_count(seq![shape@[i2 - 1]]) == shape@[i2 - 1] as int);
                    vstd::arithmetic::mul::lemma_mul_is_commutative(
                        shape@[i2 - 1] as int,
                        elem_count(shape@.skip(i2 as int)),
                    );
                    lemma_suffix_count_fits(shape@, i2 - 1);
                }
                tmp.push(s);
                s = s * shape[i2 - 1];
                i2 = i2 - 1;
            }
        }
        let mut strides: Vec<usize> = Vec::new();
        let mut d: usize = 0;
        while d < n
            invariant
                n == shape@.len(),
                tmp@.len() == n,
                0 <= d <= n,
                strides@.len() == d,
                elem_count(shape@) > 0 ==> forall|m: int|
                    0 <= m < n ==> (#[trigger] tmp@[m]) as int == elem_count(shape@.skip(n - m)),
                elem_count(shape@) > 0 ==> forall|m: int|
                    0 <= m < d ==> (#[trigger] strides@[m]) as int == elem_count(
                        shape@.skip(m + 1),
                    ),
            decreases n - d,
        {
            strides.push(tmp[n - 1 - d]);
            d = d + 1;
        }
        let a = ArrayRef { data, shape, strides, offset: 0 };
        proof {
            lemma_from_vec_ok(a);
        }
        a
    }

    /// Whether this array provably has the standard row-major layout,
    /// so that whole-array reductions may fold the buffer directly.
    pub fn standard_layout(&self) -> (b: bool)
        requires
            self.wf(),
        ensures
            b ==> self.is_standard(),
    {
        let n = self.shape.len();
        if self.offset != 0 || self.strides.len() != n {
            return false;
        }
        let total = shape_count(&self.shape);
        if self.data.len() != total {
            return false;
        }
        if total == 0 {
            return true;
        }
        let mut s: usize = 1;
        let mut i = n;
        proof {
            assert(self.shape@.skip(n as int) =~= Seq::<usize>::empty());
        }
        while i > 0
            invariant
                self.wf(),
                0 <= i <= n,
                n == self.shape@.len(),
                elem_count(self.shape@) > 0,
                s as int == elem_count(self.shape@.skip(i as int)),
                forall|d: int|
                    i <= d < n ==> (#[trigger] self.strides@[d]) as int == elem_count(
                        self.shape@.skip(d + 1),
                    ),
            decreases i,
        {
            if self.strides[i - 1] != s {
                return false;
            }
            proof {
                assert(self.shape@.skip(i - 1) =~= seq![self.shape@[i - 1]] + self.shape@.skip(
                    i as int,
                ));
                crate::shape::lemma_elem_count_concat(
                    seq![self.shape@[i - 1]],
                    self.shape@.skip(i as int),
                );
                assert(seq![self.shape@[i - 1]].drop_last() =~= Seq::<usize>::empty());
                assert(seq![self.shape@[i - 1]].last() == self.shape@[i - 1]);
                assert(elem_count(Seq::<usize>::empty()) == 1);
                assert(elem_count(seq![self.shape@[i - 1]]) == self.shape@[i - 1] as int);
                vstd::arithmetic::mul::lemma_mul_is_commutative(
                    self.shape@[i - 1] as int,
                    elem_count(self.shape@.skip(i as int)),
                );
                lemma_suffix_count_fits(self.shape@, i - 1);
            }
            s = s * self.shape[i - 1];
            i = i - 1;
        }
        true
    }
}

/// Number of elements addressed by a shape vector.
pub fn shape_count(shape: &Vec<usize>) -> (n: usize)
    requires
        shape_fits(shape@),
    ensures
        n as int == elem_count(shape@),
{
    let mut n: usize = 1;
    let mut i: usize = 0;
    proof {
        assert(shape@.take(0) =~= Seq::<usize>::empty());
    }
    while i < shape.len()
        invariant
            shape_fits(shape@),
            0 <= i <= shape@.len(),
            n as int == elem_count(shape@.take(i as int)),
        decreases shape@.len() - i,
    {
        proof {
            assert(shape@.take(i + 1).drop_last() =~= shape@.take(i as int));
            assert(shape@.take(i + 1).last() == shape@[i as int]);
            assert(elem_count(shape@.take(i + 1)) <= usize::MAX as int);
        }
        n = n * shape[i];
        i = i + 1;
    }
    proof {
        assert(shape@.take(shape@.len() as int) =~= shape@);
    }
    n
}

/// A copy of `v` with `val` inserted at position `pos`.
pub(crate) fn insert_at(v: &Vec<usize>, pos: usize, val: usize) -> (r: Vec<usize>)
    requires
        pos <= v@.len(),
    ensures
        r@ == v@.insert(pos as int, val),
        iseq(r@) == iseq(v@).insert(pos as int, val as int),
{
    let mut r: Vec<usize> = Vec::new();
    let mut d: usize = 0;
    while d < pos
        invariant
            0 <= d <= pos <= v@.len(),
            r@ =~= v@.take(d as int),
        decreases pos - d,
    {
        r.push(v[d]);
        d = d + 1;
    }
    r.push(val);
    while d < v.len()
        invariant
            pos <= d <= v@.len(),
            r@ =~= v@.take(d as int).insert(pos as int, val),
        decreases v@.len() - d,
    {
        proof {
            assert(v@.take(d + 1).insert(pos as int, val) =~= v@.take(d as int).insert(
                pos as int,
                val,
            ).push(v@[d as int]));
        }
        r.push(v[d]);
        d = d + 1;
    }
    proof {
        assert(v@.take(v@.len() as int) =~= v@);
        assert(r@ =~= v@.insert(pos as int, val));
        assert(iseq(r@) =~= iseq(v@).insert(pos as int, val as int));
    }
    r
}

/// A copy of `v` with position `pos` removed.
pub(crate) fn remove_at(v: &Vec<usize>, pos: usize) -> (r: Vec<usize>)
    requires
        pos < v@.len(),
    ensures
        r@ == v@.remove(pos as int),
{
    let mut r: Vec<usize> = Vec::new();
    let mut d: usize = 0;
    while d < v.len()
        invariant
            pos < v@.len(),
            0 <= d <= v@.len(),
            d <= pos ==> r@ =~= v@.take(d as int),
            d > pos ==> r@ =~= v@.take(d as int).remove(pos as int),
        decreases v@.len() - d,
    {
        if d != pos {
            r.push(v[d]);
        }
        proof {
            if d < pos {
                assert(v@.take(d + 1) =~= v@.take(d as int).push(v@[d as int]));
            } else if d == pos {
                assert(v@.take(d + 1).remove(pos as int) =~= v@.take(d as int));
            } else {
                assert(v@.take(d + 1).remove(pos as int) =~= v@.take(d as int).remove(
                    pos as int,
                ).push(v@[d as int]));
            }
        }
        d = d + 1;
    }
    proof {
        assert(v@.take(v@.len() as int) =~= v@);
    }
    r
}

/// If a suffix product exceeds every prefix bound while the shape
/// fits, the total element count is zero.
proof fn lemma_count_zero_suffix_large(shape: Seq<usize>, i: int)
    requires
        shape_fits(shape),
        0 <= i <= shape.len(),
        elem_count(shape.skip(i)) > usize::MAX as int,
    ensures
        elem_count(shape) == 0,
{
    assert(shape.take(i) + shape.skip(i) =~= shape);
    crate::shape::lemma_elem_count_concat(shape.take(i), shape.skip(i));
    crate::shape::lemma_elem_count_nonneg(shape.take(i));
    assert(shape.take(shape.len() as int) =~= shape);
    assert(elem_count(shape) <= usize::MAX as int);
    assert(elem_count(shape) == 0) by (nonlinear_arith)
        requires
            elem_count(shape) == elem_count(shape.take(i)) * elem_count(shape.skip(i)),
            elem_count(shape.take(i)) >= 0,
            elem_count(shape.skip(i)) > usize::MAX as int,
            elem_count(shape) <= usize::MAX as int,
    {}
}

/// A freshly assembled standard-layout array is well-formed and its
/// view is its buffer.
proof fn lemma_from_vec_ok<T>(a: ArrayRef<T>)
    requires
        a.offset == 0,
        a.strides@.len() == a.shape@.len(),
        shape_fits(a.shape@),
        a.data@.len() == elem_count(a.shape@),
        elem_count(a.shape@) > 0 ==> forall|m: int|
            0 <= m < a.shape@.len() ==> (#[trigger] a.strides@[m]) as int == elem_count(
                a.shape@.skip(m + 1),
            ),
    ensures
        a.wf(),
        a.is_standard(),
        a@ == a.data@,
{
    if elem_count(a.shape@) == 0 {
        assert forall|idx: Seq<int>| idx_ok(a.shape@, idx) implies 0 <= #[trigger] a.lin(idx)
            < a.data@.len() by {
            lemma_no_idx_when_empty(a.shape@, idx);
        }
        assert(a@ =~= a.data@);
    } else {
        assert forall|idx: Seq<int>| idx_ok(a.shape@, idx) implies 0 <= #[trigger] a.lin(idx)
            < a.data@.len() by {
            lemma_dot_ord(a.shape@, a.strides@, idx, 1);
            lemma_ord_of_props(a.shape@, idx);
        }
        lemma_standard_view(a);
    }
}

/// With a positive element count every suffix product fits, being at
/// most the total.
proof fn lemma_suffix_count_fits(shape: Seq<usize>, i: int)
    requires
        shape_fits(shape),
        elem_count(shape) > 0,
        0 <= i <= shape.len(),
    ensures
        0 < elem_count(shape.skip(i)) <= elem_count(shape) <= usize::MAX as int,
{
    assert(shape.take(i) + shape.skip(i) =~= shape);
    crate::shape::lemma_elem_count_concat(shape.take(i), shape.skip(i));
    crate::shape::lemma_elem_count_nonneg(shape.take(i));
    crate::shape::lemma_elem_count_nonneg(shape.skip(i));
    assert(shape.take(shape.len() as int) =~= shape);
    assert(elem_count(shape) <= usize::MAX as int);
    assert(0 < elem_count(shape.skip(i)) <= elem_count(shape)) by (nonlinear_arith)
        requires
            elem_count(shape) == elem_count(shape.take(i)) * elem_count(shape.skip(i)),
            elem_count(shape.take(i)) >= 0,
            elem_count(shape.skip(i)) >= 0,
            elem_count(shape) > 0,
    {}
}

} // verus!

verus! {

/// A copy of `v` with the value at `pos` replaced.
pub(crate) fn update_at(v: &Vec<usize>, pos: usize, val: usize) -> (r: Vec<usize>)
    requires
        pos < v@.len(),
    ensures
        r@ == v@.update(pos as int, val),
        iseq(r@) == iseq(v@).update(pos as int, val as int),
{
    let mut r: Vec<usize> = Vec::new();
    let mut d: usize = 0;
    while d < v.len()
        invariant
            pos < v@.len(),
            0 <= d <= v@.len(),
            d <= pos ==> r@ =~= v@.take(d as int),
            d > pos ==> r@ =~= v@.take(d as int).update(pos as int, val),
        decreases v@.len() - d,
    {
        if d == pos {
            r.push(val);
        } else {
            r.push(v[d]);
        }
        proof {
            if d < pos {
                assert(v@.take(d + 1) =~= v@.take(d as int).push(v@[d as int]));
            } else if d == pos {
                assert(v@.take(d + 1).update(pos as int, val) =~= v@.take(d as int).push(val));
            } else {
                assert(v@.take(d + 1).update(pos as int, val) =~= v@.take(d as int).update(
                    pos as int,
                    val,
                ).push(v@[d as int]));
            }
        }
        d = d + 1;
    }
    proof {
        assert(v@.take(v@.len() as int) =~= v@);
        assert(iseq(r@) =~= iseq(v@).update(pos as int, val as int));
    }
    r
}

/// The row-major ordinal of a valid multi-index.
pub(crate) fn rank_of(shape: &Vec<usize>, idx: &Vec<usize>) -> (o: usize)
    requires
        shape_fits(shape@),
        idx_ok(shape@, iseq(idx@)),
    ensures
        o as int == ord_of(shape@, iseq(idx@)),
{
    let ghost full = iseq(idx@);
    let mut o: usize = 0;
    let mut d: usize = 0;
    proof {
        assert(shape@.take(0) =~= Seq::<usize>::empty());
        assert(full.take(0) =~= Seq::<int>::empty());
    }
    while d < idx.len()
        invariant
            shape_fits(shape@),
            idx_ok(shape@, full),
            full == iseq(idx@),
            0 <= d <= idx@.len(),
            idx@.len() == shape@.len(),
            o as int == ord_of(shape@.take(d as int), full.take(d as int)),
        decreases idx@.len() - d,
    {
        proof {
            assert(shape@.take(d + 1).drop_last() =~= shape@.take(d as int));
            assert(full.take(d + 1).drop_last() =~= full.take(d as int));
            assert(shape@.take(d + 1).last() == shape@[d as int]);
            assert(full.take(d + 1).last() == full[d as int]);
            assert(idx_ok(shape@.take(d + 1), full.take(d + 1))) by {
                assert(forall|e: int|
                    0 <= e < d + 1 ==> #[trigger] full.take(d + 1)[e] == full[e]);
            }
            lemma_ord_of_props(shape@.take(d + 1), full.take(d + 1));
            assert(elem_count(shape@.take(d + 1)) <= usize::MAX as int);
        }
        o = o * shape[d] + idx[d];
        d = d + 1;
    }
    proof {
        assert(shape@.take(shape@.len() as int) =~= shape@);
        assert(full.take(full.len() as int) =~= full);
    }
    o
}

impl<T: Copy> ArrayRef<T> {
    /// A standard-layout copy with the same shape and elements.
    pub fn to_standard(&self) -> (out: ArrayRef<T>)
        requires
            self.wf(),
        ensures
            out.wf(),
            out.is_standard(),
            out.shape@ == self.shape@,
            out@ == self@,
    {
        let n = self.len();
        let mut data: Vec<T> = Vec::new();
        let mut k: usize = 0;
        while k < n
            invariant
                self.wf(),
                n as int == self.count_s(),
                0 <= k <= n,
                data@.len() == k,
                forall|kk: int| 0 <= kk < k ==> #[trigger] data@[kk] == self@[kk],
            decreases n - k,
        {
            let x = self.get_ord(k);
            data.push(x);
            k = k + 1;
        }
        let mut shape: Vec<usize> = Vec::new();
        let mut d: usize = 0;
        while d < self.shape.len()
            invariant
                0 <= d <= self.shape@.len(),
                shape@ =~= self.shape@.take(d as int),
            decreases self.shape@.len() - d,
        {
            shape.push(self.shape[d]);
            d = d + 1;
        }
        proof {
            assert(shape@ =~= self.shape@);
            assert(data@ =~= self@);
        }
        let out = ArrayRef::from_vec(data, shape);
        out
    }
}

} // verus!
