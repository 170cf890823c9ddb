//! The mathematical model of a strided n-dimensional layout: element
//! counts, row-major ordinal/multi-index conversion, and stride dot
//! products, with the lemmas that relate them.
//!
//! A shape is a sequence of extents, one per axis.  The row-major
//! ordinal of a multi-index counts the last axis fastest; `ord_idx` and
//! `ord_of` convert between ordinals and multi-indices and are mutual
//! inverses on valid values.

use vstd::prelude::*;
use vstd::arithmetic::div_mod::{
    lemma_div_pos_is_pos, lemma_fundamental_div_mod, lemma_fundamental_div_mod_converse_div,
    lemma_fundamental_div_mod_converse_mod, lemma_mod_division_less_than_divisor,
    lemma_multiply_divide_lt,
};
use vstd::arithmetic::mul::{lemma_mul_is_associative, lemma_mul_nonnegative};

verus! {

/// Number of elements addressed by a shape: the product of its extents.
pub open spec fn elem_count(shape: Seq<usize>) -> int
    decreases shape.len(),
{
    if shape.len() == 0 {
        1
    } else {
        elem_count(shape.drop_last()) * (shape.last() as int)
    }
}

/// Every prefix product of the shape fits a `usize`, so extent and
/// ordinal arithmetic can be carried out in machine words.
pub open spec fn shape_fits(shape: Seq<usize>) -> bool {
    forall|i: int| 0 <= i <= shape.len() ==> #[trigger] elem_count(shape.take(i)) <= usize::MAX as int
}

/// A multi-index is valid for a shape when it has one coordinate per
/// axis, each within the axis extent.
pub open spec fn idx_ok(shape: Seq<usize>, idx: Seq<int>) -> bool {
    &&& idx.len() == shape.len()
    &&& forall|d: int| 0 <= d < shape.len() ==> 0 <= #[trigger] idx[d] < shape[d] as int
}

/// The multi-index with row-major ordinal `k`: the last axis varies
/// fastest.
pub open spec fn ord_idx(shape: Seq<usize>, k: int) -> Seq<int>
    decreases shape.len(),
{
    if shape.len() == 0 {
        Seq::empty()
    } else {
        ord_idx(shape.drop_last(), k / (shape.last() as int)).push(k % (shape.last() as int))
    }
}

/// The row-major ordinal of a multi-index.
pub open spec fn ord_of(shape: Seq<usize>, idx: Seq<int>) -> int
    decreases shape.len(),
{
    if shape.len() == 0 {
        0
    } else {
        ord_of(shape.drop_last(), idx.drop_last()) * (shape.last() as int) + idx.last()
    }
}

/// Stride dot product: the storage position of a multi-index relative
/// to the view offset.
pub open spec fn dot(strides: Seq<usize>, idx: Seq<int>) -> int
    decreases strides.len(),
{
    if strides.len() == 0 {
        0
    } else {
        dot(strides.drop_last(), idx.drop_last()) + (strides.last() as int) * idx.last()
    }
}

pub proof fn lemma_elem_count_nonneg(shape: Seq<usize>)
    ensures
        elem_count(shape) >= 0,
    decreases shape.len(),
{
    if shape.len() > 0 {
        lemma_elem_count_nonneg(shape.drop_last());
        lemma_mul_nonnegative(elem_count(shape.drop_last()), shape.last() as int);
    }
}

/// The element count is positive exactly when every extent is.
pub proof fn lemma_elem_count_pos(shape: Seq<usize>)
    ensures
        elem_count(shape) > 0 <==> (forall|d: int|
            0 <= d < shape.len() ==> (#[trigger] shape[d]) as int > 0),
    decreases shape.len(),
{
    if shape.len() > 0 {
        let front = shape.drop_last();
        let l = shape.last() as int;
        lemma_elem_count_pos(front);
        lemma_elem_count_nonneg(front);
        assert(elem_count(shape) > 0 <==> (elem_count(front) > 0 && l > 0)) by (nonlinear_arith)
            requires
                elem_count(shape) == elem_count(front) * l,
                elem_count(front) >= 0,
                l >= 0,
        {}
        if elem_count(front) > 0 && l > 0 {
            assert(forall|d: int| 0 <= d < front.len() ==> (#[trigger] front[d]) as int > 0);
            assert(forall|d: int| 0 <= d < shape.len() - 1 ==> shape[d] == front[d]);
        }
        if forall|d: int| 0 <= d < shape.len() ==> (#[trigger] shape[d]) as int > 0 {
            assert(forall|d: int| 0 <= d < front.len() ==> (#[trigger] front[d]) == shape[d]);
        }
    }
}

/// Products multiply across concatenation of shapes.
pub proof fn lemma_elem_count_concat(s1: Seq<usize>, s2: Seq<usize>)
    ensures
        elem_count(s1 + s2) == elem_count(s1) * elem_count(s2),
    decreases s2.len(),
{
    if s2.len() == 0 {
        assert(s1 + s2 =~= s1);
    } else {
        let front = s2.drop_last();
        let l = s2.last() as int;
        assert((s1 + s2).drop_last() =~= s1 + front);
        assert((s1 + s2).last() == s2.last());
        lemma_elem_count_concat(s1, front);
        lemma_mul_is_associative(elem_count(s1), elem_count(front), l);
    }
}

/// A pointwise-smaller shape addresses no more elements.
pub proof fn lemma_elem_count_mono(s1: Seq<usize>, s2: Seq<usize>)
    requires
        s1.len() == s2.len(),
        forall|d: int| 0 <= d < s1.len() ==> #[trigger] s1[d] <= s2[d],
    ensures
        elem_count(s1) <= elem_count(s2),
    decreases s1.len(),
{
    if s1.len() > 0 {
        lemma_elem_count_mono(s1.drop_last(), s2.drop_last());
        lemma_elem_count_nonneg(s1.drop_last());
        assert(elem_count(s1) <= elem_count(s2)) by (nonlinear_arith)
            requires
                elem_count(s1) == elem_count(s1.drop_last()) * (s1.last() as int),
                elem_count(s2) == elem_count(s2.drop_last()) * (s2.last() as int),
                0 <= elem_count(s1.drop_last()) <= elem_count(s2.drop_last()),
                0 <= s1.last() as int <= s2.last() as int,
        {}
    }
}

/// The ordinal-to-index conversion yields a valid index whose ordinal
/// is the one converted.
pub proof fn lemma_ord_idx_props(shape: Seq<usize>, k: int)
    requires
        0 <= k < elem_count(shape),
    ensures
        idx_ok(shape, ord_idx(shape, k)),
        ord_of(shape, ord_idx(shape, k)) == k,
    decreases shape.len(),
{
    if shape.len() == 0 {
    } else {
        let front = shape.drop_last();
        let l = shape.last() as int;
        let cf = elem_count(front);
        lemma_elem_count_nonneg(front);
        assert(l > 0 && cf > 0) by (nonlinear_arith)
            requires
                0 < cf * l,
                cf >= 0,
                l >= 0,
                elem_count(shape) == cf * l,
                k < elem_count(shape),
                0 <= k,
        {}
        lemma_div_pos_is_pos(k, l);
        vstd::arithmetic::mul::lemma_mul_is_commutative(cf, l);
        lemma_multiply_divide_lt(k, l, cf);
        lemma_mod_division_less_than_divisor(k, l);
        lemma_ord_idx_props(front, k / l);
        let sub = ord_idx(front, k / l);
        let idx = sub.push(k % l);
        assert(idx.drop_last() =~= sub);
        lemma_fundamental_div_mod(k, l);
        vstd::arithmetic::mul::lemma_mul_is_commutative(l, k / l);
    }
}

/// A valid index has an ordinal within the element count, and the
/// conversion back recovers the index.
pub proof fn lemma_ord_of_props(shape: Seq<usize>, idx: Seq<int>)
    requires
        idx_ok(shape, idx),
    ensures
        0 <= ord_of(shape, idx) < elem_count(shape),
        ord_idx(shape, ord_of(shape, idx)) == idx,
    decreases shape.len(),
{
    if shape.len() == 0 {
        assert(idx =~= Seq::<int>::empty());
        assert(ord_idx(shape, 0) =~= idx);
    } else {
        let front = shape.drop_last();
        let l = shape.last() as int;
        let sub = idx.drop_last();
        assert(idx_ok(front, sub)) by {
            assert(forall|d: int| 0 <= d < front.len() ==> #[trigger] sub[d] == idx[d]);
        }
        lemma_ord_of_props(front, sub);
        let of = ord_of(front, sub);
        let o = of * l + idx.last();
        assert(0 <= o < elem_count(front) * l) by (nonlinear_arith)
            requires
                0 <= of < elem_count(front),
                0 <= idx.last() < l,
                o == of * l + idx.last(),
        {}
        lemma_fundamental_div_mod_converse_div(o, l, of, idx.last());
        lemma_fundamental_div_mod_converse_mod(o, l, of, idx.last());
        assert(o / l == of && o % l == idx.last());
        assert(ord_idx(shape, o) == ord_idx(front, of).push(idx.last()));
        assert(ord_idx(front, of).push(idx.last()) =~= idx);
    }
}

/// Partial dot products of nonnegative strides against a valid index
/// are bounded by the full dot product.
pub proof fn lemma_dot_take_bound(strides: Seq<usize>, idx: Seq<int>, i: int)
    requires
        strides.len() == idx.len(),
        forall|d: int| 0 <= d < idx.len() ==> #[trigger] idx[d] >= 0,
        0 <= i <= strides.len(),
    ensures
        0 <= dot(strides.take(i), idx.take(i)) <= dot(strides, idx),
    decreases strides.len(),
{
    if strides.len() == 0 {
        assert(strides.take(i) =~= strides);
        assert(idx.take(i) =~= idx);
    } else if i == strides.len() {
        assert(strides.take(i) =~= strides);
        assert(idx.take(i) =~= idx);
        lemma_dot_take_bound(strides.drop_last(), idx.drop_last(), i - 1);
        lemma_mul_nonnegative(strides.last() as int, idx.last());
        assert(strides.drop_last().take(i - 1) =~= strides.drop_last());
        assert(idx.drop_last().take(i - 1) =~= idx.drop_last());
    } else {
        assert(strides.take(i) =~= strides.drop_last().take(i));
        assert(idx.take(i) =~= idx.drop_last().take(i));
        lemma_dot_take_bound(strides.drop_last(), idx.drop_last(), i);
        lemma_mul_nonnegative(strides.last() as int, idx.last());
    }
}

/// When each stride is `c` times the product of the later extents, the
/// dot product is `c` times the row-major ordinal.
pub proof fn lemma_dot_ord(shape: Seq<usize>, strides: Seq<usize>, idx: Seq<int>, c: int)
    requires
        strides.len() == shape.len(),
        idx_ok(shape, idx),
        forall|d: int|
            0 <= d < shape.len() ==> (#[trigger] strides[d]) as int == c * elem_count(
                shape.skip(d + 1),
            ),
    ensures
        dot(strides, idx) == c * ord_of(shape, idx),
    decreases shape.len(),
{
    if shape.len() == 0 {
    } else {
        let front = shape.drop_last();
        let l = shape.last() as int;
        let sf = strides.drop_last();
        let sub = idx.drop_last();
        assert(idx_ok(front, sub)) by {
            assert(forall|d: int| 0 <= d < front.len() ==> #[trigger] sub[d] == idx[d]);
        }
        assert(shape.skip(shape.len() as int) =~= Seq::<usize>::empty());
        assert((strides.last() as int) == c);
        assert forall|d: int| 0 <= d < front.len() implies (#[trigger] sf[d]) as int == (c * l)
            * elem_count(front.skip(d + 1)) by {
            assert(sf[d] == strides[d]);
            assert(shape.skip(d + 1).drop_last() =~= front.skip(d + 1));
            assert(shape.skip(d + 1).last() == shape.last());
            assert(elem_count(shape.skip(d + 1)) == elem_count(front.skip(d + 1)) * l);
            assert(c * (elem_count(front.skip(d + 1)) * l) == (c * l) * elem_count(
                front.skip(d + 1),
            )) by (nonlinear_arith) {}
        }
        lemma_dot_ord(front, sf, sub, c * l);
        assert(dot(strides, idx) == (c * l) * ord_of(front, sub) + c * idx.last());
        assert((c * l) * ord_of(front, sub) + c * idx.last() == c * (ord_of(front, sub) * l
            + idx.last())) by (nonlinear_arith) {}
    }
}

} // verus!

verus! {

/// Lowering one coordinate of a valid index keeps it valid and
/// strictly lowers its row-major ordinal.
pub proof fn lemma_ord_of_update_lt(shape: Seq<usize>, idx: Seq<int>, ax: int, v: int)
    requires
        idx_ok(shape, idx),
        0 <= ax < shape.len(),
        0 <= v < idx[ax],
    ensures
        idx_ok(shape, idx.update(ax, v)),
        ord_of(shape, idx.update(ax, v)) < ord_of(shape, idx),
    decreases shape.len(),
{
    let upd = idx.update(ax, v);
    assert(forall|d: int| 0 <= d < shape.len() && d != ax ==> upd[d] == idx[d]);
    if ax == shape.len() - 1 {
        assert(upd.drop_last() =~= idx.drop_last());
    } else {
        let front = shape.drop_last();
        assert(upd.drop_last() =~= idx.drop_last().update(ax, v));
        assert(idx_ok(front, idx.drop_last())) by {
            assert(forall|d: int| 0 <= d < front.len() ==> #[trigger] idx.drop_last()[d] == idx[d]);
        }
        lemma_ord_of_update_lt(front, idx.drop_last(), ax, v);
        let l = shape.last() as int;
        assert(0 <= idx[shape.len() - 1] < shape[shape.len() - 1] as int);
        assert(l >= 1);
        assert(ord_of(front, upd.drop_last()) * l + upd.last() < ord_of(front, idx.drop_last()) * l
            + idx.last()) by (nonlinear_arith)
            requires
                ord_of(front, upd.drop_last()) < ord_of(front, idx.drop_last()),
                l >= 1,
                upd.last() == idx.last(),
        {}
    }
}

/// Shrinking one extent preserves the machine-representability of all
/// prefix products.
pub proof fn lemma_fits_update(shape: Seq<usize>, ax: int, v: usize)
    requires
        shape_fits(shape),
        0 <= ax < shape.len(),
        v <= shape[ax],
    ensures
        shape_fits(shape.update(ax, v)),
{
    let upd = shape.update(ax, v);
    assert forall|i: int| 0 <= i <= upd.len() implies #[trigger] elem_count(upd.take(i))
        <= usize::MAX as int by {
        assert(forall|d: int| 0 <= d < upd.take(i).len() ==> #[trigger] upd.take(i)[d] <= shape.take(
            i,
        )[d]);
        lemma_elem_count_mono(upd.take(i), shape.take(i));
    }
}

} // verus!

verus! {

/// Row-major ordinals decompose over shape concatenation: ordinal
/// `q * elem_count(s2) + b` of the joint shape indexes part `q` of the
/// leading shape joined with part `b` of the trailing shape.
pub proof fn lemma_ord_idx_concat(s1: Seq<usize>, s2: Seq<usize>, q: int, b: int)
    requires
        0 <= q < elem_count(s1),
        0 <= b < elem_count(s2),
    ensures
        ord_idx(s1 + s2, q * elem_count(s2) + b) == ord_idx(s1, q) + ord_idx(s2, b),
    decreases s2.len(),
{
    let c2 = elem_count(s2);
    let k = q * c2 + b;
    if s2.len() == 0 {
        assert(s1 + s2 =~= s1);
        assert(k == q) by (nonlinear_arith)
            requires
                c2 == 1,
                k == q * c2 + b,
                b == 0,
        {}
        assert(ord_idx(s2, b) =~= Seq::<int>::empty());
        assert(ord_idx(s1, q) + ord_idx(s2, b) =~= ord_idx(s1, q));
    } else {
        let front = s2.drop_last();
        let l = s2.last() as int;
        let cf = elem_count(front);
        lemma_elem_count_nonneg(front);
        assert(l > 0 && cf > 0) by (nonlinear_arith)
            requires
                0 < cf * l,
                cf >= 0,
                l >= 0,
                c2 == cf * l,
                b < c2,
                0 <= b,
        {}
        lemma_fundamental_div_mod(b, l);
        lemma_div_pos_is_pos(b, l);
        vstd::arithmetic::mul::lemma_mul_is_commutative(cf, l);
        lemma_multiply_divide_lt(b, l, cf);
        lemma_mod_division_less_than_divisor(b, l);
        assert(k == l * (q * cf + b / l) + b % l) by (nonlinear_arith)
            requires
                k == q * (cf * l) + b,
                b == l * (b / l) + b % l,
        {}
        lemma_fundamental_div_mod_converse_div(k, l, q * cf + b / l, b % l);
        lemma_fundamental_div_mod_converse_mod(k, l, q * cf + b / l, b % l);
        lemma_ord_idx_concat(s1, front, q, b / l);
        assert((s1 + s2).drop_last() =~= s1 + front);
        assert((s1 + s2).last() == s2.last());
        assert(ord_idx(s1 + s2, k) == ord_idx(s1 + front, k / l).push(k % l));
        assert((ord_idx(s1, q) + ord_idx(front, b / l)).push(b % l) =~= ord_idx(s1, q) + ord_idx(
            front,
            b / l,
        ).push(b % l));
        assert(ord_idx(s2, b) == ord_idx(front, b / l).push(b % l));
    }
}

} // verus!
