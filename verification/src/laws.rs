//! The general laws of the library, each proved from the contracts and
//! specification functions that the operations are pinned to.

use vstd::prelude::*;
use crate::array::ArrayRef;
use crate::element::{
    multiplicative_laws, Additive, Dividing, Multiplicative, MomentOps, Subtractive,
};
use crate::moments::{std_of, var_of};
use crate::reduce::{lemma_prod_step, mean_of, prod_of, sum_of};
use crate::diffs::{diff1_of, diffn_of, lemma_view_determines_lane};
use crate::shape::elem_count;
use crate::NumericError;

verus! {

/// The mean of a nonempty sequence whose length is representable is
/// its sum divided by its element count, and the mean of an empty
/// sequence is the none outcome, never an error.
pub proof fn lemma_mean_is_sum_over_count<T: Additive + Dividing>(s: Seq<T>)
    ensures
        s.len() == 0 ==> mean_of(s) == Ok::<Option<T>, NumericError>(None),
        s.len() > 0 && T::from_count_s(s.len() as int) is Some ==> mean_of(s) == Ok::<
            Option<T>,
            NumericError,
        >(Some(T::div_s(sum_of(s), T::from_count_s(s.len() as int).unwrap()))),
{
}

/// The standard deviation is the square root of the variance, for
/// every sequence and every `ddof`; the two fail on exactly the same
/// inputs.
pub proof fn lemma_std_is_sqrt_of_var<T: MomentOps>(s: Seq<T>, ddof: T)
    ensures
        var_of(s, ddof) matches Ok(v) ==> std_of(s, ddof) == Ok::<T, NumericError>(T::sqrt_s(v)),
        var_of(s, ddof) matches Err(e) ==> std_of(s, ddof) == Err::<T, NumericError>(e),
{
}

/// A sequence built by the cumulative-product recurrence holds, at
/// every position, the product of the input prefix up to and including
/// that position.
pub proof fn lemma_cumulative_prefix_products<T: Multiplicative>(
    sin: Seq<T>,
    sout: Seq<T>,
    t: int,
)
    requires
        multiplicative_laws::<T>(),
        sout.len() == sin.len(),
        0 <= t < sin.len(),
        forall|u: int|
            0 <= u < sin.len() ==> #[trigger] sout[u] == (if u == 0 {
                sin[0]
            } else {
                T::mul_s(sout[u - 1], sin[u])
            }),
    ensures
        sout[t] == prod_of(sin.take(t + 1)),
    decreases t,
{
    if t == 0 {
        assert(sin.take(1).drop_last() =~= Seq::<T>::empty());
        assert(sin.take(1).last() == sin[0]);
        assert(prod_of(Seq::<T>::empty()) == T::one_s());
        assert(prod_of(sin.take(1)) == T::mul_s(T::one_s(), sin[0]));
    } else {
        lemma_cumulative_prefix_products(sin, sout, t - 1);
        lemma_prod_step(sin, t);
    }
}

/// Iterated differencing composes: the order-`n` difference is one
/// more difference of the order-`n - 1` difference, and equally the
/// order-`n - 1` difference of one difference.
pub proof fn lemma_diff_composition<T: Subtractive>(s: Seq<T>, n: int)
    requires
        n >= 1,
    ensures
        diffn_of(s, n) == diff1_of(diffn_of(s, n - 1)),
        diffn_of(s, n) == diffn_of(diff1_of(s), n - 1),
    decreases n,
{
    if n > 1 {
        lemma_diff_composition(s, n - 1);
    }
}

/// The array form of the iteration law: if `b` is the order-`n - 1`
/// difference of `a` along an axis and `c` is one more difference of
/// `b` along the same axis, then `c` is the order-`n` difference of
/// `a`: same shape, same lanes.
pub proof fn lemma_diff_iteration<T: Subtractive>(
    a: ArrayRef<T>,
    b: ArrayRef<T>,
    c: ArrayRef<T>,
    n: int,
    ax: int,
)
    requires
        a.wf(),
        b.wf(),
        c.wf(),
        0 <= ax < a.rank_s(),
        1 <= n < a.shape@[ax] as int,
        b.shape@ == a.shape@.update(ax, (a.shape@[ax] - (n - 1)) as usize),
        forall|j: int|
            0 <= j < elem_count(a.shape@.remove(ax)) ==> #[trigger] b.lane(ax, j) == diffn_of(
                a.lane(ax, j),
                n - 1,
            ),
        c.shape@ == b.shape@.update(ax, (b.shape@[ax] - 1) as usize),
        forall|j: int|
            0 <= j < elem_count(b.shape@.remove(ax)) ==> #[trigger] c.lane(ax, j) == diffn_of(
                b.lane(ax, j),
                1,
            ),
    ensures
        c.shape@ == a.shape@.update(ax, (a.shape@[ax] - n) as usize),
        forall|j: int|
            0 <= j < elem_count(a.shape@.remove(ax)) ==> #[trigger] c.lane(ax, j) == diffn_of(
                a.lane(ax, j),
                n,
            ),
{
    assert(c.shape@ =~= a.shape@.update(ax, (a.shape@[ax] - n) as usize));
    assert(b.shape@.remove(ax) =~= a.shape@.remove(ax));
    assert forall|j: int| 0 <= j < elem_count(a.shape@.remove(ax)) implies #[trigger] c.lane(
        ax,
        j,
    ) == diffn_of(a.lane(ax, j), n) by {
        assert(c.lane(ax, j) == diffn_of(b.lane(ax, j), 1));
        assert(diffn_of(b.lane(ax, j), 0) == b.lane(ax, j));
        assert(diffn_of(b.lane(ax, j), 1) == diff1_of(b.lane(ax, j)));
        lemma_diff_composition(a.lane(ax, j), n);
    }
}

/// Reduction results depend only on the logical contents and shape of
/// an array, never on its memory layout: two well-formed arrays with
/// equal shapes and equal element sequences have equal whole-array
/// reductions, equal moments, and equal lanes, so every per-axis
/// reduction agrees as well.
pub proof fn lemma_layout_independence<T: MomentOps + Multiplicative>(
    a: ArrayRef<T>,
    b: ArrayRef<T>,
    ddof: T,
)
    requires
        a.wf(),
        b.wf(),
        a.shape@ == b.shape@,
        a@ == b@,
    ensures
        sum_of(a@) == sum_of(b@),
        prod_of(a@) == prod_of(b@),
        mean_of(a@) == mean_of(b@),
        var_of(a@, ddof) == var_of(b@, ddof),
        std_of(a@, ddof) == std_of(b@, ddof),
        forall|ax: int, j: int|
            0 <= ax < a.rank_s() && 0 <= j < elem_count(a.shape@.remove(ax))
                ==> #[trigger] a.lane(ax, j) == b.lane(ax, j),
{
    assert forall|ax: int, j: int|
        0 <= ax < a.rank_s() && 0 <= j < elem_count(a.shape@.remove(ax)) implies #[trigger] a.lane(
        ax,
        j,
    ) == b.lane(ax, j) by {
        lemma_view_determines_lane(a, b, ax, j);
    }
}

} // verus!
