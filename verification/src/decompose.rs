//! Decomposition of whole-array folds into per-lane folds: the proof
//! that a commutative-monoid reduction of the whole array equals the
//! same reduction of its per-axis reduction, for any axis.
//!
//! The machinery is generic in the combining operation: a left fold
//! with a commutative, associative operation and identity can be
//! regrouped into blocks and exchanged across the two inner grid
//! dimensions.  The row-major order of an array factors around a chosen
//! axis into an outer grid (axes before it), the axis itself, and an
//! inner grid (axes after it), which turns the whole-array fold into a
//! triple fold and the lane fold into the same triple fold with the two
//! innermost levels exchanged.

use vstd::prelude::*;
use vstd::arithmetic::div_mod::lemma_small_mod;
use crate::array::ArrayRef;
use crate::element::{additive_laws, multiplicative_laws, Additive, Multiplicative};
use crate::reduce::{prod_of, sum_of};
use crate::shape::{
    elem_count, lemma_elem_count_concat, lemma_elem_count_nonneg, lemma_ord_idx_concat,
    lemma_ord_idx_props, ord_idx,
};

verus! {

/// Left fold of a sequence under `f` starting from `e`.
pub open spec fn fold_e<T>(s: Seq<T>, e: T, f: spec_fn(T, T) -> T) -> T
    decreases s.len(),
{
    if s.len() == 0 {
        e
    } else {
        f(fold_e(s.drop_last(), e, f), s.last())
    }
}

/// `f` is associative and commutative with (left) identity `e`.
/// Kept opaque so that its quantifiers enter a proof's context only
/// where a step really leans on one of the laws.
#[verifier::opaque]
pub open spec fn fold_ok<T>(e: T, f: spec_fn(T, T) -> T) -> bool {
    &&& forall|a: T, b: T, c: T| #[trigger] f(f(a, b), c) == f(a, f(b, c))
    &&& forall|a: T, b: T| #[trigger] f(a, b) == f(b, a)
    &&& forall|a: T| #[trigger] f(e, a) == a
}

/// Folds distribute over concatenation.
pub proof fn lemma_fold_concat<T>(s1: Seq<T>, s2: Seq<T>, e: T, f: spec_fn(T, T) -> T)
    requires
        fold_ok(e, f),
    ensures
        fold_e(s1 + s2, e, f) == f(fold_e(s1, e, f), fold_e(s2, e, f)),
    decreases s2.len(),
{
    reveal(fold_ok);
    if s2.len() == 0 {
        assert(s1 + s2 =~= s1);
        assert(f(fold_e(s1, e, f), e) == f(e, fold_e(s1, e, f)));
    } else {
        let front = s2.drop_last();
        assert((s1 + s2).drop_last() =~= s1 + front);
        lemma_fold_concat(s1, front, e, f);
    }
}

/// A fold over `m` consecutive blocks of width `c` equals the fold of
/// the per-block folds.
#[verifier::rlimit(50)]
pub proof fn lemma_fold_blocks<T>(s: Seq<T>, m: int, c: int, e: T, f: spec_fn(T, T) -> T)
    requires
        fold_ok(e, f),
        m >= 0,
        c >= 0,
        s.len() == m * c,
    ensures
        fold_e(s, e, f) == fold_e(
            Seq::new(m as nat, |i: int| fold_e(s.subrange(i * c, i * c + c), e, f)),
            e,
            f,
        ),
    decreases m,
{
    let rows = Seq::new(m as nat, |i: int| fold_e(s.subrange(i * c, i * c + c), e, f));
    if m == 0 {
        assert(s.len() == 0) by (nonlinear_arith)
            requires
                s.len() == m * c,
                m == 0,
        {}
        assert(s =~= Seq::<T>::empty());
        assert(rows =~= Seq::<T>::empty());
    } else {
        assert((m - 1) * c + c == m * c) by (nonlinear_arith) {}
        assert(0 <= (m - 1) * c <= m * c) by (nonlinear_arith)
            requires
                m >= 1,
                c >= 0,
        {}
        let front = s.take((m - 1) * c);
        let lastrow = s.skip((m - 1) * c);
        assert(s =~= front + lastrow);
        lemma_fold_concat(front, lastrow, e, f);
        lemma_fold_blocks(front, m - 1, c, e, f);
        let rows_f = Seq::new(
            (m - 1) as nat,
            |i: int| fold_e(front.subrange(i * c, i * c + c), e, f),
        );
        assert forall|i: int| 0 <= i < m - 1 implies rows_f[i] == rows[i] by {
            assert(i * c + c <= (m - 1) * c) by (nonlinear_arith)
                requires
                    0 <= i <= m - 2,
                    c >= 0,
            {}
            assert(0 <= i * c) by (nonlinear_arith)
                requires
                    0 <= i,
                    c >= 0,
            {}
            assert(front.subrange(i * c, i * c + c) =~= s.subrange(i * c, i * c + c));
        }
        assert(rows_f =~= rows.drop_last());
        assert(lastrow =~= s.subrange((m - 1) * c, (m - 1) * c + c));
        assert(rows.last() == fold_e(s.subrange((m - 1) * c, (m - 1) * c + c), e, f));
    }
}

/// Folding the pointwise combination of two equal-length sequences
/// combines their folds.
pub proof fn lemma_fold_pointwise<T>(a: Seq<T>, b: Seq<T>, e: T, f: spec_fn(T, T) -> T)
    requires
        fold_ok(e, f),
        a.len() == b.len(),
    ensures
        fold_e(Seq::new(a.len(), |u: int| f(a[u], b[u])), e, f) == f(
            fold_e(a, e, f),
            fold_e(b, e, f),
        ),
    decreases a.len(),
{
    reveal(fold_ok);
    let z = Seq::new(a.len(), |u: int| f(a[u], b[u]));
    if a.len() == 0 {
        assert(f(e, e) == e);
    } else {
        let a2 = a.drop_last();
        let b2 = b.drop_last();
        lemma_fold_pointwise(a2, b2, e, f);
        let z2 = Seq::new(a2.len(), |u: int| f(a2[u], b2[u]));
        assert(z.drop_last() =~= z2);
        let x = fold_e(a2, e, f);
        let y = fold_e(b2, e, f);
        let u = a.last();
        let v = b.last();
        assert(f(f(x, y), f(u, v)) == f(f(x, u), f(y, v))) by {
            assert(f(f(x, y), f(u, v)) == f(x, f(y, f(u, v))));
            assert(f(y, f(u, v)) == f(f(y, u), v));
            assert(f(y, u) == f(u, y));
            assert(f(f(u, y), v) == f(u, f(y, v)));
            assert(f(x, f(u, f(y, v))) == f(f(x, u), f(y, v)));
        }
        assert(z.last() == f(u, v));
    }
}

/// A fold of identities is the identity.
pub proof fn lemma_fold_const<T>(n: int, e: T, f: spec_fn(T, T) -> T)
    requires
        fold_ok(e, f),
        n >= 0,
    ensures
        fold_e(Seq::new(n as nat, |u: int| e), e, f) == e,
    decreases n,
{
    reveal(fold_ok);
    if n > 0 {
        assert(Seq::new(n as nat, |u: int| e).drop_last() =~= Seq::new((n - 1) as nat, |u: int| e));
        lemma_fold_const(n - 1, e, f);
    }
}

/// Fubini for folds over a finite grid: folding rows of column folds
/// equals folding columns of row folds.
pub proof fn lemma_fold_exchange<T>(g: spec_fn(int, int) -> T, m: int, c: int, e: T, f: spec_fn(T, T) -> T)
    requires
        fold_ok(e, f),
        m >= 0,
        c >= 0,
    ensures
        fold_e(
            Seq::new(m as nat, |i: int| fold_e(Seq::new(c as nat, |u: int| g(i, u)), e, f)),
            e,
            f,
        ) == fold_e(
            Seq::new(c as nat, |u: int| fold_e(Seq::new(m as nat, |i: int| g(i, u)), e, f)),
            e,
            f,
        ),
    decreases m,
{
    let rows = Seq::new(m as nat, |i: int| fold_e(Seq::new(c as nat, |u: int| g(i, u)), e, f));
    let cols = Seq::new(c as nat, |u: int| fold_e(Seq::new(m as nat, |i: int| g(i, u)), e, f));
    if m == 0 {
        assert(rows =~= Seq::<T>::empty());
        assert forall|u: int| 0 <= u < c implies cols[u] == e by {
            assert(Seq::new(0nat, |i: int| g(i, u)) =~= Seq::<T>::empty());
        }
        assert(cols =~= Seq::new(c as nat, |u: int| e));
        lemma_fold_const(c, e, f);
    } else {
        lemma_fold_exchange(g, m - 1, c, e, f);
        let rows2 = Seq::new(
            (m - 1) as nat,
            |i: int| fold_e(Seq::new(c as nat, |u: int| g(i, u)), e, f),
        );
        let cols2 = Seq::new(
            c as nat,
            |u: int| fold_e(Seq::new((m - 1) as nat, |i: int| g(i, u)), e, f),
        );
        let lastrow = Seq::new(c as nat, |u: int| g(m - 1, u));
        assert(rows.drop_last() =~= rows2);
        assert(rows.last() == fold_e(lastrow, e, f));
        assert forall|u: int| 0 <= u < c implies cols[u] == f(cols2[u], lastrow[u]) by {
            assert(Seq::new(m as nat, |i: int| g(i, u)).drop_last() =~= Seq::new(
                (m - 1) as nat,
                |i: int| g(i, u),
            ));
            assert(Seq::new(m as nat, |i: int| g(i, u)).last() == g(m - 1, u));
        }
        assert(cols =~= Seq::new(c as nat, |u: int| f(cols2[u], lastrow[u])));
        lemma_fold_pointwise(cols2, lastrow, e, f);
        assert(fold_e(cols, e, f) == f(fold_e(cols2, e, f), fold_e(lastrow, e, f)));
    }
}

/// The row-major position of lane entry `(p, t, s)`: axes before the
/// chosen one contribute `p`, the axis contributes `t`, the axes after
/// it contribute `s`; the same entry is entry `t` of lane `p * cs + s`.
#[verifier::rlimit(80)]
proof fn lemma_axis_factor<T>(a: ArrayRef<T>, ax: int, p: int, t: int, s: int)
    requires
        a.wf(),
        0 <= ax < a.rank_s(),
        0 <= p < elem_count(a.shape@.take(ax)),
        0 <= t < a.shape@[ax] as int,
        0 <= s < elem_count(a.shape@.skip(ax + 1)),
    ensures
        0 <= (p * (a.shape@[ax] as int) + t) * elem_count(a.shape@.skip(ax + 1)) + s < elem_count(
            a.shape@,
        ),
        0 <= p * elem_count(a.shape@.skip(ax + 1)) + s < elem_count(a.shape@.remove(ax)),
        a@[(p * (a.shape@[ax] as int) + t) * elem_count(a.shape@.skip(ax + 1)) + s] == a.lane(
            ax,
            p * elem_count(a.shape@.skip(ax + 1)) + s,
        )[t],
{
    let sh = a.shape@;
    let psh = sh.take(ax);
    let mid = seq![sh[ax]];
    let ssh = sh.skip(ax + 1);
    let l = sh[ax] as int;
    let cp = elem_count(psh);
    let cs = elem_count(ssh);
    assert(mid.drop_last() =~= Seq::<usize>::empty());
    assert(mid.last() == sh[ax]);
    assert(elem_count(Seq::<usize>::empty()) == 1);
    assert(elem_count(mid) == l);
    assert(sh =~= psh + (mid + ssh));
    assert(sh =~= (psh + mid) + ssh);
    assert(sh.remove(ax) =~= psh + ssh);
    lemma_elem_count_concat(psh, mid + ssh);
    lemma_elem_count_concat(mid, ssh);
    lemma_elem_count_concat(psh, mid);
    lemma_elem_count_concat(psh + mid, ssh);
    lemma_elem_count_concat(psh, ssh);
    lemma_elem_count_nonneg(psh);
    lemma_elem_count_nonneg(ssh);
    let q = p * l + t;
    let kk = q * cs + s;
    let j = p * cs + s;
    assert(0 <= q < cp * l) by (nonlinear_arith)
        requires
            0 <= p < cp,
            0 <= t < l,
            q == p * l + t,
    {}
    assert(0 <= kk < (cp * l) * cs) by (nonlinear_arith)
        requires
            0 <= q < cp * l,
            0 <= s < cs,
            kk == q * cs + s,
    {}
    assert(0 <= j < cp * cs) by (nonlinear_arith)
        requires
            0 <= p < cp,
            0 <= s < cs,
            j == p * cs + s,
    {}
    assert(elem_count(sh) == (cp * l) * cs) by {
        assert(elem_count(psh + mid) == cp * l);
        assert(elem_count(sh) == elem_count(psh + mid) * elem_count(ssh));
    }
    assert(elem_count(sh.remove(ax)) == cp * cs);
    lemma_ord_idx_concat(psh + mid, ssh, q, s);
    lemma_ord_idx_concat(psh, mid, p, t);
    lemma_ord_idx_concat(psh, ssh, p, s);
    assert(ord_idx(mid, t) == Seq::<int>::empty().push(t % l)) by {
        assert(ord_idx(Seq::<usize>::empty(), t / l) =~= Seq::<int>::empty());
    }
    lemma_small_mod(t as nat, l as nat);
    assert(ord_idx(mid, t) =~= seq![t]);
    assert(ord_idx(sh, kk) == ord_idx(psh + mid, q) + ord_idx(ssh, s));
    assert(ord_idx(sh, kk) == (ord_idx(psh, p) + seq![t]) + ord_idx(ssh, s));
    lemma_ord_idx_props(psh, p);
    lemma_ord_idx_props(ssh, s);
    lemma_ord_idx_props(sh.remove(ax), j);
    let jidx = ord_idx(sh.remove(ax), j);
    assert(jidx == ord_idx(psh, p) + ord_idx(ssh, s));
    assert(ord_idx(psh, p).len() == ax);
    assert(jidx.insert(ax, t) =~= (ord_idx(psh, p) + seq![t]) + ord_idx(ssh, s));
    assert(a@[kk] == a.at_s(ord_idx(sh, kk)));
    assert(a.lane(ax, j)[t] == a.at_s(jidx.insert(ax, t)));
}

/// Folding an axis reduction gives the whole-array fold: the whole
/// fold regroups into blocks around the chosen axis, and exchanging
/// the axis level with the inner level turns it into the fold of the
/// per-lane folds.
#[verifier::rlimit(80)]
proof fn lemma_fold_axis_decomposition<T>(
    a: ArrayRef<T>,
    ax: int,
    out: Seq<T>,
    e: T,
    f: spec_fn(T, T) -> T,
)
    requires
        fold_ok(e, f),
        a.wf(),
        0 <= ax < a.rank_s(),
        out.len() == elem_count(a.shape@.remove(ax)),
        forall|j: int| 0 <= j < out.len() ==> #[trigger] out[j] == fold_e(a.lane(ax, j), e, f),
    ensures
        fold_e(out, e, f) == fold_e(a@, e, f),
{
    let sh = a.shape@;
    let psh = sh.take(ax);
    let mid = seq![sh[ax]];
    let ssh = sh.skip(ax + 1);
    let l = sh[ax] as int;
    let cp = elem_count(psh);
    let cs = elem_count(ssh);
    assert(mid.drop_last() =~= Seq::<usize>::empty());
    assert(mid.last() == sh[ax]);
    assert(elem_count(Seq::<usize>::empty()) == 1);
    assert(elem_count(mid) == l);
    assert(sh =~= (psh + mid) + ssh);
    assert(sh.remove(ax) =~= psh + ssh);
    lemma_elem_count_concat(psh, mid);
    lemma_elem_count_concat(psh + mid, ssh);
    lemma_elem_count_concat(psh, ssh);
    lemma_elem_count_nonneg(psh);
    lemma_elem_count_nonneg(ssh);
    assert(l >= 0);
    assert(a@.len() == (cp * l) * cs);
    assert(cp * l >= 0) by (nonlinear_arith)
        requires
            cp >= 0,
            l >= 0,
    {}
    lemma_fold_blocks(a@, cp * l, cs, e, f);
    let r1 = Seq::new((cp * l) as nat, |q: int| fold_e(a@.subrange(q * cs, q * cs + cs), e, f));
    lemma_fold_blocks(r1, cp, l, e, f);
    let r2 = Seq::new(cp as nat, |p: int| fold_e(r1.subrange(p * l, p * l + l), e, f));
    assert(out.len() == cp * cs);
    lemma_fold_blocks(out, cp, cs, e, f);
    let o2 = Seq::new(cp as nat, |p: int| fold_e(out.subrange(p * cs, p * cs + cs), e, f));
    assert forall|p: int| 0 <= p < cp implies r2[p] == o2[p] by {
        let g = |t: int, s: int| a@[(p * l + t) * cs + s];
        assert(0 <= p * l && (p + 1) * l <= cp * l && (p + 1) * l == p * l + l) by (nonlinear_arith)
            requires
                0 <= p < cp,
                l >= 0,
        {}
        assert forall|t: int| 0 <= t < l implies #[trigger] r1.subrange(p * l, p * l + l)[t]
            == fold_e(Seq::new(cs as nat, |s: int| g(t, s)), e, f) by {
            let q = p * l + t;
            assert(0 <= q < cp * l) by (nonlinear_arith)
                requires
                    0 <= p < cp,
                    0 <= t < l,
                    q == p * l + t,
            {}
            assert(r1.subrange(p * l, p * l + l)[t] == r1[q]);
            assert(0 <= q * cs && q * cs + cs <= (cp * l) * cs) by (nonlinear_arith)
                requires
                    0 <= q < cp * l,
                    cs >= 0,
            {}
            assert(a@.subrange(q * cs, q * cs + cs) =~= Seq::new(cs as nat, |s: int| g(t, s)));
        }
        assert(r1.subrange(p * l, p * l + l) =~= Seq::new(
            l as nat,
            |t: int| fold_e(Seq::new(cs as nat, |s: int| g(t, s)), e, f),
        ));
        lemma_fold_exchange(g, l, cs, e, f);
        assert(0 <= p * cs && (p + 1) * cs <= cp * cs && (p + 1) * cs == p * cs + cs)
            by (nonlinear_arith)
            requires
                0 <= p < cp,
                cs >= 0,
        {}
        assert forall|s: int| 0 <= s < cs implies #[trigger] out.subrange(p * cs, p * cs + cs)[s]
            == fold_e(Seq::new(l as nat, |t: int| g(t, s)), e, f) by {
            let j = p * cs + s;
            assert(0 <= j < cp * cs) by (nonlinear_arith)
                requires
                    0 <= p < cp,
                    0 <= s < cs,
                    j == p * cs + s,
            {}
            assert(out.subrange(p * cs, p * cs + cs)[s] == out[j]);
            assert forall|t: int| 0 <= t < l implies a.lane(ax, j)[t] == g(t, s) by {
                lemma_axis_factor(a, ax, p, t, s);
            }
            assert(a.lane(ax, j) =~= Seq::new(l as nat, |t: int| g(t, s)));
        }
        assert(out.subrange(p * cs, p * cs + cs) =~= Seq::new(
            cs as nat,
            |s: int| fold_e(Seq::new(l as nat, |t: int| g(t, s)), e, f),
        ));
    }
    assert(r2 =~= o2);
}

/// The additive fold operation, as a single named function value.
pub open spec fn add_fn<T: Additive>() -> spec_fn(T, T) -> T {
    |x: T, y: T| T::add_s(x, y)
}

/// The multiplicative fold operation, as a single named function value.
pub open spec fn mul_fn<T: Multiplicative>() -> spec_fn(T, T) -> T {
    |x: T, y: T| T::mul_s(x, y)
}

proof fn lemma_sum_is_fold<T: Additive>(s: Seq<T>)
    ensures
        sum_of(s) == fold_e(s, T::zero_s(), add_fn::<T>()),
    decreases s.len(),
{
    if s.len() > 0 {
        lemma_sum_is_fold::<T>(s.drop_last());
    }
}

proof fn lemma_prod_is_fold<T: Multiplicative>(s: Seq<T>)
    ensures
        prod_of(s) == fold_e(s, T::one_s(), mul_fn::<T>()),
    decreases s.len(),
{
    if s.len() > 0 {
        lemma_prod_is_fold::<T>(s.drop_last());
    }
}

proof fn lemma_additive_fold_ok<T: Additive>()
    requires
        additive_laws::<T>(),
    ensures
        fold_ok(T::zero_s(), add_fn::<T>()),
{
    reveal(fold_ok);
    let f = add_fn::<T>();
    assert forall|a: T, b: T, c: T| #[trigger] f(f(a, b), c) == f(a, f(b, c)) by {
        assert(T::add_s(T::add_s(a, b), c) == T::add_s(a, T::add_s(b, c)));
    }
    assert forall|a: T, b: T| #[trigger] f(a, b) == f(b, a) by {
        assert(T::add_s(a, b) == T::add_s(b, a));
    }
    assert forall|a: T| #[trigger] f(T::zero_s(), a) == a by {
        assert(T::add_s(T::zero_s(), a) == a);
    }
}

proof fn lemma_multiplicative_fold_ok<T: Multiplicative>()
    requires
        multiplicative_laws::<T>(),
    ensures
        fold_ok(T::one_s(), mul_fn::<T>()),
{
    reveal(fold_ok);
    let f = mul_fn::<T>();
    assert forall|a: T, b: T, c: T| #[trigger] f(f(a, b), c) == f(a, f(b, c)) by {
        assert(T::mul_s(T::mul_s(a, b), c) == T::mul_s(a, T::mul_s(b, c)));
    }
    assert forall|a: T, b: T| #[trigger] f(a, b) == f(b, a) by {
        assert(T::mul_s(a, b) == T::mul_s(b, a));
    }
    assert forall|a: T| #[trigger] f(T::one_s(), a) == a by {
        assert(T::mul_s(T::one_s(), a) == a);
    }
}

/// Summation commutes with axis decomposition: for an element type
/// whose addition is a commutative monoid, the sum of the per-axis
/// sums equals the whole-array sum, for any axis.  `out` is the
/// element sequence of the axis reduction, as `sum_axis` produces it.
pub proof fn lemma_sum_commutes_with_axis<T: Additive>(a: ArrayRef<T>, ax: int, out: Seq<T>)
    requires
        additive_laws::<T>(),
        a.wf(),
        0 <= ax < a.rank_s(),
        out.len() == elem_count(a.shape@.remove(ax)),
        forall|j: int| 0 <= j < out.len() ==> #[trigger] out[j] == sum_of(a.lane(ax, j)),
    ensures
        sum_of(out) == sum_of(a@),
{
    let e = T::zero_s();
    let f = add_fn::<T>();
    lemma_additive_fold_ok::<T>();
    lemma_sum_is_fold(out);
    lemma_sum_is_fold(a@);
    assert forall|j: int| 0 <= j < out.len() implies #[trigger] out[j] == fold_e(
        a.lane(ax, j),
        e,
        f,
    ) by {
        lemma_sum_is_fold(a.lane(ax, j));
    }
    lemma_fold_axis_decomposition(a, ax, out, e, f);
}

/// The product of the per-axis products equals the whole-array
/// product, for any axis, for an element type whose multiplication is
/// a commutative monoid.  `out` is the element sequence of the axis
/// reduction, as `product_axis` produces it.
pub proof fn lemma_product_commutes_with_axis<T: Multiplicative>(
    a: ArrayRef<T>,
    ax: int,
    out: Seq<T>,
)
    requires
        multiplicative_laws::<T>(),
        a.wf(),
        0 <= ax < a.rank_s(),
        out.len() == elem_count(a.shape@.remove(ax)),
        forall|j: int| 0 <= j < out.len() ==> #[trigger] out[j] == prod_of(a.lane(ax, j)),
    ensures
        prod_of(out) == prod_of(a@),
{
    let e = T::one_s();
    let f = mul_fn::<T>();
    lemma_multiplicative_fold_ok::<T>();
    lemma_prod_is_fold(out);
    lemma_prod_is_fold(a@);
    assert forall|j: int| 0 <= j < out.len() implies #[trigger] out[j] == fold_e(
        a.lane(ax, j),
        e,
        f,
    ) by {
        lemma_prod_is_fold(a.lane(ax, j));
    }
    lemma_fold_axis_decomposition(a, ax, out, e, f);
}

} // verus!
