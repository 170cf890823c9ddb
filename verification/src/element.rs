//! Capability traits for array element types, one set per operation
//! family: additive reductions, multiplicative reductions, differences,
//! division with count conversion, and the moment (variance) operations.
//!
//! Each executable method is pinned to a specification-level operation
//! of the same trait, so every algorithm in this crate states its result
//! as a mathematical expression over those operations.  The algebraic
//! laws (associativity, commutativity, identities) are stated separately
//! as predicates, so that laws which need them can require exactly them.
//!
//! `u64` with arithmetic modulo 2^64 implements the whole family and is
//! the reference element type for the verified laws and the tests.

use vstd::prelude::*;
use vstd::arithmetic::div_mod::{
    lemma_add_mod_noop, lemma_mod_multiples_vanish, lemma_mul_mod_noop_left, lemma_small_mod,
};
use vstd::arithmetic::mul::{lemma_mul_is_associative, lemma_mul_is_commutative};

verus! {

/// Additive capability: an identity element and a binary addition.
pub trait Additive: Sized + Copy {
    open spec fn zero_s() -> Self {
        vstd::pervasive::arbitrary()
    }

    open spec fn add_s(a: Self, b: Self) -> Self {
        vstd::pervasive::arbitrary()
    }

    fn zero() -> (r: Self)
        ensures
            r == Self::zero_s(),
    ;

    fn add(self, o: Self) -> (r: Self)
        ensures
            r == Self::add_s(self, o),
    ;
}

/// Multiplicative capability: an identity element and a binary product.
pub trait Multiplicative: Sized + Copy {
    open spec fn one_s() -> Self {
        vstd::pervasive::arbitrary()
    }

    open spec fn mul_s(a: Self, b: Self) -> Self {
        vstd::pervasive::arbitrary()
    }

    fn one() -> (r: Self)
        ensures
            r == Self::one_s(),
    ;

    fn mul(self, o: Self) -> (r: Self)
        ensures
            r == Self::mul_s(self, o),
    ;
}

/// Subtractive capability, used by the finite-difference engine.
pub trait Subtractive: Sized + Copy {
    open spec fn sub_s(a: Self, b: Self) -> Self {
        vstd::pervasive::arbitrary()
    }

    fn sub(self, o: Self) -> (r: Self)
        ensures
            r == Self::sub_s(self, o),
    ;
}

/// Division together with the fallible conversion of an element count
/// into the element type, as the mean computation needs.
pub trait Dividing: Sized + Copy {
    open spec fn div_s(a: Self, b: Self) -> Self {
        vstd::pervasive::arbitrary()
    }

    open spec fn from_count_s(n: int) -> Option<Self> {
        vstd::pervasive::arbitrary()
    }

    fn div(self, o: Self) -> (r: Self)
        ensures
            r == Self::div_s(self, o),
    ;

    fn from_count(n: usize) -> (r: Option<Self>)
        ensures
            r == Self::from_count_s(n as int),
    ;
}

/// The extra capabilities of the moment engine: fused multiply-add,
/// square root, and an ordering test for validating `ddof`.
pub trait MomentOps: Additive + Subtractive + Dividing {
    open spec fn fma_s(a: Self, b: Self, c: Self) -> Self {
        vstd::pervasive::arbitrary()
    }

    open spec fn sqrt_s(a: Self) -> Self {
        vstd::pervasive::arbitrary()
    }

    open spec fn le_s(a: Self, b: Self) -> bool {
        vstd::pervasive::arbitrary()
    }

    fn fma(self, b: Self, c: Self) -> (r: Self)
        ensures
            r == Self::fma_s(self, b, c),
    ;

    fn sqrt(self) -> (r: Self)
        ensures
            r == Self::sqrt_s(self),
    ;

    fn le(self, o: Self) -> (r: bool)
        ensures
            r == Self::le_s(self, o),
    ;
}

/// Addition forms a commutative monoid: associative, commutative, with
/// `zero_s` as left identity.
pub open spec fn additive_laws<T: Additive>() -> bool {
    &&& forall|a: T, b: T, c: T|
        #[trigger] T::add_s(T::add_s(a, b), c) == T::add_s(a, T::add_s(b, c))
    &&& forall|a: T, b: T| #[trigger] T::add_s(a, b) == T::add_s(b, a)
    &&& forall|a: T| #[trigger] T::add_s(T::zero_s(), a) == a
}

/// Multiplication forms a commutative monoid: associative, commutative,
/// with `one_s` as left identity.
pub open spec fn multiplicative_laws<T: Multiplicative>() -> bool {
    &&& forall|a: T, b: T, c: T|
        #[trigger] T::mul_s(T::mul_s(a, b), c) == T::mul_s(a, T::mul_s(b, c))
    &&& forall|a: T, b: T| #[trigger] T::mul_s(a, b) == T::mul_s(b, a)
    &&& forall|a: T| #[trigger] T::mul_s(T::one_s(), a) == a
}

/// One more than `u64::MAX`: the modulus of the `u64` element arithmetic.
pub open spec fn wrap_m() -> int {
    u64::MAX as int + 1
}

impl Additive for u64 {
    open spec fn zero_s() -> u64 {
        0u64
    }

    open spec fn add_s(a: u64, b: u64) -> u64 {
        (((a as int) + (b as int)) % wrap_m()) as u64
    }

    fn zero() -> (r: u64) {
        0u64
    }

    fn add(self, o: u64) -> (r: u64) {
        proof {
            lemma_wrap_small(self as int + o as int);
        }
        self.wrapping_add(o)
    }
}

impl Multiplicative for u64 {
    open spec fn one_s() -> u64 {
        1u64
    }

    open spec fn mul_s(a: u64, b: u64) -> u64 {
        (((a as int) * (b as int)) % wrap_m()) as u64
    }

    fn one() -> (r: u64) {
        1u64
    }

    fn mul(self, o: u64) -> (r: u64) {
        proof {
            assert((self as nat * o as nat) % (wrap_m() as nat) == (self as int * o as int)
                % wrap_m());
        }
        self.wrapping_mul(o)
    }
}

impl Subtractive for u64 {
    open spec fn sub_s(a: u64, b: u64) -> u64 {
        (((a as int) - (b as int)) % wrap_m()) as u64
    }

    fn sub(self, o: u64) -> (r: u64) {
        proof {
            let d = self as int - o as int;
            if d < 0 {
                lemma_mod_multiples_vanish(1, d, wrap_m());
                lemma_small_mod((d + wrap_m()) as nat, wrap_m() as nat);
            } else {
                lemma_small_mod(d as nat, wrap_m() as nat);
            }
        }
        self.wrapping_sub(o)
    }
}

impl Dividing for u64 {
    open spec fn div_s(a: u64, b: u64) -> u64 {
        if b == 0 {
            0u64
        } else {
            ((a as int) / (b as int)) as u64
        }
    }

    open spec fn from_count_s(n: int) -> Option<u64> {
        if 0 <= n <= u64::MAX {
            Some(n as u64)
        } else {
            None
        }
    }

    fn div(self, o: u64) -> (r: u64) {
        if o == 0 {
            0u64
        } else {
            self / o
        }
    }

    fn from_count(n: usize) -> (r: Option<u64>) {
        Some(n as u64)
    }
}

impl MomentOps for u64 {
    open spec fn fma_s(a: u64, b: u64, c: u64) -> u64 {
        ((((a as int) * (b as int)) + (c as int)) % wrap_m()) as u64
    }

    open spec fn sqrt_s(a: u64) -> u64 {
        isqrt_rec(a as int) as u64
    }

    open spec fn le_s(a: u64, b: u64) -> bool {
        a <= b
    }

    fn fma(self, b: u64, c: u64) -> (r: u64) {
        proof {
            let p = self as int * b as int;
            assert((self as nat * b as nat) % (wrap_m() as nat) == p % wrap_m());
            lemma_add_mod_noop(p, c as int, wrap_m());
            lemma_small_mod(c as nat, wrap_m() as nat);
        }
        self.wrapping_mul(b).wrapping_add(c)
    }

    fn sqrt(self) -> (r: u64) {
        let mut r: u64 = 0;
        proof {
            lemma_isqrt_rec_bracket(self as int);
        }
        loop
            invariant
                (r as int) * (r as int) <= (self as int),
                r < 0x1_0000_0000u64,
            ensures
                (r as int) * (r as int) <= (self as int),
                ((r as int) + 1) * ((r as int) + 1) > (self as int),
            decreases (self as int) - (r as int),
        {
            let p = (r + 1).checked_mul(r + 1);
            let cont = match p {
                Some(v) => v <= self,
                None => false,
            };
            if cont {
                proof {
                    assert(((r as int) + 1) * ((r as int) + 1) <= (self as int));
                    assert((r as int) + 1 <= (self as int)) by (nonlinear_arith)
                        requires
                            ((r as int) + 1) * ((r as int) + 1) <= (self as int),
                            (r as int) >= 0,
                    {}
                    assert((r as int) + 1 < 0x1_0000_0000) by (nonlinear_arith)
                        requires
                            ((r as int) + 1) * ((r as int) + 1) <= (self as int),
                            (self as int) < 0x1_0000_0000_0000_0000,
                            (r as int) >= 0,
                    {}
                }
                r = r + 1;
            } else {
                break ;
            }
        }
        proof {
            let q = isqrt_rec(self as int);
            assert(r as int == q) by (nonlinear_arith)
                requires
                    0 <= q,
                    q * q <= (self as int),
                    (q + 1) * (q + 1) > (self as int),
                    0 <= (r as int),
                    (r as int) * (r as int) <= (self as int),
                    ((r as int) + 1) * ((r as int) + 1) > (self as int),
            {}
        }
        r
    }

    fn le(self, o: u64) -> (r: bool) {
        self <= o
    }
}

/// Floor square root, defined by counting up.
pub open spec fn isqrt_rec(x: int) -> int
    decreases x,
{
    if x < 1 {
        0
    } else {
        let r = isqrt_rec(x - 1);
        if (r + 1) * (r + 1) <= x {
            r + 1
        } else {
            r
        }
    }
}

/// `isqrt_rec(x)` is the unique `r >= 0` with `r^2 <= x < (r+1)^2`.
pub proof fn lemma_isqrt_rec_bracket(x: int)
    requires
        x >= 0,
    ensures
        0 <= isqrt_rec(x),
        isqrt_rec(x) * isqrt_rec(x) <= x,
        (isqrt_rec(x) + 1) * (isqrt_rec(x) + 1) > x,
    decreases x,
{
    if x >= 1 {
        lemma_isqrt_rec_bracket(x - 1);
        let q = isqrt_rec(x - 1);
        if (q + 1) * (q + 1) <= x {
            assert((q + 2) * (q + 2) > x) by (nonlinear_arith)
                requires
                    q >= 0,
                    (q + 1) * (q + 1) <= x,
                    (q + 1) * (q + 1) > x - 1,
            {}
        }
    }
}

/// For sums below the modulus wrap, wrapping addition is plain addition;
/// in general it is addition modulo 2^64.
proof fn lemma_wrap_small(x: int)
    requires
        0 <= x < 2 * wrap_m(),
    ensures
        x % wrap_m() == if x >= wrap_m() {
            x - wrap_m()
        } else {
            x
        },
{
    if x >= wrap_m() {
        lemma_mod_multiples_vanish(1, x - wrap_m(), wrap_m());
        lemma_small_mod((x - wrap_m()) as nat, wrap_m() as nat);
    } else {
        lemma_small_mod(x as nat, wrap_m() as nat);
    }
}

/// The modular `u64` element arithmetic satisfies the commutative-monoid
/// laws that the reduction-decomposition results rely on.
pub proof fn lemma_u64_laws()
    ensures
        additive_laws::<u64>(),
        multiplicative_laws::<u64>(),
{
    let m = wrap_m();
    assert forall|a: u64, b: u64, c: u64|
        #[trigger] <u64 as Additive>::add_s(<u64 as Additive>::add_s(a, b), c)
            == <u64 as Additive>::add_s(a, <u64 as Additive>::add_s(b, c)) by {
        let x = a as int;
        let y = b as int;
        let z = c as int;
        lemma_add_mod_noop(x + y, z, m);
        lemma_small_mod(z as nat, m as nat);
        lemma_add_mod_noop(x, y + z, m);
        lemma_small_mod(x as nat, m as nat);
        assert(((x + y) % m + z % m) % m == (x + y + z) % m);
        assert((x % m + (y + z) % m) % m == (x + y + z) % m);
    }
    assert forall|a: u64| #[trigger] <u64 as Additive>::add_s(<u64 as Additive>::zero_s(), a)
        == a by {
        lemma_small_mod(a as nat, m as nat);
    }
    assert forall|a: u64, b: u64, c: u64|
        #[trigger] <u64 as Multiplicative>::mul_s(<u64 as Multiplicative>::mul_s(a, b), c)
            == <u64 as Multiplicative>::mul_s(a, <u64 as Multiplicative>::mul_s(b, c)) by {
        let x = a as int;
        let y = b as int;
        let z = c as int;
        lemma_mul_mod_noop_left(x * y, z, m);
        lemma_mul_is_associative(x, y, z);
        lemma_mul_mod_noop_left(y * z, x, m);
        lemma_mul_is_commutative((y * z) % m, x);
        lemma_mul_is_commutative(y * z, x);
        assert(((x * y) % m * z) % m == (x * y * z) % m);
        assert((x * ((y * z) % m)) % m == (x * (y * z)) % m);
    }
    assert forall|a: u64, b: u64| #[trigger] <u64 as Multiplicative>::mul_s(a, b)
        == <u64 as Multiplicative>::mul_s(b, a) by {
        lemma_mul_is_commutative(a as int, b as int);
    }
    assert forall|a: u64| #[trigger] <u64 as Multiplicative>::mul_s(<u64 as Multiplicative>::one_s(), a)
        == a by {
        lemma_small_mod(a as nat, m as nat);
    }
}

} // verus!
