//! The extended Euclidean algorithm on fixed-width signed integers.
use crate::truncated::{abs, lemma_trunc_div_rem, lemma_trunc_rem_small, trunc_div, trunc_rem};
use vstd::prelude::*;

verus! {

/// `d` divides `n`: some integer multiple of `d` is `n`.
pub open spec fn divides(d: int, n: int) -> bool {
    exists|k: int| n == #[trigger] (d * k)
}

/// The extended Euclidean descent from the two running triples `(r0, s0, t0)` and
/// `(r1, s1, t1)`: while `r1` is not zero, the pair shifts by one, the new last triple being
/// the old first one minus the truncated quotient `r0 / r1` times the old last one. The
/// triple reached when `r1` becomes zero is the answer.
pub open spec fn euclid(r0: int, s0: int, t0: int, r1: int, s1: int, t1: int) -> (int, int, int)
    decreases abs(r1)
    via euclid_decreases
{
    if r1 == 0 {
        (r0, s0, t0)
    } else {
        let q = trunc_div(r0, r1);
        euclid(r1, s1, t1, trunc_rem(r0, r1), s0 - q * s1, t0 - q * t1)
    }
}

#[via_fn]
proof fn euclid_decreases(r0: int, s0: int, t0: int, r1: int, s1: int, t1: int) {
    if r1 != 0 {
        lemma_trunc_div_rem(r0, r1);
    }
}

/// The triple `(gcd, x, y)` for `a` and `b`: the descent starts from the larger input, and
/// `x` is the coefficient of `a`, `y` that of `b`, whichever of the two is larger.
pub open spec fn extended_gcd(a: int, b: int) -> (int, int, int) {
    if a >= b {
        euclid(a, 1, 0, b, 0, 1)
    } else {
        let (g, s, t) = euclid(b, 1, 0, a, 0, 1);
        (g, t, s)
    }
}

/// Where both running remainders are combinations of `u` and `v`, so is the result.
proof fn lemma_euclid_bezout(r0: int, s0: int, t0: int, r1: int, s1: int, t1: int, u: int, v: int)
    requires
        r0 == s0 * u + t0 * v,
        r1 == s1 * u + t1 * v,
    ensures
        ({
            let (g, x, y) = euclid(r0, s0, t0, r1, s1, t1);
            g == x * u + y * v
        }),
    decreases abs(r1),
{
    if r1 != 0 {
        let q = trunc_div(r0, r1);
        lemma_trunc_div_rem(r0, r1);
        let rk = trunc_rem(r0, r1);
        assert(rk == (s0 - q * s1) * u + (t0 - q * t1) * v) by (nonlinear_arith)
            requires
                r0 == r1 * q + rk,
                r0 == s0 * u + t0 * v,
                r1 == s1 * u + t1 * v,
        ;
        lemma_euclid_bezout(r1, s1, t1, rk, s0 - q * s1, t0 - q * t1, u, v);
    }
}

/// The result divides both running remainders.
proof fn lemma_euclid_divides(r0: int, s0: int, t0: int, r1: int, s1: int, t1: int)
    ensures
        divides(euclid(r0, s0, t0, r1, s1, t1).0, r0),
        divides(euclid(r0, s0, t0, r1, s1, t1).0, r1),
    decreases abs(r1),
{
    let g = euclid(r0, s0, t0, r1, s1, t1).0;
    if r1 == 0 {
        assert(r0 == g * 1);
        assert(r1 == g * 0);
    } else {
        let q = trunc_div(r0, r1);
        lemma_trunc_div_rem(r0, r1);
        let rk = trunc_rem(r0, r1);
        lemma_euclid_divides(r1, s1, t1, rk, s0 - q * s1, t0 - q * t1);
        let k1 = choose|k: int| r1 == #[trigger] (g * k);
        let k2 = choose|k: int| rk == #[trigger] (g * k);
        assert(r0 == g * (q * k1 + k2)) by (nonlinear_arith)
            requires
                r0 == r1 * q + rk,
                r1 == g * k1,
                rk == g * k2,
        ;
    }
}

/// A descent that starts from a nonzero remainder ends on a nonzero one.
proof fn lemma_euclid_nonzero(r0: int, s0: int, t0: int, r1: int, s1: int, t1: int)
    requires
        r0 != 0 || r1 != 0,
    ensures
        euclid(r0, s0, t0, r1, s1, t1).0 != 0,
    decreases abs(r1),
{
    if r1 != 0 {
        let q = trunc_div(r0, r1);
        lemma_trunc_div_rem(r0, r1);
        lemma_euclid_nonzero(r1, s1, t1, trunc_rem(r0, r1), s0 - q * s1, t0 - q * t1);
    }
}

/// Remainders keep the sign of the dividend, so a descent through positive numbers ends on a
/// positive one, and one through negative numbers on a negative one.
proof fn lemma_euclid_sign(r0: int, s0: int, t0: int, r1: int, s1: int, t1: int)
    ensures
        r0 > 0 && r1 >= 0 ==> euclid(r0, s0, t0, r1, s1, t1).0 > 0,
        r0 < 0 && r1 <= 0 ==> euclid(r0, s0, t0, r1, s1, t1).0 < 0,
    decreases abs(r1),
{
    if r1 != 0 {
        let q = trunc_div(r0, r1);
        lemma_trunc_div_rem(r0, r1);
        lemma_euclid_sign(r1, s1, t1, trunc_rem(r0, r1), s0 - q * s1, t0 - q * t1);
    }
}

/// What holds of `extended_gcd(a, b)` for all inputs that are not both zero: the coefficients
/// solve Bézout's identity against `a` and `b` in their given order; the gcd is nonzero and
/// divides both inputs, and every common divisor of the inputs divides it, so its absolute
/// value is the greatest common divisor; it is positive when both inputs are, and negative
/// when both are.
pub proof fn lemma_extended_gcd(a: int, b: int)
    requires
        a != 0 || b != 0,
    ensures
        ({
            let (g, x, y) = extended_gcd(a, b);
            &&& a * x + b * y == g
            &&& g != 0
            &&& divides(g, a)
            &&& divides(g, b)
            &&& forall|d: int| divides(d, a) && divides(d, b) ==> #[trigger] divides(d, g)
            &&& a > 0 && b > 0 ==> g > 0
            &&& a < 0 && b < 0 ==> g < 0
        }),
{
    let (g, x, y) = extended_gcd(a, b);
    if a >= b {
        lemma_euclid_bezout(a, 1, 0, b, 0, 1, a, b);
        lemma_euclid_divides(a, 1, 0, b, 0, 1);
        lemma_euclid_nonzero(a, 1, 0, b, 0, 1);
        lemma_euclid_sign(a, 1, 0, b, 0, 1);
        assert(g == a * x + b * y) by (nonlinear_arith)
            requires
                g == x * a + y * b,
        ;
    } else {
        lemma_euclid_bezout(b, 1, 0, a, 0, 1, b, a);
        lemma_euclid_divides(b, 1, 0, a, 0, 1);
        lemma_euclid_nonzero(b, 1, 0, a, 0, 1);
        lemma_euclid_sign(b, 1, 0, a, 0, 1);
        assert(g == a * x + b * y) by (nonlinear_arith)
            requires
                g == y * b + x * a,
        ;
    }
    assert forall|d: int| divides(d, a) && divides(d, b) implies #[trigger] divides(d, g) by {
        let ka = choose|k: int| a == #[trigger] (d * k);
        let kb = choose|k: int| b == #[trigger] (d * k);
        assert(g == d * (ka * x + kb * y)) by (nonlinear_arith)
            requires
                g == a * x + b * y,
                a == d * ka,
                b == d * kb,
        ;
    }
}

/// The greatest common divisor `gcd` of two integers, with coefficients `x` and `y` such that
/// `a * x + b * y == gcd`.
#[derive(Debug, Clone, Copy, PartialEq, Eq, Structural)]
pub struct Result {
    pub gcd: i32,
    pub x: i32,
    pub y: i32,
}

/// Why the descent cannot run on a pair of inputs.
#[derive(Debug, Clone, Copy, PartialEq, Eq, Structural)]
pub enum EuclidError {
    /// The smaller input is zero, and it would be the first divisor.
    DivisionByZero,
    /// The descent would take the remainder of `i32::MIN` by `-1`, which does not fit.
    Overflow,
}

/// The smaller of `a` and `b` is zero: the first remainder would divide by zero.
pub open spec fn divides_by_zero(a: int, b: int) -> bool {
    (if a <= b { a } else { b }) == 0
}

/// The inputs are `i32::MIN` and `-1`, in either order: after one step the descent would take
/// the remainder of `i32::MIN` by `-1`.
pub open spec fn overflows(a: int, b: int) -> bool {
    (a == i32::MIN && b == -1) || (a == -1 && b == i32::MIN)
}

/// The products of a coefficient with the other row's remainder have opposite signs (or one
/// is zero), and their magnitudes add up to `bound`.
spec fn balanced(r0: int, r1: int, c0: int, c1: int, bound: int) -> bool {
    &&& (c0 * r1 >= 0 && c1 * r0 <= 0) || (c0 * r1 <= 0 && c1 * r0 >= 0)
    &&& abs(c0 * r1) + abs(c1 * r0) == bound
}

/// A product with a factor of magnitude at least two that stays within `2^31` leaves the other
/// factor within `2^30`.
proof fn lemma_halved(x: int, r: int, bound: int)
    requires
        abs(x * r) <= bound,
        bound <= 0x8000_0000,
        abs(r) >= 2,
    ensures
        abs(x) <= 0x4000_0000,
{
    assert(abs(x * r) == abs(x) * abs(r)) by (nonlinear_arith);
    assert(abs(x) <= 0x4000_0000) by (nonlinear_arith)
        requires
            abs(x) * abs(r) <= 0x8000_0000,
            abs(r) >= 2,
            abs(x) >= 0,
    ;
}

/// One step of the descent keeps a coefficient row balanced, and when the step is taken (the
/// remainder is not zero) the new coefficient and the product `q * c1` stay within `2^30`.
proof fn lemma_coefficient_step(r0: int, r1: int, c0: int, c1: int, bound: int)
    requires
        r1 != 0,
        trunc_rem(r0, r1) != 0,
        balanced(r0, r1, c0, c1, bound),
        bound <= 0x8000_0000,
    ensures
        balanced(r1, trunc_rem(r0, r1), c1, c0 - trunc_div(r0, r1) * c1, bound),
        abs(trunc_div(r0, r1) * c1) <= 0x4000_0000,
        abs(c0 - trunc_div(r0, r1) * c1) <= 0x4000_0000,
{
    let q = trunc_div(r0, r1);
    let rk = trunc_rem(r0, r1);
    let ck = c0 - q * c1;
    lemma_trunc_div_rem(r0, r1);
    let m = r1 * q;
    let p = c0 * r1;
    let n = c1 * r0;
    let x = c1 * m;
    assert((n >= 0 ==> 0 <= x <= n) && (n <= 0 ==> n <= x <= 0)) by (nonlinear_arith)
        requires
            r0 >= 0 ==> 0 <= m <= r0,
            r0 < 0 ==> r0 <= m <= 0,
            n == c1 * r0,
            x == c1 * m,
    ;
    assert(c1 * rk == n - x && ck * r1 == p - x) by (nonlinear_arith)
        requires
            rk == r0 - m,
            m == r1 * q,
            ck == c0 - q * c1,
            p == c0 * r1,
            n == c1 * r0,
            x == c1 * m,
    ;
    assert(abs(r1) >= 2);
    lemma_halved(ck, r1, bound);
    assert(x == (q * c1) * r1) by (nonlinear_arith)
        requires
            x == c1 * m,
            m == r1 * q,
    ;
    lemma_halved(q * c1, r1, bound);
}

/// Computes the greatest common divisor of `a` and `b` with Bézout coefficients: `x` goes
/// with `a` and `y` with `b`. The descent starts from the larger input, so it divides by zero
/// when the smaller input is zero, and it overflows on `i32::MIN` with `-1`: neither is
/// admitted.
pub fn extended_euclidian_algorithm(a: i32, b: i32) -> (r: Result)
    requires
        !divides_by_zero(a as int, b as int),
        !overflows(a as int, b as int),
    ensures
        (r.gcd as int, r.x as int, r.y as int) == extended_gcd(a as int, b as int),
        a * r.x + b * r.y == r.gcd,
        r.gcd != 0,
        divides(r.gcd as int, a as int),
        divides(r.gcd as int, b as int),
        forall|d: int|
            divides(d, a as int) && divides(d, b as int) ==> #[trigger] divides(d, r.gcd as int),
        a > 0 && b > 0 ==> r.gcd > 0,
        a < 0 && b < 0 ==> r.gcd < 0,
{
    let (hi, lo) = if a >= b {
        (a, b)
    } else {
        (b, a)
    };
    let mut r_0: i32 = hi;
    let mut s_0: i32 = 1;
    let mut t_0: i32 = 0;
    let mut r_1: i32 = lo;
    let mut s_1: i32 = 0;
    let mut t_1: i32 = 1;
    assert(s_0 * r_1 == lo && t_1 * r_0 == hi) by (nonlinear_arith)
        requires
            s_0 == 1,
            t_1 == 1,
            r_0 == hi,
            r_1 == lo,
    ;
    loop
        invariant
            hi == (if a >= b { a } else { b }),
            lo == (if a >= b { b } else { a }),
            lo != 0,
            !overflows(hi as int, lo as int),
            r_1 != 0,
            euclid(r_0 as int, s_0 as int, t_0 as int, r_1 as int, s_1 as int, t_1 as int)
                == euclid(hi as int, 1, 0, lo as int, 0, 1),
            balanced(r_0 as int, r_1 as int, s_0 as int, s_1 as int, abs(lo as int)),
            balanced(r_0 as int, r_1 as int, t_0 as int, t_1 as int, abs(hi as int)),
            r_1 == i32::MIN ==> r_0 == hi && r_1 == lo,
            r_0 == i32::MIN ==> lo == i32::MIN && (r_1 == hi || r_1 == lo),
        decreases abs(r_1 as int),
    {
        proof {
            lemma_trunc_div_rem(r_0 as int, r_1 as int);
        }
        let r_k = r_0.checked_rem(r_1).unwrap();
        assert(r_k == trunc_rem(r_0 as int, r_1 as int));
        if r_k == 0 {
            proof {
                // The descent takes one more step, to a zero remainder, and stops there.
                let q = trunc_div(r_0 as int, r_1 as int);
                let (s, t) = (s_0 - q * s_1, t_0 - q * t_1);
                assert(euclid(r_0 as int, s_0 as int, t_0 as int, r_1 as int, s_1 as int, t_1 as int)
                    == euclid(r_1 as int, s_1 as int, t_1 as int, 0, s, t));
                lemma_extended_gcd(a as int, b as int);
            }
            return if a >= b {
                Result { gcd: r_1, x: s_1, y: t_1 }
            } else {
                Result { gcd: r_1, x: t_1, y: s_1 }
            };
        }
        proof {
            lemma_coefficient_step(r_0 as int, r_1 as int, s_0 as int, s_1 as int, abs(lo as int));
            lemma_coefficient_step(r_0 as int, r_1 as int, t_0 as int, t_1 as int, abs(hi as int));
            let q = trunc_div(r_0 as int, r_1 as int);
            assert(abs(q * r_1) <= 0x8000_0000) by (nonlinear_arith)
                requires
                    r_0 >= 0 ==> 0 <= r_1 * q <= r_0,
                    r_0 < 0 ==> r_0 <= r_1 * q <= 0,
                    abs(r_0 as int) <= 0x8000_0000,
            ;
            lemma_halved(q, r_1 as int, 0x8000_0000);
            if r_1 == i32::MIN {
                lemma_trunc_rem_small(hi as int, lo as int);
            }
        }
        let q = r_0.checked_div(r_1).unwrap();
        assert(q == trunc_div(r_0 as int, r_1 as int));
        let s_k = s_0 - q * s_1;
        let t_k = t_0 - q * t_1;

        r_0 = r_1;
        s_0 = s_1;
        t_0 = t_1;

        r_1 = r_k;
        s_1 = s_k;
        t_1 = t_k;
    }
}

/// Like `extended_euclidian_algorithm`, but it reports the inputs on which that one cannot run
/// instead of leaving them out: `DivisionByZero` when the smaller input is zero, `Overflow` on
/// `i32::MIN` with `-1`.
pub fn checked_extended_euclidian_algorithm(a: i32, b: i32) -> (r: core::result::Result<
    Result,
    EuclidError,
>)
    ensures
        match r {
            Ok(v) => {
                &&& !divides_by_zero(a as int, b as int)
                &&& !overflows(a as int, b as int)
                &&& (v.gcd as int, v.x as int, v.y as int) == extended_gcd(a as int, b as int)
            },
            Err(e) => {
                &&& (e == EuclidError::DivisionByZero) == divides_by_zero(a as int, b as int)
                &&& (e == EuclidError::Overflow) == overflows(a as int, b as int)
            },
        },
{
    let smaller = if a <= b {
        a
    } else {
        b
    };
    if smaller == 0 {
        Err(EuclidError::DivisionByZero)
    } else if (a == i32::MIN && b == -1) || (a == -1 && b == i32::MIN) {
        Err(EuclidError::Overflow)
    } else {
        Ok(extended_euclidian_algorithm(a, b))
    }
}

} // verus!
