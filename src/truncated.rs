//! Division that rounds toward zero, as the machine's signed integers do it.
use vstd::arithmetic::div_mod::{
    lemma_div_pos_is_pos, lemma_fundamental_div_mod, lemma_mod_pos_bound, lemma_small_mod,
};
use vstd::prelude::*;

verus! {

/// The absolute value of `v`.
pub open spec fn abs(v: int) -> int {
    if v < 0 {
        -v
    } else {
        v
    }
}

/// The quotient of `a` by `b`, rounded toward zero.
pub open spec fn trunc_div(a: int, b: int) -> int {
    if (a < 0) == (b < 0) {
        abs(a) / abs(b)
    } else {
        -(abs(a) / abs(b))
    }
}

/// The remainder of `a` by `b` that goes with `trunc_div`: it takes the sign of `a`.
pub open spec fn trunc_rem(a: int, b: int) -> int {
    if a < 0 {
        -(abs(a) % abs(b))
    } else {
        abs(a) % abs(b)
    }
}

/// The quotient and the remainder put `a` back together; the remainder is smaller than the
/// divisor and has the sign of `a`; the part `q * b` lies between zero and `a`.
pub proof fn lemma_trunc_div_rem(a: int, b: int)
    requires
        b != 0,
    ensures
        a == b * trunc_div(a, b) + trunc_rem(a, b),
        abs(trunc_rem(a, b)) < abs(b),
        a >= 0 ==> 0 <= trunc_rem(a, b) && 0 <= b * trunc_div(a, b) <= a,
        a < 0 ==> trunc_rem(a, b) <= 0 && a <= b * trunc_div(a, b) <= 0,
{
    let n = abs(a);
    let d = abs(b);
    lemma_fundamental_div_mod(n, d);
    lemma_mod_pos_bound(n, d);
    lemma_div_pos_is_pos(n, d);
    let m = n / d;
    assert(d * m >= 0) by (nonlinear_arith)
        requires
            d > 0,
            m >= 0,
    ;
    if (a < 0) == (b < 0) {
        assert(b * trunc_div(a, b) == if a < 0 { -(d * m) } else { d * m }) by (nonlinear_arith)
            requires
                b == (if b < 0 { -d } else { d }),
                trunc_div(a, b) == m,
                (a < 0) == (b < 0),
        ;
    } else {
        assert(b * trunc_div(a, b) == if a < 0 { -(d * m) } else { d * m }) by (nonlinear_arith)
            requires
                b == (if b < 0 { -d } else { d }),
                trunc_div(a, b) == -m,
                (a < 0) != (b < 0),
        ;
    }
}

/// A remainder by a divisor of larger magnitude is the dividend itself.
pub proof fn lemma_trunc_rem_small(a: int, b: int)
    requires
        abs(a) < abs(b),
    ensures
        trunc_rem(a, b) == a,
{
    lemma_small_mod(abs(a) as nat, abs(b) as nat);
}

} // verus!
