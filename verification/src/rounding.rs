//! Rounding to the nearest whole number, and to the nearest double-precision number.

use vstd::prelude::*;

verus! {

/// `p / q` rounded to the nearest whole number; of two equally near ones, to the even one.
pub open spec fn round_half_even(p: nat, q: nat) -> nat {
    if 2 * (p % q) < q || (2 * (p % q) == q && (p / q) % 2 == 0) {
        p / q
    } else {
        p / q + 1
    }
}

/// The number of whole numbers that double precision tells apart before its
/// first gap: two to the 53rd power.
pub open spec fn double_limit() -> nat {
    0x20_0000_0000_0000
}

/// `p / q` rounded to the nearest double-precision number, where `p / q` is
/// whole or at least half of `double_limit()`, so that the result is whole.
pub open spec fn nearest_double(p: nat, q: nat) -> nat
    decreases p - q,
{
    if q == 0 || p < double_limit() * q {
        round_half_even(p, q)
    } else {
        2 * nearest_double(p, 2 * q)
    }
}

pub fn divide_half_even(p: u128, q: u128) -> (r: u128)
    requires
        0 < q <= u128::MAX / 4,
    ensures
        r == round_half_even(p as nat, q as nat),
        r <= p / q + 1,
{
    let whole = p / q;
    let rest = p % q;
    proof {
        vstd::arithmetic::div_mod::lemma_mod_bound(p as int, q as int);
    }
    if 2 * rest < q || (2 * rest == q && whole % 2 == 0) {
        whole
    } else {
        proof {
            assert(q > 1) by {
                if q == 1 {
                    assert(p % 1 == 0);
                }
            }
            assert(p / q <= p / 2) by (nonlinear_arith)
                requires
                    q > 1,
                    p >= 0,
            ;
        }
        whole + 1
    }
}

/// `n` as a double-precision number.
pub fn nearest_double_of(n: u64) -> (r: u128)
    ensures
        r == nearest_double(n as nat, 1),
        r <= 2 * n,
{
    let p = n as u128;
    let mut q: u128 = 1;
    while p >= 0x20_0000_0000_0000 * q
        invariant
            p == n,
            1 <= q,
            q == 1 || q * 0x10_0000_0000_0000 <= p,
            nearest_double(n as nat, 1) == q * nearest_double(n as nat, q as nat),
        decreases p - q,
    {
        proof {
            let d = nearest_double(n as nat, 2 * q as nat);
            assert(q * (2 * d) == (2 * q) * d) by (nonlinear_arith);
        }
        q = 2 * q;
    }
    let m = divide_half_even(p, q);
    proof {
        assert((p / q) * q <= p) by (nonlinear_arith)
            requires
                q > 0,
                p >= 0,
        ;
        assert(m * q <= (p / q) * q + q) by (nonlinear_arith)
            requires
                m <= p / q + 1,
                q > 0,
        ;
        if q == 1 {
            assert(p % 1 == 0);
            assert(m == p);
        }
    }
    assert(q * m == m * q) by (nonlinear_arith);
    m * q
}

/// Rounding goes to a nearest whole number: it is off by at most a half, and where
/// it is off by a half the result is even.
pub proof fn law_rounding_is_nearest(p: nat, q: nat)
    requires
        q > 0,
    ensures
        -q <= 2 * (q * round_half_even(p, q) - p) <= q,
        2 * (q * round_half_even(p, q) - p) == q || 2 * (p - q * round_half_even(p, q)) == q
            ==> round_half_even(p, q) % 2 == 0,
{
    vstd::arithmetic::div_mod::lemma_fundamental_div_mod(p as int, q as int);
    vstd::arithmetic::div_mod::lemma_mod_bound(p as int, q as int);
    let whole = p / q;
    assert(q * (whole + 1) == q * whole + q) by (nonlinear_arith);
}

proof fn lemma_double_is_near(p: nat, q: nat)
    requires
        p < 0x1_0000_0000_0000_0000,
        q == 1 || q == 2 || q == 4 || q == 8 || q == 16 || q == 32 || q == 64 || q == 128
            || q == 256 || q == 512 || q == 1024 || q == 2048,
    ensures
        -1024 <= q * nearest_double(p, q) - p <= 1024,
    decreases p - q,
{
    if p < double_limit() * q {
        law_rounding_is_nearest(p, q);
    } else {
        lemma_double_is_near(p, 2 * q);
        let d = nearest_double(p, 2 * q);
        assert(q * (2 * d) == (2 * q) * d) by (nonlinear_arith);
    }
}

/// A number of 64 bits stays the same in double precision below two to the 53rd
/// power, and above it moves by no more than 1024.
pub proof fn law_double_is_near(n: u64)
    ensures
        n < 0x20_0000_0000_0000 ==> nearest_double(n as nat, 1) == n,
        -1024 <= nearest_double(n as nat, 1) - n <= 1024,
{
    lemma_double_is_near(n as nat, 1);
    if n < 0x20_0000_0000_0000 {
        assert((n as nat) % 1 == 0 && (n as nat) / 1 == n as nat);
    }
}

} // verus!
