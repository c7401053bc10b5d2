//! Decimal numerals of any length, and the double-precision numbers nearest to them.

use crate::rounding;
use vstd::arithmetic::power2::*;
use vstd::prelude::*;

verus! {

/// The `n`th power of ten.
pub open spec fn ten_to(n: nat) -> nat
    decreases n,
{
    if n == 0 {
        1
    } else {
        10 * ten_to((n - 1) as nat)
    }
}

/// The number that a row of decimal digits writes.
pub open spec fn digits_value(s: Seq<u8>) -> nat
    decreases s.len(),
{
    if s.len() == 0 {
        0
    } else {
        10 * digits_value(s.drop_last()) + s.last() as nat
    }
}

pub open spec fn are_digits(s: Seq<u8>) -> bool {
    forall|i: int| 0 <= i < s.len() ==> #[trigger] s[i] <= 9
}

pub proof fn lemma_ten_to_positive(n: nat)
    ensures
        ten_to(n) > 0,
    decreases n,
{
    if n > 0 {
        lemma_ten_to_positive((n - 1) as nat);
    }
}

pub proof fn lemma_digits_value_concat(a: Seq<u8>, b: Seq<u8>)
    ensures
        digits_value(a + b) == digits_value(a) * ten_to(b.len()) + digits_value(b),
    decreases b.len(),
{
    if b.len() == 0 {
        assert(a + b =~= a);
        assert(digits_value(a) * 1 == digits_value(a));
    } else {
        lemma_digits_value_concat(a, b.drop_last());
        assert((a + b).drop_last() =~= a + b.drop_last());
        let x = digits_value(a);
        let t = ten_to((b.len() - 1) as nat);
        assert(b.drop_last().len() == (b.len() - 1) as nat);
        assert(digits_value(a + b.drop_last()) == x * t + digits_value(b.drop_last()));
        assert(ten_to(b.len()) == 10 * t);
        assert(10 * (x * t) == x * (10 * t)) by (nonlinear_arith);
        assert(digits_value(a + b) == 10 * digits_value(a + b.drop_last()) + b.last());
        assert(digits_value(b) == 10 * digits_value(b.drop_last()) + b.last());
    }
}

proof fn lemma_digits_value_bound(s: Seq<u8>)
    requires
        are_digits(s),
    ensures
        digits_value(s) < ten_to(s.len()),
    decreases s.len(),
{
    if s.len() > 0 {
        assert(are_digits(s.drop_last()));
        lemma_digits_value_bound(s.drop_last());
        assert(s[s.len() - 1] <= 9);
    }
}

/// Doubles the digits of a fraction; what carries over the point is returned.
fn double_fraction(digits: &mut Vec<u8>) -> (carry: u8)
    requires
        are_digits(old(digits)@),
    ensures
        are_digits(final(digits)@),
        final(digits).len() == old(digits).len(),
        carry <= 1,
        2 * digits_value(old(digits)@) == carry * ten_to(old(digits).len() as nat) + digits_value(
            final(digits)@,
        ),
{
    let mut carry: u8 = 0;
    let mut i: usize = digits.len();
    let ghost start = digits@;
    assert(start.skip(i as int) =~= seq![]);
    while i > 0
        invariant
            i <= digits.len(),
            digits.len() == start.len(),
            are_digits(start),
            are_digits(digits@),
            carry <= 1,
            digits@.take(i as int) == start.take(i as int),
            2 * digits_value(start.skip(i as int)) == carry * ten_to((start.len() - i) as nat)
                + digits_value(digits@.skip(i as int)),
        decreases i,
    {
        let ghost tail = digits@.skip(i as int);
        let ghost old_tail = start.skip(i as int);
        let ghost old_carry = carry;
        i = i - 1;
        let d = digits[i];
        assert(d == start[i as int]) by {
            assert(digits@.take(i + 1)[i as int] == start.take(i + 1)[i as int]);
        }
        let twice: u8 = 2 * d + carry;
        digits.set(i, twice % 10);
        carry = twice / 10;
        proof {
            let t = ten_to(old_tail.len());
            let low = seq![twice % 10];
            assert(start.skip(i as int) =~= seq![d] + old_tail);
            assert(digits@.skip(i as int) =~= low + tail);
            lemma_digits_value_concat(seq![d], old_tail);
            lemma_digits_value_concat(low, tail);
            lemma_one_digit(d);
            lemma_one_digit(twice % 10);
            assert(digits@.take(i as int) =~= start.take(i as int));
            assert(2 * (d * t) + old_carry * t == carry * (10 * t) + (twice % 10) * t)
                by (nonlinear_arith)
                requires
                    2 * d + old_carry == 10 * carry + twice % 10,
            ;
        }
    }
    assert(start.skip(0) =~= start);
    assert(digits@.skip(0) =~= digits@);
    carry
}

proof fn lemma_one_digit(d: u8)
    ensures
        digits_value(seq![d]) == d,
{
    assert(seq![d].drop_last() =~= seq![]);
    assert(digits_value(seq![d].drop_last()) == 0);
}

/// Halves the number, without remainder.
fn halve(digits: &mut Vec<u8>)
    requires
        are_digits(old(digits)@),
    ensures
        are_digits(final(digits)@),
        digits_value(final(digits)@) == digits_value(old(digits)@) / 2,
{
    let mut rest: u8 = 0;
    let mut i: usize = 0;
    let ghost start = digits@;
    assert(start.take(0) =~= seq![]);
    while i < digits.len()
        invariant
            i <= digits.len(),
            digits.len() == start.len(),
            are_digits(start),
            are_digits(digits@),
            rest <= 1,
            digits@.skip(i as int) == start.skip(i as int),
            digits_value(start.take(i as int)) == 2 * digits_value(digits@.take(i as int)) + rest,
        decreases digits.len() - i,
    {
        let ghost done = digits@.take(i as int);
        let d = digits[i];
        assert(d == start[i as int]) by {
            assert(digits@.skip(i as int)[0] == start.skip(i as int)[0]);
        }
        let both: u8 = 10 * rest + d;
        digits.set(i, both / 2);
        rest = both % 2;
        i = i + 1;
        proof {
            assert(start.take(i as int).drop_last() =~= start.take(i - 1));
            assert(digits@.take(i as int).drop_last() =~= done);
            assert(digits@.skip(i as int) =~= start.skip(i as int)) by {
                assert forall|k: int| 0 <= k < start.len() - i implies digits@.skip(i as int)[k]
                    == start.skip(i as int)[k] by {
                    assert(digits@[i + k] == start.skip(i - 1)[k + 1]);
                }
            }
        }
    }
    assert(start.take(i as int) =~= start);
    assert(digits@.take(i as int) =~= digits@);
}

/// A number past every size that is told apart: two to the 70th power.
pub const CAP: u128 = 0x40_0000_0000_0000_0000;

/// The number, or `CAP` where it is larger.
fn capped_value(digits: &Vec<u8>) -> (r: u128)
    requires
        are_digits(digits@),
    ensures
        r == if digits_value(digits@) < CAP {
            digits_value(digits@)
        } else {
            CAP as nat
        },
{
    let mut n: u128 = 0;
    let mut i: usize = 0;
    assert(digits@.take(0) =~= seq![]);
    while i < digits.len()
        invariant
            i <= digits.len(),
            are_digits(digits@),
            n == if digits_value(digits@.take(i as int)) < CAP {
                digits_value(digits@.take(i as int))
            } else {
                CAP as nat
            },
        decreases digits.len() - i,
    {
        n = 10 * n + digits[i] as u128;
        if n > CAP {
            n = CAP;
        }
        i = i + 1;
        assert(digits@.take(i as int).drop_last() =~= digits@.take(i - 1));
    }
    assert(digits@.take(i as int) =~= digits@);
    n
}

fn all_zero(digits: &Vec<u8>) -> (r: bool)
    ensures
        r == (digits_value(digits@) == 0),
{
    let mut i: usize = 0;
    assert(digits@.take(0) =~= seq![]);
    while i < digits.len()
        invariant
            i <= digits.len(),
            digits_value(digits@.take(i as int)) == 0,
        decreases digits.len() - i,
    {
        if digits[i] != 0 {
            proof {
                assert(digits@.take(i + 1).drop_last() =~= digits@.take(i as int));
                lemma_digits_value_concat(digits@.take(i + 1), digits@.skip(i + 1));
                assert(digits@.take(i + 1) + digits@.skip(i + 1) =~= digits@);
                let t = ten_to(digits@.skip(i + 1).len());
                lemma_ten_to_positive(digits@.skip(i + 1).len());
                assert(digits_value(digits@.take(i + 1)) * t > 0) by (nonlinear_arith)
                    requires
                        digits_value(digits@.take(i + 1)) > 0,
                        t > 0,
                ;
            }
            return false;
        }
        i = i + 1;
        assert(digits@.take(i as int).drop_last() =~= digits@.take(i - 1));
    }
    assert(digits@.take(i as int) =~= digits@);
    true
}

/// The smallest number that double precision rounds to infinity.
pub open spec fn double_overflow() -> nat {
    0x3f_ffff_ffff_ffff * pow2(970)
}

/// `p / q` as a double-precision number is infinite.
pub open spec fn overflows_double(p: nat, q: nat) -> bool {
    p >= double_overflow() * q
}

/// `p / q` as a double-precision number is zero.
pub open spec fn vanishes_in_double(p: nat, q: nat) -> bool {
    p * pow2(1075) <= q
}

/// How often `p / q` has to be doubled to fill the 53 bits of a
/// double-precision number.
pub open spec fn bits_short(p: nat, q: nat) -> nat
    decreases rounding::double_limit() * q - p,
{
    if p == 0 || p >= 0x10_0000_0000_0000 * q {
        0
    } else {
        1 + bits_short(2 * p, q)
    }
}

/// The whole part of the double-precision number nearest to `p / q`.
pub open spec fn double_whole(p: nat, q: nat) -> nat {
    if p >= rounding::double_limit() * q {
        rounding::nearest_double(p, q)
    } else {
        let t = bits_short(p, q);
        rounding::round_half_even(p * pow2(t), q) / pow2(t)
    }
}

proof fn lemma_round(p: nat, q: nat, n: nat, r: nat)
    requires
        q > 0,
        p == n * q + r,
        r < q,
    ensures
        rounding::round_half_even(p, q) == if 2 * r < q || (2 * r == q && n % 2 == 0) {
            n
        } else {
            n + 1
        },
{
    vstd::arithmetic::div_mod::lemma_fundamental_div_mod_converse(
        p as int,
        q as int,
        n as int,
        r as int,
    );
}

proof fn lemma_round_bound(p: nat, q: nat, limit: nat)
    requires
        q > 0,
        p < limit * q,
    ensures
        rounding::round_half_even(p, q) <= limit,
{
    vstd::arithmetic::div_mod::lemma_fundamental_div_mod(p as int, q as int);
    vstd::arithmetic::div_mod::lemma_mod_bound(p as int, q as int);
    assert(p / q < limit) by (nonlinear_arith)
        requires
            p < limit * q,
            p == q * (p / q) + p % q,
            p % q >= 0,
            q > 0,
    ;
}

proof fn lemma_bits_short(p: nat, q: nat)
    requires
        0 < p < rounding::double_limit() * q,
    ensures
        p * pow2(bits_short(p, q)) < rounding::double_limit() * q,
    decreases rounding::double_limit() * q - p,
{
    lemma2_to64();
    if p < 0x10_0000_0000_0000 * q {
        lemma_bits_short(2 * p, q);
        let t = bits_short(2 * p, q);
        lemma_pow2_unfold(t + 1);
        assert(p * (2 * pow2(t)) == (2 * p) * pow2(t)) by (nonlinear_arith);
    } else {
        assert(p * 1 == p);
    }
}

/// A decimal numeral without sign: the digits before the point and those behind it.
pub struct Numeral {
    pub whole: Vec<u8>,
    pub fraction: Vec<u8>,
}

impl Numeral {
    pub open spec fn wf(self) -> bool {
        are_digits(self.whole@) && are_digits(self.fraction@)
    }

    /// All digits as one number.
    pub open spec fn numerator(self) -> nat {
        digits_value(self.whole@ + self.fraction@)
    }

    /// The power of ten that the digits behind the point divide by.
    pub open spec fn denominator(self) -> nat {
        ten_to(self.fraction@.len())
    }

    proof fn lemma_parts(self)
        requires
            self.wf(),
        ensures
            self.denominator() > 0,
            self.numerator() == digits_value(self.whole@) * self.denominator() + digits_value(
                self.fraction@,
            ),
            digits_value(self.fraction@) < self.denominator(),
    {
        lemma_ten_to_positive(self.fraction@.len());
        lemma_digits_value_concat(self.whole@, self.fraction@);
        lemma_digits_value_bound(self.fraction@);
    }

    /// Whether the number is infinite in double precision.
    pub fn overflows(&self) -> (r: bool)
        requires
            self.wf(),
        ensures
            r == overflows_double(self.numerator(), self.denominator()),
    {
        let mut v = vstd::slice::slice_to_vec(self.whole.as_slice());
        let ghost n = digits_value(self.whole@);
        let mut i: u32 = 0;
        proof {
            lemma2_to64();
            assert(n / 1 == n);
        }
        while i < 970
            invariant
                i <= 970,
                are_digits(v@),
                digits_value(v@) == n / pow2(i as nat),
            decreases 970 - i,
        {
            halve(&mut v);
            proof {
                lemma_pow2_pos(i as nat);
                lemma_pow2_unfold((i + 1) as nat);
                vstd::arithmetic::div_mod::lemma_div_denominator(
                    n as int,
                    pow2(i as nat) as int,
                    2,
                );
            }
            i = i + 1;
        }
        let r = capped_value(&v) >= 0x3f_ffff_ffff_ffff;
        proof {
            self.lemma_parts();
            let b = 0x3f_ffff_ffff_ffffnat;
            let c = pow2(970);
            let q = self.denominator();
            let f = digits_value(self.fraction@);
            let p = self.numerator();
            lemma_pow2_pos(970);
            vstd::arithmetic::div_mod::lemma_fundamental_div_mod(n as int, c as int);
            vstd::arithmetic::div_mod::lemma_mod_bound(n as int, c as int);
            if n / c >= b {
                assert(p >= (b * c) * q) by (nonlinear_arith)
                    requires
                        p == n * q + f,
                        n == c * (n / c) + n % c,
                        n % c >= 0,
                        n / c >= b,
                        f >= 0,
                        c > 0,
                        q > 0,
                ;
            } else {
                assert(p < (b * c) * q) by (nonlinear_arith)
                    requires
                        p == n * q + f,
                        n == c * (n / c) + n % c,
                        n % c < c,
                        n / c <= b - 1,
                        f < q,
                        c > 0,
                        q > 0,
                ;
            }
        }
        r
    }

    /// Whether the number is zero in double precision.
    pub fn vanishes(&self) -> (r: bool)
        requires
            self.wf(),
        ensures
            r == vanishes_in_double(self.numerator(), self.denominator()),
    {
        let ghost q = self.denominator();
        let ghost p = self.numerator();
        proof {
            self.lemma_parts();
        }
        if !all_zero(&self.whole) {
            proof {
                lemma_pow2_strictly_increases(0, 1075);
                lemma2_to64();
                let n = digits_value(self.whole@);
                let f = digits_value(self.fraction@);
                let c = pow2(1075);
                assert(p * c > q) by (nonlinear_arith)
                    requires
                        p == n * q + f,
                        n >= 1,
                        q > 0,
                        f >= 0,
                        c > 1,
                ;
            }
            return false;
        }
        let mut v = vstd::slice::slice_to_vec(self.fraction.as_slice());
        let mut n: u8 = 0;
        let mut i: u32 = 0;
        let ghost mut exact: nat = 0;
        proof {
            lemma2_to64();
            assert(p * 1 == p);
            assert(digits_value(self.whole@) * q == 0) by (nonlinear_arith)
                requires
                    digits_value(self.whole@) == 0,
            ;
            assert(exact * q == 0) by (nonlinear_arith)
                requires
                    exact == 0,
            ;
        }
        while i < 1075
            invariant
                i <= 1075,
                are_digits(v@),
                v@.len() == self.fraction@.len(),
                q == self.denominator(),
                p * pow2(i as nat) == exact * q + digits_value(v@),
                n == if exact < 2 {
                    exact
                } else {
                    2
                },
            decreases 1075 - i,
        {
            let ghost f = digits_value(v@);
            let carry = double_fraction(&mut v);
            proof {
                let c = pow2(i as nat);
                lemma_pow2_unfold((i + 1) as nat);
                let g = digits_value(v@);
                assert(p * (2 * c) == (2 * exact + carry) * q + g) by (nonlinear_arith)
                    requires
                        p * c == exact * q + f,
                        2 * f == carry * q + g,
                ;
                exact = (2 * exact + carry) as nat;
            }
            n = if n >= 1 {
                2
            } else {
                carry
            };
            i = i + 1;
        }
        let r = n == 0 || (n == 1 && all_zero(&v));
        proof {
            lemma_digits_value_bound(v@);
            let f = digits_value(v@);
            if exact == 0 {
                assert(exact * q == 0) by (nonlinear_arith)
                    requires
                        exact == 0,
                ;
            } else if exact == 1 {
                assert(exact * q == q) by (nonlinear_arith)
                    requires
                        exact == 1,
                ;
            } else {
                assert(exact * q > q) by (nonlinear_arith)
                    requires
                        exact >= 2,
                        q > 0,
                ;
            }
        }
        r
    }

    /// The number times two to the power of `shift`: its whole part, and the
    /// digits of its fraction. Nothing for a number from `CAP` on.
    fn scaled(&self, shift: u32) -> (r: Option<(u128, Vec<u8>)>)
        requires
            self.wf(),
            shift <= 40,
        ensures
            match r {
                Some((n, v)) => {
                    &&& are_digits(v@)
                    &&& v@.len() == self.fraction@.len()
                    &&& self.numerator() * pow2(shift as nat) == n * self.denominator()
                        + digits_value(v@)
                    &&& n < CAP * 0x100_0000_0000
                },
                None => self.numerator() * pow2(shift as nat) >= CAP * self.denominator(),
            },
    {
        let ghost q = self.denominator();
        let ghost p = self.numerator();
        let mut n = capped_value(&self.whole);
        proof {
            self.lemma_parts();
            lemma2_to64();
            assert(p * 1 == p);
        }
        if n >= CAP {
            proof {
                let c = pow2(shift as nat);
                lemma_pow2_pos(shift as nat);
                let whole = digits_value(self.whole@);
                let f = digits_value(self.fraction@);
                assert(p * c >= CAP * q) by (nonlinear_arith)
                    requires
                        p == whole * q + f,
                        whole >= CAP,
                        q > 0,
                        f >= 0,
                        c >= 1,
                ;
            }
            return None;
        }
        let mut v = vstd::slice::slice_to_vec(self.fraction.as_slice());
        let mut i: u32 = 0;
        while i < shift
            invariant
                i <= shift <= 40,
                are_digits(v@),
                v@.len() == self.fraction@.len(),
                q == self.denominator(),
                p * pow2(i as nat) == n * q + digits_value(v@),
                n < CAP * pow2(i as nat),
            decreases shift - i,
        {
            let ghost f = digits_value(v@);
            let ghost m = n;
            proof {
                if i < 40 {
                    lemma_pow2_strictly_increases(i as nat, 40);
                }
                lemma2_to64();
                lemma_pow2_adds(32, 8);
                assert(CAP * pow2(i as nat) <= CAP * 0x100_0000_0000) by (nonlinear_arith)
                    requires
                        pow2(i as nat) <= 0x100_0000_0000,
                ;
            }
            let carry = double_fraction(&mut v);
            n = 2 * n + carry as u128;
            proof {
                let c = pow2(i as nat);
                lemma_pow2_unfold((i + 1) as nat);
                let g = digits_value(v@);
                assert(p * (2 * c) == (2 * m + carry) * q + g) by (nonlinear_arith)
                    requires
                        p * c == m * q + f,
                        2 * f == carry * q + g,
                ;
                assert(2 * m + carry < CAP * (2 * c)) by (nonlinear_arith)
                    requires
                        m < CAP * c,
                        carry <= 1,
                ;
            }
            i = i + 1;
        }
        proof {
            lemma2_to64();
            lemma_pow2_adds(32, 8);
            if shift < 40 {
                lemma_pow2_strictly_increases(shift as nat, 40);
            }
            assert(CAP * pow2(shift as nat) <= CAP * 0x100_0000_0000) by (nonlinear_arith)
                requires
                    pow2(shift as nat) <= 0x100_0000_0000,
            ;
        }
        Some((n, v))
    }

    /// The whole part of the double-precision number nearest to the number times
    /// two to the power of `shift`. Nothing where the product itself is more than
    /// 64 bits hold.
    pub fn scaled_whole(&self, shift: u32) -> (r: Option<u128>)
        requires
            self.wf(),
            shift <= 40,
        ensures
            match r {
                Some(whole) => {
                    &&& self.numerator() * pow2(shift as nat) <= u64::MAX * self.denominator()
                    &&& whole == double_whole(
                        self.numerator() * pow2(shift as nat),
                        self.denominator(),
                    )
                },
                None => self.numerator() * pow2(shift as nat) > u64::MAX * self.denominator(),
            },
    {
        let ghost q = self.denominator();
        proof {
            self.lemma_parts();
        }
        let (n, v) = match self.scaled(shift) {
            Some(parts) => parts,
            None => {
                assert(CAP * q > u64::MAX * q) by (nonlinear_arith)
                    requires
                        q > 0,
                ;
                return None;
            },
        };
        let ghost f = digits_value(v@);
        proof {
            lemma_digits_value_bound(v@);
        }
        if n > u64::MAX as u128 || (n == u64::MAX as u128 && !all_zero(&v)) {
            proof {
                if n > u64::MAX {
                    assert(n * q + f > u64::MAX * q) by (nonlinear_arith)
                        requires
                            n >= u64::MAX + 1,
                            q > 0,
                            f >= 0,
                    ;
                }
            }
            return None;
        }
        proof {
            if n < u64::MAX {
                assert(n * q + f <= u64::MAX * q) by (nonlinear_arith)
                    requires
                        n + 1 <= u64::MAX,
                        f < q,
                ;
            }
        }
        Some(
            if n >= 0x20_0000_0000_0000 {
                round_large(n, &v)
            } else {
                round_small(n, v)
            },
        )
    }
}

/// The double-precision number nearest to a large number: `n` and a fraction.
fn round_large(n: u128, fraction: &Vec<u8>) -> (r: u128)
    requires
        are_digits(fraction@),
        0x20_0000_0000_0000 <= n < CAP * 0x100_0000_0000,
    ensures
        r == double_whole(
            n as nat * ten_to(fraction@.len()) + digits_value(fraction@),
            ten_to(fraction@.len()),
        ),
{
    let ghost d = ten_to(fraction@.len());
    let ghost f = digits_value(fraction@);
    let ghost p = (n * d + f) as nat;
    proof {
        lemma_ten_to_positive(fraction@.len());
        lemma_digits_value_bound(fraction@);
        assert(p >= rounding::double_limit() * d) by (nonlinear_arith)
            requires
                p == n * d + f,
                n >= rounding::double_limit(),
                d > 0,
                f >= 0,
        ;
        assert(1 * d == d);
    }
    let mut q: u128 = 1;
    while n >= 0x20_0000_0000_0000 * q
        invariant
            0x20_0000_0000_0000 <= n < CAP * 0x100_0000_0000,
            d == ten_to(fraction@.len()),
            d > 0,
            f == digits_value(fraction@),
            p == n * d + f,
            q == 1 || (q % 2 == 0 && q > 0 && 0x10_0000_0000_0000 * q <= n),
            rounding::nearest_double(p, d) == q * rounding::nearest_double(p, (q * d) as nat),
        decreases n - q,
    {
        proof {
            let m = (q * d) as nat;
            assert(q * d > 0) by (nonlinear_arith)
                requires
                    q > 0,
                    d > 0,
            ;
            assert(p >= rounding::double_limit() * m) by (nonlinear_arith)
                requires
                    p == n * d + f,
                    n >= rounding::double_limit() * q,
                    m == q * d,
                    d > 0,
                    f >= 0,
            ;
            assert(2 * m == (2 * q) * d) by (nonlinear_arith)
                requires
                    m == q * d,
            ;
            let e = rounding::nearest_double(p, 2 * m);
            assert(q * (2 * e) == (2 * q) * e) by (nonlinear_arith);
        }
        q = 2 * q;
    }
    let whole = n / q;
    let rest = n % q;
    let half = q / 2;
    let down = rest < half || (rest == half && all_zero(fraction) && whole % 2 == 0);
    proof {
        let m = (q * d) as nat;
        let r = (rest * d + f) as nat;
        vstd::arithmetic::div_mod::lemma_fundamental_div_mod(n as int, q as int);
        vstd::arithmetic::div_mod::lemma_mod_bound(n as int, q as int);
        assert(m > 0) by (nonlinear_arith)
            requires
                m == q * d,
                q > 0,
                d > 0,
        ;
        assert(p < rounding::double_limit() * m) by (nonlinear_arith)
            requires
                p == n * d + f,
                n <= rounding::double_limit() * q - 1,
                m == q * d,
                f < d,
                d > 0,
        ;
        assert(p == whole * m + r) by (nonlinear_arith)
            requires
                p == n * d + f,
                n == q * whole + rest,
                m == q * d,
                r == rest * d + f,
        ;
        assert(r < m) by (nonlinear_arith)
            requires
                r == rest * d + f,
                rest <= q - 1,
                f < d,
                m == q * d,
                d > 0,
        ;
        lemma_round(p, m, whole as nat, r);
        if rest < half {
            assert(2 * r < m) by (nonlinear_arith)
                requires
                    r == rest * d + f,
                    2 * rest + 2 <= q,
                    f < d,
                    m == q * d,
                    d > 0,
            ;
        } else if rest > half {
            assert(2 * r > m) by (nonlinear_arith)
                requires
                    r == rest * d + f,
                    2 * rest >= q + 1,
                    f >= 0,
                    m == q * d,
                    d > 0,
            ;
        } else {
            assert(2 * r == m + 2 * f) by (nonlinear_arith)
                requires
                    r == rest * d + f,
                    2 * rest == q,
                    m == q * d,
            ;
        }
        assert(whole <= n) by (nonlinear_arith)
            requires
                n == q * whole + rest,
                q >= 1,
                rest >= 0,
        ;
        assert(q * whole + q <= 2 * n) by (nonlinear_arith)
            requires
                n == q * whole + rest,
                rest >= 0,
                q <= n,
        ;
        assert((whole + 1) * q == q * whole + q) by (nonlinear_arith);
        assert(q * (whole + 1) == q * whole + q) by (nonlinear_arith);
        assert(whole * q == q * whole) by (nonlinear_arith);
        assert(q == 2 * half);
        assert(rounding::nearest_double(p, m) == if down {
            whole as nat
        } else {
            (whole + 1) as nat
        });
    }
    if down {
        whole * q
    } else {
        (whole + 1) * q
    }
}

/// The whole part of the double-precision number nearest to a small number: `n`
/// and a fraction.
fn round_small(n: u128, fraction: Vec<u8>) -> (r: u128)
    requires
        are_digits(fraction@),
        n < 0x20_0000_0000_0000,
    ensures
        r == double_whole(
            n as nat * ten_to(fraction@.len()) + digits_value(fraction@),
            ten_to(fraction@.len()),
        ),
{
    let ghost d = ten_to(fraction@.len());
    let ghost p = (n * d + digits_value(fraction@)) as nat;
    let mut v = fraction;
    let mut m: u128 = n;
    let mut t: u32 = 0;
    proof {
        lemma_ten_to_positive(fraction@.len());
        lemma_digits_value_bound(fraction@);
        lemma2_to64();
        let f = digits_value(fraction@);
        assert(p < rounding::double_limit() * d) by (nonlinear_arith)
            requires
                p == n * d + f,
                n <= rounding::double_limit() - 1,
                f < d,
        ;
        assert(p * 1 == p);
    }
    while m < 0x10_0000_0000_0000 && t < 64
        invariant
            t <= 64,
            are_digits(v@),
            d == ten_to(v@.len()),
            d > 0,
            m < 0x20_0000_0000_0000,
            p * pow2(t as nat) == m * d + digits_value(v@),
            p > 0 ==> bits_short(p, d) == t + bits_short((p * pow2(t as nat)) as nat, d),
        decreases 64 - t,
    {
        let ghost f = digits_value(v@);
        let ghost before = m;
        proof {
            lemma_digits_value_bound(v@);
        }
        let carry = double_fraction(&mut v);
        m = 2 * m + carry as u128;
        proof {
            let c = pow2(t as nat);
            let pc = (p * c) as nat;
            lemma_pow2_pos(t as nat);
            lemma_pow2_unfold((t + 1) as nat);
            let g = digits_value(v@);
            assert(p * (2 * c) == (2 * before + carry) * d + g) by (nonlinear_arith)
                requires
                    p * c == before * d + f,
                    2 * f == carry * d + g,
            ;
            assert(pc < 0x10_0000_0000_0000 * d) by (nonlinear_arith)
                requires
                    pc == before * d + f,
                    before <= 0x10_0000_0000_0000 - 1,
                    f < d,
            ;
            assert(p * (2 * c) == 2 * pc) by (nonlinear_arith)
                requires
                    pc == p * c,
            ;
            if p > 0 {
                assert(pc > 0) by (nonlinear_arith)
                    requires
                        pc == p * c,
                        p > 0,
                        c > 0,
                ;
            }
        }
        t = t + 1;
    }
    if m < 0x10_0000_0000_0000 {
        proof {
            let s = bits_short(p, d);
            if p > 0 {
                let pc = (p * pow2(64)) as nat;
                lemma_digits_value_bound(v@);
                lemma_pow2_pos(64);
                lemma_bits_short(p, d);
                lemma_round_bound(p * pow2(s), d, rounding::double_limit());
                if s > 64 {
                    lemma_pow2_strictly_increases(64, s);
                }
                lemma2_to64();
                assert(pow2(s) > rounding::double_limit());
                vstd::arithmetic::div_mod::lemma_basic_div(
                    rounding::round_half_even(p * pow2(s), d) as int,
                    pow2(s) as int,
                );
            } else {
                lemma2_to64();
                lemma_round(0, d, 0, 0);
            }
        }
        return 0;
    }
    let ghost f = digits_value(v@);
    proof {
        lemma_digits_value_bound(v@);
    }
    let carry = double_fraction(&mut v);
    let up = carry == 1 && (!all_zero(&v) || m % 2 == 1);
    let ghost pc = (p * pow2(t as nat)) as nat;
    proof {
        lemma_digits_value_bound(v@);
        lemma_round(pc, d, m as nat, f);
        let g = digits_value(v@);
        assert(carry * d == if carry == 0 {
            0
        } else {
            d as int
        }) by (nonlinear_arith)
            requires
                carry <= 1,
        ;
        assert(pc >= 0x10_0000_0000_0000 * d) by (nonlinear_arith)
            requires
                pc == m * d + f,
                m >= 0x10_0000_0000_0000,
                f >= 0,
                d > 0,
        ;
        assert(p > 0) by {
            if p == 0 {
                assert(p * pow2(t as nat) == 0) by (nonlinear_arith)
                    requires
                        p == 0,
                ;
                assert(0x10_0000_0000_0000 * d > 0);
            }
        }
    }
    let mut r: u128 = if up {
        m + 1
    } else {
        m
    };
    let ghost full = r;
    let mut k: u32 = 0;
    proof {
        lemma2_to64();
        assert(full / 1 == full);
    }
    while k < t
        invariant
            k <= t,
            r == full as nat / pow2(k as nat),
        decreases t - k,
    {
        r = r / 2;
        proof {
            lemma_pow2_pos(k as nat);
            lemma_pow2_unfold((k + 1) as nat);
            vstd::arithmetic::div_mod::lemma_div_denominator(
                full as int,
                pow2(k as nat) as int,
                2,
            );
        }
        k = k + 1;
    }
    r
}

/// The nearest double-precision number has at most 53 bits, followed by zeros: it is
/// off by at most half of its last bit, and where it is off by that much, the last
/// bit is even. No more zeros follow than needed. These are the bits, and the
/// number of zeros.
pub proof fn law_nearest_double_has_53_bits(p: nat, q: nat) -> (r: (nat, nat))
    requires
        q > 0,
    ensures
        rounding::nearest_double(p, q) == r.0 * pow2(r.1),
        r.0 <= 0x20_0000_0000_0000,
        -(q * pow2(r.1)) <= 2 * (q * pow2(r.1) * r.0 - p) <= q * pow2(r.1),
        2 * (q * pow2(r.1) * r.0 - p) == q * pow2(r.1) || 2 * (p - q * pow2(r.1) * r.0) == q
            * pow2(r.1) ==> r.0 % 2 == 0,
        r.1 > 0 ==> p >= 0x10_0000_0000_0000 * (q * pow2(r.1)),
    decreases p - q,
{
    lemma2_to64();
    if p < rounding::double_limit() * q {
        let m = rounding::round_half_even(p, q);
        rounding::law_rounding_is_nearest(p, q);
        assert(m <= 0x20_0000_0000_0000) by (nonlinear_arith)
            requires
                2 * (q * m - p) <= q,
                p < 0x20_0000_0000_0000 * q,
                q > 0,
        ;
        assert(q * pow2(0) == q);
        assert(m * pow2(0) == m);
        (m, 0)
    } else {
        let (m, k) = law_nearest_double_has_53_bits(p, 2 * q);
        lemma_pow2_unfold(k + 1);
        let w = pow2(k);
        assert(q * (2 * w) == 2 * q * w) by (nonlinear_arith);
        assert(2 * (m * w) == m * (2 * w)) by (nonlinear_arith);
        if k == 0 {
            assert(w == 1);
            assert(0x10_0000_0000_0000 * (2 * q * w) == 0x20_0000_0000_0000 * q)
                by (nonlinear_arith)
                requires
                    w == 1,
            ;
        }
        (m, k + 1)
    }
}

proof fn lemma_filled_bits(p: nat, q: nat)
    requires
        p > 0,
        q > 0,
    ensures
        p * pow2(bits_short(p, q)) >= 0x10_0000_0000_0000 * q,
    decreases rounding::double_limit() * q - p,
{
    lemma2_to64();
    if p < 0x10_0000_0000_0000 * q {
        lemma_filled_bits(2 * p, q);
        let t = bits_short(2 * p, q);
        lemma_pow2_unfold(t + 1);
        let w = pow2(t);
        assert(2 * p * w == p * (2 * w)) by (nonlinear_arith);
    } else {
        assert(bits_short(p, q) == 0);
        assert(p * pow2(0) == p) by (nonlinear_arith)
            requires
                pow2(0) == 1,
        ;
    }
}

/// The whole part of a number in double precision is that of a number which is off
/// from `p / q` by at most one part in two to the 53rd power.
pub proof fn law_double_whole_is_near(p: nat, q: nat)
    requires
        q > 0,
    ensures
        0x20_0000_0000_0000 * (double_whole(p, q) * q) <= 0x20_0000_0000_0001 * p,
        0x20_0000_0000_0000 * ((double_whole(p, q) + 1) * q) > 0x1f_ffff_ffff_ffff * p,
{
    let d = double_whole(p, q);
    if p >= rounding::double_limit() * q {
        let (m, k) = law_nearest_double_has_53_bits(p, q);
        lemma2_to64();
        let w = pow2(k);
        lemma_pow2_pos(k);
        if k == 0 {
            assert(w == 1);
            assert(m * w == m && q * w == q) by (nonlinear_arith)
                requires
                    w == 1,
            ;
        }
        assert(p >= 0x10_0000_0000_0000 * (q * w));
        assert(q * w * m == m * w * q) by (nonlinear_arith);
        assert((d + 1) * q == d * q + q) by (nonlinear_arith);
    } else if p == 0 {
        assert(bits_short(p, q) == 0);
        lemma2_to64();
        assert(p * pow2(0) == 0);
        vstd::arithmetic::div_mod::lemma_fundamental_div_mod(0, q as int);
        vstd::arithmetic::div_mod::lemma_div_basics(q as int);
        vstd::arithmetic::div_mod::lemma_small_mod(0, q);
        assert(rounding::round_half_even(0, q) == 0);
        assert(d == 0);
        assert(d * q == 0) by (nonlinear_arith)
            requires
                d == 0,
        ;
        assert((d + 1) * q == q) by (nonlinear_arith)
            requires
                d == 0,
        ;
    } else {
        let t = bits_short(p, q);
        let w = pow2(t);
        lemma_pow2_pos(t);
        lemma_filled_bits(p, q);
        let s = p * w;
        let m = rounding::round_half_even(s, q);
        rounding::law_rounding_is_nearest(s, q);
        assert(d == m / w);
        vstd::arithmetic::div_mod::lemma_fundamental_div_mod(m as int, w as int);
        vstd::arithmetic::div_mod::lemma_mod_bound(m as int, w as int);
        assert(w * d <= m < w * (d + 1)) by (nonlinear_arith)
            requires
                m == w * d + m % w,
                0 <= m % w < w,
        ;
        let wd = w * d;
        let wd1 = w * (d + 1);
        assert(q * wd <= q * m) by (nonlinear_arith)
            requires
                wd <= m,
        ;
        assert(q * wd1 > q * m) by (nonlinear_arith)
            requires
                wd1 > m,
                q > 0,
        ;
        assert(0x20_0000_0000_0000 * (q * wd) <= 0x20_0000_0000_0001 * s);
        assert(0x20_0000_0000_0000 * (q * wd1) > 0x1f_ffff_ffff_ffff * s);
        assert(q * wd == w * (d * q)) by (nonlinear_arith)
            requires
                wd == w * d,
        ;
        assert(q * wd1 == w * ((d + 1) * q)) by (nonlinear_arith)
            requires
                wd1 == w * (d + 1),
        ;
        let x = 0x20_0000_0000_0000 * (d * q);
        let y = 0x20_0000_0000_0001 * p;
        assert(w * x == 0x20_0000_0000_0000 * (w * (d * q))) by (nonlinear_arith)
            requires
                x == 0x20_0000_0000_0000 * (d * q),
        ;
        assert(w * y == 0x20_0000_0000_0001 * s) by (nonlinear_arith)
            requires
                y == 0x20_0000_0000_0001 * p,
                s == p * w,
        ;
        assert(x <= y) by (nonlinear_arith)
            requires
                w * x <= w * y,
                w > 0,
        ;
        let x1 = 0x20_0000_0000_0000 * ((d + 1) * q);
        let y1 = 0x1f_ffff_ffff_ffff * p;
        assert(w * x1 == 0x20_0000_0000_0000 * (w * ((d + 1) * q))) by (nonlinear_arith)
            requires
                x1 == 0x20_0000_0000_0000 * ((d + 1) * q),
        ;
        assert(w * y1 == 0x1f_ffff_ffff_ffff * s) by (nonlinear_arith)
            requires
                y1 == 0x1f_ffff_ffff_ffff * p,
                s == p * w,
        ;
        assert(x1 > y1) by (nonlinear_arith)
            requires
                w * x1 > w * y1,
                w > 0,
        ;
    }
}

} // verus!
