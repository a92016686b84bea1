//! Exact rational numbers for specification purposes, and powers of ten.
//!
//! A [`Rat`] is a ghost pair `n / d`. All constructions in this crate keep
//! `d > 0`; [`rat`] normalizes the sign of the denominator to ensure that.
//! Equality and order are the usual cross-multiplied ones, valid whenever
//! both denominators are positive.

use vstd::prelude::*;

verus! {

/// A rational number `n / d`, for use in specifications only.
pub ghost struct Rat {
    pub n: int,
    pub d: int,
}

/// A rational is well formed when its denominator is positive.
pub open spec fn rat_wf(a: Rat) -> bool {
    a.d > 0
}

/// Builds `n / d` with the denominator made positive (`d != 0` expected).
pub open spec fn rat(n: int, d: int) -> Rat {
    if d < 0 {
        Rat { n: -n, d: -d }
    } else {
        Rat { n, d }
    }
}

/// The rational holding the integer `n`.
pub open spec fn rat_int(n: int) -> Rat {
    Rat { n, d: 1 }
}

/// `a == b`, by cross multiplication (sound for positive denominators).
pub open spec fn rat_eq(a: Rat, b: Rat) -> bool {
    a.n * b.d == b.n * a.d
}

/// `a < b`, by cross multiplication (sound for positive denominators).
pub open spec fn rat_lt(a: Rat, b: Rat) -> bool {
    a.n * b.d < b.n * a.d
}

pub open spec fn rat_add(a: Rat, b: Rat) -> Rat {
    Rat { n: a.n * b.d + b.n * a.d, d: a.d * b.d }
}

pub open spec fn rat_mul(a: Rat, b: Rat) -> Rat {
    Rat { n: a.n * b.n, d: a.d * b.d }
}

/// `a / b` (`b.n != 0` expected); the sign moves into the numerator.
pub open spec fn rat_div(a: Rat, b: Rat) -> Rat {
    rat(a.n * b.d, a.d * b.n)
}

/// Rational equality of `n1 / d1` and `n2 / d2` follows from the
/// cross-multiplied identity, for either sign of the numerators.
pub proof fn lemma_rat_eq_from_cross(n1: int, d1: int, n2: int, d2: int)
    requires
        d1 > 0,
        d2 > 0,
        n1 * d2 == n2 * d1,
    ensures
        rat_eq(Rat { n: n1, d: d1 }, Rat { n: n2, d: d2 }),
        rat_eq(Rat { n: -n1, d: d1 }, Rat { n: -n2, d: d2 }),
{
    assert((-n1) * d2 == (-n2) * d1) by (nonlinear_arith)
        requires
            n1 * d2 == n2 * d1,
    ;
}

/// Transitivity of rational equality through a middle term with positive
/// denominator.
pub proof fn lemma_rat_eq_trans_aux(a: Rat, b: Rat, c: Rat)
    requires
        a.d > 0,
        b.d > 0,
        c.d > 0,
        rat_eq(a, b),
        rat_eq(b, c),
    ensures
        rat_eq(a, c),
{
    assert((a.n * b.d) * c.d == (b.n * a.d) * c.d) by (nonlinear_arith)
        requires
            a.n * b.d == b.n * a.d,
    ;
    assert((b.n * c.d) * a.d == (c.n * b.d) * a.d) by (nonlinear_arith)
        requires
            b.n * c.d == c.n * b.d,
    ;
    assert(a.n * c.d == c.n * a.d) by (nonlinear_arith)
        requires
            (a.n * b.d) * c.d == (b.n * a.d) * c.d,
            (b.n * c.d) * a.d == (c.n * b.d) * a.d,
            b.d > 0,
    ;
}

/// `10^e`.
pub open spec fn pow10(e: nat) -> nat
    decreases e,
{
    if e == 0 {
        1
    } else {
        10 * pow10((e - 1) as nat)
    }
}

pub broadcast proof fn lemma_pow10_pos(e: nat)
    ensures
        #[trigger] pow10(e) >= 1,
    decreases e,
{
    if e > 0 {
        lemma_pow10_pos((e - 1) as nat);
    }
}

pub proof fn lemma_pow10_adds(a: nat, b: nat)
    ensures
        pow10(a + b) == pow10(a) * pow10(b),
    decreases a,
{
    if a == 0 {
        assert(pow10(b) == 1 * pow10(b));
    } else {
        lemma_pow10_adds((a - 1) as nat, b);
        assert(pow10(a + b) == 10 * pow10((a - 1 + b) as nat));
        assert(10 * (pow10((a - 1) as nat) * pow10(b)) == (10 * pow10((a - 1) as nat)) * pow10(b))
            by (nonlinear_arith);
    }
}

/// `10^e` for `e <= 18`, executable.
pub fn pow10_u64(e: u64) -> (r: u64)
    requires
        e <= 18,
    ensures
        r == pow10(e as nat),
{
    proof {
        lemma_pow10_values();
    }
    let mut r: u64 = 1;
    let mut i: u64 = 0;
    while i < e
        invariant
            i <= e <= 18,
            r == pow10(i as nat),
        decreases e - i,
    {
        proof {
            lemma_pow10_mono(i as nat + 1, 18);
            lemma_pow10_values();
        }
        r = r * 10;
        i = i + 1;
    }
    r
}

/// Monotonicity of `pow10` in the exponent.
pub proof fn lemma_pow10_mono(a: nat, b: nat)
    requires
        a <= b,
    ensures
        pow10(a) <= pow10(b),
    decreases b,
{
    if a < b {
        lemma_pow10_mono(a, (b - 1) as nat);
        lemma_pow10_pos((b - 1) as nat);
    }
}

/// Concrete values of small powers of ten.
pub proof fn lemma_pow10_values()
    ensures
        pow10(0) == 1,
        pow10(1) == 10,
        pow10(2) == 100,
        pow10(3) == 1000,
        pow10(4) == 10000,
        pow10(5) == 100000,
        pow10(6) == 1000000,
        pow10(7) == 10000000,
        pow10(8) == 100000000,
        pow10(9) == 1000000000,
        pow10(10) == 10000000000,
        pow10(11) == 100000000000,
        pow10(12) == 1000000000000,
        pow10(13) == 10000000000000,
        pow10(14) == 100000000000000,
        pow10(15) == 1000000000000000,
        pow10(16) == 10000000000000000,
        pow10(17) == 100000000000000000,
        pow10(18) == 1000000000000000000,
{
    reveal_with_fuel(pow10, 20);
}

} // verus!
