//! The exact angle type underlying coordinates.
//!
//! An [`Angle`] holds a signed angle in degrees as `units / (360000 * 10^exp)`
//! of a degree. 360000 units per degree make a whole number of units out of
//! whole degrees, minutes, seconds and hundredths of a second alike; the
//! additional factor `10^exp` carries decimal fractions of those. The
//! representation is kept canonical (no trailing decimal zeros, a single
//! zero), so structural equality of two angles coincides with equality of
//! their exact rational values.

use vstd::prelude::*;

use crate::rational::{lemma_pow10_adds, lemma_pow10_mono, lemma_pow10_values,
    lemma_rat_eq_from_cross, lemma_rat_eq_trans_aux, pow10, pow10_u64, rat, rat_eq, Rat};

verus! {

broadcast use crate::rational::lemma_pow10_pos;

/// Units per degree at decimal exponent zero: one unit is 1/100 arc second.
pub const UNITS_PER_DEGREE: u64 = 360000;

/// Largest decimal exponent an angle may carry.
pub const MAX_EXP: u64 = 10;

/// Units per degree at the largest exponent: `360000 * 10^10`.
pub const UNITS_PER_DEGREE_TOP: u64 = 3_600_000_000_000_000;

/// Strict bound on the magnitude of any angle, in degrees. Every magnitude
/// the coordinate grammars can denote stays under 1001 degrees.
pub const DEGREE_BOUND: u64 = 1002;

/// An exact signed angle in degrees: `(-1)^neg * units / (360000 * 10^exp)`.
#[derive(Clone, Copy, Debug, PartialEq, Eq, Structural)]
pub struct Angle {
    neg: bool,
    units: u64,
    exp: u64,
}

impl Angle {
    /// Whether the angle is negative (never true for zero).
    pub closed spec fn neg_spec(self) -> bool {
        self.neg
    }

    /// The magnitude, in units of `1 / (360000 * 10^exp)` degree.
    pub closed spec fn units_spec(self) -> u64 {
        self.units
    }

    /// The decimal exponent of the scale.
    pub closed spec fn exp_spec(self) -> u64 {
        self.exp
    }

    /// Units per degree on this angle's scale.
    pub open spec fn scale(self) -> int {
        UNITS_PER_DEGREE * pow10(self.exp_spec() as nat)
    }

    /// The exact value of the angle, in degrees.
    pub open spec fn value(self) -> Rat {
        Rat {
            n: if self.neg_spec() {
                -(self.units_spec() as int)
            } else {
                self.units_spec() as int
            },
            d: self.scale(),
        }
    }

    /// Canonical-form invariant: bounded magnitude, no trailing decimal zero,
    /// and an unsigned zero on the coarsest scale.
    #[verifier::type_invariant]
    pub open spec fn inv(self) -> bool {
        &&& self.exp_spec() <= MAX_EXP
        &&& (self.units_spec() as int) < DEGREE_BOUND * self.scale()
        &&& (self.units_spec() % 10 != 0 || self.exp_spec() == 0)
        &&& (self.units_spec() == 0 ==> self.exp_spec() == 0 && !self.neg_spec())
    }

    /// The angle as a whole number of units on the finest scale,
    /// `1 / (360000 * 10^10)` degree, signed.
    pub open spec fn kappa(self) -> int {
        let m = self.units_spec() * pow10((MAX_EXP - self.exp_spec()) as nat);
        if self.neg_spec() {
            -m
        } else {
            m
        }
    }

    /// `kappa` is the angle's value brought to the common finest scale:
    /// `kappa / (360000 * 10^10)` equals the angle in degrees.
    pub proof fn lemma_kappa_value(self)
        requires
            self.inv(),
        ensures
            self.value().d > 0,
            rat_eq(Rat { n: self.kappa(), d: UNITS_PER_DEGREE_TOP as int }, self.value()),
            -(DEGREE_BOUND * UNITS_PER_DEGREE_TOP) < self.kappa() < DEGREE_BOUND
                * UNITS_PER_DEGREE_TOP,
    {
        lemma_pow10_values();
        lemma_pow10_adds((MAX_EXP - self.exp_spec()) as nat, self.exp_spec() as nat);
        let pd = pow10((MAX_EXP - self.exp_spec()) as nat);
        let pe = pow10(self.exp_spec() as nat);
        assert((self.units_spec() * pd) * (UNITS_PER_DEGREE * pe) == self.units_spec() * (
        UNITS_PER_DEGREE_TOP as int)) by (nonlinear_arith)
            requires
                UNITS_PER_DEGREE_TOP == UNITS_PER_DEGREE * (pd * pe),
        ;
        assert(UNITS_PER_DEGREE * (pd * pe) == UNITS_PER_DEGREE_TOP);
        lemma_rat_eq_from_cross(
            (self.units_spec() * pd) as int,
            UNITS_PER_DEGREE_TOP as int,
            self.units_spec() as int,
            UNITS_PER_DEGREE * pe,
        );
        assert(self.units_spec() * pd < DEGREE_BOUND * UNITS_PER_DEGREE_TOP) by (nonlinear_arith)
            requires
                (self.units_spec() as int) < DEGREE_BOUND * (UNITS_PER_DEGREE * pe),
                UNITS_PER_DEGREE_TOP == UNITS_PER_DEGREE * (pd * pe),
                pd >= 1,
                pe >= 1,
        ;
        assert(self.units_spec() * pd >= 0) by (nonlinear_arith)
            requires
                pd >= 1,
        ;
    }

    /// The angle's value on the common finest scale, executable.
    pub fn kappa_i64(&self) -> (k: i64)
        ensures
            k == self.kappa(),
            -(DEGREE_BOUND * UNITS_PER_DEGREE_TOP) < k < DEGREE_BOUND * UNITS_PER_DEGREE_TOP,
    {
        proof {
            use_type_invariant(self);
            self.lemma_kappa_value();
            lemma_pow10_mono((MAX_EXP - self.exp_spec()) as nat, 10);
            lemma_pow10_values();
        }
        let m: u64 = self.units * pow10_u64(10 - self.exp);
        if self.neg {
            -(m as i64)
        } else {
            m as i64
        }
    }

    /// Exposes whether the angle is negative.
    pub fn is_negative(&self) -> (b: bool)
        ensures
            b == self.neg_spec(),
    {
        self.neg
    }

    /// Exposes the magnitude in units of `1 / (360000 * 10^exp)` degree.
    pub fn units(&self) -> (u: u64)
        ensures
            u == self.units_spec(),
    {
        self.units
    }

    /// Exposes the decimal exponent of the scale.
    pub fn frac_exp(&self) -> (e: u64)
        ensures
            e == self.exp_spec(),
    {
        self.exp
    }

    /// The whole-degree part, truncated toward zero.
    pub open spec fn deg_trunc(self) -> int {
        let w = self.units_spec() as int / self.scale();
        if self.neg_spec() {
            -w
        } else {
            w
        }
    }

    /// The whole minutes within the degree, from the magnitude.
    pub open spec fn min_floor(self) -> int {
        (60 * (self.units_spec() as int % self.scale())) / self.scale()
    }

    /// The seconds within the minute, from the magnitude, exact.
    pub open spec fn sec_full(self) -> Rat {
        Rat { n: 60 * ((60 * self.units_spec() as int) % self.scale()), d: self.scale() }
    }

    /// The seconds within the minute, rounded to the nearest whole second,
    /// halves away from zero.
    pub open spec fn sec_round(self) -> int {
        (120 * ((60 * self.units_spec() as int) % self.scale()) + self.scale()) / (2 * self.scale())
    }

    /// The decimal minutes past the whole degrees, from the magnitude,
    /// exact.
    pub open spec fn md_value(self) -> Rat {
        Rat { n: 60 * (self.units_spec() as int % self.scale()), d: self.scale() }
    }

    /// The whole-degree part, truncated toward zero.
    pub fn deg_i32(&self) -> (r: i32)
        ensures
            r as int == self.deg_trunc(),
    {
        proof {
            use_type_invariant(self);
        }
        let s = self.scale_u64();
        let w: u64 = self.units / s;
        proof {
            assert(w < DEGREE_BOUND) by (nonlinear_arith)
                requires
                    w == (self.units_spec() as int) / (s as int),
                    self.units_spec() < DEGREE_BOUND * s,
                    s > 0,
            ;
        }
        if self.neg {
            -(w as i32)
        } else {
            w as i32
        }
    }

    /// The whole minutes within the degree.
    pub fn min_i32(&self) -> (r: i32)
        ensures
            r as int == self.min_floor(),
    {
        proof {
            use_type_invariant(self);
        }
        let s = self.scale_u64();
        let rem: u64 = self.units % s;
        proof {
            assert(60 * rem < 60 * s) by (nonlinear_arith)
                requires
                    rem < s,
                    s > 0,
            ;
            assert(((60 * rem) as int) / (s as int) < 60) by (nonlinear_arith)
                requires
                    60 * rem < 60 * s,
                    s > 0,
            ;
        }
        let m: u64 = (60 * rem) / s;
        m as i32
    }

    /// The seconds within the minute, rounded to the nearest whole second.
    pub fn sec_u32(&self) -> (r: u32)
        ensures
            r as int == self.sec_round(),
    {
        proof {
            use_type_invariant(self);
        }
        let s = self.scale_u64();
        let big: u128 = 60 * (self.units as u128);
        let rem: u64 = (big % (s as u128)) as u64;
        proof {
            assert(rem == (60 * self.units_spec() as int) % self.scale());
            assert(120 * rem + s <= 121 * s) by (nonlinear_arith)
                requires
                    rem < s,
            ;
            assert(((120 * rem + s) as int) / (2 * (s as int)) <= 60) by (nonlinear_arith)
                requires
                    120 * rem + s <= 121 * s,
                    s > 0,
            ;
        }
        let r: u64 = (120 * rem + s) / (2 * s);
        r as u32
    }

    /// The seconds within the minute, exact, as an angle-valued quantity.
    pub fn sec_angle(&self) -> (r: Angle)
        ensures
            r.inv(),
            rat_eq(r.value(), self.sec_full()),
    {
        proof {
            use_type_invariant(self);
        }
        let s = self.scale_u64();
        let big: u128 = 60 * (self.units as u128);
        let rem: u64 = (big % (s as u128)) as u64;
        let x: u64 = 60 * rem;
        proof {
            assert(x < 60 * s) by (nonlinear_arith)
                requires
                    rem < s,
                    x == 60 * rem,
            ;
        }
        self.rescaled(x)
    }

    /// The decimal minutes past the whole degrees of the magnitude, exact,
    /// as an angle-valued quantity.
    pub fn md_angle(&self) -> (r: Angle)
        ensures
            r.inv(),
            rat_eq(r.value(), self.md_value()),
    {
        proof {
            use_type_invariant(self);
        }
        let s = self.scale_u64();
        let rem: u64 = self.units % s;
        let x: u64 = 60 * rem;
        proof {
            assert(x < 60 * s) by (nonlinear_arith)
                requires
                    rem < s,
                    x == 60 * rem,
            ;
        }
        self.rescaled(x)
    }

    /// Units per degree on this angle's scale, executable.
    fn scale_u64(&self) -> (s: u64)
        ensures
            s == self.scale(),
            360000 <= s <= UNITS_PER_DEGREE_TOP,
    {
        proof {
            use_type_invariant(self);
            lemma_pow10_mono(self.exp_spec() as nat, 10);
            lemma_pow10_values();
            assert(UNITS_PER_DEGREE * pow10(self.exp_spec() as nat) <= UNITS_PER_DEGREE * pow10(10))
                by (nonlinear_arith)
                requires
                    pow10(self.exp_spec() as nat) <= pow10(10),
            ;
        }
        UNITS_PER_DEGREE * pow10_u64(self.exp)
    }

    /// Builds the canonical angle of value `x / scale` on this angle's own
    /// scale, nonnegative.
    fn rescaled(&self, x: u64) -> (r: Angle)
        requires
            x < 61 * self.scale(),
        ensures
            r.inv(),
            rat_eq(r.value(), Rat { n: x as int, d: self.scale() }),
    {
        proof {
            use_type_invariant(self);
            lemma_pow10_values();
            lemma_pow10_mono((MAX_EXP - self.exp_spec()) as nat, 10);
            lemma_pow10_adds((MAX_EXP - self.exp_spec()) as nat, self.exp_spec() as nat);
            // x * 10^(10-e) stays far under the constructor's bound.
            assert(x * pow10((MAX_EXP - self.exp_spec()) as nat) < DEGREE_BOUND
                * UNITS_PER_DEGREE_TOP) by (nonlinear_arith)
                requires
                    x < 61 * (UNITS_PER_DEGREE * pow10(self.exp_spec() as nat)),
                    pow10((MAX_EXP - self.exp_spec()) as nat) * pow10(self.exp_spec() as nat)
                        == pow10(10),
                    pow10(10) == 10000000000,
                    UNITS_PER_DEGREE == 360000,
                    DEGREE_BOUND * UNITS_PER_DEGREE_TOP == 3_607_200_000_000_000_000,
            ;
        }
        let top_units: u64 = x * pow10_u64(10 - self.exp);
        let r = Angle::from_top_units(false, top_units);
        proof {
            // top_units / TOP == x / scale.
            assert(top_units * (UNITS_PER_DEGREE * pow10(self.exp_spec() as nat)) == x * (
            UNITS_PER_DEGREE_TOP as int)) by (nonlinear_arith)
                requires
                    top_units == x * pow10((MAX_EXP - self.exp_spec()) as nat),
                    pow10((MAX_EXP - self.exp_spec()) as nat) * pow10(self.exp_spec() as nat)
                        == pow10(10),
                    UNITS_PER_DEGREE * pow10(10) == UNITS_PER_DEGREE_TOP,
            ;
            lemma_rat_eq_from_cross(
                top_units as int,
                UNITS_PER_DEGREE_TOP as int,
                x as int,
                self.scale(),
            );
            lemma_rat_eq_trans_aux(
                r.value(),
                rat(top_units as int, UNITS_PER_DEGREE_TOP as int),
                Rat { n: x as int, d: self.scale() },
            );
        }
        r
    }

    /// Builds the canonical angle of value `units / (360000 * 10^10)` degrees,
    /// negative if `negative` is set and the value is not zero.
    pub fn from_top_units(negative: bool, units: u64) -> (r: Angle)
        requires
            units < DEGREE_BOUND * UNITS_PER_DEGREE_TOP,
        ensures
            r.inv(),
            rat_eq(
                r.value(),
                rat(
                    if negative {
                        -(units as int)
                    } else {
                        units as int
                    },
                    UNITS_PER_DEGREE_TOP as int,
                ),
            ),
    {
        proof {
            lemma_pow10_values();
            assert(units == units * pow10(0));
            assert(DEGREE_BOUND * UNITS_PER_DEGREE_TOP == DEGREE_BOUND * UNITS_PER_DEGREE * pow10(
                MAX_EXP as nat,
            )) by (nonlinear_arith)
                requires
                    pow10(MAX_EXP as nat) == 10000000000,
            ;
        }
        let mut u: u64 = units;
        let mut e: u64 = MAX_EXP;
        while u % 10 == 0 && e > 0
            invariant
                e <= MAX_EXP,
                units == u * pow10((MAX_EXP - e) as nat),
                (u as int) < DEGREE_BOUND * UNITS_PER_DEGREE * pow10(e as nat),
            decreases e,
        {
            let u2: u64 = u / 10;
            proof {
                let ghost p = pow10((MAX_EXP - e) as nat);
                assert(u == u2 * 10);
                assert((u2 * 10) * p == u2 * (10 * p)) by (nonlinear_arith);
                assert(pow10((MAX_EXP - e + 1) as nat) == 10 * p);
                assert(u2 * 10 < DEGREE_BOUND * UNITS_PER_DEGREE * pow10(e as nat));
                assert(pow10(e as nat) == 10 * pow10((e - 1) as nat));
                assert(u2 * 10 < (DEGREE_BOUND * UNITS_PER_DEGREE) * (10 * pow10(
                    (e - 1) as nat,
                )) ==> u2 < (DEGREE_BOUND * UNITS_PER_DEGREE) * pow10((e - 1) as nat)) by (
                nonlinear_arith);
                assert((DEGREE_BOUND * UNITS_PER_DEGREE) * (10 * pow10((e - 1) as nat))
                    == DEGREE_BOUND * UNITS_PER_DEGREE * pow10(e as nat)) by (nonlinear_arith)
                    requires
                        pow10(e as nat) == 10 * pow10((e - 1) as nat),
                ;
            }
            u = u2;
            e = e - 1;
        }
        let r = Angle { neg: negative && u != 0, units: u, exp: e };
        proof {
            assert((u as int) < DEGREE_BOUND * (UNITS_PER_DEGREE * pow10(e as nat))) by (
            nonlinear_arith)
                requires
                    (u as int) < DEGREE_BOUND * UNITS_PER_DEGREE * pow10(e as nat),
            ;
            assert(r.inv());
            // Value preservation: u / (360000 * 10^e) == units / (360000 * 10^10).
            let ghost pe = pow10(e as nat);
            let ghost pd = pow10((MAX_EXP - e) as nat);
            lemma_pow10_adds((MAX_EXP - e) as nat, e as nat);
            assert(pow10(MAX_EXP as nat) == pd * pe);
            assert(u * (UNITS_PER_DEGREE_TOP as int) == (u * pd) * (UNITS_PER_DEGREE * pe)) by (
            nonlinear_arith)
                requires
                    UNITS_PER_DEGREE_TOP == UNITS_PER_DEGREE * (pd * pe),
            ;
            assert(UNITS_PER_DEGREE * (pd * pe) == UNITS_PER_DEGREE_TOP);
            lemma_rat_eq_from_cross(
                u as int,
                UNITS_PER_DEGREE * pe,
                units as int,
                UNITS_PER_DEGREE_TOP as int,
            );
            if u == 0 {
                assert(units == 0) by (nonlinear_arith)
                    requires
                        units == u * pd,
                        u == 0,
                ;
            }
        }
        r
    }

    /// Builds the angle of value `(-1)^negative * mantissa / 10^frac_digits`
    /// degrees, exactly.
    pub fn from_decimal(negative: bool, mantissa: u64, frac_digits: u64) -> (r: Angle)
        requires
            frac_digits <= 12,
            mantissa < DEGREE_BOUND * pow10(frac_digits as nat),
        ensures
            r.inv(),
            rat_eq(
                r.value(),
                rat(
                    if negative {
                        -(mantissa as int)
                    } else {
                        mantissa as int
                    },
                    pow10(frac_digits as nat) as int,
                ),
            ),
    {
        proof {
            lemma_pow10_values();
            lemma_pow10_mono((14 - frac_digits) as nat, 14);
        }
        // mantissa / 10^fd == (mantissa * 36 * 10^(14 - fd)) / (360000 * 10^10).
        let factor: u64 = 36 * pow10_u64(14 - frac_digits);
        proof {
            let ghost fd = frac_digits as nat;
            let ghost pf = pow10(fd);
            let ghost pc = pow10((14 - frac_digits) as nat);
            lemma_pow10_adds((14 - frac_digits) as nat, fd);
            lemma_pow10_values();
            assert(pc * pf == pow10(14));
            assert(mantissa * (36 * pc) < (DEGREE_BOUND * pf) * (36 * pc)) by (nonlinear_arith)
                requires
                    mantissa < DEGREE_BOUND * pf,
                    pc >= 1,
            ;
            assert((DEGREE_BOUND * pf) * (36 * pc) == DEGREE_BOUND * 36 * (pf * pc)) by (
            nonlinear_arith);
            assert(DEGREE_BOUND * 36 * pow10(14) == DEGREE_BOUND * UNITS_PER_DEGREE_TOP);
            assert(mantissa * (36 * pc) < DEGREE_BOUND * UNITS_PER_DEGREE_TOP);
            assert(mantissa * factor == mantissa * (36 * pc));
        }
        let units: u64 = mantissa * factor;
        let r = Angle::from_top_units(negative, units);
        proof {
            // units * 10^fd == mantissa * UNITS_PER_DEGREE_TOP.
            let ghost fd = frac_digits as nat;
            let ghost pf = pow10(fd);
            let ghost pc = pow10((14 - frac_digits) as nat);
            lemma_pow10_adds((14 - frac_digits) as nat, fd);
            lemma_pow10_values();
            assert(units * (pf as int) == mantissa * (UNITS_PER_DEGREE_TOP as int)) by (
            nonlinear_arith)
                requires
                    units == mantissa * (36 * pc),
                    UNITS_PER_DEGREE_TOP == 36 * (pc * pf),
            ;
            lemma_rat_eq_from_cross(
                units as int,
                UNITS_PER_DEGREE_TOP as int,
                mantissa as int,
                pf as int,
            );
            lemma_rat_eq_trans_aux(
                r.value(),
                rat(
                    if negative {
                        -(units as int)
                    } else {
                        units as int
                    },
                    UNITS_PER_DEGREE_TOP as int,
                ),
                rat(
                    if negative {
                        -(mantissa as int)
                    } else {
                        mantissa as int
                    },
                    pf as int,
                ),
            );
        }
        r
    }
}

/// The representation is canonical: two well-formed angles of equal exact
/// value are structurally equal, so `==` on angles decides value equality.
pub proof fn lemma_value_determines_angle(a: Angle, b: Angle)
    requires
        a.inv(),
        b.inv(),
        rat_eq(a.value(), b.value()),
    ensures
        a == b,
{
    let ua = a.units_spec() as int;
    let ub = b.units_spec() as int;
    let pa = pow10(a.exp_spec() as nat) as int;
    let pb = pow10(b.exp_spec() as nat) as int;
    let na = a.value().n;
    let nb = b.value().n;
    assert(a.scale() > 0 && b.scale() > 0) by (nonlinear_arith)
        requires
            pa >= 1,
            pb >= 1,
            a.scale() == UNITS_PER_DEGREE * pa,
            b.scale() == UNITS_PER_DEGREE * pb,
    ;
    if ua == 0 {
        assert(nb == 0) by (nonlinear_arith)
            requires
                na * b.scale() == nb * a.scale(),
                na == 0,
                a.scale() > 0,
        ;
        assert(ub == 0);
    } else if ub == 0 {
        assert(na == 0) by (nonlinear_arith)
            requires
                na * b.scale() == nb * a.scale(),
                nb == 0,
                b.scale() > 0,
        ;
        assert(ua == 0);
    } else {
        // Signs agree: a positive and a negative side cannot cross-multiply
        // to the same product over positive scales.
        assert(a.neg_spec() == b.neg_spec()) by (nonlinear_arith)
            requires
                na * b.scale() == nb * a.scale(),
                a.scale() > 0,
                b.scale() > 0,
                na == if a.neg_spec() {
                    -ua
                } else {
                    ua
                },
                nb == if b.neg_spec() {
                    -ub
                } else {
                    ub
                },
                ua > 0,
                ub > 0,
        ;
        assert(ua * b.scale() == ub * a.scale()) by (nonlinear_arith)
            requires
                na * b.scale() == nb * a.scale(),
                na == if a.neg_spec() {
                    -ua
                } else {
                    ua
                },
                nb == if b.neg_spec() {
                    -ub
                } else {
                    ub
                },
                a.neg_spec() == b.neg_spec(),
        ;
        assert(ua * pb == ub * pa) by (nonlinear_arith)
            requires
                ua * (UNITS_PER_DEGREE * pb) == ub * (UNITS_PER_DEGREE * pa),
                UNITS_PER_DEGREE > 0,
        ;
        if a.exp_spec() <= b.exp_spec() {
            lemma_exp_cancel(ua, ub, a.exp_spec() as nat, b.exp_spec() as nat);
        } else {
            lemma_exp_cancel(ub, ua, b.exp_spec() as nat, a.exp_spec() as nat);
        }
    }
}

/// For canonical magnitudes with `ea <= eb` and equal values, the exponents
/// and magnitudes coincide.
proof fn lemma_exp_cancel(ua: int, ub: int, ea: nat, eb: nat)
    requires
        ea <= eb,
        ua > 0,
        ub > 0,
        ua * pow10(eb) == ub * pow10(ea),
        ua % 10 != 0 || ea == 0,
        ub % 10 != 0 || eb == 0,
    ensures
        ea == eb,
        ua == ub,
{
    lemma_pow10_adds(ea, (eb - ea) as nat);
    let pd = pow10((eb - ea) as nat) as int;
    assert(ua * pd == ub) by (nonlinear_arith)
        requires
            ua * (pow10(ea) * pd) == ub * pow10(ea),
            pow10(ea) >= 1,
    ;
    if ea < eb {
        assert(pd == 10 * pow10((eb - ea - 1) as nat));
        let k = ua * pow10((eb - ea - 1) as nat) as int;
        assert(ub == k * 10) by (nonlinear_arith)
            requires
                ub == ua * pd,
                pd == 10 * pow10((eb - ea - 1) as nat),
                k == ua * pow10((eb - ea - 1) as nat) as int,
        ;
        vstd::arithmetic::div_mod::lemma_mod_multiples_basic(k, 10);
        assert(eb > 0);
        assert(false);
    }
    assert(pd == 1);
    assert(ua == ub) by (nonlinear_arith)
        requires
            ua * pd == ub,
            pd == 1,
    ;
}

} // verus!
