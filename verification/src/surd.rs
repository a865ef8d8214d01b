//! Exact arithmetic on numbers of the form `units + roots * sqrt(2)`.
//!
//! Every step on an eight-connected grid has length `1` or `sqrt(2)`, so the
//! length of every walk is such a number with natural coefficients. Lengths
//! are compared exactly, over the integers, by comparing squares.

use vstd::prelude::*;

verus! {

/// The number `units + roots * sqrt(2)`.
pub struct Surd {
    pub units: int,
    pub roots: int,
}

impl Surd {
    pub open spec fn zero() -> Surd {
        Surd { units: 0, roots: 0 }
    }

    /// The length of one move along a row or a column.
    pub open spec fn one() -> Surd {
        Surd { units: 1, roots: 0 }
    }

    /// The length of one diagonal move.
    pub open spec fn root_two() -> Surd {
        Surd { units: 0, roots: 1 }
    }

    pub open spec fn plus(self, other: Surd) -> Surd {
        Surd { units: self.units + other.units, roots: self.roots + other.roots }
    }

    pub open spec fn minus(self, other: Surd) -> Surd {
        Surd { units: self.units - other.units, roots: self.roots - other.roots }
    }

    /// The product, by `sqrt(2) * sqrt(2) == 2`.
    pub open spec fn times(self, other: Surd) -> Surd {
        Surd {
            units: self.units * other.units + 2 * self.roots * other.roots,
            roots: self.units * other.roots + self.roots * other.units,
        }
    }

    /// `0 <= units + roots * sqrt(2)`. Where the two coefficients differ in
    /// sign, the positive term must outweigh the negative one, which is
    /// decided by comparing `units^2` with `2 * roots^2`.
    #[verifier::opaque]
    pub open spec fn is_nonneg(self) -> bool {
        if self.units >= 0 && self.roots >= 0 {
            true
        } else if self.units <= 0 && self.roots <= 0 {
            false
        } else if self.units > 0 {
            self.units * self.units >= 2 * self.roots * self.roots
        } else {
            self.units * self.units <= 2 * self.roots * self.roots
        }
    }

    /// `self <= other` as real numbers.
    pub open spec fn le(self, other: Surd) -> bool {
        other.minus(self).is_nonneg()
    }

    /// `self < other` as real numbers.
    pub open spec fn lt(self, other: Surd) -> bool {
        !other.le(self)
    }

    /// The real number that `self` stands for, where `r` is the square root
    /// of 2.
    pub open spec fn value(self, r: real) -> real {
        self.units as real + (self.roots as real) * r
    }
}

spec fn pos_part(a: int) -> int {
    if a > 0 {
        a
    } else {
        0
    }
}

spec fn neg_part(a: int) -> int {
    if a < 0 {
        -a
    } else {
        0
    }
}

/// A number is non-negative exactly when its negative unit part is at most
/// its positive root part, and its positive unit part at least its negative
/// root part.
proof fn lemma_nonneg_by_parts(x: Surd)
    ensures
        x.is_nonneg() <==> (neg_part(x.units) * neg_part(x.units) <= 2 * pos_part(x.roots)
            * pos_part(x.roots) && pos_part(x.units) * pos_part(x.units) >= 2 * neg_part(x.roots)
            * neg_part(x.roots)),
{
    reveal(Surd::is_nonneg);
    let a = x.units;
    let b = x.roots;
    assert(a != 0 ==> a * a > 0) by (nonlinear_arith);
    assert(b != 0 ==> 2 * b * b > 0) by (nonlinear_arith);
    assert((-a) * (-a) == a * a) by (nonlinear_arith);
    assert(2 * (-b) * (-b) == 2 * b * b) by (nonlinear_arith);
}

/// `p <= q * sqrt(2)` and `r <= s * sqrt(2)` give `p * r <= 2 * q * s`.
proof fn lemma_product_below(p: int, q: int, r: int, s: int)
    requires
        0 <= p,
        0 <= q,
        0 <= r,
        0 <= s,
        p * p <= 2 * q * q,
        r * r <= 2 * s * s,
    ensures
        p * r <= 2 * q * s,
{
    if p * r > 2 * q * s {
        assert(2 * q * s >= 0) by (nonlinear_arith)
            requires
                q >= 0,
                s >= 0,
        ;
        assert((p * r) * (p * r) > (2 * q * s) * (2 * q * s)) by (nonlinear_arith)
            requires
                p * r > 2 * q * s,
                2 * q * s >= 0,
        ;
        assert((p * r) * (p * r) == (p * p) * (r * r)) by (nonlinear_arith);
        assert((p * p) * (r * r) <= (2 * q * q) * (r * r)) by (nonlinear_arith)
            requires
                p * p <= 2 * q * q,
                r * r >= 0,
        ;
        assert((2 * q * q) * (r * r) <= (2 * q * q) * (2 * s * s)) by (nonlinear_arith)
            requires
                r * r <= 2 * s * s,
                2 * q * q >= 0,
        ;
        assert((2 * q * q) * (2 * s * s) == (2 * q * s) * (2 * q * s)) by (nonlinear_arith);
    }
}

/// `p >= q * sqrt(2)` and `r >= s * sqrt(2)` give `p * r >= 2 * q * s`.
proof fn lemma_product_above(p: int, q: int, r: int, s: int)
    requires
        0 <= p,
        0 <= q,
        0 <= r,
        0 <= s,
        p * p >= 2 * q * q,
        r * r >= 2 * s * s,
    ensures
        p * r >= 2 * q * s,
{
    if p * r < 2 * q * s {
        assert(p * r >= 0) by (nonlinear_arith)
            requires
                p >= 0,
                r >= 0,
        ;
        assert((p * r) * (p * r) < (2 * q * s) * (2 * q * s)) by (nonlinear_arith)
            requires
                p * r < 2 * q * s,
                p * r >= 0,
        ;
        assert((p * r) * (p * r) == (p * p) * (r * r)) by (nonlinear_arith);
        assert((p * p) * (r * r) >= (2 * q * q) * (r * r)) by (nonlinear_arith)
            requires
                p * p >= 2 * q * q,
                r * r >= 0,
        ;
        assert((2 * q * q) * (r * r) >= (2 * q * q) * (2 * s * s)) by (nonlinear_arith)
            requires
                r * r >= 2 * s * s,
                2 * q * q >= 0,
        ;
        assert((2 * q * q) * (2 * s * s) == (2 * q * s) * (2 * q * s)) by (nonlinear_arith);
    }
}

/// `p <= q * sqrt(2)` and `r <= s * sqrt(2)` give `p + r <= (q + s) * sqrt(2)`,
/// strictly where the first is strict.
proof fn lemma_sum_below(p: int, q: int, r: int, s: int)
    requires
        0 <= p,
        0 <= q,
        0 <= r,
        0 <= s,
        p * p <= 2 * q * q,
        r * r <= 2 * s * s,
    ensures
        (p + r) * (p + r) <= 2 * (q + s) * (q + s),
        p * p < 2 * q * q ==> (p + r) * (p + r) < 2 * (q + s) * (q + s),
{
    lemma_product_below(p, q, r, s);
    assert((p + r) * (p + r) == p * p + 2 * (p * r) + r * r) by (nonlinear_arith);
    assert(2 * (q + s) * (q + s) == 2 * q * q + 2 * (2 * q * s) + 2 * s * s) by (nonlinear_arith);
}

/// `p >= q * sqrt(2)` and `r >= s * sqrt(2)` give `p + r >= (q + s) * sqrt(2)`,
/// strictly where the first is strict.
proof fn lemma_sum_above(p: int, q: int, r: int, s: int)
    requires
        0 <= p,
        0 <= q,
        0 <= r,
        0 <= s,
        p * p >= 2 * q * q,
        r * r >= 2 * s * s,
    ensures
        (p + r) * (p + r) >= 2 * (q + s) * (q + s),
        p * p > 2 * q * q ==> (p + r) * (p + r) > 2 * (q + s) * (q + s),
{
    lemma_product_above(p, q, r, s);
    assert((p + r) * (p + r) == p * p + 2 * (p * r) + r * r) by (nonlinear_arith);
    assert(2 * (q + s) * (q + s) == 2 * q * q + 2 * (2 * q * s) + 2 * s * s) by (nonlinear_arith);
}

/// With `gain >= loss_roots * sqrt(2)` and `loss <= gain_roots * sqrt(2)`, the
/// number `(gain - loss) + (gain_roots - loss_roots) * sqrt(2)` is
/// non-negative.
proof fn lemma_balance(gain: int, loss: int, gain_roots: int, loss_roots: int)
    requires
        0 <= gain,
        0 <= loss,
        0 <= gain_roots,
        0 <= loss_roots,
        gain * gain >= 2 * loss_roots * loss_roots,
        loss * loss <= 2 * gain_roots * gain_roots,
    ensures
        (Surd { units: gain - loss, roots: gain_roots - loss_roots }).is_nonneg(),
{
    reveal(Surd::is_nonneg);
    let e = gain - loss;
    let f = gain_roots - loss_roots;
    if e >= 0 && f >= 0 {
    } else if e <= 0 && f <= 0 {
        // gain <= loss <= gain_roots * sqrt(2) <= loss_roots * sqrt(2) <= gain
        assert(gain * gain <= loss * loss) by (nonlinear_arith)
            requires
                0 <= gain <= loss,
        ;
        assert(2 * gain_roots * gain_roots <= 2 * loss_roots * loss_roots) by (nonlinear_arith)
            requires
                0 <= gain_roots <= loss_roots,
        ;
        assert(gain < loss ==> gain * gain < loss * loss) by (nonlinear_arith)
            requires
                0 <= gain,
        ;
        assert(gain_roots < loss_roots ==> 2 * gain_roots * gain_roots < 2 * loss_roots
            * loss_roots) by (nonlinear_arith)
            requires
                0 <= gain_roots,
        ;
        assert(false);
    } else if e > 0 {
        // f < 0
        if e * e < 2 * f * f {
            assert(e * e < 2 * (-f) * (-f)) by (nonlinear_arith)
                requires
                    e * e < 2 * f * f,
            ;
            lemma_sum_below(e, -f, loss, gain_roots);
            assert(e + loss == gain);
            assert(-f + gain_roots == loss_roots);
            assert(false);
        }
    } else {
        // e < 0 < f
        if e * e > 2 * f * f {
            assert((-e) * (-e) > 2 * f * f) by (nonlinear_arith)
                requires
                    e * e > 2 * f * f,
            ;
            lemma_sum_above(-e, f, gain, loss_roots);
            assert(-e + gain == loss);
            assert(f + loss_roots == gain_roots);
            assert(false);
        }
    }
}

/// The sum of two non-negative numbers is non-negative.
pub proof fn lemma_nonneg_plus(x: Surd, y: Surd)
    requires
        x.is_nonneg(),
        y.is_nonneg(),
    ensures
        x.plus(y).is_nonneg(),
{
    lemma_nonneg_by_parts(x);
    lemma_nonneg_by_parts(y);
    let gain = pos_part(x.units) + pos_part(y.units);
    let loss = neg_part(x.units) + neg_part(y.units);
    let gain_roots = pos_part(x.roots) + pos_part(y.roots);
    let loss_roots = neg_part(x.roots) + neg_part(y.roots);
    lemma_sum_above(pos_part(x.units), neg_part(x.roots), pos_part(y.units), neg_part(y.roots));
    lemma_sum_below(neg_part(x.units), pos_part(x.roots), neg_part(y.units), pos_part(y.roots));
    lemma_balance(gain, loss, gain_roots, loss_roots);
    assert(x.plus(y) == Surd { units: gain - loss, roots: gain_roots - loss_roots });
}

/// No positive integer has a square that is twice a square: `sqrt(2)` is
/// irrational.
pub proof fn lemma_root_two_irrational(a: nat, b: nat)
    requires
        a * a == 2 * b * b,
    ensures
        a == 0,
        b == 0,
    decreases a,
{
    if a == 0 {
        assert(b != 0 ==> 2 * b * b > 0) by (nonlinear_arith);
    } else {
        let half = a / 2;
        if a % 2 == 1 {
            assert(a == 2 * half + 1);
            assert(a * a == 2 * (2 * half * half + 2 * half) + 1) by (nonlinear_arith)
                requires
                    a == 2 * half + 1,
            ;
            assert(2 * b * b == 2 * (b * b)) by (nonlinear_arith);
            assert(false);
        }
        assert(a == 2 * half);
        assert(a * a == 4 * half * half) by (nonlinear_arith)
            requires
                a == 2 * half,
        ;
        assert(b * b == 2 * half * half) by (nonlinear_arith)
            requires
                4 * half * half == 2 * b * b,
        ;
        assert(b < a) by (nonlinear_arith)
            requires
                a * a == 2 * b * b,
                a > 0,
        ;
        lemma_root_two_irrational(b, half);
        assert(false);
    }
}

/// A number with no negative coefficient is not negative.
pub proof fn lemma_nonneg_by_coefficients(x: Surd)
    requires
        x.units >= 0,
        x.roots >= 0,
    ensures
        x.is_nonneg(),
        Surd::zero().le(x),
{
    reveal(Surd::is_nonneg);
    assert(x.minus(Surd::zero()) == x);
}

/// Any two numbers are comparable.
pub proof fn lemma_le_total(x: Surd, y: Surd)
    ensures
        x.le(y) || y.le(x),
{
    reveal(Surd::is_nonneg);
    let d = y.minus(x);
    let e = x.minus(y);
    assert(e.units == -d.units && e.roots == -d.roots);
    assert((-d.units) * (-d.units) == d.units * d.units) by (nonlinear_arith);
    assert(2 * (-d.roots) * (-d.roots) == 2 * d.roots * d.roots) by (nonlinear_arith);
}

pub proof fn lemma_le_reflexive(x: Surd)
    ensures
        x.le(x),
{
    reveal(Surd::is_nonneg);
}

/// Two numbers that are each at most the other have the same coefficients.
pub proof fn lemma_le_antisymmetric(x: Surd, y: Surd)
    requires
        x.le(y),
        y.le(x),
    ensures
        x == y,
{
    reveal(Surd::is_nonneg);
    let d = y.minus(x);
    let e = x.minus(y);
    assert(e.units == -d.units && e.roots == -d.roots);
    assert((-d.units) * (-d.units) == d.units * d.units) by (nonlinear_arith);
    assert(2 * (-d.roots) * (-d.roots) == 2 * d.roots * d.roots) by (nonlinear_arith);
    if d.units != 0 || d.roots != 0 {
        let a: nat = if d.units >= 0 {
            d.units as nat
        } else {
            (-d.units) as nat
        };
        let b: nat = if d.roots >= 0 {
            d.roots as nat
        } else {
            (-d.roots) as nat
        };
        assert(a * a == d.units * d.units) by (nonlinear_arith)
            requires
                a == d.units || a == -d.units,
        ;
        assert(2 * b * b == 2 * d.roots * d.roots) by (nonlinear_arith)
            requires
                b == d.roots || b == -d.roots,
        ;
        lemma_root_two_irrational(a, b);
    }
}

pub proof fn lemma_le_transitive(x: Surd, y: Surd, z: Surd)
    requires
        x.le(y),
        y.le(z),
    ensures
        x.le(z),
{
    lemma_nonneg_plus(y.minus(x), z.minus(y));
    assert(y.minus(x).plus(z.minus(y)) == z.minus(x));
}

/// Adding the same number on both sides keeps the order, and so does
/// removing it.
pub proof fn lemma_le_plus_same(x: Surd, y: Surd, z: Surd)
    ensures
        x.plus(z).le(y.plus(z)) <==> x.le(y),
{
    assert(y.plus(z).minus(x.plus(z)) == y.minus(x));
}

/// Inequalities add up.
pub proof fn lemma_le_plus(x: Surd, y: Surd, z: Surd, w: Surd)
    requires
        x.le(y),
        z.le(w),
    ensures
        x.plus(z).le(y.plus(w)),
{
    lemma_nonneg_plus(y.minus(x), w.minus(z));
    assert(y.minus(x).plus(w.minus(z)) == y.plus(w).minus(x.plus(z)));
}

/// `x < y <= z` gives `x < z`.
pub proof fn lemma_lt_le_transitive(x: Surd, y: Surd, z: Surd)
    requires
        x.lt(y),
        y.le(z),
    ensures
        x.lt(z),
{
    if z.le(x) {
        lemma_le_transitive(y, z, x);
    }
}

/// `r` is the square root of 2.
pub open spec fn is_root_two(r: real) -> bool {
    r >= 0 as real && r * r == 2 as real
}

/// The sign test is that of the real number: with the square root of 2 in
/// the place of `sqrt(2)`, the number is non-negative exactly when
/// `is_nonneg` says so.
pub proof fn lemma_nonneg_is_real(x: Surd, r: real)
    requires
        is_root_two(r),
    ensures
        x.is_nonneg() <==> x.value(r) >= 0 as real,
{
    reveal(Surd::is_nonneg);
    let a = x.units as real;
    let b = x.roots as real;
    assert(x.is_nonneg() <==> a + b * r >= 0 as real) by (nonlinear_arith)
        requires
            r >= 0 as real,
            r * r == 2 as real,
            a == x.units as real,
            b == x.roots as real,
            x.is_nonneg() <==> (if x.units >= 0 && x.roots >= 0 {
                true
            } else if x.units <= 0 && x.roots <= 0 {
                false
            } else if x.units > 0 {
                x.units * x.units >= 2 * x.roots * x.roots
            } else {
                x.units * x.units <= 2 * x.roots * x.roots
            }),
    ;
}

/// The order is that of the real numbers.
pub proof fn lemma_le_is_real(x: Surd, y: Surd, r: real)
    requires
        is_root_two(r),
    ensures
        x.le(y) <==> x.value(r) <= y.value(r),
        x.lt(y) <==> x.value(r) < y.value(r),
{
    lemma_nonneg_is_real(y.minus(x), r);
    lemma_nonneg_is_real(x.minus(y), r);
    let b = x.roots as real;
    let d = y.roots as real;
    assert((d - b) * r == d * r - b * r) by (nonlinear_arith);
    assert((b - d) * r == b * r - d * r) by (nonlinear_arith);
}

/// The sum is that of the real numbers.
pub proof fn lemma_plus_is_real(x: Surd, y: Surd, r: real)
    ensures
        x.plus(y).value(r) == x.value(r) + y.value(r),
{
    let b = x.roots as real;
    let d = y.roots as real;
    assert((b + d) * r == b * r + d * r) by (nonlinear_arith);
}

} // verus!
