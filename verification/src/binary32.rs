//! Single-precision floating point (the `binary32` format of IEEE 754) on bit
//! patterns, with every operation proved to be correctly rounded.
//!
//! Temperatures, curve points and bias factors are numbers of this format. A
//! caller that holds a native single-precision number passes its bit pattern.
//!
//! Every finite number of the format is a whole multiple of two to the power
//! -149. Counted in that unit, values are integers ([`Binary32::scaled`]), and
//! the contracts below are statements about integers.

use vstd::prelude::*;
use vstd::arithmetic::power2::*;
use crate::bignat::BigNat;

verus! {

/// The magnitude (the bit pattern without its sign) of the infinities. The
/// finite numbers lie below it, what is not a number above it.
pub const INFINITY_MAGNITUDE: u32 = 0x7f80_0000;

/// A single-precision number, given by its bit pattern.
#[derive(Clone, Copy, Debug)]
pub struct Binary32 {
    pub bits: u32,
}

/// The value of magnitude `mag`, in units of two to the power -149. Infinity
/// counts as the number that would follow the largest finite one.
pub open spec fn units(mag: nat) -> nat {
    let exponent = mag / 0x80_0000;
    let fraction = mag % 0x80_0000;
    if exponent == 0 {
        fraction
    } else {
        (0x80_0000 + fraction) * pow2((exponent - 1) as nat)
    }
}

/// Whether `mag` is the magnitude nearest to `num / den` units: the quotient
/// lies between the midpoints to the neighbours of `mag`, and a quotient at a
/// midpoint goes to the even magnitude.
pub open spec fn rounds_to(num: nat, den: nat, mag: nat) -> bool {
    &&& mag <= INFINITY_MAGNITUDE
    &&& mag > 0 ==> {
        let below = (units((mag - 1) as nat) + units(mag)) * den;
        below < 2 * num || (below == 2 * num && mag % 2 == 0)
    }
    &&& mag < INFINITY_MAGNITUDE ==> {
        let above = (units(mag) + units(mag + 1)) * den;
        2 * num < above || (2 * num == above && mag % 2 == 0)
    }
}

/// The magnitude nearest to `num / den` units.
pub open spec fn nearest(num: nat, den: nat) -> nat {
    choose|mag: nat| rounds_to(num, den, mag)
}

/// The number with the given sign and magnitude.
pub open spec fn signed(negative: bool, mag: nat) -> Binary32 {
    Binary32 {
        bits: if negative {
            (0x8000_0000 + mag) as u32
        } else {
            mag as u32
        },
    }
}

/// The number of the given sign nearest to `num / den` units.
pub open spec fn rounded(negative: bool, num: nat, den: nat) -> Binary32 {
    signed(negative, nearest(num, den))
}

/// A result that is not a number.
pub open spec fn not_a_number() -> Binary32 {
    Binary32 { bits: 0x7fc0_0000 }
}

/// Units in one.
pub open spec fn one() -> nat {
    pow2(149)
}

pub open spec fn absolute(x: int) -> nat {
    if x < 0 {
        (-x) as nat
    } else {
        x as nat
    }
}

impl Binary32 {
    pub open spec fn magnitude(self) -> nat {
        (self.bits % 0x8000_0000) as nat
    }

    pub open spec fn negative(self) -> bool {
        self.bits >= 0x8000_0000
    }

    pub open spec fn is_nan(self) -> bool {
        self.magnitude() > INFINITY_MAGNITUDE
    }

    pub open spec fn is_infinite(self) -> bool {
        self.magnitude() == INFINITY_MAGNITUDE
    }

    pub open spec fn is_finite(self) -> bool {
        self.magnitude() < INFINITY_MAGNITUDE
    }

    pub open spec fn is_zero(self) -> bool {
        self.magnitude() == 0
    }

    /// The value in units of two to the power -149.
    pub open spec fn scaled(self) -> int {
        if self.negative() {
            -(units(self.magnitude()) as int)
        } else {
            units(self.magnitude()) as int
        }
    }

    /// Whether `self <= other`; false where one of them is not a number.
    pub open spec fn le(self, other: Binary32) -> bool {
        !self.is_nan() && !other.is_nan() && self.scaled() <= other.scaled()
    }

    /// Whether `self < other`; false where one of them is not a number.
    pub open spec fn lt(self, other: Binary32) -> bool {
        !self.is_nan() && !other.is_nan() && self.scaled() < other.scaled()
    }

    pub open spec fn negated(self) -> Binary32 {
        signed(!self.negative(), self.magnitude())
    }

    /// The sum, rounded.
    pub open spec fn sum(self, other: Binary32) -> Binary32 {
        if self.is_nan() || other.is_nan() {
            not_a_number()
        } else if self.is_infinite() {
            if other.is_infinite() && self.negative() != other.negative() {
                not_a_number()
            } else {
                self
            }
        } else if other.is_infinite() {
            other
        } else {
            let exact = self.scaled() + other.scaled();
            if exact == 0 {
                signed(self.negative() && other.negative(), 0)
            } else {
                rounded(exact < 0, absolute(exact), 1)
            }
        }
    }

    /// The difference, rounded.
    pub open spec fn difference(self, other: Binary32) -> Binary32 {
        self.sum(other.negated())
    }

    /// The product, rounded.
    pub open spec fn product(self, other: Binary32) -> Binary32 {
        let negative = self.negative() != other.negative();
        if self.is_nan() || other.is_nan() {
            not_a_number()
        } else if self.is_infinite() || other.is_infinite() {
            if self.is_zero() || other.is_zero() {
                not_a_number()
            } else {
                signed(negative, INFINITY_MAGNITUDE as nat)
            }
        } else {
            rounded(negative, units(self.magnitude()) * units(other.magnitude()), one())
        }
    }

    /// The quotient, rounded.
    pub open spec fn quotient(self, other: Binary32) -> Binary32 {
        let negative = self.negative() != other.negative();
        if self.is_nan() || other.is_nan() {
            not_a_number()
        } else if self.is_infinite() {
            if other.is_infinite() {
                not_a_number()
            } else {
                signed(negative, INFINITY_MAGNITUDE as nat)
            }
        } else if other.is_infinite() {
            signed(negative, 0)
        } else if other.is_zero() {
            if self.is_zero() {
                not_a_number()
            } else {
                signed(negative, INFINITY_MAGNITUDE as nat)
            }
        } else {
            rounded(negative, units(self.magnitude()) * one(), units(other.magnitude()))
        }
    }

    /// The nearest whole number (halfway cases away from zero), limited to
    /// the range from 0 to `cap`; 0 for what is not a number.
    pub open spec fn whole(self, cap: nat) -> nat {
        if self.is_nan() || self.scaled() <= 0 {
            0
        } else {
            let whole = (2 * units(self.magnitude()) + one()) / (2 * one());
            if whole > cap {
                cap
            } else {
                whole
            }
        }
    }
}

/// The number nearest to the integer `x`.
pub open spec fn of_int(x: int) -> Binary32 {
    rounded(x < 0, absolute(x) * one(), 1)
}

// ---------------------------------------------------------------------------
// Facts about rounding
// ---------------------------------------------------------------------------

/// Larger magnitudes stand for larger values.
pub proof fn lemma_units_step(mag: nat)
    ensures
        units(mag) < units(mag + 1),
{
    let e = mag / 0x80_0000;
    let f = mag % 0x80_0000;
    if f + 1 < 0x80_0000 {
        assert((mag + 1) / 0x80_0000 == e && (mag + 1) % 0x80_0000 == f + 1);
        if e > 0 {
            let p = pow2((e - 1) as nat);
            lemma_pow2_pos((e - 1) as nat);
            assert((0x80_0000 + f) * p < (0x80_0000 + f + 1) * p) by (nonlinear_arith)
                requires
                    p > 0,
            ;
            assert(units(mag) == (0x80_0000 + f) * p);
            assert(units(mag + 1) == (0x80_0000 + f + 1) * p);
        }
    } else {
        assert((mag + 1) / 0x80_0000 == e + 1 && (mag + 1) % 0x80_0000 == 0);
        lemma_pow2_pos(e);
        if e == 0 {
            lemma2_to64();
            assert(units(mag + 1) == 0x80_0000 * pow2(0));
        } else {
            let p = pow2((e - 1) as nat);
            lemma_pow2_pos((e - 1) as nat);
            lemma_pow2_unfold(e);
            assert((0x80_0000 + f) * p < 0x80_0000 * (2 * p)) by (nonlinear_arith)
                requires
                    p > 0,
                    f == 0x7f_ffff,
            ;
            assert(units(mag) == (0x80_0000 + f) * p);
            assert(units(mag + 1) == 0x80_0000 * (2 * p));
        }
    }
}

pub proof fn lemma_units_increasing(a: nat, b: nat)
    requires
        a <= b,
    ensures
        units(a) <= units(b),
        a < b ==> units(a) < units(b),
    decreases b - a,
{
    if a < b {
        lemma_units_increasing(a, (b - 1) as nat);
        lemma_units_step((b - 1) as nat);
    }
}

/// Rounding keeps the order of quotients.
pub proof fn lemma_rounds_to_ordered(n1: nat, d1: nat, m1: nat, n2: nat, d2: nat, m2: nat)
    requires
        d1 > 0,
        d2 > 0,
        n1 * d2 <= n2 * d1,
        rounds_to(n1, d1, m1),
        rounds_to(n2, d2, m2),
    ensures
        m1 <= m2,
{
    if m1 > m2 {
        let low1 = units((m1 - 1) as nat) + units(m1);
        let high2 = units(m2) + units(m2 + 1);
        lemma_units_increasing(m2, (m1 - 1) as nat);
        lemma_units_increasing(m2 + 1, m1);
        assert((low1 * d1) * d2 <= (2 * n1) * d2) by (nonlinear_arith)
            requires
                low1 * d1 <= 2 * n1,
        ;
        assert((2 * n2) * d1 <= (high2 * d2) * d1) by (nonlinear_arith)
            requires
                2 * n2 <= high2 * d2,
        ;
        assert((low1 * d1) * d2 <= (high2 * d2) * d1) by (nonlinear_arith)
            requires
                (low1 * d1) * d2 <= (2 * n1) * d2,
                (2 * n2) * d1 <= (high2 * d2) * d1,
                n1 * d2 <= n2 * d1,
        ;
        assert(low1 <= high2) by (nonlinear_arith)
            requires
                (low1 * d1) * d2 <= (high2 * d2) * d1,
                d1 > 0,
                d2 > 0,
        ;
        assert(low1 == high2);
        assert(m1 - 1 == m2);
        // Both quotients are then the midpoint between two neighbours, of which
        // only one is even.
        assert(low1 * d1 == 2 * n1) by (nonlinear_arith)
            requires
                low1 * d1 <= 2 * n1,
                2 * n2 <= low1 * d2,
                n1 * d2 <= n2 * d1,
                d1 > 0,
                d2 > 0,
        ;
        assert(low1 * d2 == 2 * n2) by (nonlinear_arith)
            requires
                low1 * d1 <= 2 * n1,
                2 * n2 <= low1 * d2,
                n1 * d2 <= n2 * d1,
                d1 > 0,
                d2 > 0,
        ;
    }
}

/// The nearest magnitude is the only one that the quotient rounds to.
pub proof fn lemma_nearest_is(num: nat, den: nat, mag: nat)
    requires
        den > 0,
        rounds_to(num, den, mag),
    ensures
        nearest(num, den) == mag,
{
    let other = nearest(num, den);
    assert(rounds_to(num, den, other));
    lemma_rounds_to_ordered(num, den, mag, num, den, other);
    lemma_rounds_to_ordered(num, den, other, num, den, mag);
}

/// The magnitude to round to, given the largest magnitude `floor` that is not
/// above `num / den` units.
pub open spec fn pick(num: nat, den: nat, floor: nat) -> nat {
    if floor >= INFINITY_MAGNITUDE {
        floor
    } else {
        let middle = (units(floor) + units(floor + 1)) * den;
        if 2 * num < middle || (2 * num == middle && floor % 2 == 0) {
            floor
        } else {
            floor + 1
        }
    }
}

proof fn lemma_pick(num: nat, den: nat, floor: nat)
    requires
        den > 0,
        floor <= INFINITY_MAGNITUDE,
        units(floor) * den <= num,
        floor < INFINITY_MAGNITUDE ==> num < units(floor + 1) * den,
    ensures
        rounds_to(num, den, pick(num, den, floor)),
{
    let u = units(floor);
    if floor > 0 {
        let l = units((floor - 1) as nat);
        lemma_units_step((floor - 1) as nat);
        assert((l + u) * den < 2 * num) by (nonlinear_arith)
            requires
                l < u,
                den > 0,
                u * den <= num,
        ;
    }
    if floor < INFINITY_MAGNITUDE {
        let h = units(floor + 1);
        let hh = units(floor + 2);
        lemma_units_step(floor + 1);
        assert(2 * num < (h + hh) * den) by (nonlinear_arith)
            requires
                h < hh,
                den > 0,
                num < h * den,
        ;
    }
}

/// The largest magnitude that is not above `num / den` units, among those up
/// to `bound`.
proof fn lemma_floor(num: nat, den: nat, bound: nat) -> (floor: nat)
    requires
        den > 0,
        bound <= INFINITY_MAGNITUDE,
    ensures
        floor <= bound,
        units(floor) * den <= num,
        floor < bound ==> num < units(floor + 1) * den,
    decreases bound,
{
    if units(bound) * den <= num {
        bound
    } else if bound == 0 {
        assert(units(0) * den == 0) by (nonlinear_arith)
            requires
                units(0) == 0,
        ;
        bound
    } else {
        lemma_floor(num, den, (bound - 1) as nat)
    }
}

/// Every quotient has a nearest magnitude.
pub proof fn lemma_nearest(num: nat, den: nat)
    requires
        den > 0,
    ensures
        rounds_to(num, den, nearest(num, den)),
        nearest(num, den) <= INFINITY_MAGNITUDE,
{
    let floor = lemma_floor(num, den, INFINITY_MAGNITUDE as nat);
    lemma_pick(num, den, floor);
}

/// Rounding keeps the order of quotients.
pub proof fn lemma_nearest_ordered(n1: nat, d1: nat, n2: nat, d2: nat)
    requires
        d1 > 0,
        d2 > 0,
        n1 * d2 <= n2 * d1,
    ensures
        nearest(n1, d1) <= nearest(n2, d2),
{
    lemma_nearest(n1, d1);
    lemma_nearest(n2, d2);
    lemma_rounds_to_ordered(n1, d1, nearest(n1, d1), n2, d2, nearest(n2, d2));
}

/// A value of the format is not changed by rounding.
pub proof fn lemma_nearest_exact(num: nat, den: nat, mag: nat)
    requires
        den > 0,
        mag <= INFINITY_MAGNITUDE,
        num == units(mag) * den,
    ensures
        nearest(num, den) == mag,
{
    if mag < INFINITY_MAGNITUDE {
        let u = units(mag);
        let h = units(mag + 1);
        lemma_units_step(mag);
        assert(num < h * den && 2 * num < (u + h) * den) by (nonlinear_arith)
            requires
                num == u * den,
                u < h,
                den > 0,
        ;
    }
    lemma_pick(num, den, mag);
    lemma_nearest_is(num, den, mag);
}

/// The value, in units, that the value of `x` units rounds to.
pub open spec fn fit(x: int) -> int {
    if x < 0 {
        -(units(nearest((-x) as nat, 1)) as int)
    } else {
        units(nearest(x as nat, 1)) as int
    }
}

/// A number has the sign and the magnitude that it was made from.
pub proof fn lemma_signed(negative: bool, mag: nat)
    requires
        mag < 0x8000_0000,
    ensures
        signed(negative, mag).negative() == negative,
        signed(negative, mag).magnitude() == mag,
        signed(negative, mag).scaled() == if negative {
            -(units(mag) as int)
        } else {
            units(mag) as int
        },
{
}

pub proof fn lemma_fit_ordered(x: int, y: int)
    requires
        x <= y,
    ensures
        fit(x) <= fit(y),
{
    let a = nearest(absolute(x), 1);
    let b = nearest(absolute(y), 1);
    if x >= 0 {
        lemma_nearest_ordered(absolute(x), 1, absolute(y), 1);
        lemma_units_increasing(a, b);
    } else if y < 0 {
        lemma_nearest_ordered(absolute(y), 1, absolute(x), 1);
        lemma_units_increasing(b, a);
    }
}

/// A value of the format is not changed by rounding.
pub proof fn lemma_fit_exact(mag: nat)
    requires
        mag <= INFINITY_MAGNITUDE,
    ensures
        fit(units(mag) as int) == units(mag),
        fit(-(units(mag) as int)) == -(units(mag) as int),
{
    lemma_nearest_exact(units(mag), 1, mag);
}

/// The sum of finite numbers is the exact sum, rounded.
pub proof fn lemma_sum(a: Binary32, b: Binary32)
    requires
        a.is_finite(),
        b.is_finite(),
    ensures
        !a.sum(b).is_nan(),
        a.sum(b).scaled() == fit(a.scaled() + b.scaled()),
{
    let exact = a.scaled() + b.scaled();
    lemma_signed(a.negative() && b.negative(), 0);
    lemma_fit_exact(0);
    assert(units(0) == 0);
    lemma_nearest(absolute(exact), 1);
    lemma_signed(exact < 0, nearest(absolute(exact), 1));
}

/// The difference of finite numbers is the exact difference, rounded.
pub proof fn lemma_difference(a: Binary32, b: Binary32)
    requires
        a.is_finite(),
        b.is_finite(),
    ensures
        !a.difference(b).is_nan(),
        a.difference(b).scaled() == fit(a.scaled() - b.scaled()),
{
    lemma_signed(!b.negative(), b.magnitude());
    lemma_sum(a, b.negated());
}

/// The magnitude of the whole number `n`, which has `k + 1` binary digits.
pub open spec fn whole_magnitude(n: nat, k: nat) -> nat {
    ((127 + k) * 0x80_0000 + (n - pow2(k)) * pow2((23 - k) as nat)) as nat
}

/// Whole numbers of up to 24 binary digits are numbers of the format.
pub proof fn lemma_whole_exact(n: nat, k: nat)
    requires
        k <= 23,
        pow2(k) <= n < pow2(k + 1),
    ensures
        whole_magnitude(n, k) < INFINITY_MAGNITUDE,
        units(whole_magnitude(n, k)) == n * one(),
        of_int(n as int).scaled() == n * one(),
        of_int(n as int).is_finite(),
        !of_int(n as int).negative(),
{
    let p = pow2((23 - k) as nat);
    let fraction = (n - pow2(k)) * p;
    lemma_pow2_adds(k, (23 - k) as nat);
    lemma_pow2_unfold(k + 1);
    lemma_pow2_pos((23 - k) as nat);
    lemma2_to64();
    assert(0 <= fraction < 0x80_0000) by (nonlinear_arith)
        requires
            fraction == (n - pow2(k)) * p,
            pow2(k) <= n,
            n < 2 * pow2(k),
            pow2(k) * p == 0x80_0000,
            p > 0,
    ;
    let mag = whole_magnitude(n, k);
    assert(mag == (127 + k) * 0x80_0000 + fraction);
    assert(mag / 0x80_0000 == 127 + k && mag % 0x80_0000 == fraction);
    let q = pow2(126 + k);
    assert(units(mag) == (0x80_0000 + fraction) * q);
    assert(0x80_0000 + fraction == n * p) by (nonlinear_arith)
        requires
            fraction == (n - pow2(k)) * p,
            pow2(k) * p == 0x80_0000,
    ;
    lemma_pow2_adds((23 - k) as nat, 126 + k);
    assert((n * p) * q == n * (p * q)) by (nonlinear_arith);
    assert(units(mag) == n * one());
    lemma_nearest_exact(n * one(), 1, mag);
    lemma_signed(false, mag);
}

/// Whole numbers of up to eight binary digits are numbers of the format.
pub proof fn lemma_byte_exact(n: nat)
    requires
        n <= 255,
    ensures
        of_int(n as int).scaled() == n * one(),
        of_int(n as int).is_finite(),
        !of_int(n as int).negative(),
        exists|mag: nat| mag < INFINITY_MAGNITUDE && #[trigger] units(mag) == n * one(),
        fit((n * one()) as int) == n * one(),
        fit(-((n * one()) as int)) == -((n * one()) as int),
{
    lemma2_to64();
    if n == 0 {
        assert(0 * one() == 0) by (nonlinear_arith);
        assert(units(0) == 0);
        lemma_nearest_exact(0, 1, 0);
        lemma_signed(false, 0);
        lemma_fit_exact(0);
    } else {
        let k: nat = if n < 2 {
            0
        } else if n < 4 {
            1
        } else if n < 8 {
            2
        } else if n < 16 {
            3
        } else if n < 32 {
            4
        } else if n < 64 {
            5
        } else if n < 128 {
            6
        } else {
            7
        };
        lemma_whole_exact(n, k);
        assert(units(whole_magnitude(n, k)) == n * one());
        lemma_fit_exact(whole_magnitude(n, k));
    }
}

/// The quotient of finite numbers of which the first is not negative and not
/// above the second is the exact quotient, rounded, and at most one.
pub proof fn lemma_fraction(a: Binary32, b: Binary32)
    requires
        a.is_finite(),
        b.is_finite(),
        0 <= a.scaled() <= b.scaled(),
        0 < b.scaled(),
    ensures
        a.quotient(b).is_finite(),
        a.quotient(b).scaled() == units(
            nearest((a.scaled() * one()) as nat, b.scaled() as nat),
        ),
        0 <= a.quotient(b).scaled() <= one(),
        a.scaled() == b.scaled() ==> a.quotient(b).scaled() == one(),
{
    let x = a.scaled() as nat;
    let y = b.scaled() as nat;
    lemma_units_increasing(0, b.magnitude());
    assert(units(0) == 0);
    lemma_nearest(x * one(), y);
    lemma2_to64();
    lemma_byte_exact(1);
    lemma_whole_exact(1, 0);
    let m1 = whole_magnitude(1, 0);
    assert(one() * y == y * one()) by (nonlinear_arith);
    lemma_nearest_exact(y * one(), y, m1);
    assert((x * one()) * y <= (y * one()) * y) by (nonlinear_arith)
        requires
            x <= y,
    ;
    lemma_nearest_ordered(x * one(), y, y * one(), y);
    lemma_units_increasing(nearest(x * one(), y), m1);
    lemma_signed(a.negative(), nearest(x * one(), y));
    lemma_units_increasing(0, a.magnitude());
    if a.negative() {
        // A zero with a minus sign.
        assert(x == 0);
        assert(0 * one() == 0 && 0 * y == 0) by (nonlinear_arith);
        lemma_nearest_exact(0, y, 0);
    }
}

/// The gap to the next magnitude is one unit, or small against the value.
pub proof fn lemma_units_gap(mag: nat)
    ensures
        units(mag + 1) - units(mag) == 1 || 0x80_0000 * (units(mag + 1) - units(mag)) <= units(mag),
{
    let e = mag / 0x80_0000;
    let f = mag % 0x80_0000;
    if e == 0 {
        lemma2_to64();
        if f + 1 < 0x80_0000 {
            assert((mag + 1) / 0x80_0000 == 0 && (mag + 1) % 0x80_0000 == f + 1);
        } else {
            assert((mag + 1) / 0x80_0000 == 1 && (mag + 1) % 0x80_0000 == 0);
            assert(units(mag + 1) == 0x80_0000 * pow2(0));
        }
    } else {
        let p = pow2((e - 1) as nat);
        assert(units(mag) == (0x80_0000 + f) * p);
        if f + 1 < 0x80_0000 {
            assert((mag + 1) / 0x80_0000 == e && (mag + 1) % 0x80_0000 == f + 1);
            assert(units(mag + 1) == (0x80_0000 + f + 1) * p);
        } else {
            assert((mag + 1) / 0x80_0000 == e + 1 && (mag + 1) % 0x80_0000 == 0);
            lemma_pow2_unfold(e);
            assert(units(mag + 1) == 0x80_0000 * (2 * p));
        }
        assert(units(mag + 1) - units(mag) == p) by (nonlinear_arith)
            requires
                units(mag) == (0x80_0000 + f) * p,
                units(mag + 1) == (0x80_0000 + f + 1) * p || (f == 0x7f_ffff && units(mag + 1)
                    == 0x80_0000 * (2 * p)),
        ;
        assert(0x80_0000 * p <= (0x80_0000 + f) * p) by (nonlinear_arith);
    }
}

/// How far rounding is off: by half a unit at most, or by very little against
/// the value.
pub proof fn lemma_nearest_error(num: nat, den: nat)
    requires
        den > 0,
        nearest(num, den) < INFINITY_MAGNITUDE,
    ensures
        ({
            let value = units(nearest(num, den));
            let off = absolute(value * den - num);
            2 * off <= den || 0x100_0000 * off <= value * den
        }),
{
    let m = nearest(num, den);
    lemma_nearest(num, den);
    let u = units(m);
    let gap = if num >= u * den || m == 0 {
        lemma_units_gap(m);
        units(m + 1) - u
    } else {
        lemma_units_gap((m - 1) as nat);
        lemma_units_increasing((m - 1) as nat, m);
        u - units((m - 1) as nat)
    };
    let off = absolute(u * den - num);
    if m == 0 && num < u * den {
        assert(units(0) == 0);
        assert(0 * den == 0) by (nonlinear_arith);
    }
    lemma_units_increasing(m, m + 1);
    if num >= u * den {
        let v = units(m + 1);
        assert(2 * off <= gap * den) by (nonlinear_arith)
            requires
                2 * num <= (u + v) * den,
                gap == v - u,
                off == num - u * den,
        ;
    } else {
        let v = units((m - 1) as nat);
        assert(2 * off <= gap * den) by (nonlinear_arith)
            requires
                (v + u) * den <= 2 * num,
                gap == u - v,
                off == u * den - num,
        ;
    }
    if gap == 1 {
        assert(gap * den == den) by (nonlinear_arith)
            requires
                gap == 1,
        ;
    } else {
        assert(0x80_0000 * gap <= u);
        assert(0x100_0000 * off <= u * den) by (nonlinear_arith)
            requires
                2 * off <= gap * den,
                0x80_0000 * gap <= u,
                den > 0,
        ;
    }
}

/// How far a value that is not negative is off after rounding to the format:
/// very little against it.
pub proof fn lemma_fit_error(x: nat)
    requires
        nearest(x, 1) < INFINITY_MAGNITUDE,
    ensures
        0x100_0000 * absolute(fit(x as int) - x) <= fit(x as int),
{
    lemma_nearest_error(x, 1);
}

/// Rounding to a whole number is off by half of one at most.
pub proof fn lemma_whole_error(x: int, cap: nat)
    requires
        0 <= x <= cap * one(),
    ensures
        2 * absolute(whole_of(x, cap) * one() - x) <= one(),
{
    lemma_pow2_pos(149);
    let twice = 2 * one() as int;
    if x > 0 {
        let q = (2 * x + one()) / twice;
        vstd::arithmetic::div_mod::lemma_fundamental_div_mod(2 * x + one(), twice);
        vstd::arithmetic::div_mod::lemma_mod_bound(2 * x + one(), twice);
        let r = (2 * x + one()) % twice;
        assert(twice * q == 2 * (q * one())) by (nonlinear_arith)
            requires
                twice == 2 * one(),
        ;
        assert(2 * (q * one()) <= 2 * x + one() < 2 * (q * one()) + 2 * one());
        vstd::arithmetic::div_mod::lemma_div_pos_is_pos(2 * x + one(), twice);
        if q > cap {
            assert(q * one() >= cap * one() + one()) by (nonlinear_arith)
                requires
                    q >= cap + 1,
            ;
            assert(false);
        }
    } else {
        assert(0 * one() == 0) by (nonlinear_arith);
    }
}

/// The whole number that a value in units is rounded to, up to `cap`.
pub open spec fn whole_of(x: int, cap: nat) -> nat {
    if x <= 0 {
        0
    } else {
        let whole = ((2 * x + one()) / (2 * one() as int)) as nat;
        if whole > cap {
            cap
        } else {
            whole
        }
    }
}

/// A number is rounded to the whole number nearest to it, upwards from halfway,
/// but not above `cap`, and what is negative or not a number to 0.
pub proof fn law_whole(x: Binary32, cap: nat)
    ensures
        x.whole(cap) <= cap,
        x.is_nan() || x.scaled() <= 0 ==> x.whole(cap) == 0,
        !x.is_nan() && x.scaled() > 0 ==> {
            let n = x.whole(cap);
            &&& n < cap ==> 2 * x.scaled() < (2 * n + 1) * one()
            &&& n > 0 ==> (2 * n - 1) * one() <= 2 * x.scaled()
        },
{
    lemma_pow2_pos(149);
    if !x.is_nan() && x.scaled() > 0 {
        let twice = 2 * one() as int;
        let sum = 2 * x.scaled() + one();
        let q = sum / twice;
        vstd::arithmetic::div_mod::lemma_fundamental_div_mod(sum, twice);
        vstd::arithmetic::div_mod::lemma_mod_bound(sum, twice);
        assert(twice * q == 2 * (q * one())) by (nonlinear_arith)
            requires
                twice == 2 * one(),
        ;
        vstd::arithmetic::div_mod::lemma_div_pos_is_pos(sum, twice);
        let n = x.whole(cap) as int;
        assert((2 * n + 1) * one() == 2 * (n * one()) + one()) by (nonlinear_arith);
        assert((2 * n - 1) * one() == 2 * (n * one()) - one()) by (nonlinear_arith);
        assert(n * one() <= q * one()) by (nonlinear_arith)
            requires
                n <= q,
        ;
    }
}

/// Rounding to whole numbers keeps the order.
pub proof fn lemma_whole_ordered(x: int, y: int, cap: nat)
    requires
        x <= y,
    ensures
        whole_of(x, cap) <= whole_of(y, cap),
{
    lemma_pow2_pos(149);
    if 0 < x {
        vstd::arithmetic::div_mod::lemma_div_is_ordered(
            2 * x + one(),
            2 * y + one(),
            2 * one() as int,
        );
        vstd::arithmetic::div_mod::lemma_div_pos_is_pos(2 * x + one(), 2 * one() as int);
    }
}

/// A whole number is rounded to itself.
pub proof fn lemma_whole_of_whole(n: nat, cap: nat)
    requires
        n <= cap,
    ensures
        whole_of((n * one()) as int, cap) == n,
{
    lemma_pow2_pos(149);
    if n > 0 {
        assert((2 * n - 1) * one() <= 2 * (n * one())) by (nonlinear_arith)
            requires
                n > 0,
        ;
        assert(2 * (n * one()) < one() * (2 * n + 1)) by (nonlinear_arith)
            requires
                one() > 0,
        ;
        assert(n * one() > 0) by (nonlinear_arith)
            requires
                n > 0,
                one() > 0,
        ;
        lemma_whole_is(2 * (n * one()), one(), n);
    } else {
        assert(0 * one() == 0) by (nonlinear_arith);
    }
}

// ---------------------------------------------------------------------------
// Operations
// ---------------------------------------------------------------------------

/// `units(mag)` as a number that can be computed with.
fn units_of(mag: u32) -> (r: BigNat)
    requires
        mag <= INFINITY_MAGNITUDE,
    ensures
        r@ == units(mag as nat),
{
    let exponent: u32 = mag / 0x80_0000;
    let fraction: u32 = mag % 0x80_0000;
    if exponent == 0 {
        BigNat::from_u32(fraction)
    } else {
        BigNat::from_u32(0x80_0000 + fraction).shift_left(exponent - 1)
    }
}

fn with_sign(negative: bool, mag: u32) -> (r: Binary32)
    requires
        mag < 0x8000_0000,
    ensures
        r == signed(negative, mag as nat),
        r.negative() == negative,
        r.magnitude() == mag,
{
    Binary32 {
        bits: if negative {
            0x8000_0000 + mag
        } else {
            mag
        },
    }
}

/// The number of the given sign nearest to `num / den` units.
pub fn round_quotient(negative: bool, num: &BigNat, den: &BigNat) -> (r: Binary32)
    requires
        den@ > 0,
    ensures
        r == rounded(negative, num@, den@),
        !r.is_nan(),
        r.negative() == negative,
        r.magnitude() == nearest(num@, den@),
{
    // Binary search for the largest magnitude that is not above the quotient.
    let mut floor: u32 = 0;
    let mut bound: u32 = INFINITY_MAGNITUDE;
    assert(units(0) * den@ == 0) by (nonlinear_arith)
        requires
            units(0) == 0,
    ;
    while floor < bound
        invariant
            floor <= bound <= INFINITY_MAGNITUDE,
            den@ > 0,
            units(floor as nat) * den@ <= num@,
            bound < INFINITY_MAGNITUDE ==> num@ < units((bound + 1) as nat) * den@,
        decreases bound - floor,
    {
        let middle: u32 = bound - (bound - floor) / 2;
        if units_of(middle).times(den).at_most(num) {
            floor = middle;
        } else {
            bound = middle - 1;
        }
    }
    proof {
        lemma_pick(num@, den@, floor as nat);
        lemma_nearest_is(num@, den@, pick(num@, den@, floor as nat));
    }
    let mag: u32 = if floor == INFINITY_MAGNITUDE {
        floor
    } else {
        let middle: BigNat = units_of(floor).plus(&units_of(floor + 1)).times(den);
        let twice: BigNat = num.mul_add_small(2, 0);
        let not_above: bool = twice.at_most(&middle);
        let not_below: bool = middle.at_most(&twice);
        if not_above && (!not_below || floor % 2 == 0) {
            floor
        } else {
            floor + 1
        }
    };
    with_sign(negative, mag)
}

impl Binary32 {
    /// The number with the bit pattern `bits`.
    pub fn from_bits(bits: u32) -> (r: Binary32)
        ensures
            r.bits == bits,
    {
        Binary32 { bits }
    }

    /// The bit pattern.
    pub fn to_bits(self) -> (bits: u32)
        ensures
            bits == self.bits,
    {
        self.bits
    }

    fn mag(self) -> (m: u32)
        ensures
            m == self.magnitude(),
            m < 0x8000_0000,
    {
        self.bits % 0x8000_0000
    }

    fn neg(self) -> (r: bool)
        ensures
            r == self.negative(),
    {
        self.bits >= 0x8000_0000
    }

    fn nan() -> (r: Binary32)
        ensures
            r == not_a_number(),
    {
        Binary32 { bits: 0x7fc0_0000 }
    }

    /// `self <= other`.
    pub fn at_most(self, other: Binary32) -> (r: bool)
        ensures
            r == self.le(other),
    {
        let a: u32 = self.mag();
        let b: u32 = other.mag();
        if a > INFINITY_MAGNITUDE || b > INFINITY_MAGNITUDE {
            return false;
        }
        proof {
            lemma_units_increasing(0, a as nat);
            lemma_units_increasing(0, b as nat);
            if a <= b {
                lemma_units_increasing(a as nat, b as nat);
            } else {
                lemma_units_increasing(b as nat, a as nat);
            }
            assert(units(0) == 0);
        }
        if self.neg() {
            if other.neg() {
                b <= a
            } else {
                true
            }
        } else {
            if other.neg() {
                a == 0 && b == 0
            } else {
                a <= b
            }
        }
    }

    /// `self < other`.
    pub fn below(self, other: Binary32) -> (r: bool)
        ensures
            r == self.lt(other),
    {
        self.at_most(other) && !other.at_most(self)
    }

    /// `self + other`.
    pub fn plus(self, other: Binary32) -> (r: Binary32)
        ensures
            r == self.sum(other),
    {
        let a: u32 = self.mag();
        let b: u32 = other.mag();
        if a > INFINITY_MAGNITUDE || b > INFINITY_MAGNITUDE {
            return Self::nan();
        }
        if a == INFINITY_MAGNITUDE {
            return if b == INFINITY_MAGNITUDE && self.neg() != other.neg() {
                Self::nan()
            } else {
                self
            };
        }
        if b == INFINITY_MAGNITUDE {
            return other;
        }
        proof {
            lemma_units_increasing(0, a as nat);
            lemma_units_increasing(0, b as nat);
            if a <= b {
                lemma_units_increasing(a as nat, b as nat);
            } else {
                lemma_units_increasing(b as nat, a as nat);
            }
            assert(units(0) == 0);
        }
        let x: BigNat = units_of(a);
        let y: BigNat = units_of(b);
        let unit: BigNat = BigNat::from_u32(1);
        if self.neg() == other.neg() {
            if a == 0 && b == 0 {
                return with_sign(self.neg(), 0);
            }
            round_quotient(self.neg(), &x.plus(&y), &unit)
        } else if a == b {
            with_sign(false, 0)
        } else if a < b {
            round_quotient(other.neg(), &y.minus(&x), &unit)
        } else {
            round_quotient(self.neg(), &x.minus(&y), &unit)
        }
    }

    /// `self - other`.
    pub fn minus(self, other: Binary32) -> (r: Binary32)
        ensures
            r == self.difference(other),
    {
        self.plus(with_sign(!other.neg(), other.mag()))
    }

    /// `self * other`.
    pub fn times(self, other: Binary32) -> (r: Binary32)
        ensures
            r == self.product(other),
    {
        let a: u32 = self.mag();
        let b: u32 = other.mag();
        let negative: bool = self.neg() != other.neg();
        if a > INFINITY_MAGNITUDE || b > INFINITY_MAGNITUDE {
            return Self::nan();
        }
        if a == INFINITY_MAGNITUDE || b == INFINITY_MAGNITUDE {
            return if a == 0 || b == 0 {
                Self::nan()
            } else {
                with_sign(negative, INFINITY_MAGNITUDE)
            };
        }
        proof {
            lemma_pow2_pos(149);
        }
        round_quotient(negative, &units_of(a).times(&units_of(b)), &one_unit())
    }

    /// `self / other`.
    pub fn over(self, other: Binary32) -> (r: Binary32)
        ensures
            r == self.quotient(other),
    {
        let a: u32 = self.mag();
        let b: u32 = other.mag();
        let negative: bool = self.neg() != other.neg();
        if a > INFINITY_MAGNITUDE || b > INFINITY_MAGNITUDE {
            return Self::nan();
        }
        if a == INFINITY_MAGNITUDE {
            return if b == INFINITY_MAGNITUDE {
                Self::nan()
            } else {
                with_sign(negative, INFINITY_MAGNITUDE)
            };
        }
        if b == INFINITY_MAGNITUDE {
            return with_sign(negative, 0);
        }
        if b == 0 {
            return if a == 0 {
                Self::nan()
            } else {
                with_sign(negative, INFINITY_MAGNITUDE)
            };
        }
        proof {
            lemma_units_increasing(0, b as nat);
        }
        round_quotient(negative, &units_of(a).shift_left(149), &units_of(b))
    }

    /// The number nearest to `x`.
    pub fn from_i64(x: i64) -> (r: Binary32)
        ensures
            r == of_int(x as int),
            !r.is_nan(),
    {
        let size: u64 = if x < 0 {
            (-(x as i128)) as u64
        } else {
            x as u64
        };
        round_quotient(x < 0, &BigNat::from_u64(size).shift_left(149), &BigNat::from_u32(1))
    }

    /// The nearest whole number (halfway cases away from zero), limited to
    /// the range from 0 to `cap`; 0 for what is not a number.
    pub fn to_whole(self, cap: u8) -> (r: u8)
        ensures
            r == self.whole(cap as nat),
    {
        let a: u32 = self.mag();
        proof {
            lemma_units_increasing(0, a as nat);
            assert(units(0) == 0);
        }
        if a > INFINITY_MAGNITUDE || self.neg() || a == 0 {
            return 0;
        }
        // The whole number is the largest `n` with `(2 n - 1) * one <= 2 units`.
        let unit: BigNat = one_unit();
        let twice: BigNat = units_of(a).mul_add_small(2, 0);
        let mut n: u8 = 0;
        proof {
            lemma_pow2_pos(149);
            assert((2 * 0 - 1) * unit@ <= twice@) by (nonlinear_arith);
        }
        while n < cap
            invariant
                n <= cap,
                unit@ == one(),
                unit@ > 0,
                twice@ == 2 * units(self.magnitude()),
                (2 * n - 1) * unit@ <= twice@,
                !self.is_nan(),
                self.scaled() > 0,
            decreases cap - n,
        {
            let next: BigNat = unit.mul_add_small(2 * (n as u32) + 1, 0);
            if !next.at_most(&twice) {
                proof {
                    lemma_whole_is(twice@, unit@, n as nat);
                }
                return n;
            }
            assert(next@ == (2 * (n + 1) - 1) * unit@) by (nonlinear_arith)
                requires
                    next@ == unit@ * (2 * n + 1) + 0,
            ;
            n = n + 1;
        }
        proof {
            lemma_whole_at_least(twice@, unit@, n as nat);
        }
        n
    }
}

proof fn lemma_whole_at_least(twice: nat, one: nat, n: nat)
    requires
        one > 0,
        (2 * n - 1) * one <= twice,
    ensures
        (twice + one) / (2 * one) >= n,
{
    let d = 2 * one;
    let q = (twice + one) / d;
    vstd::arithmetic::div_mod::lemma_fundamental_div_mod((twice + one) as int, d as int);
    assert(q >= n) by (nonlinear_arith)
        requires
            d == 2 * one,
            one > 0,
            (2 * n - 1) * one <= twice,
            twice + one == d * q + (twice + one) % d,
            (twice + one) % d < d,
    ;
}

proof fn lemma_whole_is(twice: nat, one: nat, n: nat)
    requires
        one > 0,
        (2 * n - 1) * one <= twice,
        twice < one * (2 * n + 1),
    ensures
        (twice + one) / (2 * one) == n,
{
    lemma_whole_at_least(twice, one, n);
    let d = 2 * one;
    let q = (twice + one) / d;
    vstd::arithmetic::div_mod::lemma_fundamental_div_mod((twice + one) as int, d as int);
    assert(q <= n) by (nonlinear_arith)
        requires
            d == 2 * one,
            one > 0,
            twice < one * (2 * n + 1),
            twice + one == d * q + (twice + one) % d,
            (twice + one) % d >= 0,
    ;
}

fn one_unit() -> (r: BigNat)
    ensures
        r@ == one(),
{
    assert(1 * pow2(149) == pow2(149));
    BigNat::from_u32(1).shift_left(149)
}

} // verus!
