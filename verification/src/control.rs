//! The arithmetic of fan control: curves, inlet bias, merging of demands, slew
//! rate and deadband.

use vstd::prelude::*;
use crate::binary32::{self, Binary32};
use crate::config::{InletBiasConfig, SensorConfig, SlewConfig};

verus! {

/// `x`, moved into the range from `low` to `high`.
pub open spec fn clamped(x: int, low: int, high: int) -> int {
    if x < low {
        low
    } else if x > high {
        high
    } else {
        x
    }
}

pub open spec fn smaller(x: int, y: int) -> int {
    if x <= y {
        x
    } else {
        y
    }
}

fn clamp(x: u8, low: u8, high: u8) -> (r: u8)
    requires
        low <= high,
    ensures
        r == clamped(x as int, low as int, high as int),
{
    if x < low {
        low
    } else if x > high {
        high
    } else {
        x
    }
}

// ---------------------------------------------------------------------------
// Curves
// ---------------------------------------------------------------------------

/// The duty at `t` on the line from `a` to `b`, rounded to a whole percentage.
/// Each step of the interpolation is rounded to single precision.
pub open spec fn on_segment(a: (Binary32, u8), b: (Binary32, u8), t: Binary32) -> nat {
    let fraction = t.difference(a.0).quotient(b.0.difference(a.0));
    let rise = binary32::of_int(b.1 as int).difference(binary32::of_int(a.1 as int));
    binary32::of_int(a.1 as int).sum(rise.product(fraction)).whole(100)
}

/// The first segment, from point `i` on, that has `t` between its ends.
pub open spec fn segment_at(curve: Seq<(Binary32, u8)>, t: Binary32, i: nat) -> Option<nat>
    decreases curve.len() - i,
{
    if i + 1 >= curve.len() {
        None
    } else if curve[i as int].0.le(t) && t.le(curve[i as int + 1].0) {
        Some(i)
    } else {
        segment_at(curve, t, i + 1)
    }
}

/// The duty that a curve asks for at `t`.
pub open spec fn curve_duty(curve: Seq<(Binary32, u8)>, t: Binary32) -> nat {
    if t.le(curve[0].0) {
        curve[0].1 as nat
    } else if curve.last().0.le(t) {
        curve.last().1 as nat
    } else {
        match segment_at(curve, t, 0) {
            Some(i) => on_segment(curve[i as int], curve[i as int + 1], t),
            None => curve.last().1 as nat,
        }
    }
}

/// Interpolates a duty from a curve. Up to the first point it is the first
/// point's duty, from the last point on the last point's.
pub fn interpolate_curve(curve: &[(Binary32, u8)], temp_c: Binary32) -> (r: u8)
    requires
        curve@.len() >= 2,
    ensures
        r == curve_duty(curve@, temp_c),
        temp_c.le(curve@[0].0) ==> r == curve@[0].1,
        !temp_c.le(curve@[0].0) && curve@.last().0.le(temp_c) ==> r == curve@.last().1,
{
    let n: usize = curve.len();
    if temp_c.at_most(curve[0].0) {
        return curve[0].1;
    }
    if curve[n - 1].0.at_most(temp_c) {
        return curve[n - 1].1;
    }
    for i in 0..n - 1
        invariant
            n == curve@.len(),
            n >= 2,
            segment_at(curve@, temp_c, 0) == segment_at(curve@, temp_c, i as nat),
            !temp_c.le(curve@[0].0),
            !curve@.last().0.le(temp_c),
    {
        let (t0, d0): (Binary32, u8) = curve[i];
        let (t1, d1): (Binary32, u8) = curve[i + 1];
        if t0.at_most(temp_c) && temp_c.at_most(t1) {
            let fraction: Binary32 = temp_c.minus(t0).over(t1.minus(t0));
            let low: Binary32 = Binary32::from_i64(d0 as i64);
            let high: Binary32 = Binary32::from_i64(d1 as i64);
            let duty: Binary32 = low.plus(high.minus(low).times(fraction));
            return duty.to_whole(100);
        }
    }
    curve[n - 1].1
}

// ---------------------------------------------------------------------------
// Inlet bias and demands
// ---------------------------------------------------------------------------

/// The duty that a hot inlet adds.
pub open spec fn bias_for(inlet: Option<Binary32>, bias: Option<&InletBiasConfig>) -> nat {
    match (bias, inlet) {
        (Some(b), Some(t)) => if t.le(b.threshold_c) {
            0
        } else {
            t.difference(b.threshold_c).product(b.percent_per_degree_above).whole(
                b.max_bias_pct as nat,
            )
        },
        _ => 0,
    }
}

/// The duty to add when the inlet is hotter than the configured threshold, up
/// to the configured cap. 0 where there is no reading or no bias configured.
pub fn inlet_bias_pct(inlet_temp_c: Option<Binary32>, bias: Option<&InletBiasConfig>) -> (r: u8)
    ensures
        r == bias_for(inlet_temp_c, bias),
        bias is None || inlet_temp_c is None ==> r == 0,
        bias matches Some(b) ==> (inlet_temp_c matches Some(t) ==> (t.le(b.threshold_c) ==> r == 0)),
        bias matches Some(b) ==> r <= b.max_bias_pct,
{
    match (bias, inlet_temp_c) {
        (Some(b), Some(t)) => {
            if t.at_most(b.threshold_c) {
                return 0;
            }
            t.minus(b.threshold_c).times(b.percent_per_degree_above).to_whole(b.max_bias_pct)
        },
        _ => 0,
    }
}

/// The duty that a sensor demands at `t`.
pub open spec fn demand(
    curve: Seq<(Binary32, u8)>,
    t: Binary32,
    bias: int,
    slew: SlewConfig,
) -> int {
    clamped(curve_duty(curve, t) + bias, slew.min_duty as int, slew.max_duty as int)
}

/// The duty that one sensor demands: its curve at `temp_c`, and the inlet bias
/// on top, within the configured range.
pub fn demand_for_sensor(
    sensor: &SensorConfig,
    temp_c: Binary32,
    bias_pct: u8,
    slew: &SlewConfig,
) -> (r: u8)
    requires
        sensor.curve@.len() >= 2,
        slew.min_duty <= slew.max_duty,
    ensures
        r == demand(sensor.curve@, temp_c, bias_pct as int, *slew),
        slew.min_duty <= r <= slew.max_duty,
        slew.min_duty <= curve_duty(sensor.curve@, temp_c) + bias_pct <= slew.max_duty ==> r
            == curve_duty(sensor.curve@, temp_c) + bias_pct,
{
    let base: u8 = interpolate_curve(sensor.curve.as_slice(), temp_c);
    let biased: u8 = base.saturating_add(bias_pct);
    clamp(biased, slew.min_duty, slew.max_duty)
}

/// The largest demand, `None` where no sensor demands anything.
pub open spec fn loudest(demands: Seq<Option<u8>>) -> Option<u8>
    decreases demands.len(),
{
    if demands.len() == 0 {
        None
    } else {
        match (loudest(demands.drop_last()), demands.last()) {
            (Some(a), Some(b)) => Some(
                if a >= b {
                    a
                } else {
                    b
                },
            ),
            (Some(a), None) => Some(a),
            (None, last) => last,
        }
    }
}

/// The loudest sensor wins: the largest demand. Sensors that could not be read
/// (`None`) do not count; where none could be, it is the lowest duty.
pub fn merge_demands(demands: &[Option<u8>], slew: &SlewConfig) -> (r: u8)
    ensures
        r == match loudest(demands@) {
            Some(d) => d,
            None => slew.min_duty,
        },
        forall|i: int|
            0 <= i < demands@.len() && (#[trigger] demands@[i]) is Some ==> demands@[i]->0 <= r,
        demands@.contains(Some(r)) || (r == slew.min_duty && forall|i: int|
            0 <= i < demands@.len() ==> (#[trigger] demands@[i]) is None),
{
    proof {
        law_loudest(demands@);
    }
    let mut best: Option<u8> = None;
    let n: usize = demands.len();
    assert(demands@.take(0) =~= Seq::empty());
    for i in 0..n
        invariant
            n == demands@.len(),
            best == loudest(demands@.take(i as int)),
    {
        assert(demands@.take(i as int + 1).drop_last() =~= demands@.take(i as int));
        if let Some(d) = demands[i] {
            best = match best {
                Some(b) if b >= d => Some(b),
                _ => Some(d),
            };
        }
    }
    assert(demands@.take(n as int) =~= demands@);
    match best {
        Some(d) => d,
        None => slew.min_duty,
    }
}

// ---------------------------------------------------------------------------
// Slew rate and deadband
// ---------------------------------------------------------------------------

/// The duty after one tick on the way from `current` to `target`.
pub open spec fn slewed(current: int, target: int, slew: SlewConfig) -> int {
    let next = if target > current {
        current + smaller(target - current, slew.max_rise_per_tick as int)
    } else {
        current - smaller(current - target, slew.max_fall_per_tick as int)
    };
    clamped(next, slew.min_duty as int, slew.max_duty as int)
}

/// Moves `current` toward `target` by at most the configured rise or fall,
/// within the configured range.
pub fn slew_limit(current: u8, target: u8, slew: &SlewConfig) -> (r: u8)
    requires
        slew.min_duty <= slew.max_duty,
    ensures
        r == slewed(current as int, target as int, *slew),
        slew.min_duty <= r <= slew.max_duty,
        slew.min_duty <= current && target <= slew.max_duty && target - current
            > slew.max_rise_per_tick ==> r == current + slew.max_rise_per_tick,
        current <= slew.max_duty && slew.min_duty <= target && current - target
            > slew.max_fall_per_tick ==> r == current - slew.max_fall_per_tick,
{
    let next: u8 = if target > current {
        let gap: u8 = target - current;
        if gap <= slew.max_rise_per_tick {
            target
        } else {
            current + slew.max_rise_per_tick
        }
    } else {
        let gap: u8 = current - target;
        if gap <= slew.max_fall_per_tick {
            target
        } else {
            current - slew.max_fall_per_tick
        }
    };
    clamp(next, slew.min_duty, slew.max_duty)
}

/// `target`, or the duty that is set where the two are closer than
/// `deadband_pct`.
pub open spec fn banded(current: Option<u8>, target: u8, deadband_pct: int) -> u8 {
    match current {
        Some(curr) => if binary32::absolute(target - curr) < deadband_pct {
            curr
        } else {
            target
        },
        None => target,
    }
}

/// Holds a change back that is smaller than `deadband_pct`. With 0 every change
/// is let through, and so is the first duty (`current` is `None`).
pub fn apply_deadband(current: Option<u8>, target: u8, deadband_pct: u8) -> (r: u8)
    ensures
        r == banded(current, target, deadband_pct as int),
        current matches Some(c) ==> r == if target - c >= deadband_pct || c - target
            >= deadband_pct {
            target
        } else {
            c
        },
{
    match current {
        Some(curr) => {
            let gap: u8 = if target >= curr {
                target - curr
            } else {
                curr - target
            };
            if gap < deadband_pct {
                curr
            } else {
                target
            }
        },
        None => target,
    }
}

// ---------------------------------------------------------------------------
// Laws of the curves
// ---------------------------------------------------------------------------

/// A segment on which the temperature rises, with duties up to 100.
pub open spec fn rising_segment(a: (Binary32, u8), b: (Binary32, u8)) -> bool {
    &&& a.0.lt(b.0)
    &&& a.1 <= 100
    &&& b.1 <= 100
}

/// A curve of such segments, as every valid one is.
pub open spec fn rising_curve(curve: Seq<(Binary32, u8)>) -> bool {
    &&& curve.len() >= 2
    &&& forall|i: int|
        #![trigger curve[i]]
        0 <= i < curve.len() - 1 ==> rising_segment(curve[i], curve[i + 1])
}

/// Whether the distance from `a` to `t` is a finite number. One that is not has
/// outgrown single precision, and nothing can be interpolated with it.
pub open spec fn measured(a: (Binary32, u8), t: Binary32) -> bool {
    t.difference(a.0).is_finite()
}

/// Whether the distance from the point of a curve below `t` to `t` is a finite
/// number, where it is needed: between the first point and the last.
pub open spec fn measured_on(curve: Seq<(Binary32, u8)>, t: Binary32) -> bool {
    !t.le(curve[0].0) && !curve.last().0.le(t) ==> (segment_at(curve, t, 0) matches Some(k)
        ==> measured(curve[k as int], t))
}

/// A rising segment with a finite distance between its ends.
spec fn regular_segment(a: (Binary32, u8), b: (Binary32, u8)) -> bool {
    &&& rising_segment(a, b)
    &&& a.0.is_finite()
    &&& b.0.is_finite()
    &&& measured(a, b.0)
}

/// Whether the duties of a curve never fall from one point to the next.
pub open spec fn duties_ascending(curve: Seq<(Binary32, u8)>) -> bool {
    forall|i: int|
        #![trigger curve[i]]
        0 <= i < curve.len() - 1 ==> curve[i].1 <= curve[i + 1].1
}

/// How far along a segment `t` lies, in units.
spec fn along(a: (Binary32, u8), b: (Binary32, u8), t: Binary32) -> nat {
    let part = binary32::fit(t.scaled() - a.0.scaled()) as nat;
    let whole = binary32::fit(b.0.scaled() - a.0.scaled()) as nat;
    if regular_segment(a, b) {
        binary32::units(binary32::nearest(part * binary32::one(), whole))
    } else {
        0
    }
}

/// The rise of `steps` percentage points, taken to the part `f` of it.
spec fn part_of_rise(steps: int, f: nat) -> int {
    let size = binary32::units(
        binary32::nearest(binary32::absolute(steps) * binary32::one() * f, binary32::one()),
    ) as int;
    if steps < 0 {
        -size
    } else {
        size
    }
}

/// The interpolated value in units, before it is rounded to a whole percentage.
spec fn raw_duty(a: (Binary32, u8), b: (Binary32, u8), f: nat) -> int {
    binary32::fit(a.1 * binary32::one() + part_of_rise(b.1 - a.1, f))
}

/// What lies between finite numbers is finite.
proof fn lemma_finite_between(low: Binary32, t: Binary32, high: Binary32)
    requires
        low.is_finite(),
        high.is_finite(),
        low.le(t),
        t.le(high),
    ensures
        t.is_finite(),
{
    let top = binary32::INFINITY_MAGNITUDE as nat;
    if t.magnitude() == top {
        if t.negative() {
            binary32::lemma_units_increasing(low.magnitude(), top);
        } else {
            binary32::lemma_units_increasing(high.magnitude(), top);
        }
        binary32::lemma_units_increasing(0, top);
        assert(binary32::units(0) == 0);
        assert(false);
    }
}

/// A finite distance is one between finite numbers.
proof fn lemma_measured_finite(a: (Binary32, u8), t: Binary32)
    requires
        a.0.le(t),
        measured(a, t),
    ensures
        a.0.is_finite(),
        t.is_finite(),
{
    binary32::lemma_signed(!a.0.negative(), a.0.magnitude());
    assert(binary32::not_a_number().is_nan());
}

/// What lies below a number with a finite distance has one too.
proof fn lemma_measured_below(a: (Binary32, u8), s: Binary32, t: Binary32)
    requires
        a.0.le(s),
        s.le(t),
        measured(a, t),
    ensures
        measured(a, s),
{
    let top = binary32::INFINITY_MAGNITUDE as nat;
    lemma_measured_finite(a, t);
    lemma_finite_between(a.0, s, t);
    binary32::lemma_difference(s, a.0);
    binary32::lemma_difference(t, a.0);
    binary32::lemma_fit_exact(0);
    assert(binary32::units(0) == 0);
    binary32::lemma_fit_ordered(0, s.scaled() - a.0.scaled());
    binary32::lemma_fit_ordered(s.scaled() - a.0.scaled(), t.scaled() - a.0.scaled());
    if s.difference(a.0).magnitude() == top {
        binary32::lemma_units_increasing(t.difference(a.0).magnitude(), top);
        binary32::lemma_units_increasing(0, top);
        assert(false);
    }
}

/// On a segment too long for single precision, what has a finite distance from
/// its start is not along it at all, and is not its end.
proof fn lemma_not_along(a: (Binary32, u8), b: (Binary32, u8), t: Binary32)
    requires
        rising_segment(a, b),
        !regular_segment(a, b),
        a.0.le(t),
        t.le(b.0),
        measured(a, t),
    ensures
        t.difference(a.0).quotient(b.0.difference(a.0)).is_finite(),
        t.difference(a.0).quotient(b.0.difference(a.0)).scaled() == 0,
        t.scaled() != b.0.scaled(),
{
    let top = binary32::INFINITY_MAGNITUDE as nat;
    let part = t.difference(a.0);
    let whole = b.0.difference(a.0);
    lemma_measured_finite(a, t);
    lemma_excess(a.0, b.0);
    assert(whole.is_infinite());
    binary32::lemma_signed(part.negative() != whole.negative(), 0);
    assert(binary32::units(0) == 0);
    if t.scaled() == b.0.scaled() {
        lemma_excess(a.0, t);
        binary32::lemma_units_increasing(t.magnitude(), top);
        binary32::lemma_units_increasing(0, top);
        binary32::lemma_units_increasing(part.magnitude(), top);
        assert(false);
    }
}

/// What has no finite distance from the start of its segment gets no duty.
proof fn lemma_unmeasured(a: (Binary32, u8), b: (Binary32, u8), t: Binary32)
    requires
        rising_segment(a, b),
        a.0.lt(t),
        t.le(b.0),
        !measured(a, t),
    ensures
        on_segment(a, b, t) == 0,
{
    let part = t.difference(a.0);
    let whole = b.0.difference(a.0);
    lemma_excess(a.0, t);
    lemma_excess(a.0, b.0);
    if measured(a, b.0) {
        lemma_measured_below(a, t, b.0);
    }
    assert(part.is_infinite() && whole.is_infinite());
    assert(binary32::not_a_number().is_nan());
    assert(part.quotient(whole).is_nan());
}

proof fn lemma_along(a: (Binary32, u8), b: (Binary32, u8), t: Binary32)
    requires
        rising_segment(a, b),
        a.0.le(t),
        t.le(b.0),
        measured(a, t),
    ensures
        t.difference(a.0).quotient(b.0.difference(a.0)).is_finite(),
        t.difference(a.0).quotient(b.0.difference(a.0)).scaled() == along(a, b, t),
        0 <= along(a, b, t) <= binary32::one(),
        t.scaled() == a.0.scaled() ==> along(a, b, t) == 0,
        t.scaled() == b.0.scaled() ==> along(a, b, t) == binary32::one(),
{
    if regular_segment(a, b) {
        lemma_along_regular(a, b, t);
    } else {
        lemma_not_along(a, b, t);
    }
}

proof fn lemma_along_regular(a: (Binary32, u8), b: (Binary32, u8), t: Binary32)
    requires
        regular_segment(a, b),
        a.0.le(t),
        t.le(b.0),
    ensures
        t.difference(a.0).quotient(b.0.difference(a.0)).is_finite(),
        t.difference(a.0).quotient(b.0.difference(a.0)).scaled() == along(a, b, t),
        0 <= along(a, b, t) <= binary32::one(),
        t.scaled() == a.0.scaled() ==> along(a, b, t) == 0,
        t.scaled() == b.0.scaled() ==> along(a, b, t) == binary32::one(),
        binary32::fit(b.0.scaled() - a.0.scaled()) > 0,
        binary32::fit(t.scaled() - a.0.scaled()) >= 0,
{
    let top = binary32::INFINITY_MAGNITUDE as nat;
    lemma_finite_between(a.0, t, b.0);
    let x = t.scaled() - a.0.scaled();
    let y = b.0.scaled() - a.0.scaled();
    let part = t.difference(a.0);
    let whole = b.0.difference(a.0);
    binary32::lemma_difference(t, a.0);
    binary32::lemma_difference(b.0, a.0);
    binary32::lemma_fit_exact(0);
    binary32::lemma_fit_exact(1);
    assert(binary32::units(0) == 0 && binary32::units(1) == 1);
    binary32::lemma_fit_ordered(0, x);
    binary32::lemma_fit_ordered(1, y);
    binary32::lemma_fit_ordered(x, y);
    // The part is finite, as it is not above the whole.
    if part.magnitude() == top {
        binary32::lemma_units_increasing(whole.magnitude(), top);
        assert(false);
    }
    binary32::lemma_fraction(part, whole);
    if x == 0 {
        assert(0 * binary32::one() == 0) by (nonlinear_arith);
        binary32::lemma_nearest_exact(0, whole.scaled() as nat, 0);
    }
}

proof fn lemma_rise(a: (Binary32, u8), b: (Binary32, u8), fraction: Binary32, f: nat)
    requires
        a.1 <= 100,
        b.1 <= 100,
        fraction.is_finite(),
        fraction.scaled() == f,
        f <= binary32::one(),
    ensures
        ({
            let rise = binary32::of_int(b.1 as int).difference(binary32::of_int(a.1 as int));
            &&& rise.product(fraction).is_finite()
            &&& rise.product(fraction).scaled() == part_of_rise(b.1 - a.1, f)
        }),
        0 <= b.1 - a.1 ==> 0 <= part_of_rise(b.1 - a.1, f) <= (b.1 - a.1) * binary32::one(),
        b.1 - a.1 <= 0 ==> (b.1 - a.1) * binary32::one() <= part_of_rise(b.1 - a.1, f) <= 0,
        f == 0 ==> part_of_rise(b.1 - a.1, f) == 0,
        f == binary32::one() ==> part_of_rise(b.1 - a.1, f) == (b.1 - a.1) * binary32::one(),
{
    let steps = b.1 - a.1;
    let size = binary32::absolute(steps);
    let one = binary32::one();
    let low = binary32::of_int(a.1 as int);
    let high = binary32::of_int(b.1 as int);
    let rise = high.difference(low);
    binary32::lemma_byte_exact(a.1 as nat);
    binary32::lemma_byte_exact(b.1 as nat);
    binary32::lemma_byte_exact(size);
    binary32::lemma_difference(high, low);
    vstd::arithmetic::power2::lemma_pow2_pos(149);
    assert(high.scaled() - low.scaled() == steps * one) by (nonlinear_arith)
        requires
            high.scaled() == b.1 * one,
            low.scaled() == a.1 * one,
            steps == b.1 - a.1,
    ;
    assert(steps * one == if steps < 0 {
        -((size * one) as int)
    } else {
        (size * one) as int
    }) by (nonlinear_arith)
        requires
            size == if steps < 0 {
                -steps
            } else {
                steps
            },
    ;
    assert(rise.scaled() == steps * one);
    let mag = choose|mag: nat|
        mag < binary32::INFINITY_MAGNITUDE && #[trigger] binary32::units(mag) == size * one;
    assert(binary32::units(rise.magnitude()) == size * one);
    // Magnitudes with the same value are the same.
    binary32::lemma_nearest_exact(size * one, 1, mag);
    if rise.magnitude() <= binary32::INFINITY_MAGNITUDE {
        binary32::lemma_nearest_exact(size * one, 1, rise.magnitude());
    }
    assert(rise.is_finite());
    let num = size * one * f;
    assert(binary32::units(fraction.magnitude()) == f);
    // The part of the rise is not above the whole rise.
    assert(num <= (size * one) * one) by (nonlinear_arith)
        requires
            num == (size * one) * f,
            f <= one,
    ;
    assert(num * one <= ((size * one) * one) * one) by (nonlinear_arith)
        requires
            num <= (size * one) * one,
    ;
    binary32::lemma_nearest_exact((size * one) * one, one, mag);
    binary32::lemma_nearest_ordered(num, one, (size * one) * one, one);
    binary32::lemma_units_increasing(binary32::nearest(num, one), mag);
    binary32::lemma_nearest(num, one);
    binary32::lemma_signed(rise.negative() != fraction.negative(), binary32::nearest(num, one));
    binary32::lemma_units_increasing(0, fraction.magnitude());
    binary32::lemma_units_increasing(0, rise.magnitude());
    assert(binary32::units(0) == 0);
    assert(0 * one == 0) by (nonlinear_arith);
    binary32::lemma_nearest_exact(0, one, 0);
    if f == 0 || size == 0 {
        assert(num == 0) by (nonlinear_arith)
            requires
                num == (size * one) * f,
                f == 0 || size == 0,
        ;
    }
}

/// What is interpolated on a segment, in units.
proof fn lemma_on_segment(a: (Binary32, u8), b: (Binary32, u8), t: Binary32)
    requires
        rising_segment(a, b),
        a.0.le(t),
        t.le(b.0),
        measured(a, t),
    ensures
        on_segment(a, b, t) == binary32::whole_of(raw_duty(a, b, along(a, b, t)), 100),
        a.1 <= b.1 ==> a.1 * binary32::one() <= raw_duty(a, b, along(a, b, t)) <= b.1
            * binary32::one(),
        b.1 <= a.1 ==> b.1 * binary32::one() <= raw_duty(a, b, along(a, b, t)) <= a.1
            * binary32::one(),
        t.scaled() == a.0.scaled() ==> raw_duty(a, b, along(a, b, t)) == a.1 * binary32::one(),
        t.scaled() == b.0.scaled() ==> raw_duty(a, b, along(a, b, t)) == b.1 * binary32::one(),
{
    let one = binary32::one();
    let f = along(a, b, t);
    lemma_along(a, b, t);
    let fraction = t.difference(a.0).quotient(b.0.difference(a.0));
    lemma_rise(a, b, fraction, f);
    let low = binary32::of_int(a.1 as int);
    let rise = binary32::of_int(b.1 as int).difference(low);
    let part = rise.product(fraction);
    binary32::lemma_byte_exact(a.1 as nat);
    binary32::lemma_byte_exact(b.1 as nat);
    binary32::lemma_sum(low, part);
    let sum = low.sum(part);
    assert(sum.scaled() == raw_duty(a, b, f));
    let exact = a.1 * one + part_of_rise(b.1 - a.1, f);
    assert((b.1 - a.1) * one == b.1 * one - a.1 * one) by (nonlinear_arith);
    assert(a.1 * one >= 0 && b.1 * one >= 0) by (nonlinear_arith);
    if a.1 <= b.1 {
        binary32::lemma_fit_ordered(a.1 * one, exact);
        binary32::lemma_fit_ordered(exact, b.1 * one);
    }
    if b.1 <= a.1 {
        binary32::lemma_fit_ordered(b.1 * one, exact);
        binary32::lemma_fit_ordered(exact, a.1 * one);
    }
}

/// Between the points of a curve the duty lies between the points' duties, and
/// at the points it is theirs, wherever the distance from the first of the two
/// points is finite.
pub proof fn law_segment_between(a: (Binary32, u8), b: (Binary32, u8), t: Binary32)
    requires
        rising_segment(a, b),
        a.0.le(t),
        t.le(b.0),
        measured(a, t),
    ensures
        smaller(a.1 as int, b.1 as int) <= on_segment(a, b, t),
        on_segment(a, b, t) <= a.1 || on_segment(a, b, t) <= b.1,
        t.scaled() == a.0.scaled() ==> on_segment(a, b, t) == a.1,
        t.scaled() == b.0.scaled() ==> on_segment(a, b, t) == b.1,
{
    lemma_on_segment(a, b, t);
    let one = binary32::one();
    let raw = raw_duty(a, b, along(a, b, t));
    binary32::lemma_whole_of_whole(a.1 as nat, 100);
    binary32::lemma_whole_of_whole(b.1 as nat, 100);
    if a.1 <= b.1 {
        binary32::lemma_whole_ordered(a.1 * one, raw, 100);
        binary32::lemma_whole_ordered(raw, b.1 * one, 100);
    } else {
        binary32::lemma_whole_ordered(b.1 * one, raw, 100);
        binary32::lemma_whole_ordered(raw, a.1 * one, 100);
    }
}

/// On a segment that does not fall, a higher temperature never gets a lower
/// duty, as long as its distance from the start of the segment is finite.
pub proof fn law_segment_ordered(
    a: (Binary32, u8),
    b: (Binary32, u8),
    s: Binary32,
    t: Binary32,
)
    requires
        rising_segment(a, b),
        a.1 <= b.1,
        a.0.le(s),
        s.le(t),
        t.le(b.0),
        measured(a, t),
    ensures
        on_segment(a, b, s) <= on_segment(a, b, t),
{
    lemma_measured_below(a, s, t);
    lemma_on_segment(a, b, s);
    lemma_on_segment(a, b, t);
    if regular_segment(a, b) {
        lemma_ordered_regular(a, b, s, t);
    }
}

proof fn lemma_ordered_regular(
    a: (Binary32, u8),
    b: (Binary32, u8),
    s: Binary32,
    t: Binary32,
)
    requires
        regular_segment(a, b),
        a.1 <= b.1,
        a.0.le(s),
        s.le(t),
        t.le(b.0),
    ensures
        binary32::whole_of(raw_duty(a, b, along(a, b, s)), 100) <= binary32::whole_of(
            raw_duty(a, b, along(a, b, t)),
            100,
        ),
{
    lemma_along_regular(a, b, s);
    lemma_along_regular(a, b, t);
    let one = binary32::one();
    let x = binary32::fit(s.scaled() - a.0.scaled()) as nat;
    let y = binary32::fit(t.scaled() - a.0.scaled()) as nat;
    let w = binary32::fit(b.0.scaled() - a.0.scaled()) as nat;
    binary32::lemma_fit_ordered(s.scaled() - a.0.scaled(), t.scaled() - a.0.scaled());
    assert((x * one) * w <= (y * one) * w) by (nonlinear_arith)
        requires
            x <= y,
    ;
    binary32::lemma_nearest_ordered(x * one, w, y * one, w);
    binary32::lemma_units_increasing(
        binary32::nearest(x * one, w),
        binary32::nearest(y * one, w),
    );
    let f = along(a, b, s);
    let g = along(a, b, t);
    assert(f <= g);
    let steps = (b.1 - a.1) as nat;
    vstd::arithmetic::power2::lemma_pow2_pos(149);
    assert((steps * one * f) * one <= (steps * one * g) * one) by (nonlinear_arith)
        requires
            f <= g,
    ;
    binary32::lemma_nearest_ordered(steps * one * f, one, steps * one * g, one);
    binary32::lemma_units_increasing(
        binary32::nearest(steps * one * f, one),
        binary32::nearest(steps * one * g, one),
    );
    binary32::lemma_fit_ordered(
        a.1 * one + part_of_rise(b.1 - a.1, f),
        a.1 * one + part_of_rise(b.1 - a.1, g),
    );
    binary32::lemma_whole_ordered(raw_duty(a, b, f), raw_duty(a, b, g), 100);
}

proof fn lemma_absolute_product(x: int, y: int)
    ensures
        binary32::absolute(x * y) == binary32::absolute(x) * binary32::absolute(y),
{
    assert(binary32::absolute(x * y) == binary32::absolute(x) * binary32::absolute(y))
        by (nonlinear_arith);
}

/// A value up to `n` is below infinity.
proof fn lemma_below_infinity(mag: nat, n: nat)
    requires
        n <= 255,
        mag <= binary32::INFINITY_MAGNITUDE,
        binary32::units(mag) <= n * binary32::one(),
    ensures
        mag < binary32::INFINITY_MAGNITUDE,
{
    binary32::lemma_byte_exact(n);
    let exact = choose|exact: nat|
        exact < binary32::INFINITY_MAGNITUDE && #[trigger] binary32::units(exact) == n
            * binary32::one();
    binary32::lemma_units_increasing(exact, binary32::INFINITY_MAGNITUDE as nat);
}

/// How far a finite distance is off: very little against itself.
proof fn lemma_distance_error(a: (Binary32, u8), t: Binary32)
    requires
        a.0.le(t),
        measured(a, t),
    ensures
        0x100_0000 * binary32::absolute(
            binary32::fit(t.scaled() - a.0.scaled()) - (t.scaled() - a.0.scaled()),
        ) <= binary32::fit(t.scaled() - a.0.scaled()),
{
    let x = (t.scaled() - a.0.scaled()) as nat;
    lemma_measured_finite(a, t);
    binary32::lemma_signed(!a.0.negative(), a.0.magnitude());
    binary32::lemma_nearest(x, 1);
    if x == 0 {
        assert(binary32::units(0) == 0);
        binary32::lemma_nearest_exact(0, 1, 0);
    } else {
        binary32::lemma_signed(false, binary32::nearest(x, 1));
    }
    binary32::lemma_fit_error(x);
}

/// How far the fraction `f` of two distances is off, where `p` and `w` are the
/// rounded distances and `x` and `y` the exact ones.
proof fn lemma_fraction_error(x: int, y: int, p: int, w: int, f: int, one: int)
    requires
        0 <= p <= w,
        0 <= f <= one,
        0x100_0000 * binary32::absolute(p - x) <= p,
        0x100_0000 * binary32::absolute(w - y) <= w,
        0x100_0000 * binary32::absolute(f * w - p * one) <= one * w,
    ensures
        0x100_0000 * binary32::absolute(f * y - x * one) <= 6 * (one * y),
{
    let d = f * w - p * one;
    lemma_absolute_product(f, y - w);
    lemma_absolute_product(p - x, one);
    assert(f * y - x * one == f * (y - w) + d + (p - x) * one) by (nonlinear_arith)
        requires
            d == f * w - p * one,
    ;
    let u = binary32::absolute(w - y) as int;
    let v = binary32::absolute(p - x) as int;
    assert(0x100_0000 * (f * u) <= one * w) by (nonlinear_arith)
        requires
            0x100_0000 * u <= w,
            0 <= f <= one,
            0 <= u,
    ;
    assert(0x100_0000 * (v * one) <= one * w) by (nonlinear_arith)
        requires
            0x100_0000 * v <= p,
            p <= w,
            0 <= one,
            0 <= v,
    ;
    assert(w <= 2 * y);
    assert(one * w <= 2 * (one * y)) by (nonlinear_arith)
        requires
            w <= 2 * y,
            0 <= one,
    ;
}

/// How far the part `rise` of `steps` percentage points is off.
proof fn lemma_rise_error(steps: int, f: nat)
    requires
        -100 <= steps <= 100,
        binary32::absolute(part_of_rise(steps, f)) <= 100 * binary32::one(),
    ensures
        0x100_0000 * binary32::absolute(part_of_rise(steps, f) - steps * f) <= 100
            * binary32::one(),
{
    let one = binary32::one();
    let size = binary32::absolute(steps);
    let num = size * one * f;
    let r = binary32::units(binary32::nearest(num, one));
    vstd::arithmetic::power2::lemma_pow2_pos(149);
    binary32::lemma_nearest(num, one);
    lemma_below_infinity(binary32::nearest(num, one), 100);
    binary32::lemma_nearest_error(num, one);
    let off = binary32::absolute(r - size * f);
    lemma_absolute_product(r - size * f, one as int);
    assert(r * one - num == (r - size * f) * one) by (nonlinear_arith)
        requires
            num == size * one * f,
    ;
    assert(binary32::absolute(r * one - num) == off * one);
    if 2 * (off * one) <= one {
        assert(off == 0) by (nonlinear_arith)
            requires
                2 * (off * one) <= one,
                one > 0,
        ;
    } else {
        assert(0x100_0000 * off <= r) by (nonlinear_arith)
            requires
                0x100_0000 * (off * one) <= r * one,
                one > 0,
        ;
    }
    assert(steps * f == if steps < 0 {
        -((size * f) as int)
    } else {
        (size * f) as int
    }) by (nonlinear_arith)
        requires
            size == if steps < 0 {
                -steps
            } else {
                steps
            },
    ;
}

/// How far the duty is off that is rounded from `raw`, which is `start` and the
/// part `rise` of `steps`, up to the fraction `f` of the distance `y`.
proof fn lemma_duty_error(
    start: int,
    steps: int,
    f: int,
    rise: int,
    raw: int,
    duty: int,
    x: int,
    y: int,
    one: int,
)
    requires
        -100 <= steps <= 100,
        0 < one,
        0 < y,
        0x100_0000 * binary32::absolute(f * y - x * one) <= 6 * (one * y),
        0x100_0000 * binary32::absolute(rise - steps * f) <= 100 * one,
        0x100_0000 * binary32::absolute(raw - (start * one + rise)) <= 100 * one,
        2 * binary32::absolute(duty * one - raw) <= one,
    ensures
        10_000 * binary32::absolute(duty * y - (start * y + steps * x)) <= 5_001 * y,
{
    let from = duty * one - start * one - steps * f;
    let along = f * y - x * one;
    let error = duty * y - (start * y + steps * x);
    assert(0x200_0000 * binary32::absolute(from) <= 0x100_0190 * one);
    lemma_absolute_product(from, y);
    lemma_absolute_product(steps, along);
    lemma_absolute_product(error, one);
    assert(error * one == from * y + steps * along) by {
        assert(from * y == (duty * one) * y - (start * one) * y - (steps * f) * y)
            by (nonlinear_arith)
            requires
                from == duty * one - start * one - steps * f,
        ;
        assert(steps * along == steps * (f * y) - steps * (x * one)) by (nonlinear_arith)
            requires
                along == f * y - x * one,
        ;
        assert(error * one == (duty * y) * one - (start * y) * one - (steps * x) * one)
            by (nonlinear_arith)
            requires
                error == duty * y - (start * y + steps * x),
        ;
        assert((duty * one) * y == (duty * y) * one) by (nonlinear_arith);
        assert((start * one) * y == (start * y) * one) by (nonlinear_arith);
        assert((steps * f) * y == steps * (f * y)) by (nonlinear_arith);
        assert((steps * x) * one == steps * (x * one)) by (nonlinear_arith);
    }
    let u = binary32::absolute(from) as int;
    let v = binary32::absolute(along) as int;
    let w = binary32::absolute(steps) as int;
    let e = binary32::absolute(error) as int;
    assert(0x200_0000 * (u * y) <= 0x100_0190 * (one * y)) by (nonlinear_arith)
        requires
            0x200_0000 * u <= 0x100_0190 * one,
            0 < y,
    ;
    assert(0x200_0000 * (w * v) <= 1_200 * (one * y)) by (nonlinear_arith)
        requires
            0 <= w <= 100,
            0 <= v,
            0x100_0000 * v <= 6 * (one * y),
    ;
    assert(0x200_0000 * (e * one) <= 0x100_0640 * (one * y));
    assert(0x200_0000 * e <= 0x100_0640 * y) by (nonlinear_arith)
        requires
            0x200_0000 * (e * one) <= 0x100_0640 * (one * y),
            0 < one,
    ;
}

/// Whether `duty` is within 0.5001 percentage points of the straight line from
/// `a` to `b` at `t`.
pub open spec fn near_line(a: (Binary32, u8), b: (Binary32, u8), t: Binary32, duty: nat) -> bool {
    let whole = b.0.scaled() - a.0.scaled();
    let part = t.scaled() - a.0.scaled();
    10_000 * binary32::absolute(duty * whole - (a.1 * whole + (b.1 - a.1) * part)) <= 5_001 * whole
}

/// The duty on a segment follows the straight line through its ends, as long as
/// their distance is finite: it is off by no more than rounding to a whole
/// percentage accounts for, and a ten-thousandth of a percentage point.
pub proof fn law_segment_line(a: (Binary32, u8), b: (Binary32, u8), t: Binary32)
    requires
        rising_segment(a, b),
        measured(a, b.0),
        a.0.le(t),
        t.le(b.0),
    ensures
        near_line(a, b, t, on_segment(a, b, t)),
{
    let one = binary32::one();
    let x = t.scaled() - a.0.scaled();
    let y = b.0.scaled() - a.0.scaled();
    let p = binary32::fit(x);
    let w = binary32::fit(y);
    let f = along(a, b, t);
    let rise = part_of_rise(b.1 - a.1, f);
    let raw = raw_duty(a, b, f);
    let fraction = t.difference(a.0).quotient(b.0.difference(a.0));
    vstd::arithmetic::power2::lemma_pow2_pos(149);
    lemma_measured_finite(a, b.0);
    lemma_measured_below(a, t, b.0);
    lemma_along_regular(a, b, t);
    lemma_on_segment(a, b, t);
    lemma_rise(a, b, fraction, f);
    // The distances and their fraction.
    lemma_distance_error(a, t);
    lemma_distance_error(a, b.0);
    binary32::lemma_fit_ordered(x, y);
    let num = (p as nat) * one;
    binary32::lemma_nearest(num, w as nat);
    lemma_below_infinity(binary32::nearest(num, w as nat), 1);
    binary32::lemma_nearest_error(num, w as nat);
    let off = binary32::absolute(f * w - p * one);
    assert(0x100_0000 * off <= one * w) by {
        vstd::arithmetic::power2::lemma_pow2_strictly_increases(24, 149);
        vstd::arithmetic::power2::lemma2_to64();
        if 2 * off <= w {
            assert(0x100_0000 * off <= one * w) by (nonlinear_arith)
                requires
                    2 * off <= w,
                    one >= 0x100_0000,
                    w > 0,
            ;
        } else {
            assert(f * w <= one * w) by (nonlinear_arith)
                requires
                    f <= one,
                    w > 0,
            ;
        }
    }
    lemma_fraction_error(x, y, p, w, f as int, one as int);
    // The rise, and the sum.
    assert(-100 * one <= (b.1 - a.1) * one <= 100 * one) by (nonlinear_arith)
        requires
            -100 <= b.1 - a.1 <= 100,
    ;
    lemma_rise_error(b.1 - a.1, f);
    let exact = a.1 * one + rise;
    assert(0 <= a.1 * one <= 100 * one && 0 <= b.1 * one <= 100 * one) by (nonlinear_arith)
        requires
            0 <= a.1 <= 100,
            0 <= b.1 <= 100,
    ;
    assert((b.1 - a.1) * one == b.1 * one - a.1 * one) by (nonlinear_arith);
    assert(exact >= 0);
    binary32::lemma_nearest(exact as nat, 1);
    lemma_below_infinity(binary32::nearest(exact as nat, 1), 100);
    binary32::lemma_fit_error(exact as nat);
    binary32::lemma_whole_error(raw, 100);
    lemma_duty_error(
        a.1 as int,
        b.1 - a.1,
        f as int,
        rise,
        raw,
        on_segment(a, b, t) as int,
        x,
        y,
        one as int,
    );
}

/// Where nothing is lost in interpolating, a duty halfway between two whole
/// percentages is rounded up, and any other to the nearer one. `f` is the
/// magnitude of the fraction and `r` that of the part of the rise.
pub proof fn law_segment_halves(
    a: (Binary32, u8),
    b: (Binary32, u8),
    t: Binary32,
    f: nat,
    r: nat,
)
    requires
        rising_segment(a, b),
        measured(a, b.0),
        a.0.le(t),
        t.le(b.0),
        f < binary32::INFINITY_MAGNITUDE,
        r < binary32::INFINITY_MAGNITUDE,
        t.difference(a.0).scaled() == t.scaled() - a.0.scaled(),
        b.0.difference(a.0).scaled() == b.0.scaled() - a.0.scaled(),
        binary32::units(f) * (b.0.scaled() - a.0.scaled()) == (t.scaled() - a.0.scaled())
            * binary32::one(),
        binary32::units(r) == binary32::absolute(b.1 - a.1) * binary32::units(f),
        binary32::fit(a.1 * binary32::one() + (b.1 - a.1) * binary32::units(f)) == a.1
            * binary32::one() + (b.1 - a.1) * binary32::units(f),
    ensures
        ({
            let exact = a.1 * binary32::one() + (b.1 - a.1) * binary32::units(f);
            let n = on_segment(a, b, t);
            &&& 2 * exact < (2 * n + 1) * binary32::one()
            &&& (2 * n - 1) * binary32::one() <= 2 * exact
        }),
{
    let one = binary32::one();
    let x = t.scaled() - a.0.scaled();
    let y = b.0.scaled() - a.0.scaled();
    let u = binary32::units(f);
    let steps = b.1 - a.1;
    let size = binary32::absolute(steps);
    vstd::arithmetic::power2::lemma_pow2_pos(149);
    lemma_measured_finite(a, b.0);
    lemma_measured_below(a, t, b.0);
    lemma_measured_finite(a, t);
    binary32::lemma_difference(t, a.0);
    binary32::lemma_difference(b.0, a.0);
    lemma_on_segment(a, b, t);
    assert((x as nat) * one == u * (y as nat));
    binary32::lemma_nearest_exact((x as nat) * one, y as nat, f);
    assert(along(a, b, t) == u);
    let num = size * one * u;
    assert(num == (size * u) * one) by (nonlinear_arith)
        requires
            num == size * one * u,
    ;
    binary32::lemma_nearest_exact(num, one, r);
    assert(steps * u == if steps < 0 {
        -((size * u) as int)
    } else {
        (size * u) as int
    }) by (nonlinear_arith)
        requires
            size == if steps < 0 {
                -steps
            } else {
                steps
            },
    ;
    assert(part_of_rise(steps, u) == steps * u);
    let exact = a.1 * one + steps * u;
    assert(raw_duty(a, b, u) == exact);
    assert(0 <= a.1 * one <= 100 * one && 0 <= b.1 * one <= 100 * one) by (nonlinear_arith)
        requires
            0 <= a.1 <= 100,
            0 <= b.1 <= 100,
    ;
    assert(0 <= exact <= 100 * one);
    lemma_halves(exact, 100);
}

proof fn lemma_halves(x: int, cap: nat)
    requires
        0 <= x <= cap * binary32::one(),
    ensures
        2 * x < (2 * binary32::whole_of(x, cap) + 1) * binary32::one(),
        (2 * binary32::whole_of(x, cap) - 1) * binary32::one() <= 2 * x,
{
    let one = binary32::one() as int;
    vstd::arithmetic::power2::lemma_pow2_pos(149);
    let n = binary32::whole_of(x, cap) as int;
    assert((2 * n + 1) * one == 2 * (n * one) + one) by (nonlinear_arith);
    assert((2 * n - 1) * one == 2 * (n * one) - one) by (nonlinear_arith);
    if x > 0 {
        let twice = 2 * one;
        let sum = 2 * x + one;
        let q = sum / twice;
        vstd::arithmetic::div_mod::lemma_fundamental_div_mod(sum, twice);
        vstd::arithmetic::div_mod::lemma_mod_bound(sum, twice);
        vstd::arithmetic::div_mod::lemma_div_pos_is_pos(sum, twice);
        assert(twice * q == 2 * (q * one)) by (nonlinear_arith)
            requires
                twice == 2 * one,
        ;
        if q > cap {
            assert(q * one >= cap * one + one) by (nonlinear_arith)
                requires
                    q >= cap + 1,
                    one > 0,
            ;
            assert(false);
        }
    } else {
        assert(0 * one == 0) by (nonlinear_arith);
    }
}

proof fn lemma_curve_rises(curve: Seq<(Binary32, u8)>, i: int, j: int)
    requires
        rising_curve(curve),
        0 <= i < j < curve.len(),
    ensures
        curve[i].0.lt(curve[j].0),
    decreases j,
{
    assert(rising_segment(curve[j - 1], curve[j - 1 + 1]));
    if i < j - 1 {
        lemma_curve_rises(curve, i, j - 1);
    }
}

/// A temperature above point `i` and not above the last point lies on a
/// segment; it is the one that the search from `i` on finds.
proof fn lemma_segment_at(curve: Seq<(Binary32, u8)>, t: Binary32, i: nat)
    requires
        rising_curve(curve),
        i + 1 < curve.len(),
        curve[i as int].0.le(t),
        t.le(curve.last().0),
    ensures
        segment_at(curve, t, i) matches Some(k) && i <= k < curve.len() - 1
            && curve[k as int].0.le(t) && t.le(curve[k as int + 1].0) && (k > i ==> curve[k as int].0.lt(
            t,
        )),
    decreases curve.len() - i,
{
    if !t.le(curve[i as int + 1].0) {
        lemma_curve_rises(curve, i as int, i as int + 1);
        lemma_segment_at(curve, t, i + 1);
    }
}

/// At its points a curve asks for the points' duties; at a point between the
/// first and the last, wherever its distance from the one before is finite.
pub proof fn law_curve_hits_points(curve: Seq<(Binary32, u8)>, i: int)
    requires
        rising_curve(curve),
        0 <= i < curve.len(),
        measured_on(curve, curve[i].0),
    ensures
        curve_duty(curve, curve[i].0) == curve[i].1,
{
    let t = curve[i].0;
    let n = curve.len();
    lemma_curve_rises(curve, 0, n - 1);
    if i > 0 {
        lemma_curve_rises(curve, 0, i);
        if i < n - 1 {
            lemma_curve_rises(curve, i, n - 1);
            lemma_segment_at(curve, t, 0);
            let k = segment_at(curve, t, 0)->0 as int;
            if k >= i {
                if k > i {
                    lemma_curve_rises(curve, i, k);
                }
                // The segment before ends at `t`, so the search stops there.
                assert(k > 0);
                assert(false);
            }
            if k + 1 < i {
                lemma_curve_rises(curve, k + 1, i);
            }
            assert(k + 1 == i);
            assert(rising_segment(curve[k], curve[k + 1]));
            law_segment_between(curve[k], curve[k + 1], t);
        }
    }
}

/// Between two of its points that have a finite distance, a curve follows the
/// straight line through them.
pub proof fn law_curve_line(curve: Seq<(Binary32, u8)>, t: Binary32, k: int)
    requires
        rising_curve(curve),
        0 <= k < curve.len() - 1,
        measured(curve[k], curve[k + 1].0),
        curve[k].0.lt(t),
        t.le(curve[k + 1].0),
    ensures
        near_line(curve[k], curve[k + 1], t, curve_duty(curve, t)),
{
    let n = curve.len();
    assert(rising_segment(curve[k], curve[k + 1]));
    law_segment_line(curve[k], curve[k + 1], t);
    lemma_measured_below(curve[k], t, curve[k + 1].0);
    law_segment_between(curve[k], curve[k + 1], t);
    if 0 < k {
        lemma_curve_rises(curve, 0, k);
    }
    if k + 1 < n - 1 {
        lemma_curve_rises(curve, k + 1, n - 1);
    }
    lemma_only_segment(curve, t, k);
}

/// Up to its first point a curve asks for the first duty and from its last point
/// on for the last one, and so it does for what is not a number.
pub proof fn law_curve_ends(curve: Seq<(Binary32, u8)>, t: Binary32)
    requires
        curve.len() >= 2,
    ensures
        t.le(curve[0].0) ==> curve_duty(curve, t) == curve[0].1,
        !t.le(curve[0].0) && curve[curve.len() - 1].0.le(t) ==> curve_duty(curve, t)
            == curve[curve.len() - 1].1,
        t.is_nan() ==> curve_duty(curve, t) == curve[curve.len() - 1].1,
{
    lemma_segment_holds(curve, t, 0);
}

/// Between two points of a curve, a temperature whose distance from the lower
/// one is not finite gets no duty: nothing can be interpolated for it.
pub proof fn law_curve_unmeasured(curve: Seq<(Binary32, u8)>, t: Binary32, k: int)
    requires
        rising_curve(curve),
        0 <= k < curve.len() - 1,
        curve[k].0.lt(t),
        t.lt(curve[k + 1].0),
        !t.difference(curve[k].0).is_finite(),
    ensures
        curve_duty(curve, t) == 0,
{
    let n = curve.len();
    assert(rising_segment(curve[k], curve[k + 1]));
    lemma_unmeasured(curve[k], curve[k + 1], t);
    lemma_only_segment(curve, t, k);
    if k + 1 < n - 1 {
        lemma_curve_rises(curve, k + 1, n - 1);
    }
    if 0 < k {
        lemma_curve_rises(curve, 0, k);
    }
}

/// Between two points of a curve that are further apart than any finite number, a
/// temperature whose distance from the lower one is finite gets that one's duty.
pub proof fn law_curve_far(curve: Seq<(Binary32, u8)>, t: Binary32, k: int)
    requires
        rising_curve(curve),
        0 <= k < curve.len() - 1,
        curve[k].0.lt(t),
        t.lt(curve[k + 1].0),
        t.difference(curve[k].0).is_finite(),
        !curve[k + 1].0.difference(curve[k].0).is_finite(),
    ensures
        curve_duty(curve, t) == curve[k].1,
{
    let n = curve.len();
    let a = curve[k];
    let b = curve[k + 1];
    assert(rising_segment(a, b));
    lemma_only_segment(curve, t, k);
    if k + 1 < n - 1 {
        lemma_curve_rises(curve, k + 1, n - 1);
    }
    if 0 < k {
        lemma_curve_rises(curve, 0, k);
    }
    lemma_on_segment(a, b, t);
    lemma_along(a, b, t);
    lemma_rise(a, b, t.difference(a.0).quotient(b.0.difference(a.0)), 0);
    binary32::lemma_byte_exact(a.1 as nat);
    binary32::lemma_whole_of_whole(a.1 as nat, 100);
}

/// The search finds the segment that has `t` above its start.
proof fn lemma_only_segment(curve: Seq<(Binary32, u8)>, t: Binary32, k: int)
    requires
        rising_curve(curve),
        0 <= k < curve.len() - 1,
        curve[k].0.lt(t),
        t.le(curve[k + 1].0),
    ensures
        segment_at(curve, t, 0) == Some(k as nat),
{
    let n = curve.len();
    if 0 < k {
        lemma_curve_rises(curve, 0, k);
    }
    if k + 1 < n - 1 {
        lemma_curve_rises(curve, k + 1, n - 1);
    }
    lemma_segment_at(curve, t, 0);
    let m = segment_at(curve, t, 0)->0 as int;
    // Any other segment lies on one side of this one.
    if m < k {
        if m + 1 < k {
            lemma_curve_rises(curve, m + 1, k);
        }
        assert(false);
    }
    if k < m {
        if k + 1 < m {
            lemma_curve_rises(curve, k + 1, m);
        }
        assert(false);
    }
}

/// The duty that a curve asks for is never above 100.
pub proof fn law_curve_duty_bound(curve: Seq<(Binary32, u8)>, t: Binary32)
    requires
        curve.len() >= 2,
        forall|i: int| 0 <= i < curve.len() ==> (#[trigger] curve[i]).1 <= 100,
    ensures
        curve_duty(curve, t) <= 100,
{
}

proof fn lemma_duties_ascend(curve: Seq<(Binary32, u8)>, i: int, j: int)
    requires
        duties_ascending(curve),
        0 <= i <= j < curve.len(),
    ensures
        curve[i].1 <= curve[j].1,
    decreases j,
{
    if i < j {
        lemma_duties_ascend(curve, i, j - 1);
        assert(curve[j - 1].1 <= curve[j - 1 + 1].1);
    }
}

/// On a curve whose duties do not fall, a higher temperature never gets a lower
/// duty, as long as its distance from the point below it is finite.
pub proof fn law_curve_ordered(curve: Seq<(Binary32, u8)>, s: Binary32, t: Binary32)
    requires
        rising_curve(curve),
        duties_ascending(curve),
        s.le(t),
        measured_on(curve, t),
    ensures
        curve_duty(curve, s) <= curve_duty(curve, t),
        curve[0].1 <= curve_duty(curve, t) <= curve.last().1,
{
    let n = curve.len();
    lemma_curve_rises(curve, 0, n - 1);
    lemma_curve_bounds(curve, t);
    if !measured_on(curve, s) {
        lemma_segment_at(curve, s, 0);
        let k = segment_at(curve, s, 0)->0 as int;
        assert(rising_segment(curve[k], curve[k + 1]));
        lemma_unmeasured(curve[k], curve[k + 1], s);
    } else if s.le(curve[0].0) || curve.last().0.le(t) {
        lemma_curve_bounds(curve, s);
    } else {
        lemma_segment_at(curve, s, 0);
        lemma_segment_at(curve, t, 0);
        let k = segment_at(curve, s, 0)->0 as int;
        let m = segment_at(curve, t, 0)->0 as int;
        assert(rising_segment(curve[k], curve[k + 1]));
        assert(rising_segment(curve[m], curve[m + 1]));
        if k == m {
            assert(curve[k].1 <= curve[k + 1].1);
            law_segment_ordered(curve[k], curve[k + 1], s, t);
        } else if k < m {
            lemma_duties_ascend(curve, k, k + 1);
            lemma_duties_ascend(curve, m, m + 1);
            lemma_duties_ascend(curve, k + 1, m);
            law_segment_between(curve[k], curve[k + 1], s);
            law_segment_between(curve[m], curve[m + 1], t);
        } else {
            // `t` is not above the end of its segment, which is not above the
            // start of the one of `s`, which is below `s`.
            if m + 1 < k {
                lemma_curve_rises(curve, m + 1, k);
            }
            assert(false);
        }
    }
}

proof fn lemma_curve_bounds(curve: Seq<(Binary32, u8)>, t: Binary32)
    requires
        rising_curve(curve),
        duties_ascending(curve),
        !t.is_nan(),
        measured_on(curve, t),
    ensures
        curve[0].1 <= curve_duty(curve, t) <= curve.last().1,
{
    let n = curve.len();
    lemma_curve_rises(curve, 0, n - 1);
    lemma_duties_ascend(curve, 0, n - 1);
    if !t.le(curve[0].0) && !curve.last().0.le(t) {
        lemma_segment_at(curve, t, 0);
        let k = segment_at(curve, t, 0)->0 as int;
        assert(rising_segment(curve[k], curve[k + 1]));
        law_segment_between(curve[k], curve[k + 1], t);
        lemma_duties_ascend(curve, 0, k);
        lemma_duties_ascend(curve, k, k + 1);
        lemma_duties_ascend(curve, k + 1, n - 1);
    }
}

/// The curve of a valid sensor rises.
pub proof fn law_valid_curve_rises(sensor: SensorConfig)
    requires
        sensor.valid(),
    ensures
        rising_curve(sensor.curve@),
{
    let curve = sensor.curve@;
    assert forall|i: int|
        #![trigger curve[i]]
        0 <= i < curve.len() - 1 implies rising_segment(curve[i], curve[i + 1]) by {
        assert(curve[i + 1].1 <= 100);
    }
}

/// Where the distance from each point of a curve to the next is finite, so is
/// that of every temperature between them.
pub proof fn law_near_points_measured(curve: Seq<(Binary32, u8)>, t: Binary32)
    requires
        curve.len() >= 2,
        forall|i: int|
            #![trigger curve[i]]
            0 <= i < curve.len() - 1 ==> measured(curve[i], curve[i + 1].0),
    ensures
        measured_on(curve, t),
{
    lemma_segment_holds(curve, t, 0);
    if let Some(k) = segment_at(curve, t, 0) {
        lemma_measured_below(curve[k as int], t, curve[k as int + 1].0);
    }
}

/// A segment that the search finds has `t` between its ends.
proof fn lemma_segment_holds(curve: Seq<(Binary32, u8)>, t: Binary32, i: nat)
    ensures
        segment_at(curve, t, i) matches Some(k) ==> k < curve.len() - 1 && curve[k as int].0.le(t)
            && t.le(curve[k as int + 1].0),
    decreases curve.len() - i,
{
    if i + 1 < curve.len() {
        lemma_segment_holds(curve, t, i + 1);
    }
}

// ---------------------------------------------------------------------------
// Laws of the demands
// ---------------------------------------------------------------------------

/// A number above `low` exceeds it by a positive number.
proof fn lemma_excess(low: Binary32, t: Binary32)
    requires
        low.lt(t),
    ensures
        !t.difference(low).is_nan(),
        !t.difference(low).negative(),
        t.difference(low).scaled() > 0,
        low.is_finite() && t.is_finite() ==> t.difference(low).scaled() == binary32::fit(
            t.scaled() - low.scaled(),
        ),
        !low.is_finite() || !t.is_finite() ==> t.difference(low).is_infinite(),
{
    let top = binary32::INFINITY_MAGNITUDE as nat;
    binary32::lemma_signed(!low.negative(), low.magnitude());
    binary32::lemma_units_increasing(low.magnitude(), top);
    binary32::lemma_units_increasing(t.magnitude(), top);
    binary32::lemma_units_increasing(0, top);
    assert(binary32::units(0) == 0);
    if low.is_infinite() {
        assert(low.negative());
    }
    if t.is_infinite() {
        assert(!t.negative());
    }
    if low.is_finite() && t.is_finite() {
        let exact = t.scaled() - low.scaled();
        binary32::lemma_difference(t, low);
        binary32::lemma_fit_exact(1);
        assert(binary32::units(1) == 1);
        binary32::lemma_fit_ordered(1, exact);
        binary32::lemma_nearest(binary32::absolute(exact), 1);
        binary32::lemma_signed(false, binary32::nearest(binary32::absolute(exact), 1));
    }
}

/// A larger excess never gives a smaller product with the same factor, as far
/// as whole percentages go.
proof fn lemma_scaled_excess(d: Binary32, e: Binary32, factor: Binary32, cap: nat)
    requires
        !d.is_nan(),
        !e.is_nan(),
        !d.negative(),
        !e.negative(),
        0 < d.scaled() <= e.scaled(),
    ensures
        d.product(factor).whole(cap) <= e.product(factor).whole(cap),
{
    let top = binary32::INFINITY_MAGNITUDE as nat;
    let one = binary32::one();
    assert(binary32::not_a_number().is_nan());
    vstd::arithmetic::power2::lemma_pow2_pos(149);
    if !factor.is_nan() {
        let p = binary32::units(factor.magnitude());
        let x = binary32::units(d.magnitude());
        let y = binary32::units(e.magnitude());
        binary32::lemma_nearest(x * p, one);
        binary32::lemma_nearest(y * p, one);
        binary32::lemma_signed(factor.negative(), binary32::nearest(x * p, one));
        binary32::lemma_signed(factor.negative(), binary32::nearest(y * p, one));
        binary32::lemma_signed(factor.negative(), top);
        if d.magnitude() > e.magnitude() {
            binary32::lemma_units_increasing(e.magnitude(), d.magnitude());
        }
        assert(d.magnitude() <= e.magnitude());
        assert((x * p) * one <= (y * p) * one) by (nonlinear_arith)
            requires
                x <= y,
        ;
        binary32::lemma_nearest_ordered(x * p, one, y * p, one);
        binary32::lemma_units_increasing(
            binary32::nearest(x * p, one),
            binary32::nearest(y * p, one),
        );
        binary32::lemma_units_increasing(binary32::nearest(x * p, one), top);
        let small = d.product(factor);
        let large = e.product(factor);
        if factor.is_zero() {
            assert(x * p == 0) by (nonlinear_arith)
                requires
                    p == 0,
            ;
            assert(binary32::units(0) == 0);
            assert(0 * one == 0) by (nonlinear_arith);
            binary32::lemma_nearest_exact(0, one, 0);
        } else if !small.is_nan() && !large.is_nan() && !factor.negative() {
            assert(small.scaled() <= large.scaled());
            assert(small.whole(cap) == binary32::whole_of(small.scaled(), cap));
            assert(large.whole(cap) == binary32::whole_of(large.scaled(), cap));
            binary32::lemma_whole_ordered(small.scaled(), large.scaled(), cap);
        }
    }
}

/// A hotter inlet never gets a smaller bias.
pub proof fn law_bias_ordered(s: Binary32, t: Binary32, bias: InletBiasConfig)
    requires
        s.le(t),
    ensures
        bias_for(Some(s), Some(&bias)) <= bias_for(Some(t), Some(&bias)),
{
    let low = bias.threshold_c;
    let cap = bias.max_bias_pct as nat;
    assert(binary32::not_a_number().is_nan());
    if low.is_nan() {
        binary32::lemma_signed(!low.negative(), low.magnitude());
        assert(s.difference(low).is_nan());
    } else if !s.le(low) {
        lemma_excess(low, s);
        lemma_excess(low, t);
        let d = s.difference(low);
        let e = t.difference(low);
        let top = binary32::INFINITY_MAGNITUDE as nat;
        binary32::lemma_units_increasing(d.magnitude(), top);
        binary32::lemma_units_increasing(t.magnitude(), top);
        if low.is_finite() && t.is_finite() {
            binary32::lemma_units_increasing(s.magnitude(), top);
            assert(s.is_finite()) by {
                if s.is_infinite() {
                    assert(!s.negative());
                    binary32::lemma_units_increasing(t.magnitude(), top);
                }
            }
            binary32::lemma_fit_ordered(s.scaled() - low.scaled(), t.scaled() - low.scaled());
        }
        assert(d.scaled() <= e.scaled());
        lemma_scaled_excess(d, e, bias.percent_per_degree_above, cap);
    }
}

/// How far the product `r` of the rounded excess `d` and the factor `p` is off
/// from `e`, that of the exact excess `x`.
proof fn lemma_product_error(x: int, d: int, p: int, r: int, e: int, one: int)
    requires
        0 <= x,
        0 <= d,
        0 <= p,
        0 <= r,
        e == x * p,
        one >= 0x100_0000,
        0x100_0000 * binary32::absolute(d - x) <= d,
        2 * binary32::absolute(r * one - d * p) <= one || 0x100_0000 * binary32::absolute(
            r * one - d * p,
        ) <= r * one,
    ensures
        0x100_0000 * binary32::absolute(r * one - e) <= 6 * e + one * one,
{
    let u = binary32::absolute(d - x) as int;
    let off = binary32::absolute(r * one - d * p) as int;
    lemma_absolute_product(d - x, p);
    assert((d - x) * p == d * p - e) by (nonlinear_arith)
        requires
            e == x * p,
    ;
    assert(0x100_0000 * (u * p) <= d * p) by (nonlinear_arith)
        requires
            0x100_0000 * u <= d,
            0 <= p,
    ;
    assert(0 <= e && 0 <= d * p) by (nonlinear_arith)
        requires
            e == x * p,
            0 <= x,
            0 <= d,
            0 <= p,
    ;
    if 2 * off <= one {
        assert(0x100_0000 * off <= one * one) by (nonlinear_arith)
            requires
                2 * off <= one,
                one >= 0x100_0000,
                0 <= off,
        ;
    } else {
        assert(0 <= one * one) by (nonlinear_arith);
    }
}

/// Whether `added` is what an inlet at `t` is too hot by, times the percentage
/// per degree: to within 0.5001 percentage points where that is below the cap,
/// and the cap where it is not.
pub open spec fn near_bias(t: Binary32, bias: InletBiasConfig, added: nat) -> bool {
    let exact = (t.scaled() - bias.threshold_c.scaled()) * bias.percent_per_degree_above.scaled();
    let point = binary32::one() * binary32::one();
    &&& exact <= bias.max_bias_pct * point ==> 10_000 * binary32::absolute(added * point - exact)
        <= 5_001 * point
    &&& exact >= bias.max_bias_pct * point ==> added == bias.max_bias_pct
}

/// The inlet bias is what the inlet is too hot by, times the percentage per
/// degree, up to the cap: below the cap it is off by no more than rounding to a
/// whole percentage accounts for, and a ten-thousandth of a percentage point.
pub proof fn law_bias_line(t: Binary32, bias: InletBiasConfig)
    requires
        bias.threshold_c.lt(t),
        t.difference(bias.threshold_c).is_finite(),
        bias.percent_per_degree_above.is_finite(),
        0 <= bias.percent_per_degree_above.scaled(),
    ensures
        near_bias(t, bias, bias_for(Some(t), Some(&bias))),
{
    let top = binary32::INFINITY_MAGNITUDE as nat;
    let one = binary32::one();
    let low = bias.threshold_c;
    let factor = bias.percent_per_degree_above;
    let cap = bias.max_bias_pct as nat;
    let x = t.scaled() - low.scaled();
    let p = factor.scaled();
    let e = x * p;
    let point = one * one;
    let excess = t.difference(low);
    let d = excess.scaled();
    vstd::arithmetic::power2::lemma_pow2_strictly_increases(24, 149);
    vstd::arithmetic::power2::lemma2_to64();
    lemma_excess(low, t);
    lemma_measured_finite((low, 0), t);
    lemma_distance_error((low, 0), t);
    binary32::lemma_units_increasing(0, factor.magnitude());
    assert(binary32::units(0) == 0);
    assert(binary32::units(factor.magnitude()) == p);
    assert(binary32::units(excess.magnitude()) == d);
    let num = (d as nat) * (p as nat);
    let mag = binary32::nearest(num, one);
    binary32::lemma_nearest(num, one);
    binary32::lemma_signed(factor.negative(), mag);
    let product = excess.product(factor);
    assert(product == binary32::signed(factor.negative(), mag));
    if factor.negative() {
        // A zero with a minus sign.
        assert(num == 0) by (nonlinear_arith)
            requires
                num == (d as nat) * (p as nat),
                p == 0,
        ;
        assert(0 * one == 0) by (nonlinear_arith);
        binary32::lemma_nearest_exact(0, one, 0);
    }
    let r = binary32::units(mag) as int;
    assert(product.scaled() == r);
    let added = bias_for(Some(t), Some(&bias));
    assert(added == binary32::whole_of(r, cap));
    if mag == top {
        lemma_bias_overflow(num, cap);
        lemma_rough_product(x, d, p, e);
        assert(512 * point < num);
        assert(cap * point <= 255 * point) by (nonlinear_arith)
            requires
                cap <= 255,
                point >= 0,
        ;
    } else {
        binary32::lemma_nearest_error(num, one);
        lemma_product_error(x, d, p, r, e, one as int);
        lemma_bias_rounded(r, e, cap);
    }
}

/// A product with a rounded excess is not far above the exact one.
proof fn lemma_rough_product(x: int, d: int, p: int, e: int)
    requires
        0 <= x,
        0 <= p,
        0x100_0000 * binary32::absolute(d - x) <= d,
        e == x * p,
    ensures
        d * p <= 2 * e,
{
    assert(d * p <= 2 * e) by (nonlinear_arith)
        requires
            d <= 2 * x,
            0 <= p,
            e == x * p,
    ;
}

/// A product that is rounded to infinity is large, and its bias the cap.
proof fn lemma_bias_overflow(num: nat, cap: nat)
    requires
        binary32::nearest(num, binary32::one()) == binary32::INFINITY_MAGNITUDE,
        cap <= 255,
    ensures
        num > 512 * (binary32::one() * binary32::one()),
        binary32::whole_of(
            binary32::units(binary32::INFINITY_MAGNITUDE as nat) as int,
            cap,
        ) == cap,
{
    let one = binary32::one();
    let top = binary32::INFINITY_MAGNITUDE as nat;
    vstd::arithmetic::power2::lemma_pow2_pos(149);
    vstd::arithmetic::power2::lemma2_to64();
    binary32::lemma_whole_exact(512, 9);
    let mag = binary32::whole_magnitude(512, 9);
    if num <= 512 * (one * one) {
        assert((512 * one) * one == 512 * (one * one)) by (nonlinear_arith);
        binary32::lemma_nearest_exact((512 * one) * one, one, mag);
        assert(num * one <= ((512 * one) * one) * one) by (nonlinear_arith)
            requires
                num <= (512 * one) * one,
        ;
        binary32::lemma_nearest_ordered(num, one, (512 * one) * one, one);
        assert(false);
    }
    binary32::lemma_units_increasing(mag, top);
    assert(cap * one <= 512 * one) by (nonlinear_arith)
        requires
            cap <= 255,
    ;
    binary32::lemma_whole_ordered((cap * one) as int, binary32::units(top) as int, cap);
    binary32::lemma_whole_of_whole(cap, cap);
}

/// What the bias is that is rounded from `r`, which is close to `e` where that
/// is counted in squares of the unit.
proof fn lemma_bias_rounded(r: int, e: int, cap: nat)
    requires
        0 <= r,
        0 <= e,
        cap <= 255,
        0x100_0000 * binary32::absolute(r * binary32::one() - e) <= 6 * e + binary32::one()
            * binary32::one(),
    ensures
        ({
            let point = binary32::one() * binary32::one();
            let added = binary32::whole_of(r, cap);
            &&& e <= cap * point ==> 10_000 * binary32::absolute(added * point - e) <= 5_001 * point
            &&& e >= cap * point ==> added == cap
        }),
{
    let one = binary32::one() as int;
    let point = one * one;
    let added = binary32::whole_of(r, cap) as int;
    vstd::arithmetic::power2::lemma_pow2_pos(149);
    binary32::lemma_whole_of_whole(cap, cap);
    assert(point > 0) by (nonlinear_arith)
        requires
            one > 0,
            point == one * one,
    ;
    assert(cap * point <= 255 * point) by (nonlinear_arith)
        requires
            cap <= 255,
            point > 0,
    ;
    assert((cap * one) * one == cap * point) by (nonlinear_arith)
        requires
            point == one * one,
    ;
    if r <= cap * one {
        binary32::lemma_whole_error(r, cap);
        lemma_absolute_product(added * one - r, one);
        assert((added * one - r) * one == added * point - r * one) by (nonlinear_arith)
            requires
                point == one * one,
        ;
        let off = binary32::absolute(added * one - r) as int;
        assert(2 * (off * one) <= point) by (nonlinear_arith)
            requires
                2 * off <= one,
                one > 0,
                point == one * one,
        ;
    } else {
        binary32::lemma_whole_ordered(cap * one, r, cap);
        assert(added == cap);
        assert(r * one > cap * point) by (nonlinear_arith)
            requires
                r > cap * one,
                one > 0,
                (cap * one) * one == cap * point,
        ;
    }
    if e >= cap * point && added != cap {
        // `r` is then half a percentage point or more below the cap.
        assert(r <= cap * one);
        assert(added <= cap - 1);
        assert(added * one <= cap * one - one) by (nonlinear_arith)
            requires
                added <= cap - 1,
                one > 0,
        ;
        assert(2 * r <= 2 * (cap * one) - one);
        assert(2 * (r * one) <= 2 * (cap * point) - point) by (nonlinear_arith)
            requires
                2 * r <= 2 * (cap * one) - one,
                one > 0,
                (cap * one) * one == cap * point,
                point == one * one,
        ;
        assert(false);
    }
}

/// Nothing is added where the bias is not configured, the inlet was not read, or
/// it is not hotter than the threshold; what is added is never above the cap.
pub proof fn law_bias_range(t: Binary32, inlet: Option<Binary32>, bias: InletBiasConfig)
    ensures
        bias_for(inlet, None) == 0,
        bias_for(None, Some(&bias)) == 0,
        t.le(bias.threshold_c) ==> bias_for(Some(t), Some(&bias)) == 0,
        bias_for(Some(t), Some(&bias)) <= bias.max_bias_pct,
{
}

/// With a factor of zero or below nothing is added, nor where one of the numbers
/// is none. Where the inlet is too hot by more than any finite number and the
/// factor is above zero, the cap is added, and so it is where the factor is
/// infinite.
pub proof fn law_bias_edges(t: Binary32, bias: InletBiasConfig)
    ensures
        t.is_nan() || bias.threshold_c.is_nan() || bias.percent_per_degree_above.is_nan()
            ==> bias_for(Some(t), Some(&bias)) == 0,
        bias.percent_per_degree_above.scaled() <= 0 ==> bias_for(Some(t), Some(&bias)) == 0,
        bias.threshold_c.lt(t) && (t.difference(bias.threshold_c).is_infinite()
            || bias.percent_per_degree_above.is_infinite()) && !bias.percent_per_degree_above.is_nan() && bias.percent_per_degree_above.scaled() > 0
            ==> bias_for(Some(t), Some(&bias)) == bias.max_bias_pct,
{
    let low = bias.threshold_c;
    let factor = bias.percent_per_degree_above;
    let cap = bias.max_bias_pct as nat;
    let top = binary32::INFINITY_MAGNITUDE as nat;
    let one = binary32::one();
    assert(binary32::not_a_number().is_nan());
    binary32::lemma_signed(!low.negative(), low.magnitude());
    assert(binary32::units(0) == 0);
    if !t.is_nan() && !low.is_nan() && !factor.is_nan() && low.lt(t) {
        lemma_excess(low, t);
        let d = t.difference(low);
        binary32::lemma_units_increasing(0, factor.magnitude());
        binary32::lemma_units_increasing(0, d.magnitude());
        let num = binary32::units(d.magnitude()) * binary32::units(factor.magnitude());
        vstd::arithmetic::power2::lemma_pow2_pos(149);
        binary32::lemma_nearest(num, one);
        binary32::lemma_signed(factor.negative(), binary32::nearest(num, one));
        binary32::lemma_signed(factor.negative(), top);
        if factor.is_zero() && !d.is_infinite() {
            assert(num == 0) by (nonlinear_arith)
                requires
                    num == binary32::units(d.magnitude()) * binary32::units(factor.magnitude()),
                    binary32::units(factor.magnitude()) == 0,
            ;
            assert(0 * one == 0) by (nonlinear_arith);
            binary32::lemma_nearest_exact(0, one, 0);
        }
        if (d.is_infinite() || factor.is_infinite()) && factor.scaled() > 0 {
            assert(factor.magnitude() != 0);
            assert(d.magnitude() != 0);
            vstd::arithmetic::power2::lemma2_to64();
            binary32::lemma_whole_exact(512, 9);
            binary32::lemma_units_increasing(binary32::whole_magnitude(512, 9), top);
            assert(cap * one <= 512 * one) by (nonlinear_arith)
                requires
                    cap <= 255,
            ;
            binary32::lemma_whole_ordered((cap * one) as int, binary32::units(top) as int, cap);
            binary32::lemma_whole_of_whole(cap, cap);
            assert(d.product(factor) == binary32::signed(false, top));
            assert(bias_for(Some(t), Some(&bias)) == binary32::whole_of(
                binary32::units(top) as int,
                cap,
            ));
        }
    }
}

/// A demand is what the curve asks for and the bias, added up: their sum where
/// it is within the configured range, and else the end of the range that it is
/// beyond.
pub proof fn law_demand_sum(
    curve: Seq<(Binary32, u8)>,
    t: Binary32,
    bias: int,
    slew: SlewConfig,
)
    requires
        slew.min_duty <= slew.max_duty,
    ensures
        slew.min_duty <= curve_duty(curve, t) + bias <= slew.max_duty ==> demand(
            curve,
            t,
            bias,
            slew,
        ) == curve_duty(curve, t) + bias,
        curve_duty(curve, t) + bias < slew.min_duty ==> demand(curve, t, bias, slew)
            == slew.min_duty,
        curve_duty(curve, t) + bias > slew.max_duty ==> demand(curve, t, bias, slew)
            == slew.max_duty,
{
}

/// A hotter inlet never lowers a demand, and adds no more than its bias.
pub proof fn law_bias_raises(
    curve: Seq<(Binary32, u8)>,
    t: Binary32,
    bias: int,
    more: int,
    slew: SlewConfig,
)
    requires
        slew.min_duty <= slew.max_duty,
        bias <= more,
    ensures
        demand(curve, t, bias, slew) <= demand(curve, t, more, slew) <= demand(
            curve,
            t,
            bias,
            slew,
        ) + (more - bias),
{
}

/// On a curve whose duties do not fall, a hotter sensor never demands less, as
/// long as the distance of its temperature from the point below is finite.
pub proof fn law_demand_ordered(
    curve: Seq<(Binary32, u8)>,
    s: Binary32,
    t: Binary32,
    bias: int,
    slew: SlewConfig,
)
    requires
        rising_curve(curve),
        duties_ascending(curve),
        s.le(t),
        measured_on(curve, t),
        slew.min_duty <= slew.max_duty,
    ensures
        demand(curve, s, bias, slew) <= demand(curve, t, bias, slew),
{
    law_curve_ordered(curve, s, t);
}

/// The loudest demand is one of the demands, and no demand is above it; there
/// is none exactly where nothing is demanded.
pub proof fn law_loudest(demands: Seq<Option<u8>>)
    ensures
        loudest(demands) is None <==> forall|i: int|
            0 <= i < demands.len() ==> (#[trigger] demands[i]) is None,
        loudest(demands) matches Some(best) ==> demands.contains(Some(best)) && forall|i: int|
            0 <= i < demands.len() && (#[trigger] demands[i]) is Some ==> demands[i]->0 <= best,
    decreases demands.len(),
{
    if demands.len() > 0 {
        let front = demands.drop_last();
        law_loudest(front);
        assert forall|i: int| 0 <= i < front.len() implies front[i] == #[trigger] demands[i] by {}
        if loudest(front) is None {
            assert forall|i: int| 0 <= i < front.len() implies (#[trigger] demands[i]) is None by {
                assert(front[i] is None);
            }
            assert(demands[demands.len() - 1] == demands.last());
        } else {
            let best = loudest(front)->0;
            let i = choose|i: int| 0 <= i < front.len() && front[i] == Some(best);
            assert(demands[i] == Some(best));
            assert forall|i: int|
                0 <= i < front.len() && (#[trigger] demands[i]) is Some implies demands[i]->0
                <= best by {
                assert(front[i] is Some);
            }
            assert(demands[demands.len() - 1] == demands.last());
        }
    }
}

// ---------------------------------------------------------------------------
// Laws of slew rate and deadband
// ---------------------------------------------------------------------------

/// From a duty within the range, one tick rises and falls by no more than is
/// configured.
pub proof fn law_slew_step(current: int, target: int, slew: SlewConfig)
    requires
        slew.min_duty <= current <= slew.max_duty,
    ensures
        current - slew.max_fall_per_tick <= slewed(current, target, slew) <= current
            + slew.max_rise_per_tick,
{
}

/// One tick never moves away from the target nor past it, and a target that is
/// no further than one step is reached.
pub proof fn law_slew_approaches(current: int, target: int, slew: SlewConfig)
    requires
        slew.min_duty <= current <= slew.max_duty,
        slew.min_duty <= target <= slew.max_duty,
    ensures
        current <= target ==> current <= slewed(current, target, slew) <= target,
        target <= current ==> target <= slewed(current, target, slew) <= current,
        -slew.max_fall_per_tick <= target - current <= slew.max_rise_per_tick ==> slewed(
            current,
            target,
            slew,
        ) == target,
        current != target && slew.max_rise_per_tick > 0 && slew.max_fall_per_tick > 0
            ==> binary32::absolute(target - slewed(current, target, slew)) < binary32::absolute(
            target - current,
        ),
{
}

/// One tick goes all the way to a target that is near enough, and otherwise by
/// exactly the configured rise or fall, unless that leaves the configured range:
/// it then ends at the end of the range.
pub proof fn law_slew_exact(current: int, target: int, slew: SlewConfig)
    requires
        slew.min_duty <= slew.max_duty,
    ensures
        target - current > slew.max_rise_per_tick ==> ends_at(
            slewed(current, target, slew),
            current + slew.max_rise_per_tick,
            slew,
        ),
        current - target > slew.max_fall_per_tick ==> ends_at(
            slewed(current, target, slew),
            current - slew.max_fall_per_tick,
            slew,
        ),
        -slew.max_fall_per_tick <= target - current <= slew.max_rise_per_tick ==> ends_at(
            slewed(current, target, slew),
            target,
            slew,
        ),
        slew.min_duty <= current && target <= slew.max_duty && target - current
            > slew.max_rise_per_tick ==> slewed(current, target, slew) == current
            + slew.max_rise_per_tick,
        current <= slew.max_duty && slew.min_duty <= target && current - target
            > slew.max_fall_per_tick ==> slewed(current, target, slew) == current
            - slew.max_fall_per_tick,
{
}

/// Whether `duty` is `aim`, or the end of the configured range that `aim` is
/// beyond.
pub open spec fn ends_at(duty: int, aim: int, slew: SlewConfig) -> bool {
    &&& slew.min_duty <= aim <= slew.max_duty ==> duty == aim
    &&& aim < slew.min_duty ==> duty == slew.min_duty
    &&& aim > slew.max_duty ==> duty == slew.max_duty
}

/// A change of the deadband or more is always made, and a smaller one never; the
/// first duty is always set.
pub proof fn law_deadband_exact(current: u8, target: u8, deadband_pct: int)
    ensures
        target - current >= deadband_pct || current - target >= deadband_pct ==> banded(
            Some(current),
            target,
            deadband_pct,
        ) == target,
        -deadband_pct < target - current < deadband_pct ==> banded(
            Some(current),
            target,
            deadband_pct,
        ) == current,
        banded(None, target, deadband_pct) == target,
{
}

/// The deadband lets a change through unchanged or holds the duty, and it never
/// makes a change smaller than itself.
pub proof fn law_deadband(current: u8, target: u8, deadband_pct: int)
    ensures
        banded(Some(current), target, deadband_pct) == target || banded(
            Some(current),
            target,
            deadband_pct,
        ) == current,
        banded(Some(current), target, deadband_pct) != current ==> binary32::absolute(
            banded(Some(current), target, deadband_pct) - current,
        ) >= deadband_pct,
        deadband_pct <= 0 ==> banded(Some(current), target, deadband_pct) == target,
{
}

} // verus!
