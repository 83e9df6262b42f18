use fan_controllerd::binary32::Binary32;
use fan_controllerd::config::{InletBiasConfig, SensorConfig, SensorSpec, SlewConfig};
use fan_controllerd::control::{
    apply_deadband, demand_for_sensor, inlet_bias_pct, interpolate_curve, merge_demands,
    slew_limit,
};

fn b(x: f32) -> Binary32 {
    Binary32::from_bits(x.to_bits())
}

fn points(curve: Vec<(f32, u8)>) -> Vec<(Binary32, u8)> {
    curve.into_iter().map(|(t, d)| (b(t), d)).collect()
}

fn sensor(curve: Vec<(f32, u8)>) -> SensorConfig {
    SensorConfig {
        name: "t".into(),
        spec: SensorSpec::Hwmon {
            chip: "coretemp".into(),
            label: "Package id 0".into(),
        },
        hard_ceiling_c: b(95.0),
        curve: points(curve),
    }
}

fn default_slew() -> SlewConfig {
    SlewConfig {
        max_rise_per_tick: 10,
        max_fall_per_tick: 3,
        min_duty: 20,
        max_duty: 100,
        deadband_pct: 0,
    }
}

fn bias(per_degree: f32, cap: u8) -> InletBiasConfig {
    InletBiasConfig {
        sensor: "Inlet Temp".into(),
        threshold_c: b(27.0),
        percent_per_degree_above: b(per_degree),
        max_bias_pct: cap,
    }
}

#[test]
fn interp_below_first_returns_first() {
    let c = points(vec![(40.0, 20), (80.0, 80)]);
    assert_eq!(interpolate_curve(&c, b(30.0)), 20);
    assert_eq!(interpolate_curve(&c, b(40.0)), 20);
}

#[test]
fn interp_above_last_returns_last() {
    let c = points(vec![(40.0, 20), (80.0, 80)]);
    assert_eq!(interpolate_curve(&c, b(80.0)), 80);
    assert_eq!(interpolate_curve(&c, b(99.0)), 80);
}

#[test]
fn interp_midpoint_is_linear() {
    let c = points(vec![(40.0, 20), (80.0, 80)]);
    // halfway between 40 and 80 is 60; halfway between 20 and 80 is 50.
    assert_eq!(interpolate_curve(&c, b(60.0)), 50);
}

#[test]
fn interp_multi_segment() {
    let c = points(vec![(40.0, 20), (60.0, 30), (80.0, 80)]);
    assert_eq!(interpolate_curve(&c, b(50.0)), 25); // halfway in first segment
    assert_eq!(interpolate_curve(&c, b(70.0)), 55); // halfway in second segment
}

#[test]
fn interp_hits_its_points_and_never_falls_on_a_rising_curve() {
    let c = points(vec![(40.0, 20), (55.0, 25), (65.0, 35), (75.0, 55), (85.0, 90)]);
    for (t, d) in &c {
        assert_eq!(interpolate_curve(&c, *t), *d);
    }
    let mut last = 0;
    for i in 0..600 {
        let d = interpolate_curve(&c, b(30.0 + i as f32 * 0.1));
        assert!(d >= last);
        last = d;
    }
    assert_eq!(last, 90);
}

#[test]
fn interp_agrees_with_native_arithmetic() {
    let curve: Vec<(f32, u8)> = vec![(31.25, 7), (40.1, 20), (55.7, 99), (65.3, 35), (85.9, 90)];
    let c = points(curve.clone());
    for i in 0..700 {
        let t = 30.0 + i as f32 * 0.0813;
        let mut expected = curve[curve.len() - 1].1;
        if t <= curve[0].0 {
            expected = curve[0].1;
        } else if t < curve[curve.len() - 1].0 {
            for w in curve.windows(2) {
                if t >= w[0].0 && t <= w[1].0 {
                    let frac = (t - w[0].0) / (w[1].0 - w[0].0);
                    let duty = w[0].1 as f32 + (w[1].1 as f32 - w[0].1 as f32) * frac;
                    expected = duty.round().clamp(0.0, 100.0) as u8;
                    break;
                }
            }
        }
        assert_eq!(interpolate_curve(&c, b(t)), expected);
    }
}

#[test]
fn interp_follows_the_straight_line() {
    let curve: Vec<(f32, u8)> = vec![(31.25, 7), (40.1, 20), (55.7, 99), (65.3, 35), (85.9, 90)];
    let c = points(curve.clone());
    for w in curve.windows(2) {
        for i in 0..=200 {
            let t = w[0].0 + (w[1].0 - w[0].0) * (i as f32 / 200.0);
            let part = (t as f64 - w[0].0 as f64) / (w[1].0 as f64 - w[0].0 as f64);
            let line = w[0].1 as f64 + (w[1].1 as f64 - w[0].1 as f64) * part;
            let duty = interpolate_curve(&c, b(t)) as f64;
            assert!((duty - line).abs() <= 0.5001);
        }
    }
}

#[test]
fn interp_over_a_distance_that_is_not_finite() {
    // Up to a finite distance from the first point the duty is the first one;
    // beyond, nothing can be interpolated.
    let curve = [(-3e38f32, 50u8), (3e38, 80)];
    let c = points(curve.to_vec());
    for (t, duty) in [(-3e38f32, 50), (-1e38, 50), (0.0, 50), (1e38, 0), (3e38, 80)] {
        assert_eq!(interpolate_curve(&c, b(t)), duty);
    }
}

#[test]
fn interp_of_no_number_is_the_last_duty() {
    let c = points(vec![(40.0, 20), (80.0, 80)]);
    assert_eq!(interpolate_curve(&c, b(f32::NAN)), 80);
    assert_eq!(interpolate_curve(&c, b(f32::INFINITY)), 80);
    assert_eq!(interpolate_curve(&c, b(f32::NEG_INFINITY)), 20);
}

#[test]
fn no_bias_when_inlet_cool() {
    let b1 = bias(2.0, 30);
    assert_eq!(inlet_bias_pct(Some(b(25.0)), Some(&b1)), 0);
    assert_eq!(inlet_bias_pct(Some(b(27.0)), Some(&b1)), 0);
}

#[test]
fn bias_scales_with_overage() {
    let b1 = bias(2.0, 30);
    assert_eq!(inlet_bias_pct(Some(b(30.0)), Some(&b1)), 6); // 3 deg over * 2 = 6
    assert_eq!(inlet_bias_pct(Some(b(40.0)), Some(&b1)), 26);
}

#[test]
fn bias_clamped_to_max() {
    let b1 = bias(5.0, 20);
    assert_eq!(inlet_bias_pct(Some(b(50.0)), Some(&b1)), 20); // would be 115 unclamped
}

#[test]
fn no_bias_when_no_config_or_reading() {
    assert_eq!(inlet_bias_pct(Some(b(40.0)), None), 0);
    let b1 = bias(2.0, 30);
    assert_eq!(inlet_bias_pct(None, Some(&b1)), 0);
}

#[test]
fn bias_rounds_half_up_and_ignores_what_is_no_number() {
    assert_eq!(inlet_bias_pct(Some(b(28.25)), Some(&bias(2.0, 30))), 3); // 2.5
    assert_eq!(inlet_bias_pct(Some(b(28.0)), Some(&bias(0.49, 30))), 0);
    assert_eq!(inlet_bias_pct(Some(b(40.0)), Some(&bias(-2.0, 30))), 0);
    assert_eq!(inlet_bias_pct(Some(b(f32::NAN)), Some(&bias(2.0, 30))), 0);
    assert_eq!(inlet_bias_pct(Some(b(f32::INFINITY)), Some(&bias(2.0, 30))), 30);
    assert_eq!(inlet_bias_pct(Some(b(f32::INFINITY)), Some(&bias(0.0, 30))), 0);
}

#[test]
fn bias_never_falls_as_the_inlet_heats_up() {
    let b1 = bias(1.7, 200);
    let mut last = 0;
    for i in 0..400 {
        let x = inlet_bias_pct(Some(b(20.0 + i as f32 * 0.21)), Some(&b1));
        assert!(x >= last);
        last = x;
    }
    assert!(last > 100);
}

#[test]
fn bias_follows_the_straight_line_up_to_the_cap() {
    let b1 = bias(1.7, 90);
    for i in 1..400 {
        let t = 27.0 + i as f32 * 0.21;
        let line = (t as f64 - 27.0) * 1.7f32 as f64;
        let added = inlet_bias_pct(Some(b(t)), Some(&b1)) as f64;
        if line <= 90.0 {
            assert!((added - line).abs() <= 0.5001);
        } else {
            assert_eq!(added, 90.0);
        }
    }
}

#[test]
fn demand_clamps_to_min_duty() {
    let s = sensor(vec![(40.0, 5), (80.0, 80)]); // curve dips below floor
    let d = demand_for_sensor(&s, b(40.0), 0, &default_slew());
    assert_eq!(d, 20); // clamped up to min_duty
}

#[test]
fn demand_adds_bias_before_clamp() {
    let s = sensor(vec![(40.0, 20), (80.0, 80)]);
    // base at 60C = 50, plus bias 10 = 60
    assert_eq!(demand_for_sensor(&s, b(60.0), 10, &default_slew()), 60);
}

#[test]
fn demand_clamps_to_max_duty() {
    let mut slew = default_slew();
    slew.max_duty = 85;
    let s = sensor(vec![(40.0, 20), (80.0, 95)]);
    // base at 80C = 95, clamped to 85
    assert_eq!(demand_for_sensor(&s, b(80.0), 0, &slew), 85);
}

#[test]
fn demand_with_a_huge_bias_stays_in_range() {
    let s = sensor(vec![(40.0, 20), (80.0, 95)]);
    assert_eq!(demand_for_sensor(&s, b(80.0), 255, &default_slew()), 100);
}

#[test]
fn merge_takes_max() {
    let slew = default_slew();
    assert_eq!(merge_demands(&[Some(40), Some(70), Some(50)], &slew), 70);
}

#[test]
fn merge_ignores_none() {
    let slew = default_slew();
    assert_eq!(merge_demands(&[Some(40), None, Some(50)], &slew), 50);
}

#[test]
fn merge_all_none_returns_min_duty() {
    let slew = default_slew();
    assert_eq!(merge_demands(&[None, None], &slew), 20);
    assert_eq!(merge_demands(&[], &slew), 20);
}

#[test]
fn slew_rises_capped() {
    let slew = default_slew(); // rise 10, fall 3
    assert_eq!(slew_limit(30, 100, &slew), 40);
}

#[test]
fn slew_falls_capped() {
    let slew = default_slew();
    assert_eq!(slew_limit(50, 20, &slew), 47);
}

#[test]
fn slew_reaches_target_when_within_step() {
    let slew = default_slew();
    assert_eq!(slew_limit(30, 35, &slew), 35); // +5 within +10 cap
    assert_eq!(slew_limit(50, 48, &slew), 48); // -2 within -3 cap
}

#[test]
fn slew_clamps_to_min() {
    let slew = default_slew();
    // current 21, target 10 — fall capped to 3, so 18; then clamped to 20
    assert_eq!(slew_limit(21, 10, &slew), 20);
}

#[test]
fn slew_clamps_to_max() {
    let mut slew = default_slew();
    slew.max_duty = 90;
    // current 85, target 100 — rise capped to +10 = 95; clamped to 90
    assert_eq!(slew_limit(85, 100, &slew), 90);
}

#[test]
fn slew_at_target_stays() {
    assert_eq!(slew_limit(55, 55, &default_slew()), 55);
}

#[test]
fn deadband_first_tick_passes_through() {
    // No prior duty — write the target whatever the band.
    assert_eq!(apply_deadband(None, 25, 2), 25);
    assert_eq!(apply_deadband(None, 100, 50), 100);
}

#[test]
fn deadband_suppresses_changes_inside_band() {
    // diff 1 < band 2 → hold previous
    assert_eq!(apply_deadband(Some(28), 29, 2), 28);
    assert_eq!(apply_deadband(Some(28), 27, 2), 28);
}

#[test]
fn deadband_allows_changes_at_or_above_band() {
    // diff 2 >= band 2 → pass
    assert_eq!(apply_deadband(Some(28), 30, 2), 30);
    assert_eq!(apply_deadband(Some(28), 26, 2), 26);
}

#[test]
fn deadband_zero_disables_suppression() {
    // Every change goes through.
    assert_eq!(apply_deadband(Some(28), 29, 0), 29);
    assert_eq!(apply_deadband(Some(28), 28, 0), 28);
}

#[test]
fn deadband_no_change_returns_current() {
    assert_eq!(apply_deadband(Some(28), 28, 2), 28);
}
