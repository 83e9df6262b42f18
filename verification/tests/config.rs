use fan_controllerd::binary32::Binary32;
use fan_controllerd::config::{
    Config, ConfigDocument, ConfigError, InletBiasDocument, SensorConfig, SensorSpec, SlewConfig,
    SlewDocument, Violation,
};

fn b(x: f32) -> Binary32 {
    Binary32::from_bits(x.to_bits())
}

fn f(x: Binary32) -> f32 {
    f32::from_bits(x.to_bits())
}

fn number(v: &toml::Value) -> Binary32 {
    match v.as_integer() {
        Some(i) => b(i as f32),
        None => b(v.as_float().unwrap() as f32),
    }
}

fn text(t: &toml::Table, key: &str) -> String {
    t[key].as_str().unwrap().to_string()
}

fn only(t: &toml::Table, keys: &[&str]) -> Result<(), String> {
    for key in t.keys() {
        if !keys.contains(&key.as_str()) {
            return Err(format!("unknown field `{}`", key));
        }
    }
    Ok(())
}

fn sensor_of(t: &toml::Table) -> SensorConfig {
    let spec = if text(t, "source") == "hwmon" {
        SensorSpec::Hwmon { chip: text(t, "chip"), label: text(t, "label") }
    } else {
        SensorSpec::Ipmi { sensor: text(t, "sensor") }
    };
    let curve = t["curve"].as_array().unwrap();
    SensorConfig {
        name: text(t, "name"),
        spec,
        hard_ceiling_c: number(&t["hard_ceiling_c"]),
        curve: curve
            .iter()
            .map(|p| (number(&p[0]), p[1].as_integer().unwrap() as u8))
            .collect(),
    }
}

fn document(s: &str) -> Result<ConfigDocument, String> {
    let t: toml::Table = toml::from_str(s).map_err(|e| e.to_string())?;
    only(
        &t,
        &["tick_seconds", "write_heartbeat_ticks", "slew", "ipmi", "sensor", "inlet_bias"],
    )?;
    let byte = |t: &toml::Table, key: &str| {
        t.get(key).map(|v| v.as_integer().unwrap() as u8)
    };
    Ok(ConfigDocument {
        tick_seconds: t.get("tick_seconds").map(|v| v.as_integer().unwrap() as u64),
        write_heartbeat_ticks: t
            .get("write_heartbeat_ticks")
            .map(|v| v.as_integer().unwrap() as u32),
        slew: t.get("slew").map(|v| {
            let s = v.as_table().unwrap();
            SlewDocument {
                max_rise_per_tick: byte(s, "max_rise_per_tick"),
                max_fall_per_tick: byte(s, "max_fall_per_tick"),
                min_duty: byte(s, "min_duty"),
                max_duty: byte(s, "max_duty"),
                deadband_pct: byte(s, "deadband_pct"),
            }
        }),
        ipmi: None,
        sensors: t.get("sensor").map(|v| {
            let list = v.as_array().unwrap();
            list.iter().map(|x| sensor_of(x.as_table().unwrap())).collect()
        }),
        inlet_bias: t.get("inlet_bias").map(|v| {
            let s = v.as_table().unwrap();
            InletBiasDocument {
                sensor: text(s, "sensor"),
                threshold_c: number(&s["threshold_c"]),
                percent_per_degree_above: number(&s["percent_per_degree_above"]),
                max_bias_pct: byte(s, "max_bias_pct"),
            }
        }),
    })
}

fn load(s: &str) -> Result<Config, ConfigError> {
    Config::from_toml_str(document(s))
}

fn message(e: &ConfigError) -> String {
    let temps = match e {
        ConfigError::Validation(v) => v.temperatures(),
        _ => vec![],
    };
    let written: Vec<String> = temps.iter().map(|t| format!("{}", f(*t))).collect();
    let first = written.first().cloned().unwrap_or_default();
    let second = written.get(1).cloned().unwrap_or_default();
    e.message(&first, &second)
}

const MINIMAL: &str = r#"
[[sensor]]
name = "cpu"
source = "hwmon"
chip = "coretemp"
label = "Package id 0"
hard_ceiling_c = 90
curve = [[40, 20], [60, 40], [80, 80]]
"#;

#[test]
fn parses_minimal() {
    let cfg = load(MINIMAL).unwrap();
    assert_eq!(cfg.tick_seconds, 5);
    assert_eq!(cfg.write_heartbeat_ticks, 12);
    assert_eq!(cfg.slew.min_duty, 20);
    assert_eq!(cfg.sensors.len(), 1);
    match &cfg.sensors[0].spec {
        SensorSpec::Hwmon { chip, label } => {
            assert_eq!(chip, "coretemp");
            assert_eq!(label, "Package id 0");
        }
        other => panic!("expected hwmon, got {:?}", other),
    }
}

#[test]
fn rejects_empty_sensors() {
    let cfg = load("tick_seconds = 5\n").unwrap_err();
    assert!(matches!(cfg, ConfigError::Validation(_)));
    assert_eq!(message(&cfg), "invalid config: at least one [[sensor]] is required");
}

#[test]
fn rejects_unsorted_curve() {
    let bad = r#"
[[sensor]]
name = "cpu"
source = "hwmon"
chip = "coretemp"
label = "Package id 0"
hard_ceiling_c = 90
curve = [[60, 40], [40, 20]]
"#;
    let err = load(bad).unwrap_err();
    assert!(matches!(err, ConfigError::Validation(_)));
    assert!(message(&err).contains("ascending"));
    assert_eq!(
        message(&err),
        "invalid config: sensor 'cpu' curve temps must be strictly ascending (got 60 then 40)"
    );
}

#[test]
fn rejects_duty_over_100() {
    let bad = r#"
[[sensor]]
name = "cpu"
source = "hwmon"
chip = "coretemp"
label = "Package id 0"
hard_ceiling_c = 90
curve = [[40, 20], [80, 120]]
"#;
    let err = load(bad).unwrap_err();
    assert!(matches!(err, ConfigError::Validation(_)));
    assert!(message(&err).contains("duty > 100"));
    assert_eq!(
        message(&err),
        "invalid config: sensor 'cpu' curve point (80, 120) has duty > 100"
    );
}

#[test]
fn rejects_ceiling_at_or_below_curve_top() {
    let bad = r#"
[[sensor]]
name = "cpu"
source = "hwmon"
chip = "coretemp"
label = "Package id 0"
hard_ceiling_c = 80
curve = [[40, 20], [80, 100]]
"#;
    let err = load(bad).unwrap_err();
    assert!(matches!(err, ConfigError::Validation(_)));
    assert!(message(&err).contains("hard_ceiling_c"));
    assert_eq!(
        message(&err),
        "invalid config: sensor 'cpu' hard_ceiling_c (80) should be above the curve's top temp (80)"
    );
}

#[test]
fn parses_ipmi_sensor_and_inlet_bias() {
    let cfg_str = r#"
[inlet_bias]
sensor = "Inlet Temp"
threshold_c = 27.0
percent_per_degree_above = 2.0

[[sensor]]
name = "exhaust"
source = "ipmi"
sensor = "Exhaust Temp"
hard_ceiling_c = 75
curve = [[35, 20], [65, 80]]
"#;
    let cfg = load(cfg_str).unwrap();
    let bias = cfg.inlet_bias.as_ref().unwrap();
    assert_eq!(bias.sensor, "Inlet Temp");
    assert_eq!(bias.max_bias_pct, 30);
    match &cfg.sensors[0].spec {
        SensorSpec::Ipmi { sensor } => assert_eq!(sensor, "Exhaust Temp"),
        other => panic!("expected ipmi, got {:?}", other),
    }
}

#[test]
fn rejects_unknown_field() {
    let bad = r#"
nonsense_field = 42
[[sensor]]
name = "cpu"
source = "hwmon"
chip = "coretemp"
label = "Package id 0"
hard_ceiling_c = 90
curve = [[40, 20], [80, 80]]
"#;
    let err = load(bad).unwrap_err();
    assert!(matches!(err, ConfigError::Parse { .. }));
    assert_eq!(
        message(&err),
        "failed to parse config file <inline>: unknown field `nonsense_field`"
    );
}

#[test]
fn slew_defaults_are_filled_in_one_by_one() {
    let slew = SlewConfig::default();
    assert_eq!(slew.max_rise_per_tick, 10);
    assert_eq!(slew.max_fall_per_tick, 3);
    assert_eq!(slew.min_duty, 20);
    assert_eq!(slew.max_duty, 100);
    assert_eq!(slew.deadband_pct, 2);
    let cfg = load(&format!("[slew]\nmin_duty = 30\ndeadband_pct = 0\n{}", MINIMAL)).unwrap();
    assert_eq!(cfg.slew.min_duty, 30);
    assert_eq!(cfg.slew.deadband_pct, 0);
    assert_eq!(cfg.slew.max_duty, 100);
    assert_eq!(cfg.slew.max_rise_per_tick, 10);
    assert_eq!(cfg.slew.max_fall_per_tick, 3);
}

#[test]
fn rejects_bad_global_settings() {
    let with = |s: &str| load(&format!("{}\n{}", s, MINIMAL)).unwrap_err();
    let e = with("tick_seconds = 0");
    assert!(matches!(e, ConfigError::Validation(Violation::TickSecondsZero)));
    assert_eq!(message(&e), "invalid config: tick_seconds must be >= 1");
    let e = with("[slew]\nmin_duty = 60\nmax_duty = 50");
    assert_eq!(message(&e), "invalid config: slew.min_duty (60) > slew.max_duty (50)");
    let e = with("[slew]\nmax_duty = 101");
    assert!(matches!(e, ConfigError::Validation(Violation::MaxDutyAbove100)));
    assert_eq!(message(&e), "invalid config: slew.max_duty must be <= 100");
}

#[test]
fn rejects_short_curve_and_temperatures_that_are_no_numbers() {
    let e = load(&MINIMAL.replace("[[40, 20], [60, 40], [80, 80]]", "[[40, 20]]")).unwrap_err();
    assert_eq!(message(&e), "invalid config: sensor 'cpu' curve needs at least 2 points");
    let e = load(&MINIMAL.replace("[60, 40]", "[nan, 40]")).unwrap_err();
    assert!(message(&e).contains("ascending"));
    let e = load(&MINIMAL.replace("= 90", "= nan")).unwrap_err();
    assert!(message(&e).contains("hard_ceiling_c"));
    assert!(load(&MINIMAL.replace("= 90", "= 80.001")).is_ok());
}

#[test]
fn the_first_bad_sensor_is_reported() {
    let second = MINIMAL.replace("\"cpu\"", "\"two\"").replace("[60, 40]", "[30, 40]");
    let third = MINIMAL.replace("\"cpu\"", "\"three\"").replace("[60, 40]", "[30, 40]");
    let e = load(&format!("{}{}{}", MINIMAL, second, third)).unwrap_err();
    assert!(message(&e).contains("sensor 'two'"));
}

#[test]
fn file_errors_name_the_file() {
    let e = Config::from_file("/etc/x.toml", Err("no such file".into())).unwrap_err();
    assert_eq!(message(&e), "failed to read config file /etc/x.toml: no such file");
    let e = Config::from_file("/etc/x.toml", Ok(Err("expected a value".into()))).unwrap_err();
    assert_eq!(message(&e), "failed to parse config file /etc/x.toml: expected a value");
    let e = Config::from_file("/etc/x.toml", Ok(document("tick_seconds = 0"))).unwrap_err();
    assert!(matches!(e, ConfigError::Validation(_)));
    assert!(Config::from_file("/etc/x.toml", Ok(document(MINIMAL))).is_ok());
}
