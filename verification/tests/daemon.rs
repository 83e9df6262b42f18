use fan_controllerd::binary32::Binary32;
use fan_controllerd::config::{
    Config, InletBiasConfig, IpmiConfig, SensorConfig, SensorSpec, SlewConfig,
};
use fan_controllerd::daemon::{
    after_tick, check_report, exit_code, startup, Controller, Sensed, Sensing, Startup,
};
use fan_controllerd::ipmi_fan::IpmiFanError;
use fan_controllerd::sensors::hwmon::{HwmonEntry, HwmonFile};
use fan_controllerd::sensors::ipmi::IpmiCache;
use fan_controllerd::sensors::SensorError;

fn b(x: f32) -> Binary32 {
    Binary32::from_bits(x.to_bits())
}

fn sensor(name: &str, spec: SensorSpec) -> SensorConfig {
    SensorConfig {
        name: name.into(),
        spec,
        hard_ceiling_c: b(90.0),
        curve: vec![(b(40.0), 20), (b(80.0), 80)],
    }
}

fn config() -> Config {
    Config {
        tick_seconds: 5,
        write_heartbeat_ticks: 3,
        slew: SlewConfig::default(),
        ipmi: IpmiConfig::default(),
        sensors: vec![
            sensor("cpu", SensorSpec::Hwmon { chip: "coretemp".into(), label: "Package*".into() }),
            sensor("exhaust", SensorSpec::Ipmi { sensor: "Exhaust Temp".into() }),
        ],
        inlet_bias: Some(InletBiasConfig {
            sensor: "Inlet Temp".into(),
            threshold_c: b(27.0),
            percent_per_degree_above: b(2.0),
            max_bias_pct: 30,
        }),
    }
}

fn chips(millidegrees: &[&str]) -> Result<Vec<HwmonEntry>, String> {
    let files = millidegrees
        .iter()
        .enumerate()
        .map(|(i, m)| HwmonFile {
            file_name: format!("temp{i}_input").into_bytes(),
            label: Some(format!("Package {i}")),
            input: Ok(m.to_string()),
        })
        .collect();
    Ok(vec![HwmonEntry {
        file_name: b"hwmon4".to_vec(),
        path: "/sys/class/hwmon/hwmon4".into(),
        is_dir: true,
        name: Some("coretemp".into()),
        files: Some(files),
    }])
}

fn failure() -> Result<(), IpmiFanError> {
    Err(IpmiFanError::Spawn("gone".into()))
}

#[test]
fn sensors_are_asked_in_turn() {
    let cfg = config();
    assert!(cfg.validate().is_ok());
    let cache = IpmiCache::from_text(
        "Inlet Temp | 1 | ok | 2 | 30 degrees C\nExhaust Temp | 1 | ok | 2 | 50 degrees C\n",
    );
    let mut sensing = Sensing::new(&cfg, &cache);
    assert_eq!(sensing.bias, 6);
    assert_eq!(sensing.next_sensor(&cfg).unwrap().name, "cpu");
    match sensing.ask(&cfg, &cache, &chips(&["45000", "60000", "50000"])) {
        Sensed::Demand { hottest, duty } => {
            assert_eq!(hottest.label, "hwmon4/Package 1");
            assert_eq!(duty, 56); // 50 and a bias of 6
        }
        other => panic!("{:?}", other),
    }
    assert_eq!(sensing.next_sensor(&cfg).unwrap().name, "exhaust");
    match sensing.ask(&cfg, &cache, &Ok(vec![])) {
        Sensed::Demand { hottest, duty } => {
            assert_eq!(hottest.label, "Exhaust Temp");
            assert_eq!(duty, 41); // 35 and a bias of 6
        }
        other => panic!("{:?}", other),
    }
    assert!(sensing.next_sensor(&cfg).is_none());
    assert_eq!(sensing.demands, vec![Some(56), Some(41)]);
    assert_eq!(sensing.successful, 2);
    let d = sensing.finish(&Controller::new(), &cfg).unwrap();
    assert_eq!(d.target, 56);
    assert_eq!(d.duty, 56);
    assert!(d.is_write() && d.changed);
}

#[test]
fn sensors_that_fail_are_left_out() {
    let cfg = config();
    let cache = IpmiCache::new();
    let mut sensing = Sensing::new(&cfg, &cache);
    assert_eq!(sensing.bias, 0);
    assert!(matches!(
        sensing.ask(&cfg, &cache, &Err("gone".into())),
        Sensed::Failed(SensorError::Hwmon(_))
    ));
    assert!(matches!(
        sensing.ask(&cfg, &cache, &Ok(vec![])),
        Sensed::Failed(SensorError::NoMatches(SensorSpec::Ipmi { .. }))
    ));
    assert_eq!(sensing.demands, vec![None, None]);
    assert_eq!(sensing.successful, 0);
    assert_eq!(sensing.finish(&Controller::new(), &cfg).unwrap().duty, 20);
}

#[test]
fn any_reading_at_the_ceiling_trips() {
    let cfg = config();
    let cache = IpmiCache::new();
    let mut sensing = Sensing::new(&cfg, &cache);
    match sensing.ask(&cfg, &cache, &chips(&["90000", "60000"])) {
        Sensed::Trip(t) => {
            assert_eq!(t.sensor, "cpu");
            assert_eq!(t.temp_c.to_bits(), 90f32.to_bits());
            assert_eq!(t.ceiling_c.to_bits(), 90f32.to_bits());
            assert_eq!(
                t.message("90.0", "90"),
                "sensor 'cpu' reading 90.0C >= hard ceiling 90C (hwmon4/Package 0); tripping to BMC auto"
            );
        }
        other => panic!("{:?}", other),
    }
    assert!(sensing.tripped);
    assert!(sensing.demands.is_empty());
    let mut sensing = Sensing::new(&cfg, &cache);
    assert!(matches!(
        sensing.ask(&cfg, &cache, &chips(&["60000", "89999"])),
        Sensed::Demand { .. }
    ));
    assert!(!sensing.tripped);
}

#[test]
fn a_tripped_tick_decides_nothing() {
    let cfg = config();
    let cache = IpmiCache::from_text("Exhaust Temp | 1 | ok | 2 | 95 degrees C\n");
    let set = Controller { current_duty: Some(50), ticks_since_write: 100 };
    let mut sensing = Sensing::new(&cfg, &cache);
    assert_eq!(sensing.finish(&set, &cfg), None);
    sensing.ask(&cfg, &cache, &chips(&["60000"]));
    assert_eq!(sensing.finish(&set, &cfg), None); // one sensor was not asked yet
    assert!(matches!(sensing.ask(&cfg, &cache, &Ok(vec![])), Sensed::Trip(_)));
    assert_eq!(sensing.demands, vec![Some(50)]);
    assert!(sensing.next_sensor(&cfg).is_none());
    assert_eq!(sensing.finish(&set, &cfg), None);

    let mut sensing = Sensing::new(&cfg, &cache);
    sensing.ask(&cfg, &cache, &chips(&["90000"]));
    assert!(sensing.next_sensor(&cfg).is_none());
    assert_eq!(sensing.finish(&set, &cfg), None);
}

#[test]
fn duty_moves_by_the_slew_rate_and_the_deadband() {
    let cfg = config();
    let c = Controller { current_duty: Some(50), ticks_since_write: 0 };
    let d = c.decide(&cfg, &[Some(90)]);
    assert_eq!((d.target, d.duty, d.changed), (90, 60, true));
    let d = c.decide(&cfg, &[Some(20)]);
    assert_eq!((d.target, d.duty, d.changed), (20, 47, true));
    let d = c.decide(&cfg, &[Some(51)]);
    assert_eq!((d.target, d.duty, d.changed), (51, 50, false));
    let d = c.decide(&cfg, &[Some(52), None]);
    assert_eq!((d.target, d.duty, d.changed), (52, 52, true));
    let d = c.decide(&cfg, &[None]);
    assert_eq!((d.target, d.duty), (20, 47));
}

#[test]
fn duty_is_sent_again_every_heartbeat() {
    let cfg = config();
    let mut c = Controller::new();
    let mut writes = vec![];
    for tick in 0..10 {
        let d = c.decide(&cfg, &[Some(50)]);
        if d.is_write() {
            writes.push(tick);
            assert_eq!(d.changed, tick == 0);
            c.settle(&d, &Ok(()));
        } else {
            c.hold(&d);
        }
        assert_eq!(c.current_duty, Some(50));
    }
    assert_eq!(writes, vec![0, 3, 6, 9]);
}

#[test]
fn default_heartbeat_is_a_minute() {
    let mut cfg = config();
    cfg.write_heartbeat_ticks = 12;
    let c = |n: u32| Controller { current_duty: Some(50), ticks_since_write: n };
    assert!(!c(10).decide(&cfg, &[Some(50)]).is_write());
    assert!(c(11).decide(&cfg, &[Some(50)]).heartbeat_due);
}

#[test]
fn a_failed_write_is_tried_again() {
    let cfg = config();
    let mut c = Controller::new();
    let d = c.decide(&cfg, &[Some(50)]);
    c.settle(&d, &failure());
    assert_eq!(c.current_duty, None);
    assert_eq!(c.ticks_since_write, 1);
    let again = c.decide(&cfg, &[Some(50)]);
    assert!(again.changed);
    assert_eq!(again.duty, 50);
    c.settle(&again, &Ok(()));
    assert_eq!(c.current_duty, Some(50));
    assert_eq!(c.ticks_since_write, 0);
    let d = c.decide(&cfg, &[Some(80)]);
    c.settle(&d, &failure());
    assert_eq!(c.current_duty, Some(50));
    assert_eq!(c.decide(&cfg, &[Some(80)]).duty, 60);
    let mut worn = Controller { current_duty: Some(50), ticks_since_write: u32::MAX };
    let d = worn.decide(&cfg, &[Some(50)]);
    assert!(d.heartbeat_due);
    worn.settle(&d, &failure());
    assert_eq!(worn.ticks_since_write, u32::MAX);
}

#[test]
fn start_and_end() {
    assert_eq!(startup(true, false), Startup::Report);
    assert_eq!(startup(true, true), Startup::Report);
    assert_eq!(startup(false, true), Startup::DryRun);
    assert_eq!(startup(false, false), Startup::Engage);
    assert_eq!(check_report(&config()), "config OK: 2 sensor(s), tick=5s");
    assert_eq!(exit_code(false), 0);
    assert_eq!(exit_code(true), 1);
    assert_eq!(after_tick(&config(), true, 0), None);
    assert_eq!(after_tick(&config(), false, 0), Some(5_000_000_000));
    assert_eq!(after_tick(&config(), false, 4_999_999_999), Some(1));
    assert_eq!(after_tick(&config(), false, 5_000_000_000), Some(0));
    assert_eq!(after_tick(&config(), false, 9_000_000_000), Some(0));
}
