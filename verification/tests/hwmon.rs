use fan_controllerd::binary32::Binary32;
use fan_controllerd::config::SensorSpec;
use fan_controllerd::sensors::hwmon::{
    actual_label, chip_matches, is_temp_input, label_matches, label_path_for, read_default,
    read_from, HwmonEntry, HwmonFile,
};
use fan_controllerd::sensors::ipmi::IpmiCache;
use fan_controllerd::sensors::{hottest, read, SensorError, SensorReading};

const ROOT: &str = "/fake";

type FakeSensor<'a> = (&'a str, Option<&'a str>, i64);
type FakeChip<'a> = (&'a str, &'a str, &'a [FakeSensor<'a>]);

fn f(x: Binary32) -> f32 {
    f32::from_bits(x.to_bits())
}

fn file(name: &str, label: Option<&str>, content: &str) -> HwmonFile {
    HwmonFile {
        file_name: name.as_bytes().to_vec(),
        label: label.map(|l| format!("{l}\n")),
        input: Ok(format!("{content}\n")),
    }
}

fn dir(dirname: &str, chip_name: &str, files: Vec<HwmonFile>) -> HwmonEntry {
    HwmonEntry {
        file_name: dirname.as_bytes().to_vec(),
        path: format!("{ROOT}/{dirname}"),
        is_dir: true,
        name: Some(format!("{chip_name}\n")),
        files: Some(files),
    }
}

/// A fake directory of chips. `chips` is a list of (hwmon_dir, name, sensors)
/// where each sensor is (tempN, label_or_none, mC_value).
fn build_fake_hwmon(chips: &[FakeChip<'_>]) -> Result<Vec<HwmonEntry>, String> {
    Ok(chips
        .iter()
        .map(|(dirname, chip_name, sensors)| {
            let mut files = vec![file("name", None, chip_name)];
            for (temp, label, mc) in *sensors {
                files.push(file(&format!("{temp}_input"), *label, &format!("{mc}")));
                if let Some(l) = label {
                    files.push(file(&format!("{temp}_label"), None, l));
                }
            }
            dir(dirname, chip_name, files)
        })
        .collect())
}

#[test]
fn matches_exact_label() {
    let td = build_fake_hwmon(&[(
        "hwmon13",
        "coretemp",
        &[
            ("temp1", Some("Package id 0"), 38000),
            ("temp2", Some("Core 0"), 33000),
        ],
    )]);
    let r = read_from(ROOT, &td, "coretemp", "Package id 0").unwrap();
    assert_eq!(r.len(), 1);
    assert_eq!(f(r[0].temp_c), 38.0);
    assert_eq!(r[0].label, "hwmon13/Package id 0");
}

#[test]
fn matches_wildcard() {
    let td = build_fake_hwmon(&[(
        "hwmon13",
        "coretemp",
        &[
            ("temp1", Some("Package id 0"), 38000),
            ("temp2", Some("Core 0"), 33000),
            ("temp3", Some("Core 1"), 32000),
        ],
    )]);
    let r = read_from(ROOT, &td, "coretemp", "Core *").unwrap();
    assert_eq!(r.len(), 2);
    let temps: Vec<f32> = r.iter().map(|x| f(x.temp_c)).collect();
    assert!(temps.contains(&33.0) && temps.contains(&32.0));
}

#[test]
fn collects_across_multiple_hwmons() {
    // 3 fake NVMe drives; "Composite" label on each.
    let td = build_fake_hwmon(&[
        ("hwmon0", "nvme", &[("temp1", Some("Composite"), 27850)]),
        ("hwmon1", "nvme", &[("temp1", Some("Composite"), 30850)]),
        ("hwmon2", "nvme", &[("temp1", Some("Composite"), 33850)]),
        (
            "hwmon3",
            "power_meter",
            &[("temp1", Some("Composite"), 50000)],
        ), // wrong chip
    ]);
    let r = read_from(ROOT, &td, "nvme", "Composite").unwrap();
    assert_eq!(r.len(), 3);
    let mut temps: Vec<f32> = r.iter().map(|x| f(x.temp_c)).collect();
    temps.sort_by(|a, b| a.partial_cmp(b).unwrap());
    assert_eq!(temps, vec![27.85, 30.85, 33.85]);
}

#[test]
fn missing_label_file_falls_back_to_chip_name() {
    // Old nvme drivers expose just temp1_input with no label file.
    let td = build_fake_hwmon(&[("hwmon0", "nvme", &[("temp1", None, 40000)])]);
    let r = read_from(ROOT, &td, "nvme", "nvme").unwrap();
    assert_eq!(r.len(), 1);
    assert_eq!(f(r[0].temp_c), 40.0);
}

#[test]
fn no_match_returns_empty() {
    let td = build_fake_hwmon(&[(
        "hwmon0",
        "coretemp",
        &[("temp1", Some("Package id 0"), 38000)],
    )]);
    let r = read_from(ROOT, &td, "nvme", "Composite").unwrap();
    assert!(r.is_empty());
}

#[test]
fn ignores_non_temp_files() {
    let td = Ok(vec![dir(
        "hwmon0",
        "coretemp",
        vec![
            file("name", None, "coretemp"),
            file("temp1_input", Some("Package id 0"), "38000"),
            file("temp1_label", None, "Package id 0"),
            file("in1_input", Some("Package id 0"), "1000"), // voltage, must be ignored
            file("fan1_input", Some("Package id 0"), "1500"),
        ],
    )]);
    let r = read_from(ROOT, &td, "coretemp", "Package id 0").unwrap();
    assert_eq!(r.len(), 1);
}

#[test]
fn what_does_not_count_makes_no_difference() {
    let broken = |mut file: HwmonFile| {
        file.input = Err("not read".into());
        file
    };
    let whole = Ok(vec![
        dir(
            "hwmon0",
            "coretemp",
            vec![
                file("temp1_input", Some("Package id 0"), "38000"),
                file("temp2_input", Some("Core 0"), "33000"),
                file("fan1_input", Some("Package id 0"), "1500"),
            ],
        ),
        dir("hwmon1", "nvme", vec![file("temp1_input", Some("Package id 0"), "90000")]),
    ]);
    let part = Ok(vec![
        dir(
            "hwmon0",
            "coretemp",
            vec![
                file("temp1_input", Some("Package id 0"), "38000"),
                broken(file("temp2_input", Some("Core 0"), "")),
                broken(file("fan1_input", None, "")),
            ],
        ),
        dir("hwmon1", "nvme", vec![]),
    ]);
    for entries in [whole, part] {
        let r = read_from(ROOT, &entries, "coretemp", "Package id 0").unwrap();
        assert_eq!(r.len(), 1);
        assert_eq!(r[0].label, "hwmon0/Package id 0");
        assert_eq!(f(r[0].temp_c), 38.0);
    }
}

#[test]
fn visits_are_in_the_order_of_names() {
    let td = build_fake_hwmon(&[
        ("hwmon2", "nvme", &[("temp2", Some("A"), 4000), ("temp1", Some("A"), 3000)]),
        ("hwmon10", "nvme", &[("temp1", Some("A"), 2000)]),
        ("hwmon1", "nvme", &[("temp1", Some("A"), 1000)]),
    ]);
    let r = read_from(ROOT, &td, "nvme", "A").unwrap();
    let temps: Vec<f32> = r.iter().map(|x| f(x.temp_c)).collect();
    assert_eq!(temps, vec![1.0, 2.0, 3.0, 4.0]);
}

#[test]
fn entries_that_are_no_chips_are_passed_over() {
    let chip = || dir("hwmon0", "nvme", vec![file("temp1_input", Some("A"), "1000")]);
    let mut plain_file = chip();
    plain_file.is_dir = false;
    let mut nameless = chip();
    nameless.name = None;
    let mut unlisted = chip();
    unlisted.files = None;
    let td = Ok(vec![plain_file, nameless, unlisted, chip()]);
    assert_eq!(read_from(ROOT, &td, "nvme", "A").unwrap().len(), 1);
}

#[test]
fn names_that_are_not_utf8() {
    let mut d = dir("hwmon0", "nvme", vec![file("temp1_input", Some("A"), "1000")]);
    d.file_name = vec![0xff, 0x41];
    let mut odd = file("temp2_input", Some("A"), "2000");
    odd.file_name.push(0xff);
    d.files.as_mut().unwrap().push(odd);
    let r = read_from(ROOT, &Ok(vec![d]), "nvme", "A").unwrap();
    assert_eq!(r.len(), 1);
    assert_eq!(r[0].label, "hwmon?/A");
}

fn reason(r: Result<Vec<SensorReading>, SensorError>) -> String {
    r.unwrap_err().message("")
}

#[test]
fn failures_are_reported_with_their_place() {
    let r = read_default(&Err("no such directory".into()), "nvme", "A");
    assert_eq!(reason(r), "hwmon error: read_dir(/sys/class/hwmon): no such directory");
    let mut broken = file("temp1_input", Some("A"), "");
    broken.input = Err("input/output error".into());
    let td = Ok(vec![dir("hwmon0", "nvme", vec![broken])]);
    assert_eq!(
        reason(read_from(ROOT, &td, "nvme", "A")),
        "hwmon error: read(/fake/hwmon0/temp1_input): input/output error"
    );
    // With another label it is not looked at.
    assert!(read_from(ROOT, &td, "nvme", "B").unwrap().is_empty());
    let td = Ok(vec![dir("hwmon0", "nvme", vec![file("temp1_input", Some("A"), "4x")])]);
    assert_eq!(
        reason(read_from(ROOT, &td, "nvme", "A")),
        "hwmon error: parse temp /fake/hwmon0/temp1_input: invalid digit found in string"
    );
}

#[test]
fn names_and_labels() {
    assert!(is_temp_input("temp1_input"));
    assert!(is_temp_input("temp_input"));
    assert!(!is_temp_input("temp1_label"));
    assert!(!is_temp_input("in1_input"));
    assert_eq!(label_path_for("temp12_input"), "temp12_label");
    assert!(label_matches("Core 1", "Core *"));
    assert!(label_matches("Core 1", "*"));
    assert!(!label_matches("Core 1", "Core"));
    assert!(!label_matches("Cor", "Core*"));
    assert!(label_matches("", ""));
    assert!(chip_matches(&Some(" nvme\n".into()), "nvme"));
    assert!(!chip_matches(&None, "nvme"));
    assert_eq!(actual_label(&Some(" A \n".into()), "nvme"), "A");
    assert_eq!(actual_label(&None, "nvme"), "nvme");
}

#[test]
fn millidegrees_become_degrees_as_native_numbers_do() {
    for mc in [0i64, 1, -1, 27850, 30850, 33850, 123456789, -40000, i64::MAX, i64::MIN] {
        let content = format!("{mc}");
        let td = Ok(vec![dir("hwmon0", "x", vec![file("temp1_input", None, &content)])]);
        let r = read_from(ROOT, &td, "x", "x").unwrap();
        assert_eq!(f(r[0].temp_c), mc as f32 / 1000.0);
    }
}

#[test]
fn a_sensor_without_readings_has_no_match() {
    let spec = SensorSpec::Hwmon { chip: "nvme".into(), label: "A".into() };
    let cache = IpmiCache::from_text("A | 01h | ok | 7.1 | 30 degrees C\n");
    match read(&spec, &cache, &Ok(vec![])) {
        Err(SensorError::NoMatches(SensorSpec::Hwmon { chip, label })) => {
            assert_eq!(chip, "nvme");
            assert_eq!(label, "A");
        }
        other => panic!("{:?}", other),
    }
    let td = build_fake_hwmon(&[("hwmon0", "nvme", &[("temp1", Some("A"), 40000)])]);
    let r = read(&spec, &cache, &td).unwrap();
    assert_eq!(f(r[0].temp_c), 40.0);
    assert!(matches!(read(&spec, &cache, &Err("gone".into())), Err(SensorError::Hwmon(_))));
    let spec = SensorSpec::Ipmi { sensor: "A".into() };
    let r = read(&spec, &cache, &Err("gone".into())).unwrap();
    assert_eq!(r.len(), 1);
    assert_eq!(r[0].label, "A");
    assert_eq!(f(r[0].temp_c), 30.0);
    let spec = SensorSpec::Ipmi { sensor: "B".into() };
    let e = read(&spec, &cache, &Ok(vec![])).unwrap_err();
    assert_eq!(e.message("B"), "no readings for sensor spec B");
}

#[test]
fn the_hottest_reading_wins() {
    let reading = |label: &str, t: f32| SensorReading {
        label: label.into(),
        temp_c: Binary32::from_bits(t.to_bits()),
    };
    assert!(hottest(&[]).is_none());
    let r = [reading("a", 30.0), reading("b", 40.0), reading("c", 35.0)];
    assert_eq!(hottest(&r).unwrap().label, "b");
    // The last of equally hot ones.
    let r = [reading("a", 40.0), reading("b", 40.0), reading("c", 35.0)];
    assert_eq!(hottest(&r).unwrap().label, "b");
    for temps in [[1.0, f32::NAN, 0.5], [f32::NAN, 1.0, 0.5], [2.0, 1.0, f32::NAN]] {
        let r: Vec<SensorReading> = temps.iter().map(|t| reading("x", *t)).collect();
        let native = temps
            .iter()
            .max_by(|a, b| a.partial_cmp(b).unwrap_or(std::cmp::Ordering::Equal))
            .unwrap();
        assert_eq!(hottest(&r).unwrap().temp_c.to_bits(), native.to_bits());
    }
}
