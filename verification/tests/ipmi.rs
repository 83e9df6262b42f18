use fan_controllerd::binary32::Binary32;
use fan_controllerd::command::CommandOutcome;
use fan_controllerd::sensors::ipmi::{parse_temp, IpmiCache};

const REAL_OUTPUT: &str = "\
Inlet Temp       | 04h | ok  |  7.1 | 20 degrees C
Exhaust Temp     | 01h | ok  |  7.1 | 33 degrees C
Temp             | 0Eh | ok  |  3.1 | 39 degrees C
Temp             | 0Fh | ok  |  3.2 | 41 degrees C
";

fn f(x: Option<Binary32>) -> Option<f32> {
    x.map(|t| f32::from_bits(t.to_bits()))
}

#[test]
fn parses_real_r730xd_output() {
    let cache = IpmiCache::from_text(REAL_OUTPUT);
    assert_eq!(f(cache.get("Inlet Temp")), Some(20.0));
    assert_eq!(f(cache.get("Exhaust Temp")), Some(33.0));
    // Duplicate "Temp" rows — last wins.
    assert_eq!(f(cache.get("Temp")), Some(41.0));
    assert_eq!(f(cache.get("Nonexistent")), None);
}

#[test]
fn skips_non_ok_status_rows() {
    let text = "\
Bad Sensor       | 05h | ns  |  7.1 | No Reading
Good Sensor      | 06h | ok  |  7.1 | 25 degrees C
Also Bad         | 07h | nr  |  7.1 | 99 degrees C
";
    let cache = IpmiCache::from_text(text);
    assert_eq!(f(cache.get("Bad Sensor")), None);
    assert_eq!(f(cache.get("Also Bad")), None);
    assert_eq!(f(cache.get("Good Sensor")), Some(25.0));
}

#[test]
fn parses_fractional_temps() {
    let text = "Foo | 01h | ok | 7.1 | 23.5 degrees C\n";
    let cache = IpmiCache::from_text(text);
    assert_eq!(f(cache.get("Foo")), Some(23.5));
}

#[test]
fn ignores_malformed_lines() {
    let text = "garbage line with no pipes\n| | ok | | 25 degrees C\nGood | 01h | ok | 7.1 | 30 degrees C\n";
    let cache = IpmiCache::from_text(text);
    // garbage skipped, empty-name row stored under empty key, Good present.
    assert_eq!(f(cache.get("Good")), Some(30.0));
    assert_eq!(f(cache.get("")), Some(25.0));
}

#[test]
fn handles_disabled_or_na_values() {
    let text = "\
Foo | 01h | ok | 7.1 | disabled
Bar | 02h | ok | 7.1 | na
Baz | 03h | ok | 7.1 | 42 degrees C
";
    let cache = IpmiCache::from_text(text);
    assert_eq!(f(cache.get("Foo")), None);
    assert_eq!(f(cache.get("Bar")), None);
    assert_eq!(f(cache.get("Baz")), Some(42.0));
}

#[test]
fn rows_are_read_leniently_but_values_are_not() {
    let text = "\r\n  A|1|OK|2|30 degrees C|more\r\nB | 1 | Ok | 2 |   -5.5   degrees   C  ";
    let cache = IpmiCache::from_text(text);
    assert_eq!(f(cache.get("A")), Some(30.0));
    assert_eq!(f(cache.get("B")), Some(-5.5));
    assert_eq!(f(parse_temp("20 degrees C")), Some(20.0));
    assert_eq!(f(parse_temp("23.5 degrees C")), Some(23.5));
    assert_eq!(f(parse_temp("20")), None);
    assert_eq!(f(parse_temp("20 degrees F")), None);
    assert_eq!(f(parse_temp("20 percent")), None);
    assert_eq!(f(parse_temp("No Reading")), None);
    assert_eq!(f(parse_temp("")), None);
}

fn exited(success: bool, stdout: &[u8], stderr: &[u8]) -> CommandOutcome {
    CommandOutcome::Exited {
        success,
        status: "exit status: 1".into(),
        stdout: stdout.to_vec(),
        stderr: stderr.to_vec(),
    }
}

#[test]
fn default_cache_is_empty() {
    let cache = IpmiCache::default();
    assert!(!cache.ever_refreshed);
    assert!(cache.get("Temp").is_none());
}

#[test]
fn refresh_replaces_or_leaves_the_temperatures() {
    let mut cache = IpmiCache::new();
    assert!(!cache.ever_refreshed);
    assert!(cache.get("Temp").is_none());
    assert_eq!(IpmiCache::refresh_arguments(), ["sdr", "type", "temperature"]);

    let e = cache.refresh(CommandOutcome::NotStarted("gone".into())).unwrap_err();
    assert_eq!(e.message(""), "ipmi error: spawn ipmitool: gone");
    assert!(!cache.ever_refreshed);

    cache.refresh(exited(true, REAL_OUTPUT.as_bytes(), b"")).unwrap();
    assert!(cache.ever_refreshed);
    assert_eq!(f(cache.get("Temp")), Some(41.0));

    let e = cache.refresh(exited(false, b"", b" no device \n")).unwrap_err();
    assert_eq!(e.message(""), "ipmi error: ipmitool exited exit status: 1: no device");
    assert_eq!(f(cache.get("Temp")), Some(41.0));

    cache.refresh(exited(true, b"N\xffw | 1 | ok | 2 | 3 degrees C", b"")).unwrap();
    assert!(cache.get("Temp").is_none());
    assert_eq!(f(cache.get("N\u{fffd}w")), Some(3.0));
}
