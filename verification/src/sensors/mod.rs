//! Temperatures from the two sources of sensors, hwmon and IPMI.
//!
//! One configured sensor may stand for several physical ones (a chip `nvme` with
//! the label `Composite` for all NVMe drives). The hottest of them counts.

pub mod hwmon;
pub mod ipmi;

use vstd::prelude::*;
use vstd::string::*;
use crate::binary32::Binary32;
use crate::config::SensorSpec;
use crate::sensors::hwmon::HwmonEntry;
use crate::sensors::ipmi::IpmiCache;

verus! {

/// A temperature that was read.
#[derive(Debug, Clone)]
pub struct SensorReading {
    /// Where it was read, for logs only.
    pub label: String,
    pub temp_c: Binary32,
}

/// What a [`SensorReading`] says.
pub ghost struct Reading {
    pub label: Seq<char>,
    pub temp_c: Binary32,
}

impl View for SensorReading {
    type V = Reading;

    open spec fn view(&self) -> Reading {
        Reading { label: self.label@, temp_c: self.temp_c }
    }
}

/// What a row of readings says.
pub open spec fn readings_view(readings: Seq<SensorReading>) -> Seq<Reading> {
    Seq::new(readings.len(), |i: int| readings[i]@)
}

/// Why a sensor has no reading.
#[derive(Debug)]
pub enum SensorError {
    Hwmon(String),
    Ipmi(String),
    /// Nothing matches what is configured.
    NoMatches(SensorSpec),
}

impl SensorError {
    /// The message. `spec` is what is configured, in writing; only
    /// [`SensorError::NoMatches`] uses it.
    pub fn message(&self, spec: &str) -> (r: String)
        ensures
            r@ == match *self {
                SensorError::Hwmon(reason) => "hwmon error: "@ + reason@,
                SensorError::Ipmi(reason) => "ipmi error: "@ + reason@,
                SensorError::NoMatches(_) => "no readings for sensor spec "@ + spec@,
            },
    {
        match self {
            SensorError::Hwmon(reason) => {
                let mut r: String = "hwmon error: ".to_owned();
                r.append(reason.as_str());
                r
            },
            SensorError::Ipmi(reason) => {
                let mut r: String = "ipmi error: ".to_owned();
                r.append(reason.as_str());
                r
            },
            SensorError::NoMatches(_) => {
                let mut r: String = "no readings for sensor spec ".to_owned();
                r.append(spec);
                r
            },
        }
    }
}

/// Why a sensor has no reading, as far as it depends on what was read.
pub ghost enum Missing {
    Hwmon(Seq<char>),
    NoMatches,
}

/// What there is to read for a sensor: its readings, or why there are none.
pub open spec fn available(
    spec: SensorSpec,
    ipmi: Map<Seq<char>, Binary32>,
    entries: Result<Vec<HwmonEntry>, String>,
) -> Result<Seq<Reading>, Missing> {
    match spec {
        SensorSpec::Hwmon { chip, label } => match hwmon::scan(
            hwmon::HWMON_ROOT@,
            entries,
            chip@,
            label@,
        ) {
            Err(reason) => Err(Missing::Hwmon(reason)),
            Ok(readings) => if readings.len() == 0 {
                Err(Missing::NoMatches)
            } else {
                Ok(readings)
            },
        },
        SensorSpec::Ipmi { sensor } => if ipmi.contains_key(sensor@) {
            Ok(seq![Reading { label: sensor@, temp_c: ipmi[sensor@] }])
        } else {
            Err(Missing::NoMatches)
        },
    }
}

/// The readings of one configured sensor. `ipmi` holds the temperatures of this
/// tick; `entries` is what the hwmon directory holds (see
/// [`hwmon::read_default`]), which is not looked at for an IPMI sensor.
pub fn read(
    spec: &SensorSpec,
    ipmi: &IpmiCache,
    entries: &Result<Vec<HwmonEntry>, String>,
) -> (r: Result<Vec<SensorReading>, SensorError>)
    ensures
        match available(*spec, ipmi@, *entries) {
            Ok(readings) => r matches Ok(v) && readings_view(v@) == readings && v@.len() > 0,
            Err(Missing::Hwmon(reason)) => r matches Err(e) && e is Hwmon && e->Hwmon_0@ == reason,
            Err(Missing::NoMatches) => r == Err::<Vec<SensorReading>, SensorError>(
                SensorError::NoMatches(*spec),
            ),
        },
{
    match spec {
        SensorSpec::Hwmon { chip, label } => {
            let readings: Vec<SensorReading> = hwmon::read_default(
                entries,
                chip.as_str(),
                label.as_str(),
            )?;
            if readings.len() == 0 {
                Err(SensorError::NoMatches(spec.clone()))
            } else {
                Ok(readings)
            }
        },
        SensorSpec::Ipmi { sensor } => match ipmi.get(sensor.as_str()) {
            Some(t) => {
                let mut readings: Vec<SensorReading> = Vec::new();
                readings.push(SensorReading { label: sensor.clone(), temp_c: t });
                assert(readings_view(readings@) =~= seq![
                    Reading { label: sensor@, temp_c: t },
                ]);
                Ok(readings)
            },
            None => Err(SensorError::NoMatches(spec.clone())),
        },
    }
}

/// The number of the hottest reading. Of equally hot ones it is the last. A
/// reading that is not a number gives way to any that follows it and takes the
/// place of any that precedes it.
pub open spec fn hottest_index(readings: Seq<Reading>) -> nat
    decreases readings.len(),
{
    if readings.len() <= 1 {
        0
    } else {
        let before = hottest_index(readings.drop_last());
        if readings.last().temp_c.lt(readings[before as int].temp_c) {
            before
        } else {
            (readings.len() - 1) as nat
        }
    }
}

/// The hottest of the readings, the last one where several are; `None` where
/// there are none.
pub fn hottest(readings: &[SensorReading]) -> (r: Option<&SensorReading>)
    ensures
        r is None <==> readings@.len() == 0,
        hottest_index(readings_view(readings@)) < readings@.len() || readings@.len() == 0,
        r matches Some(best) ==> *best == readings@[hottest_index(
            readings_view(readings@),
        ) as int],
{
    let n: usize = readings.len();
    if n == 0 {
        return None;
    }
    let ghost all = readings_view(readings@);
    let mut best: usize = 0;
    for i in 1..n
        invariant
            n == readings@.len(),
            n >= 1,
            best < i,
            all == readings_view(readings@),
            best == hottest_index(all.take(i as int)),
    {
        assert(all.take(i as int + 1).drop_last() =~= all.take(i as int));
        if !readings[i].temp_c.below(readings[best].temp_c) {
            best = i;
        }
    }
    assert(all.take(n as int) =~= all);
    Some(&readings[best])
}

/// Where every reading is a number, none is hotter than the hottest, and those
/// that follow it are cooler.
pub proof fn law_hottest(readings: Seq<Reading>)
    requires
        readings.len() > 0,
        forall|i: int| 0 <= i < readings.len() ==> !(#[trigger] readings[i]).temp_c.is_nan(),
    ensures
        hottest_index(readings) < readings.len(),
        forall|i: int|
            0 <= i < readings.len() ==> (#[trigger] readings[i]).temp_c.le(
                readings[hottest_index(readings) as int].temp_c,
            ),
        forall|i: int|
            hottest_index(readings) < i < readings.len() ==> (#[trigger] readings[i]).temp_c.lt(
                readings[hottest_index(readings) as int].temp_c,
            ),
    decreases readings.len(),
{
    if readings.len() > 1 {
        let front = readings.drop_last();
        assert forall|i: int| 0 <= i < front.len() implies !(#[trigger] front[i]).temp_c.is_nan() by {
            assert(!readings[i].temp_c.is_nan());
        }
        law_hottest(front);
        let before = hottest_index(front) as int;
        assert(!readings[before].temp_c.is_nan());
        assert(!readings[readings.len() - 1].temp_c.is_nan());
        assert forall|i: int| 0 <= i < readings.len() implies (#[trigger] readings[i]).temp_c.le(
            readings[hottest_index(readings) as int].temp_c,
        ) by {
            if i < front.len() {
                assert(front[i].temp_c.le(front[before].temp_c));
            }
        }
        assert forall|i: int| hottest_index(readings) < i < readings.len() implies (
        #[trigger] readings[i]).temp_c.lt(readings[hottest_index(readings) as int].temp_c) by {
            if i < front.len() {
                assert(front[i].temp_c.lt(front[before].temp_c));
            }
        }
    } else {
        assert(!readings[0].temp_c.is_nan());
    }
}

/// Of the readings of one sensor either every one is a number, or there is only
/// one.
pub proof fn law_readings_numbers(
    spec: SensorSpec,
    ipmi: Map<Seq<char>, Binary32>,
    entries: Result<Vec<HwmonEntry>, String>,
)
    ensures
        available(spec, ipmi, entries) matches Ok(readings) ==> readings.len() == 1 || forall|
            i: int,
        |
            0 <= i < readings.len() ==> !(#[trigger] readings[i]).temp_c.is_nan(),
{
    if let SensorSpec::Hwmon { chip, label } = spec {
        hwmon::law_scan_numbers(hwmon::HWMON_ROOT@, entries, chip@, label@);
    }
}

/// A hwmon sensor has a reading for every file that belongs to it, and no other:
/// as many as there are such files, each with its file's temperature. Where one
/// of these files cannot be read, or the directory cannot be listed, that is
/// reported; where there are none, nothing matches.
pub proof fn law_read_hwmon(
    spec: SensorSpec,
    ipmi: Map<Seq<char>, Binary32>,
    entries: Result<Vec<HwmonEntry>, String>,
)
    requires
        spec is Hwmon,
    ensures
        ({
            let chip = spec->chip@;
            let label = spec->label@;
            let found = available(spec, ipmi, entries);
            match entries {
                Err(_) => found matches Err(Missing::Hwmon(_)),
                Ok(v) => {
                    let unreadable = exists|i: int, j: int| #[trigger]
                        hwmon::belongs_at(v@, i, j, chip, label) && !hwmon::is_readable(
                            v@[i].files->0@[j],
                        );
                    let number = hwmon::belonging(v@, chip, label);
                    &&& (found matches Err(Missing::Hwmon(_))) <==> unreadable
                    &&& (found matches Err(Missing::NoMatches)) <==> !unreadable && number == 0
                    &&& found matches Ok(readings) ==> {
                        &&& readings.len() == number
                        &&& forall|i: int, j: int| #[trigger]
                            hwmon::belongs_at(v@, i, j, chip, label) ==> readings.contains(
                                hwmon::reading_of(v@[i], v@[i].files->0@[j], chip),
                            )
                        &&& forall|r: int|
                            0 <= r < readings.len() ==> hwmon::has_source(
                                v@,
                                #[trigger] readings[r],
                                chip,
                                label,
                            )
                    }
                },
            }
        }),
{
    if let Ok(v) = entries {
        hwmon::law_scan_complete(hwmon::HWMON_ROOT@, v, spec->chip@, spec->label@);
    }
}

/// An IPMI sensor has the one reading that the table gives it, under its own
/// name; where the table gives none, nothing matches.
pub proof fn law_read_ipmi(
    spec: SensorSpec,
    ipmi: Map<Seq<char>, Binary32>,
    entries: Result<Vec<HwmonEntry>, String>,
)
    requires
        spec is Ipmi,
    ensures
        ipmi.contains_key(spec->sensor@) ==> (available(spec, ipmi, entries) matches Ok(readings)
            && readings.len() == 1 && readings[0].temp_c == ipmi[spec->sensor@] && readings[0].label
            == spec->sensor@),
        !ipmi.contains_key(spec->sensor@) ==> available(spec, ipmi, entries) == Err::<
            Seq<Reading>,
            Missing,
        >(Missing::NoMatches),
{
}

} // verus!
