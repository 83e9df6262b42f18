//! The daemon's configuration and the rules that it is held to.

use vstd::prelude::*;
use vstd::string::*;
use crate::binary32::Binary32;
use crate::numeral::{self, write_decimal};

verus! {

/// The whole configuration.
#[derive(Debug, Clone)]
pub struct Config {
    pub tick_seconds: u64,
    /// Send the duty to the BMC every this many ticks even if it is unchanged,
    /// so that the BMC does not silently revert to automatic control.
    pub write_heartbeat_ticks: u32,
    pub slew: SlewConfig,
    pub ipmi: IpmiConfig,
    pub sensors: Vec<SensorConfig>,
    pub inlet_bias: Option<InletBiasConfig>,
}

/// How fast and how far the duty may move.
#[derive(Debug, Clone, Copy)]
pub struct SlewConfig {
    pub max_rise_per_tick: u8,
    pub max_fall_per_tick: u8,
    pub min_duty: u8,
    pub max_duty: u8,
    /// Changes smaller than this many percentage points are not made; 0 lets
    /// every change through.
    pub deadband_pct: u8,
}

/// Access to the BMC. Only the local interface is supported, which needs no
/// settings.
#[derive(Debug, Clone, Copy)]
pub struct IpmiConfig {}

/// One configured sensor.
#[derive(Debug, Clone)]
pub struct SensorConfig {
    pub name: String,
    pub spec: SensorSpec,
    pub hard_ceiling_c: Binary32,
    /// Pairs of temperature and duty, by ascending temperature.
    pub curve: Vec<(Binary32, u8)>,
}

/// Where a sensor's readings come from.
#[derive(Debug)]
pub enum SensorSpec {
    /// `/sys/class/hwmon`: `chip` is what a chip's `name` file holds, `label`
    /// what a `tempN_label` file holds, with a trailing `*` as a wildcard.
    Hwmon { chip: String, label: String },
    /// `ipmitool sdr type temperature`: `sensor` is a sensor's name there.
    Ipmi { sensor: String },
}

impl Clone for SensorSpec {
    fn clone(&self) -> (r: SensorSpec)
        ensures
            r == *self,
    {
        match self {
            SensorSpec::Hwmon { chip, label } => SensorSpec::Hwmon {
                chip: chip.clone(),
                label: label.clone(),
            },
            SensorSpec::Ipmi { sensor } => SensorSpec::Ipmi { sensor: sensor.clone() },
        }
    }
}

/// How much a hot inlet adds to every demand.
#[derive(Debug, Clone)]
pub struct InletBiasConfig {
    /// The IPMI name of the inlet sensor.
    pub sensor: String,
    /// Up to this temperature nothing is added.
    pub threshold_c: Binary32,
    /// Duty added per degree above the threshold.
    pub percent_per_degree_above: Binary32,
    /// Cap on what is added.
    pub max_bias_pct: u8,
}

pub fn default_tick_seconds() -> (r: u64)
    ensures
        r == 5,
{
    5
}

pub fn default_heartbeat_ticks() -> (r: u32)
    ensures
        r == 12,
{
    12
}

pub fn default_rise() -> (r: u8)
    ensures
        r == 10,
{
    10
}

pub fn default_fall() -> (r: u8)
    ensures
        r == 3,
{
    3
}

pub fn default_min_duty() -> (r: u8)
    ensures
        r == 20,
{
    20
}

pub fn default_max_duty() -> (r: u8)
    ensures
        r == 100,
{
    100
}

pub fn default_deadband() -> (r: u8)
    ensures
        r == 2,
{
    2
}

pub fn default_bias_cap() -> (r: u8)
    ensures
        r == 30,
{
    30
}

impl Default for SlewConfig {
    fn default() -> (r: SlewConfig)
        ensures
            r == (SlewConfig {
                max_rise_per_tick: 10,
                max_fall_per_tick: 3,
                min_duty: 20,
                max_duty: 100,
                deadband_pct: 2,
            }),
    {
        SlewConfig {
            max_rise_per_tick: default_rise(),
            max_fall_per_tick: default_fall(),
            min_duty: default_min_duty(),
            max_duty: default_max_duty(),
            deadband_pct: default_deadband(),
        }
    }
}

impl Default for IpmiConfig {
    fn default() -> (r: IpmiConfig)
        ensures
            r == (IpmiConfig {  }),
    {
        IpmiConfig {  }
    }
}

/// A rule that a configuration breaks.
#[derive(Debug)]
pub enum Violation {
    /// `tick_seconds` is 0.
    TickSecondsZero,
    /// The lowest duty is above the highest.
    MinDutyAboveMax { min_duty: u8, max_duty: u8 },
    /// The highest duty is above 100.
    MaxDutyAbove100,
    /// No sensor is configured.
    NoSensors,
    /// A curve has fewer than two points.
    CurveTooShort { sensor: String },
    /// A curve's temperature does not rise from one point to the next.
    CurveNotAscending { sensor: String, first: Binary32, second: Binary32 },
    /// A curve point asks for a duty above 100.
    DutyAbove100 { sensor: String, temp_c: Binary32, duty: u8 },
    /// The hard ceiling is not above the curve.
    CeilingInCurve { sensor: String, ceiling_c: Binary32, top_c: Binary32 },
}

/// What a [`Violation`] says.
pub ghost enum Fault {
    TickSecondsZero,
    MinDutyAboveMax { min_duty: u8, max_duty: u8 },
    MaxDutyAbove100,
    NoSensors,
    CurveTooShort { sensor: Seq<char> },
    CurveNotAscending { sensor: Seq<char>, first: Binary32, second: Binary32 },
    DutyAbove100 { sensor: Seq<char>, temp_c: Binary32, duty: u8 },
    CeilingInCurve { sensor: Seq<char>, ceiling_c: Binary32, top_c: Binary32 },
}

impl View for Violation {
    type V = Fault;

    open spec fn view(&self) -> Fault {
        match *self {
            Violation::TickSecondsZero => Fault::TickSecondsZero,
            Violation::MinDutyAboveMax { min_duty, max_duty } => Fault::MinDutyAboveMax {
                min_duty,
                max_duty,
            },
            Violation::MaxDutyAbove100 => Fault::MaxDutyAbove100,
            Violation::NoSensors => Fault::NoSensors,
            Violation::CurveTooShort { sensor } => Fault::CurveTooShort { sensor: sensor@ },
            Violation::CurveNotAscending { sensor, first, second } => Fault::CurveNotAscending {
                sensor: sensor@,
                first,
                second,
            },
            Violation::DutyAbove100 { sensor, temp_c, duty } => Fault::DutyAbove100 {
                sensor: sensor@,
                temp_c,
                duty,
            },
            Violation::CeilingInCurve { sensor, ceiling_c, top_c } => Fault::CeilingInCurve {
                sensor: sensor@,
                ceiling_c,
                top_c,
            },
        }
    }
}

/// The first point from `i` on whose successor's temperature is not above it.
pub open spec fn first_descent(curve: Seq<(Binary32, u8)>, i: nat) -> Option<nat>
    decreases curve.len() - i,
{
    if i + 1 >= curve.len() {
        None
    } else if !curve[i as int].0.lt(curve[i as int + 1].0) {
        Some(i)
    } else {
        first_descent(curve, i + 1)
    }
}

/// The first point from `i` on whose duty is above 100.
pub open spec fn first_excess(curve: Seq<(Binary32, u8)>, i: nat) -> Option<nat>
    decreases curve.len() - i,
{
    if i >= curve.len() {
        None
    } else if curve[i as int].1 > 100 {
        Some(i)
    } else {
        first_excess(curve, i + 1)
    }
}

impl SensorConfig {
    /// The first rule that the sensor breaks.
    pub open spec fn fault(self) -> Option<Fault> {
        let curve = self.curve@;
        let descent = first_descent(curve, 0);
        let excess = first_excess(curve, 0);
        if curve.len() < 2 {
            Some(Fault::CurveTooShort { sensor: self.name@ })
        } else if descent is Some {
            Some(
                Fault::CurveNotAscending {
                    sensor: self.name@,
                    first: curve[descent->0 as int].0,
                    second: curve[descent->0 as int + 1].0,
                },
            )
        } else if excess is Some {
            Some(
                Fault::DutyAbove100 {
                    sensor: self.name@,
                    temp_c: curve[excess->0 as int].0,
                    duty: curve[excess->0 as int].1,
                },
            )
        } else if !curve.last().0.lt(self.hard_ceiling_c) {
            Some(
                Fault::CeilingInCurve {
                    sensor: self.name@,
                    ceiling_c: self.hard_ceiling_c,
                    top_c: curve.last().0,
                },
            )
        } else {
            None
        }
    }

    /// What the rules ask of a sensor: a curve of two points or more, its
    /// temperatures strictly ascending, no duty above 100, and the hard ceiling
    /// above the curve's top temperature.
    pub open spec fn valid(self) -> bool {
        let curve = self.curve@;
        &&& curve.len() >= 2
        &&& forall|i: int|
            #![trigger curve[i]]
            0 <= i < curve.len() - 1 ==> curve[i].0.lt(curve[i + 1].0)
        &&& forall|i: int| 0 <= i < curve.len() ==> (#[trigger] curve[i]).1 <= 100
        &&& curve.last().0.lt(self.hard_ceiling_c)
    }

    /// Holds the sensor to the rules.
    pub fn validate(&self) -> (r: Result<(), ConfigError>)
        ensures
            r is Ok <==> self.valid(),
            r is Ok <==> self.fault() is None,
            r matches Err(e) ==> e is Validation && Some(e->Validation_0@) == self.fault(),
    {
        proof {
            law_sensor_fault_free(*self);
        }
        let n: usize = self.curve.len();
        if n < 2 {
            return Err(
                ConfigError::Validation(Violation::CurveTooShort { sensor: self.name.clone() }),
            );
        }
        for i in 0..n - 1
            invariant
                n == self.curve@.len(),
                n >= 2,
                first_descent(self.curve@, 0) == first_descent(self.curve@, i as nat),
                self.valid() <==> self.fault() is None,
        {
            if !self.curve[i].0.below(self.curve[i + 1].0) {
                return Err(
                    ConfigError::Validation(
                        Violation::CurveNotAscending {
                            sensor: self.name.clone(),
                            first: self.curve[i].0,
                            second: self.curve[i + 1].0,
                        },
                    ),
                );
            }
        }
        for i in 0..n
            invariant
                n == self.curve@.len(),
                n >= 2,
                first_descent(self.curve@, 0) is None,
                first_excess(self.curve@, 0) == first_excess(self.curve@, i as nat),
                self.valid() <==> self.fault() is None,
        {
            if self.curve[i].1 > 100 {
                return Err(
                    ConfigError::Validation(
                        Violation::DutyAbove100 {
                            sensor: self.name.clone(),
                            temp_c: self.curve[i].0,
                            duty: self.curve[i].1,
                        },
                    ),
                );
            }
        }
        if !self.curve[n - 1].0.below(self.hard_ceiling_c) {
            return Err(
                ConfigError::Validation(
                    Violation::CeilingInCurve {
                        sensor: self.name.clone(),
                        ceiling_c: self.hard_ceiling_c,
                        top_c: self.curve[n - 1].0,
                    },
                ),
            );
        }
        Ok(())
    }
}

/// The first rule that one of the sensors from `i` on breaks.
pub open spec fn first_fault(sensors: Seq<SensorConfig>, i: nat) -> Option<Fault>
    decreases sensors.len() - i,
{
    if i >= sensors.len() {
        None
    } else if sensors[i as int].fault() is Some {
        sensors[i as int].fault()
    } else {
        first_fault(sensors, i + 1)
    }
}

/// The first rule that a configuration with these parts breaks.
pub open spec fn fault_of(
    tick_seconds: u64,
    slew: SlewConfig,
    sensors: Seq<SensorConfig>,
) -> Option<Fault> {
    if tick_seconds == 0 {
        Some(Fault::TickSecondsZero)
    } else if slew.min_duty > slew.max_duty {
        Some(Fault::MinDutyAboveMax { min_duty: slew.min_duty, max_duty: slew.max_duty })
    } else if slew.max_duty > 100 {
        Some(Fault::MaxDutyAbove100)
    } else if sensors.len() == 0 {
        Some(Fault::NoSensors)
    } else {
        first_fault(sensors, 0)
    }
}

impl Config {
    /// The first rule that the configuration breaks.
    pub open spec fn fault(self) -> Option<Fault> {
        fault_of(self.tick_seconds, self.slew, self.sensors@)
    }

    /// What the rules ask of a configuration.
    pub open spec fn valid(self) -> bool {
        &&& self.tick_seconds >= 1
        &&& self.slew.min_duty <= self.slew.max_duty <= 100
        &&& self.sensors@.len() > 0
        &&& forall|i: int| 0 <= i < self.sensors@.len() ==> (#[trigger] self.sensors@[i]).valid()
    }

    /// Holds the configuration to the rules.
    pub fn validate(&self) -> (r: Result<(), ConfigError>)
        ensures
            r is Ok <==> self.valid(),
            r is Ok <==> self.fault() is None,
            r matches Err(e) ==> e is Validation && Some(e->Validation_0@) == self.fault(),
    {
        proof {
            law_config_fault_free(*self);
        }
        if self.tick_seconds == 0 {
            return Err(ConfigError::Validation(Violation::TickSecondsZero));
        }
        if self.slew.min_duty > self.slew.max_duty {
            return Err(
                ConfigError::Validation(
                    Violation::MinDutyAboveMax {
                        min_duty: self.slew.min_duty,
                        max_duty: self.slew.max_duty,
                    },
                ),
            );
        }
        if self.slew.max_duty > 100 {
            return Err(ConfigError::Validation(Violation::MaxDutyAbove100));
        }
        let n: usize = self.sensors.len();
        if n == 0 {
            return Err(ConfigError::Validation(Violation::NoSensors));
        }
        for i in 0..n
            invariant
                n == self.sensors@.len(),
                first_fault(self.sensors@, 0) == first_fault(self.sensors@, i as nat),
                self.fault() == first_fault(self.sensors@, 0),
                self.valid() <==> self.fault() is None,
        {
            self.sensors[i].validate()?;
        }
        Ok(())
    }
}

proof fn lemma_first_descent(curve: Seq<(Binary32, u8)>, i: nat)
    ensures
        first_descent(curve, i) is None <==> forall|j: int|
            #![trigger curve[j]]
            i <= j < curve.len() - 1 ==> curve[j].0.lt(curve[j + 1].0),
        first_descent(curve, i) matches Some(k) ==> i <= k < curve.len() - 1
            && !curve[k as int].0.lt(curve[k as int + 1].0),
    decreases curve.len() - i,
{
    if i + 1 < curve.len() {
        lemma_first_descent(curve, i + 1);
        if first_descent(curve, i) is Some {
            let k = first_descent(curve, i)->0 as int;
            assert(!curve[k].0.lt(curve[k + 1].0));
        }
    }
}

proof fn lemma_first_excess(curve: Seq<(Binary32, u8)>, i: nat)
    ensures
        first_excess(curve, i) is None <==> forall|j: int|
            i <= j < curve.len() ==> (#[trigger] curve[j]).1 <= 100,
        first_excess(curve, i) matches Some(k) ==> i <= k < curve.len() && curve[k as int].1 > 100,
    decreases curve.len() - i,
{
    if i < curve.len() {
        lemma_first_excess(curve, i + 1);
    }
}

proof fn lemma_first_fault(sensors: Seq<SensorConfig>, i: nat)
    ensures
        first_fault(sensors, i) is None <==> forall|j: int|
            i <= j < sensors.len() ==> (#[trigger] sensors[j]).valid(),
    decreases sensors.len() - i,
{
    if i < sensors.len() {
        law_sensor_fault_free(sensors[i as int]);
        lemma_first_fault(sensors, i + 1);
    }
}

/// A sensor is accepted exactly where it keeps every rule.
pub proof fn law_sensor_fault_free(sensor: SensorConfig)
    ensures
        sensor.fault() is None <==> sensor.valid(),
{
    lemma_first_descent(sensor.curve@, 0);
    lemma_first_excess(sensor.curve@, 0);
}

/// A configuration is accepted exactly where it keeps every rule.
pub proof fn law_config_fault_free(cfg: Config)
    ensures
        cfg.fault() is None <==> cfg.valid(),
{
    lemma_first_fault(cfg.sensors@, 0);
}

/// Why a configuration could not be loaded.
#[derive(Debug)]
pub enum ConfigError {
    /// The file could not be read.
    Read { path: String, reason: String },
    /// The text is not a configuration.
    Parse { path: String, reason: String },
    /// The configuration breaks a rule.
    Validation(Violation),
}

impl Fault {
    /// The message for the fault. The messages that speak of temperatures name
    /// two at most; `first` and `second` are these in writing.
    pub open spec fn message(self, first: Seq<char>, second: Seq<char>) -> Seq<char> {
        match self {
            Fault::TickSecondsZero => "tick_seconds must be >= 1"@,
            Fault::MinDutyAboveMax { min_duty, max_duty } => "slew.min_duty ("@
                + numeral::decimal(min_duty as nat) + ") > slew.max_duty ("@
                + numeral::decimal(max_duty as nat) + ")"@,
            Fault::MaxDutyAbove100 => "slew.max_duty must be <= 100"@,
            Fault::NoSensors => "at least one [[sensor]] is required"@,
            Fault::CurveTooShort { sensor } => "sensor '"@ + sensor
                + "' curve needs at least 2 points"@,
            Fault::CurveNotAscending { sensor, .. } => "sensor '"@ + sensor
                + "' curve temps must be strictly ascending (got "@ + first + " then "@ + second
                + ")"@,
            Fault::DutyAbove100 { sensor, duty, .. } => "sensor '"@ + sensor + "' curve point ("@
                + first + ", "@ + numeral::decimal(duty as nat) + ") has duty > 100"@,
            Fault::CeilingInCurve { sensor, .. } => "sensor '"@ + sensor + "' hard_ceiling_c ("@
                + first + ") should be above the curve's top temp ("@ + second + ")"@,
        }
    }

    /// The temperatures that the message names, in the order in which it names
    /// them.
    pub open spec fn temperatures(self) -> Seq<Binary32> {
        match self {
            Fault::CurveNotAscending { first, second, .. } => seq![first, second],
            Fault::DutyAbove100 { temp_c, .. } => seq![temp_c],
            Fault::CeilingInCurve { ceiling_c, top_c, .. } => seq![ceiling_c, top_c],
            _ => seq![],
        }
    }
}

/// `start`, `a`, `middle`, `b` and `end` in one text.
fn join(start: &str, a: &str, middle: &str, b: &str, end: &str) -> (r: String)
    ensures
        r@ == start@ + a@ + middle@ + b@ + end@,
{
    let mut r: String = start.to_owned();
    r.append(a);
    r.append(middle);
    r.append(b);
    r.append(end);
    r
}

impl Violation {
    /// The temperatures that the message names, in the order in which it names
    /// them.
    pub fn temperatures(&self) -> (r: Vec<Binary32>)
        ensures
            r@ == self@.temperatures(),
    {
        let mut r: Vec<Binary32> = Vec::new();
        match self {
            Violation::CurveNotAscending { first, second, .. } => {
                r.push(*first);
                r.push(*second);
            },
            Violation::DutyAbove100 { temp_c, .. } => {
                r.push(*temp_c);
            },
            Violation::CeilingInCurve { ceiling_c, top_c, .. } => {
                r.push(*ceiling_c);
                r.push(*top_c);
            },
            _ => {},
        }
        r
    }

    /// The message. `first` and `second` are the temperatures of
    /// [`Violation::temperatures`] in writing; where there are fewer, what is
    /// passed for the others is not used.
    pub fn message(&self, first: &str, second: &str) -> (r: String)
        ensures
            r@ == self@.message(first@, second@),
    {
        match self {
            Violation::TickSecondsZero => "tick_seconds must be >= 1".to_owned(),
            Violation::MinDutyAboveMax { min_duty, max_duty } => join(
                "slew.min_duty (",
                write_decimal(*min_duty as u64).as_str(),
                ") > slew.max_duty (",
                write_decimal(*max_duty as u64).as_str(),
                ")",
            ),
            Violation::MaxDutyAbove100 => "slew.max_duty must be <= 100".to_owned(),
            Violation::NoSensors => "at least one [[sensor]] is required".to_owned(),
            Violation::CurveTooShort { sensor } => {
                let mut r: String = "sensor '".to_owned();
                r.append(sensor.as_str());
                r.append("' curve needs at least 2 points");
                r
            },
            Violation::CurveNotAscending { sensor, .. } => {
                let mut r: String = join(
                    "sensor '",
                    sensor.as_str(),
                    "' curve temps must be strictly ascending (got ",
                    first,
                    " then ",
                );
                r.append(second);
                r.append(")");
                r
            },
            Violation::DutyAbove100 { sensor, duty, .. } => {
                let mut r: String = join(
                    "sensor '",
                    sensor.as_str(),
                    "' curve point (",
                    first,
                    ", ",
                );
                r.append(write_decimal(*duty as u64).as_str());
                r.append(") has duty > 100");
                r
            },
            Violation::CeilingInCurve { sensor, .. } => {
                let mut r: String = join(
                    "sensor '",
                    sensor.as_str(),
                    "' hard_ceiling_c (",
                    first,
                    ") should be above the curve's top temp (",
                );
                r.append(second);
                r.append(")");
                r
            },
        }
    }
}

impl ConfigError {
    /// The message; `first` and `second` as in [`Violation::message`].
    pub fn message(&self, first: &str, second: &str) -> (r: String)
        ensures
            r@ == match *self {
                ConfigError::Read { path, reason } => "failed to read config file "@ + path@
                    + ": "@ + reason@,
                ConfigError::Parse { path, reason } => "failed to parse config file "@ + path@
                    + ": "@ + reason@,
                ConfigError::Validation(v) => "invalid config: "@ + v@.message(first@, second@),
            },
    {
        match self {
            ConfigError::Read { path, reason } => {
                let mut r: String = "failed to read config file ".to_owned();
                r.append(path.as_str());
                r.append(": ");
                r.append(reason.as_str());
                r
            },
            ConfigError::Parse { path, reason } => {
                let mut r: String = "failed to parse config file ".to_owned();
                r.append(path.as_str());
                r.append(": ");
                r.append(reason.as_str());
                r
            },
            ConfigError::Validation(v) => {
                let mut r: String = "invalid config: ".to_owned();
                r.append(v.message(first, second).as_str());
                r
            },
        }
    }
}

// ---------------------------------------------------------------------------
// Loading
// ---------------------------------------------------------------------------

/// What a configuration file sets. What it leaves out has a default.
#[derive(Debug)]
pub struct ConfigDocument {
    pub tick_seconds: Option<u64>,
    pub write_heartbeat_ticks: Option<u32>,
    pub slew: Option<SlewDocument>,
    pub ipmi: Option<IpmiConfig>,
    pub sensors: Option<Vec<SensorConfig>>,
    pub inlet_bias: Option<InletBiasDocument>,
}

/// What a configuration file sets of [`SlewConfig`].
#[derive(Debug, Clone, Copy)]
pub struct SlewDocument {
    pub max_rise_per_tick: Option<u8>,
    pub max_fall_per_tick: Option<u8>,
    pub min_duty: Option<u8>,
    pub max_duty: Option<u8>,
    pub deadband_pct: Option<u8>,
}

/// What a configuration file sets of [`InletBiasConfig`].
#[derive(Debug)]
pub struct InletBiasDocument {
    pub sensor: String,
    pub threshold_c: Binary32,
    pub percent_per_degree_above: Binary32,
    pub max_bias_pct: Option<u8>,
}

/// What is set, or else the default.
pub open spec fn or_default<T>(set: Option<T>, default: T) -> T {
    match set {
        Some(x) => x,
        None => default,
    }
}

impl SlewDocument {
    /// The settings with the defaults filled in.
    pub open spec fn completed(self) -> SlewConfig {
        SlewConfig {
            max_rise_per_tick: or_default(self.max_rise_per_tick, 10),
            max_fall_per_tick: or_default(self.max_fall_per_tick, 3),
            min_duty: or_default(self.min_duty, 20),
            max_duty: or_default(self.max_duty, 100),
            deadband_pct: or_default(self.deadband_pct, 2),
        }
    }

    /// Fills the defaults in.
    pub fn complete(&self) -> (r: SlewConfig)
        ensures
            r == self.completed(),
            self.max_rise_per_tick matches Some(x) ==> r.max_rise_per_tick == x,
            self.max_fall_per_tick matches Some(x) ==> r.max_fall_per_tick == x,
            self.min_duty matches Some(x) ==> r.min_duty == x,
            self.max_duty matches Some(x) ==> r.max_duty == x,
            self.deadband_pct matches Some(x) ==> r.deadband_pct == x,
    {
        SlewConfig {
            max_rise_per_tick: self.max_rise_per_tick.unwrap_or(default_rise()),
            max_fall_per_tick: self.max_fall_per_tick.unwrap_or(default_fall()),
            min_duty: self.min_duty.unwrap_or(default_min_duty()),
            max_duty: self.max_duty.unwrap_or(default_max_duty()),
            deadband_pct: self.deadband_pct.unwrap_or(default_deadband()),
        }
    }
}

impl ConfigDocument {
    pub open spec fn completed_tick_seconds(self) -> u64 {
        or_default(self.tick_seconds, 5)
    }

    pub open spec fn completed_slew(self) -> SlewConfig {
        match self.slew {
            Some(slew) => slew.completed(),
            None => SlewConfig {
                max_rise_per_tick: 10,
                max_fall_per_tick: 3,
                min_duty: 20,
                max_duty: 100,
                deadband_pct: 2,
            },
        }
    }

    pub open spec fn completed_sensors(self) -> Seq<SensorConfig> {
        match self.sensors {
            Some(sensors) => sensors@,
            None => Seq::empty(),
        }
    }

    pub open spec fn completed_inlet_bias(self) -> Option<InletBiasConfig> {
        match self.inlet_bias {
            Some(b) => Some(
                InletBiasConfig {
                    sensor: b.sensor,
                    threshold_c: b.threshold_c,
                    percent_per_degree_above: b.percent_per_degree_above,
                    max_bias_pct: or_default(b.max_bias_pct, 30),
                },
            ),
            None => None,
        }
    }

    /// Whether `cfg` is what is set, with the defaults filled in.
    pub open spec fn gives(self, cfg: Config) -> bool {
        &&& cfg.tick_seconds == self.completed_tick_seconds()
        &&& cfg.write_heartbeat_ticks == or_default(self.write_heartbeat_ticks, 12)
        &&& cfg.slew == self.completed_slew()
        &&& cfg.sensors@ == self.completed_sensors()
        &&& cfg.inlet_bias == self.completed_inlet_bias()
    }

    /// The first rule that the configuration breaks.
    pub open spec fn fault(self) -> Option<Fault> {
        fault_of(self.completed_tick_seconds(), self.completed_slew(), self.completed_sensors())
    }

    /// Fills the defaults in.
    pub fn complete(self) -> (r: Config)
        ensures
            self.gives(r),
            r.fault() == self.fault(),
    {
        let slew: SlewConfig = match self.slew {
            Some(slew) => slew.complete(),
            None => SlewConfig::default(),
        };
        let ipmi: IpmiConfig = match self.ipmi {
            Some(ipmi) => ipmi,
            None => IpmiConfig::default(),
        };
        let sensors: Vec<SensorConfig> = match self.sensors {
            Some(sensors) => sensors,
            None => Vec::new(),
        };
        let inlet_bias: Option<InletBiasConfig> = match self.inlet_bias {
            Some(b) => Some(
                InletBiasConfig {
                    sensor: b.sensor,
                    threshold_c: b.threshold_c,
                    percent_per_degree_above: b.percent_per_degree_above,
                    max_bias_pct: b.max_bias_pct.unwrap_or(default_bias_cap()),
                },
            ),
            None => None,
        };
        Config {
            tick_seconds: self.tick_seconds.unwrap_or(default_tick_seconds()),
            write_heartbeat_ticks: self.write_heartbeat_ticks.unwrap_or(default_heartbeat_ticks()),
            slew,
            ipmi,
            sensors,
            inlet_bias,
        }
    }
}

impl Config {
    /// Loads a configuration from a TOML text. `parsed` is what the text sets,
    /// or the reason why it is no configuration.
    pub fn from_toml_str(parsed: Result<ConfigDocument, String>) -> (r: Result<
        Config,
        ConfigError,
    >)
        ensures
            r matches Ok(cfg) ==> cfg.valid(),
            match parsed {
                Ok(doc) => match doc.fault() {
                    None => r matches Ok(cfg) && doc.gives(cfg),
                    Some(fault) => r matches Err(e) && e is Validation && e->Validation_0@ == fault,
                },
                Err(reason) => r matches Err(e) && e is Parse && e->Parse_path@ == "<inline>"@
                    && e->Parse_reason == reason,
            },
    {
        match parsed {
            Ok(doc) => {
                let cfg: Config = doc.complete();
                cfg.validate()?;
                Ok(cfg)
            },
            Err(reason) => Err(ConfigError::Parse { path: "<inline>".to_owned(), reason }),
        }
    }

    /// Loads a configuration from the file `path`. `read` is what reading the
    /// file gave: what its text sets (see [`Config::from_toml_str`]), or the
    /// reason why it could not be read.
    pub fn from_file(path: &str, read: Result<Result<ConfigDocument, String>, String>) -> (r:
        Result<Config, ConfigError>)
        ensures
            r matches Ok(cfg) ==> cfg.valid(),
            match read {
                Ok(Ok(doc)) => match doc.fault() {
                    None => r matches Ok(cfg) && doc.gives(cfg),
                    Some(fault) => r matches Err(e) && e is Validation && e->Validation_0@ == fault,
                },
                Ok(Err(reason)) => r matches Err(e) && e is Parse && e->Parse_path@ == path@
                    && e->Parse_reason == reason,
                Err(reason) => r matches Err(e) && e is Read && e->Read_path@ == path@
                    && e->Read_reason == reason,
            },
    {
        match read {
            Err(reason) => Err(ConfigError::Read { path: path.to_owned(), reason }),
            Ok(parsed) => match Config::from_toml_str(parsed) {
                Err(ConfigError::Parse { reason, .. }) => Err(
                    ConfigError::Parse { path: path.to_owned(), reason },
                ),
                other => other,
            },
        }
    }
}

/// The defaults keep the rules: a file that sets nothing but a sensor that keeps
/// them is accepted.
pub proof fn law_defaults_valid(doc: ConfigDocument)
    requires
        doc.tick_seconds is None,
        doc.slew is None,
        doc.completed_sensors().len() > 0,
        forall|i: int|
            0 <= i < doc.completed_sensors().len() ==> (
            #[trigger] doc.completed_sensors()[i]).valid(),
    ensures
        doc.fault() is None,
{
    lemma_first_fault(doc.completed_sensors(), 0);
}

/// Each setting of the slew rate that a file gives is that setting, and each that
/// it leaves out has its own default.
pub proof fn law_slew_settings(doc: SlewDocument)
    ensures
        doc.max_rise_per_tick matches Some(x) ==> doc.completed().max_rise_per_tick == x,
        doc.max_rise_per_tick is None ==> doc.completed().max_rise_per_tick == 10,
        doc.max_fall_per_tick matches Some(x) ==> doc.completed().max_fall_per_tick == x,
        doc.max_fall_per_tick is None ==> doc.completed().max_fall_per_tick == 3,
        doc.min_duty matches Some(x) ==> doc.completed().min_duty == x,
        doc.min_duty is None ==> doc.completed().min_duty == 20,
        doc.max_duty matches Some(x) ==> doc.completed().max_duty == x,
        doc.max_duty is None ==> doc.completed().max_duty == 100,
        doc.deadband_pct matches Some(x) ==> doc.completed().deadband_pct == x,
        doc.deadband_pct is None ==> doc.completed().deadband_pct == 2,
{
}

/// Each setting that a file gives is that setting of the configuration, and each
/// that it leaves out has its own default.
pub proof fn law_settings(doc: ConfigDocument, cfg: Config)
    requires
        doc.gives(cfg),
    ensures
        doc.tick_seconds matches Some(x) ==> cfg.tick_seconds == x,
        doc.tick_seconds is None ==> cfg.tick_seconds == 5,
        doc.write_heartbeat_ticks matches Some(x) ==> cfg.write_heartbeat_ticks == x,
        doc.write_heartbeat_ticks is None ==> cfg.write_heartbeat_ticks == 12,
        doc.slew matches Some(s) ==> {
            &&& s.max_rise_per_tick matches Some(x) ==> cfg.slew.max_rise_per_tick == x
            &&& s.max_fall_per_tick matches Some(x) ==> cfg.slew.max_fall_per_tick == x
            &&& s.min_duty matches Some(x) ==> cfg.slew.min_duty == x
            &&& s.max_duty matches Some(x) ==> cfg.slew.max_duty == x
            &&& s.deadband_pct matches Some(x) ==> cfg.slew.deadband_pct == x
        },
        doc.slew is None || doc.slew->0.max_rise_per_tick is None ==> cfg.slew.max_rise_per_tick
            == 10,
        doc.slew is None || doc.slew->0.max_fall_per_tick is None ==> cfg.slew.max_fall_per_tick
            == 3,
        doc.slew is None || doc.slew->0.min_duty is None ==> cfg.slew.min_duty == 20,
        doc.slew is None || doc.slew->0.max_duty is None ==> cfg.slew.max_duty == 100,
        doc.slew is None || doc.slew->0.deadband_pct is None ==> cfg.slew.deadband_pct == 2,
        doc.sensors matches Some(sensors) ==> cfg.sensors@ == sensors@,
        doc.sensors is None ==> cfg.sensors@.len() == 0,
        doc.inlet_bias is Some <==> cfg.inlet_bias is Some,
        doc.inlet_bias matches Some(b) ==> {
            &&& cfg.inlet_bias->0.sensor@ == b.sensor@
            &&& cfg.inlet_bias->0.threshold_c == b.threshold_c
            &&& cfg.inlet_bias->0.percent_per_degree_above == b.percent_per_degree_above
            &&& b.max_bias_pct matches Some(x) ==> cfg.inlet_bias->0.max_bias_pct == x
            &&& b.max_bias_pct is None ==> cfg.inlet_bias->0.max_bias_pct == 30
        },
{
    if let Some(slew) = doc.slew {
        law_slew_settings(slew);
    }
}

proof fn lemma_ascends(curve: Seq<(Binary32, u8)>, i: int, j: int)
    requires
        forall|k: int|
            #![trigger curve[k]]
            0 <= k < curve.len() - 1 ==> curve[k].0.lt(curve[k + 1].0),
        0 <= i < j < curve.len(),
    ensures
        curve[i].0.lt(curve[j].0),
    decreases j,
{
    assert(curve[j - 1].0.lt(curve[j - 1 + 1].0));
    if i < j - 1 {
        lemma_ascends(curve, i, j - 1);
    }
}

/// A sensor is accepted exactly where its curve has two points or more, each
/// point is hotter than every one before it, the hard ceiling is hotter than
/// every point, and no point asks for a duty above 100.
pub proof fn law_sensor_rules(sensor: SensorConfig)
    ensures
        sensor.fault() is None <==> {
            &&& sensor.curve@.len() >= 2
            &&& forall|i: int, j: int|
                0 <= i < j < sensor.curve@.len() ==> (#[trigger] sensor.curve@[i]).0.lt(
                    (#[trigger] sensor.curve@[j]).0,
                )
            &&& forall|i: int|
                0 <= i < sensor.curve@.len() ==> (#[trigger] sensor.curve@[i]).0.lt(
                    sensor.hard_ceiling_c,
                )
            &&& forall|i: int|
                0 <= i < sensor.curve@.len() ==> (#[trigger] sensor.curve@[i]).1 <= 100
        },
        sensor.valid() <==> sensor.fault() is None,
{
    let curve = sensor.curve@;
    law_sensor_fault_free(sensor);
    if sensor.valid() {
        assert forall|i: int, j: int| 0 <= i < j < curve.len() implies (#[trigger] curve[i]).0.lt(
            (#[trigger] curve[j]).0,
        ) by {
            lemma_ascends(curve, i, j);
        }
        assert forall|i: int| 0 <= i < curve.len() implies (#[trigger] curve[i]).0.lt(
            sensor.hard_ceiling_c,
        ) by {
            if i < curve.len() - 1 {
                lemma_ascends(curve, i, curve.len() - 1);
            }
        }
    }
    if curve.len() >= 2 && forall|i: int, j: int|
        0 <= i < j < curve.len() ==> (#[trigger] curve[i]).0.lt((#[trigger] curve[j]).0) {
        assert forall|i: int|
            #![trigger curve[i]]
            0 <= i < curve.len() - 1 implies curve[i].0.lt(curve[i + 1].0) by {}
        assert(curve[curve.len() - 1] == curve.last());
    }
}

/// A configuration is accepted exactly where a tick has at least a second, the
/// lowest duty is not above the highest, which is not above 100, and there are
/// sensors, all of which are accepted.
pub proof fn law_config_rules(cfg: Config)
    ensures
        cfg.fault() is None <==> {
            &&& cfg.tick_seconds != 0
            &&& cfg.slew.min_duty <= cfg.slew.max_duty
            &&& cfg.slew.max_duty <= 100
            &&& cfg.sensors@.len() != 0
            &&& forall|i: int|
                0 <= i < cfg.sensors@.len() ==> (#[trigger] cfg.sensors@[i]).fault() is None
        },
        cfg.valid() <==> cfg.fault() is None,
{
    law_config_fault_free(cfg);
    assert forall|i: int| 0 <= i < cfg.sensors@.len() implies ((
    #[trigger] cfg.sensors@[i]).fault() is None <==> cfg.sensors@[i].valid()) by {
        law_sensor_fault_free(cfg.sensors@[i]);
    }
    if cfg.fault() is None {
        assert forall|i: int| 0 <= i < cfg.sensors@.len() implies (
        #[trigger] cfg.sensors@[i]).fault() is None by {
            assert(cfg.sensors@[i].valid());
        }
    }
}

/// Whether the points of a curve ascend up to point `k`.
pub open spec fn ascends_to(curve: Seq<(Binary32, u8)>, k: int) -> bool {
    forall|j: int| #![trigger curve[j]] 0 <= j < k ==> curve[j].0.lt(curve[j + 1].0)
}

proof fn lemma_descent_is_first(curve: Seq<(Binary32, u8)>, i: nat)
    ensures
        first_descent(curve, i) matches Some(k) ==> forall|j: int|
            #![trigger curve[j]]
            i <= j < k ==> curve[j].0.lt(curve[j + 1].0),
    decreases curve.len() - i,
{
    if i + 1 < curve.len() {
        lemma_descent_is_first(curve, i + 1);
    }
}

proof fn lemma_excess_is_first(curve: Seq<(Binary32, u8)>, i: nat)
    ensures
        first_excess(curve, i) matches Some(k) ==> forall|j: int|
            i <= j < k ==> (#[trigger] curve[j]).1 <= 100,
    decreases curve.len() - i,
{
    if i < curve.len() {
        lemma_excess_is_first(curve, i + 1);
    }
}

/// What is said of a sensor that is not accepted is so: the fault names the
/// sensor and the place in the curve that breaks the rule, and no place before
/// it, and no rule before it, is broken.
pub proof fn law_sensor_fault_true(sensor: SensorConfig)
    ensures
        sensor.fault() matches Some(fault) ==> {
            let curve = sensor.curve@;
            match fault {
                Fault::CurveTooShort { sensor: name } => name == sensor.name@ && curve.len() < 2,
                Fault::CurveNotAscending { sensor: name, first, second } => name == sensor.name@
                    && exists|k: int|
                    {
                        &&& 0 <= k < curve.len() - 1
                        &&& (#[trigger] curve[k]).0 == first
                        &&& curve[k + 1].0 == second
                        &&& !first.lt(second)
                        &&& ascends_to(curve, k)
                    },
                Fault::DutyAbove100 { sensor: name, temp_c, duty } => name == sensor.name@
                    && curve.len() >= 2 && ascends_to(curve, curve.len() - 1) && exists|k: int|
                    {
                        &&& 0 <= k < curve.len()
                        &&& #[trigger] curve[k] == (temp_c, duty)
                        &&& duty > 100
                        &&& forall|j: int| 0 <= j < k ==> (#[trigger] curve[j]).1 <= 100
                    },
                Fault::CeilingInCurve { sensor: name, ceiling_c, top_c } => name == sensor.name@
                    && curve.len() >= 2 && ascends_to(curve, curve.len() - 1) && ceiling_c
                    == sensor.hard_ceiling_c && top_c == curve[curve.len() - 1].0 && !top_c.lt(
                    ceiling_c,
                ) && forall|j: int| 0 <= j < curve.len() ==> (#[trigger] curve[j]).1 <= 100,
                _ => false,
            }
        },
{
    let curve = sensor.curve@;
    lemma_first_descent(curve, 0);
    lemma_first_excess(curve, 0);
    lemma_descent_is_first(curve, 0);
    lemma_excess_is_first(curve, 0);
    if curve.len() >= 2 {
        if let Some(k) = first_descent(curve, 0) {
            assert(ascends_to(curve, k as int));
            assert(curve[k as int].0 == curve[k as int].0);
        } else if let Some(k) = first_excess(curve, 0) {
            assert(ascends_to(curve, curve.len() - 1));
            assert(curve[k as int] == (curve[k as int].0, curve[k as int].1));
        }
    }
}

proof fn lemma_fault_is_first(sensors: Seq<SensorConfig>, i: nat) -> (k: int)
    requires
        first_fault(sensors, i) is Some,
    ensures
        i <= k < sensors.len(),
        sensors[k].fault() == first_fault(sensors, i),
        forall|j: int| i <= j < k ==> (#[trigger] sensors[j]).fault() is None,
    decreases sensors.len() - i,
{
    if sensors[i as int].fault() is None {
        lemma_fault_is_first(sensors, i + 1)
    } else {
        i as int
    }
}

/// What is said of a configuration that is not accepted is so, and no rule
/// before it is broken; a sensor's fault is that of the first sensor that is not
/// accepted.
pub proof fn law_config_fault_true(cfg: Config)
    ensures
        cfg.fault() matches Some(fault) ==> {
            let slew = cfg.slew;
            match fault {
                Fault::TickSecondsZero => cfg.tick_seconds == 0,
                Fault::MinDutyAboveMax { min_duty, max_duty } => cfg.tick_seconds > 0 && min_duty
                    == slew.min_duty && max_duty == slew.max_duty && min_duty > max_duty,
                Fault::MaxDutyAbove100 => cfg.tick_seconds > 0 && slew.min_duty <= slew.max_duty
                    && slew.max_duty > 100,
                Fault::NoSensors => cfg.tick_seconds > 0 && slew.min_duty <= slew.max_duty <= 100
                    && cfg.sensors@.len() == 0,
                _ => cfg.tick_seconds > 0 && slew.min_duty <= slew.max_duty <= 100 && exists|k: int|
                    {
                        &&& 0 <= k < cfg.sensors@.len()
                        &&& (#[trigger] cfg.sensors@[k]).fault() == Some(fault)
                        &&& forall|j: int|
                            0 <= j < k ==> (#[trigger] cfg.sensors@[j]).fault() is None
                    },
            }
        },
{
    if first_fault(cfg.sensors@, 0) is Some {
        let k = lemma_fault_is_first(cfg.sensors@, 0);
        law_sensor_fault_true(cfg.sensors@[k]);
    }
}

/// A text that follows `name` and starts with a quotation mark keeps the two
/// together.
proof fn lemma_quoted(name: Seq<char>, text: Seq<char>)
    requires
        text.len() > 0,
        text[0] == '\'',
    ensures
        ("sensor '"@ + name + "'"@).is_prefix_of("sensor '"@ + name + text),
{
    reveal_strlit("'");
    let start = "sensor '"@ + name + "'"@;
    assert(("sensor '"@ + name + text).take(start.len() as int) =~= start);
}

proof fn lemma_prefix_stays(start: Seq<char>, text: Seq<char>, more: Seq<char>)
    requires
        start.is_prefix_of(text),
    ensures
        start.is_prefix_of(text + more),
{
    assert((text + more).take(start.len() as int) =~= text.take(start.len() as int));
}

/// The message for a sensor's fault starts with the sensor's name.
pub proof fn law_message_names_sensor(fault: Fault, first: Seq<char>, second: Seq<char>)
    ensures
        match fault {
            Fault::CurveTooShort { sensor } | Fault::CurveNotAscending { sensor, .. }
            | Fault::DutyAbove100 { sensor, .. } | Fault::CeilingInCurve { sensor, .. } => (
            "sensor '"@ + sensor + "'"@).is_prefix_of(fault.message(first, second)),
            _ => true,
        },
{
    match fault {
        Fault::CurveTooShort { sensor } => {
            reveal_strlit("' curve needs at least 2 points");
            lemma_quoted(sensor, "' curve needs at least 2 points"@);
        },
        Fault::CurveNotAscending { sensor, .. } => {
            reveal_strlit("' curve temps must be strictly ascending (got ");
            let start = "sensor '"@ + sensor + "'"@;
            let text = "sensor '"@ + sensor + "' curve temps must be strictly ascending (got "@;
            lemma_quoted(sensor, "' curve temps must be strictly ascending (got "@);
            lemma_prefix_stays(start, text, first);
            lemma_prefix_stays(start, text + first, " then "@);
            lemma_prefix_stays(start, text + first + " then "@, second);
            lemma_prefix_stays(start, text + first + " then "@ + second, ")"@);
        },
        Fault::DutyAbove100 { sensor, duty, .. } => {
            reveal_strlit("' curve point (");
            let start = "sensor '"@ + sensor + "'"@;
            let text = "sensor '"@ + sensor + "' curve point ("@;
            let number = numeral::decimal(duty as nat);
            lemma_quoted(sensor, "' curve point ("@);
            lemma_prefix_stays(start, text, first);
            lemma_prefix_stays(start, text + first, ", "@);
            lemma_prefix_stays(start, text + first + ", "@, number);
            lemma_prefix_stays(start, text + first + ", "@ + number, ") has duty > 100"@);
        },
        Fault::CeilingInCurve { sensor, .. } => {
            reveal_strlit("' hard_ceiling_c (");
            let start = "sensor '"@ + sensor + "'"@;
            let text = "sensor '"@ + sensor + "' hard_ceiling_c ("@;
            let middle = ") should be above the curve's top temp ("@;
            lemma_quoted(sensor, "' hard_ceiling_c ("@);
            lemma_prefix_stays(start, text, first);
            lemma_prefix_stays(start, text + first, middle);
            lemma_prefix_stays(start, text + first + middle, second);
            lemma_prefix_stays(start, text + first + middle + second, ")"@);
        },
        _ => {},
    }
}

} // verus!
