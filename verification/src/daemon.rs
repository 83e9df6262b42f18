//! The decisions of the control loop, tick by tick.
//!
//! In each tick the sensors are asked in turn ([`Sensing`]): each gives a
//! demand, cannot be read, or is so hot that control goes back to the BMC. Once
//! all were asked and none was too hot, a [`Controller`] makes one duty of the
//! demands and decides whether to send it.

use vstd::prelude::*;
use vstd::string::*;
use crate::binary32::{self, Binary32};
use crate::config::{Config, SensorConfig, SlewConfig};
use crate::control::{
    self,
    apply_deadband,
    demand_for_sensor,
    inlet_bias_pct,
    merge_demands,
    slew_limit,
};
use crate::ipmi_fan::IpmiFanError;
use crate::numeral::{self, write_decimal};
use crate::sensors::{self, hottest, Missing, Reading, SensorError, SensorReading};
use crate::sensors::hwmon::{self, HwmonEntry};
use crate::sensors::ipmi::IpmiCache;

verus! {

// ---------------------------------------------------------------------------
// Start and end
// ---------------------------------------------------------------------------

/// What to do with a configuration that was loaded.
#[derive(Debug, Clone, Copy, PartialEq, Eq, Structural)]
pub enum Startup {
    /// Report that it is fine, and exit.
    Report,
    /// Run, after taking control of the fans.
    Engage,
    /// Run without taking control.
    DryRun,
}

/// What to do with a configuration that was loaded, given whether it was only to
/// be checked and whether nothing is to be written.
pub fn startup(check: bool, dry_run: bool) -> (r: Startup)
    ensures
        r == if check {
            Startup::Report
        } else if dry_run {
            Startup::DryRun
        } else {
            Startup::Engage
        },
{
    if check {
        Startup::Report
    } else if dry_run {
        Startup::DryRun
    } else {
        Startup::Engage
    }
}

/// What is reported of a configuration that was only checked.
pub fn check_report(cfg: &Config) -> (r: String)
    ensures
        r@ == "config OK: "@ + numeral::decimal(cfg.sensors@.len()) + " sensor(s), tick="@
            + numeral::decimal(cfg.tick_seconds as nat) + "s"@,
{
    let mut r: String = "config OK: ".to_owned();
    r.append(write_decimal(cfg.sensors.len() as u64).as_str());
    r.append(" sensor(s), tick=");
    r.append(write_decimal(cfg.tick_seconds).as_str());
    r.append("s");
    r
}

/// The exit code: not 0 where the loop ended with a failure, so that the daemon
/// is started again.
pub fn exit_code(failed: bool) -> (r: u8)
    ensures
        r == if failed {
            1int
        } else {
            0
        },
{
    if failed {
        1
    } else {
        0
    }
}

// ---------------------------------------------------------------------------
// Sensing
// ---------------------------------------------------------------------------

/// A sensor has reached its hard ceiling.
#[derive(Debug)]
pub struct Trip {
    pub sensor: String,
    pub temp_c: Binary32,
    pub ceiling_c: Binary32,
    /// Where the temperature was read.
    pub label: String,
}

impl Trip {
    /// The message. `temp` and `ceiling` are the temperatures in writing, the
    /// first with one decimal place.
    pub fn message(&self, temp: &str, ceiling: &str) -> (r: String)
        ensures
            r@ == "sensor '"@ + self.sensor@ + "' reading "@ + temp@ + "C >= hard ceiling "@
                + ceiling@ + "C ("@ + self.label@ + "); tripping to BMC auto"@,
    {
        let mut r: String = "sensor '".to_owned();
        r.append(self.sensor.as_str());
        r.append("' reading ");
        r.append(temp);
        r.append("C >= hard ceiling ");
        r.append(ceiling);
        r.append("C (");
        r.append(self.label.as_str());
        r.append("); tripping to BMC auto");
        r
    }
}

/// What a sensor says in a tick.
pub ghost enum Verdict {
    /// It demands a duty, for its hottest reading.
    Demand { hottest: Reading, duty: int },
    /// It cannot be read.
    Failed(Missing),
    /// Its hottest reading has reached the hard ceiling.
    Trip { hottest: Reading },
}

/// What a sensor says, given what there is to read for it and the inlet bias.
pub open spec fn verdict(
    sensor: SensorConfig,
    available: Result<Seq<Reading>, Missing>,
    bias: int,
    slew: SlewConfig,
) -> Verdict {
    match available {
        Err(missing) => Verdict::Failed(missing),
        Ok(readings) => {
            let hottest = readings[sensors::hottest_index(readings) as int];
            if sensor.hard_ceiling_c.le(hottest.temp_c) {
                Verdict::Trip { hottest }
            } else {
                Verdict::Demand {
                    hottest,
                    duty: control::demand(sensor.curve@, hottest.temp_c, bias, slew),
                }
            }
        },
    }
}

/// The inlet bias of a tick with the given IPMI temperatures.
pub open spec fn tick_bias(cfg: Config, ipmi: Map<Seq<char>, Binary32>) -> nat {
    match cfg.inlet_bias {
        Some(b) => control::bias_for(
            if ipmi.contains_key(b.sensor@) {
                Some(ipmi[b.sensor@])
            } else {
                None
            },
            Some(&b),
        ),
        None => 0,
    }
}

/// What came of asking one sensor.
#[derive(Debug)]
pub enum Sensed {
    /// It demands a duty, for its hottest reading.
    Demand { hottest: SensorReading, duty: u8 },
    /// It cannot be read.
    Failed(SensorError),
    /// It has reached its hard ceiling: the loop has to end.
    Trip(Trip),
}

impl Sensed {
    /// Whether this is the verdict on `sensor`.
    pub open spec fn says(self, sensor: SensorConfig, verdict: Verdict) -> bool {
        match verdict {
            Verdict::Demand { hottest, duty } => self matches Sensed::Demand {
                hottest: h,
                duty: d,
            } && h@ == hottest && d == duty,
            Verdict::Failed(Missing::Hwmon(reason)) => self matches Sensed::Failed(e)
                && e is Hwmon && e->Hwmon_0@ == reason,
            Verdict::Failed(Missing::NoMatches) => self == Sensed::Failed(
                SensorError::NoMatches(sensor.spec),
            ),
            Verdict::Trip { hottest } => self matches Sensed::Trip(t) && t.sensor@ == sensor.name@
                && t.temp_c == hottest.temp_c && t.ceiling_c == sensor.hard_ceiling_c && t.label@
                == hottest.label,
        }
    }
}

/// What a sensor says. `entries` is what the hwmon directory holds; it is not
/// looked at for an IPMI sensor.
pub fn assess(
    sensor: &SensorConfig,
    ipmi: &IpmiCache,
    entries: &Result<Vec<HwmonEntry>, String>,
    bias: u8,
    slew: &SlewConfig,
) -> (r: Sensed)
    requires
        sensor.curve@.len() >= 2,
        slew.min_duty <= slew.max_duty,
    ensures
        r.says(
            *sensor,
            verdict(
                *sensor,
                sensors::available(sensor.spec, ipmi@, *entries),
                bias as int,
                *slew,
            ),
        ),
{
    let ghost available = sensors::available(sensor.spec, ipmi@, *entries);
    match sensors::read(&sensor.spec, ipmi, entries) {
        Err(e) => Sensed::Failed(e),
        Ok(readings) => {
            assert(available == Ok::<Seq<Reading>, Missing>(sensors::readings_view(readings@)));
            assess_readings(sensor, readings, bias, slew)
        },
    }
}

/// What a sensor says whose readings are these.
pub fn assess_readings(
    sensor: &SensorConfig,
    readings: Vec<SensorReading>,
    bias: u8,
    slew: &SlewConfig,
) -> (r: Sensed)
    requires
        readings@.len() > 0,
        sensor.curve@.len() >= 2,
        slew.min_duty <= slew.max_duty,
    ensures
        r.says(
            *sensor,
            verdict(*sensor, Ok(sensors::readings_view(readings@)), bias as int, *slew),
        ),
{
    let best: &SensorReading = hottest(readings.as_slice()).unwrap();
    let label: String = best.label.clone();
    let temp_c: Binary32 = best.temp_c;
    if sensor.hard_ceiling_c.at_most(temp_c) {
        return Sensed::Trip(
            Trip {
                sensor: sensor.name.clone(),
                temp_c,
                ceiling_c: sensor.hard_ceiling_c,
                label,
            },
        );
    }
    let duty: u8 = demand_for_sensor(sensor, temp_c, bias, slew);
    Sensed::Demand { hottest: SensorReading { label, temp_c }, duty }
}

/// What the sensors of a tick have said so far.
#[verifier::ext_equal]
pub ghost struct Tick {
    /// What the inlet adds to each demand.
    pub bias: int,
    /// The demands of the sensors that were asked, in the order of the
    /// configuration; `None` for one that cannot be read.
    pub demands: Seq<Option<u8>>,
    /// How many of them could be read.
    pub successful: nat,
    /// Whether one has reached its hard ceiling.
    pub tripped: bool,
}

impl Tick {
    /// A tick in which no sensor was asked yet.
    pub open spec fn start(bias: int) -> Tick {
        Tick { bias, demands: Seq::empty(), successful: 0, tripped: false }
    }

    /// The tick after one more sensor was asked.
    pub open spec fn after(self, verdict: Verdict) -> Tick {
        match verdict {
            Verdict::Demand { duty, .. } => Tick {
                demands: self.demands.push(Some(duty as u8)),
                successful: self.successful + 1,
                ..self
            },
            Verdict::Failed(_) => Tick { demands: self.demands.push(None), ..self },
            Verdict::Trip { .. } => Tick { tripped: true, ..self },
        }
    }

    /// Whether there is another sensor to ask: one that was not asked yet, and
    /// none that was has reached its hard ceiling.
    pub open spec fn goes_on(self, cfg: Config) -> bool {
        !self.tripped && self.demands.len() < cfg.sensors@.len()
    }

    /// What the tick decides: nothing before every sensor was asked, and nothing
    /// where one has reached its hard ceiling.
    pub open spec fn decides(self, controller: Controller, cfg: Config) -> Option<Decision> {
        if !self.tripped && self.demands.len() == cfg.sensors@.len() {
            Some(controller.decision(cfg, self.demands))
        } else {
            None
        }
    }
}

/// The demands of a tick, as far as the sensors were asked.
#[derive(Debug)]
pub struct Sensing {
    /// What the inlet adds to each demand.
    pub bias: u8,
    /// The demands of the sensors that were asked, in the order of the
    /// configuration; `None` for one that cannot be read.
    pub demands: Vec<Option<u8>>,
    /// How many of them could be read.
    pub successful: usize,
    /// Whether one has reached its hard ceiling. The tick is over then.
    pub tripped: bool,
}

impl View for Sensing {
    type V = Tick;

    open spec fn view(&self) -> Tick {
        Tick {
            bias: self.bias as int,
            demands: self.demands@,
            successful: self.successful as nat,
            tripped: self.tripped,
        }
    }
}

impl Sensing {
    /// Not more sensors could be read than were asked.
    pub open spec fn well_formed(self) -> bool {
        self.successful <= self.demands@.len()
    }

    /// The start of a tick with the given IPMI temperatures.
    pub fn new(cfg: &Config, ipmi: &IpmiCache) -> (r: Sensing)
        ensures
            r@ == Tick::start(tick_bias(*cfg, ipmi@) as int),
            r.well_formed(),
    {
        let bias: u8 = match &cfg.inlet_bias {
            Some(b) => inlet_bias_pct(ipmi.get(b.sensor.as_str()), Some(b)),
            None => 0,
        };
        Sensing { bias, demands: Vec::new(), successful: 0, tripped: false }
    }

    /// The sensor to ask next; `None` where all have been, or one has reached its
    /// hard ceiling.
    pub fn next_sensor<'a>(&self, cfg: &'a Config) -> (r: Option<&'a SensorConfig>)
        ensures
            r == if self@.goes_on(*cfg) {
                Some(&cfg.sensors@[self.demands@.len() as int])
            } else {
                None
            },
    {
        let i: usize = self.demands.len();
        if !self.tripped && i < cfg.sensors.len() {
            Some(&cfg.sensors[i])
        } else {
            None
        }
    }

    /// Asks the next sensor. `entries` is what the hwmon directory holds; it is
    /// not looked at for an IPMI sensor.
    pub fn ask(
        &mut self,
        cfg: &Config,
        ipmi: &IpmiCache,
        entries: &Result<Vec<HwmonEntry>, String>,
    ) -> (r: Sensed)
        requires
            cfg.valid(),
            old(self)@.goes_on(*cfg),
            old(self).well_formed(),
        ensures
            ({
                let sensor = cfg.sensors@[old(self).demands@.len() as int];
                let verdict = verdict(
                    sensor,
                    sensors::available(sensor.spec, ipmi@, *entries),
                    old(self).bias as int,
                    cfg.slew,
                );
                &&& r.says(sensor, verdict)
                &&& final(self)@ == old(self)@.after(verdict)
            }),
            r is Trip <==> final(self).tripped,
            final(self).well_formed(),
            demands_in_range(old(self).demands@, cfg.slew) ==> demands_in_range(
                final(self).demands@,
                cfg.slew,
            ),
    {
        let sensor: &SensorConfig = &cfg.sensors[self.demands.len()];
        assert(cfg.sensors@[self.demands@.len() as int].valid());
        assert(cfg.sensors.len() <= usize::MAX);
        let sensed: Sensed = assess(sensor, ipmi, entries, self.bias, &cfg.slew);
        match &sensed {
            Sensed::Demand { duty, .. } => {
                self.demands.push(Some(*duty));
                self.successful = self.successful + 1;
            },
            Sensed::Failed(_) => {
                self.demands.push(None);
            },
            Sensed::Trip(_) => {
                self.tripped = true;
            },
        }
        sensed
    }

    /// What to do at the end of the tick. There is nothing to do before every
    /// sensor was asked, nor where one has reached its hard ceiling: no duty may
    /// be sent then.
    pub fn finish(&self, controller: &Controller, cfg: &Config) -> (r: Option<Decision>)
        requires
            cfg.valid(),
        ensures
            r is Some <==> !self.tripped && self.demands@.len() == cfg.sensors@.len(),
            r matches Some(d) ==> d == controller.decision(*cfg, self.demands@),
            r == self@.decides(*controller, *cfg),
    {
        if !self.tripped && self.demands.len() == cfg.sensors.len() {
            Some(controller.decide(cfg, self.demands.as_slice()))
        } else {
            None
        }
    }
}

// ---------------------------------------------------------------------------
// Control
// ---------------------------------------------------------------------------

/// What is known of the fans.
#[derive(Debug, Clone, Copy)]
pub struct Controller {
    /// The duty that is set; `None` before the first one was.
    pub current_duty: Option<u8>,
    /// How many ticks have passed since the duty was last sent.
    pub ticks_since_write: u32,
}

/// What to do in a tick.
#[derive(Debug, Clone, Copy, PartialEq, Eq, Structural)]
pub struct Decision {
    /// The duty that the sensors demand.
    pub target: u8,
    /// The duty to set.
    pub duty: u8,
    /// Whether it differs from the one that is set.
    pub changed: bool,
    /// Whether it has to be sent in any case.
    pub heartbeat_due: bool,
}

impl Decision {
    /// Whether the duty is to be sent.
    pub open spec fn sends(self) -> bool {
        self.changed || self.heartbeat_due
    }

    /// Whether the duty is to be sent.
    pub fn is_write(&self) -> (r: bool)
        ensures
            r == self.sends(),
    {
        self.changed || self.heartbeat_due
    }
}

/// The duty that the demands come to.
pub open spec fn target_for(demands: Seq<Option<u8>>, slew: SlewConfig) -> u8 {
    match control::loudest(demands) {
        Some(d) => d,
        None => slew.min_duty,
    }
}

impl Controller {
    /// What to do, given the demands of the tick. The first duty is the demanded
    /// one; after that the slew rate and the deadband apply. The duty is sent
    /// where it changes, and in every tick that is as many ticks after the last
    /// one in which it was sent as a heartbeat has.
    pub open spec fn decision(self, cfg: Config, demands: Seq<Option<u8>>) -> Decision {
        let target = target_for(demands, cfg.slew);
        let slewed = match self.current_duty {
            None => target,
            Some(curr) => control::slewed(curr as int, target as int, cfg.slew) as u8,
        };
        let duty = control::banded(self.current_duty, slewed, cfg.slew.deadband_pct as int);
        Decision {
            target,
            duty,
            changed: self.current_duty != Some(duty),
            heartbeat_due: self.ticks_since_write + 1 >= cfg.write_heartbeat_ticks,
        }
    }

    /// The state after a tick in which the duty was not to be sent.
    pub open spec fn held(self, duty: u8) -> Controller {
        Controller {
            current_duty: Some(duty),
            ticks_since_write: if self.ticks_since_write == u32::MAX {
                u32::MAX
            } else {
                (self.ticks_since_write + 1) as u32
            },
        }
    }

    /// The state after a tick in which the duty was sent, which worked or not.
    /// Where it did not, the duty that is set is what it was, so that the next
    /// tick tries again.
    pub open spec fn sent(self, duty: u8, worked: bool) -> Controller {
        if worked {
            Controller { current_duty: Some(duty), ticks_since_write: 0 }
        } else {
            Controller {
                current_duty: self.current_duty,
                ticks_since_write: self.held(duty).ticks_since_write,
            }
        }
    }

    /// The state at the start.
    pub fn new() -> (r: Controller)
        ensures
            r == (Controller { current_duty: None, ticks_since_write: 0 }),
    {
        Controller { current_duty: None, ticks_since_write: 0 }
    }

    /// What to do, given the demands of the tick.
    pub fn decide(&self, cfg: &Config, demands: &[Option<u8>]) -> (r: Decision)
        requires
            cfg.slew.min_duty <= cfg.slew.max_duty,
        ensures
            r == self.decision(*cfg, demands@),
    {
        let target: u8 = merge_demands(demands, &cfg.slew);
        let slewed: u8 = match self.current_duty {
            None => target,
            Some(curr) => slew_limit(curr, target, &cfg.slew),
        };
        let duty: u8 = apply_deadband(self.current_duty, slewed, cfg.slew.deadband_pct);
        let changed: bool = match self.current_duty {
            None => true,
            Some(curr) => curr != duty,
        };
        let heartbeat_due: bool = self.ticks_since_write as u64 + 1
            >= cfg.write_heartbeat_ticks as u64;
        Decision { target, duty, changed, heartbeat_due }
    }

    /// Takes note of a tick in which the duty was not to be sent.
    pub fn hold(&mut self, decision: &Decision)
        requires
            !decision.sends(),
        ensures
            *final(self) == old(self).held(decision.duty),
    {
        self.current_duty = Some(decision.duty);
        self.ticks_since_write = self.ticks_since_write.saturating_add(1);
    }

    /// Takes note of a tick in which the duty was sent, with the given result.
    pub fn settle(&mut self, decision: &Decision, result: &Result<(), IpmiFanError>)
        requires
            decision.sends(),
        ensures
            *final(self) == old(self).sent(decision.duty, result is Ok),
    {
        if result.is_ok() {
            self.ticks_since_write = 0;
            self.current_duty = Some(decision.duty);
        } else {
            self.ticks_since_write = self.ticks_since_write.saturating_add(1);
        }
    }
}

/// How long to wait, in nanoseconds, after a tick that took `elapsed`.
pub open spec fn wait_after(cfg: Config, elapsed: int) -> int {
    if elapsed < cfg.tick_seconds * 1_000_000_000 {
        cfg.tick_seconds * 1_000_000_000 - elapsed
    } else {
        0
    }
}

/// A tick and the wait after it take as long as is configured, or as long as the
/// tick does where that is longer.
pub proof fn law_tick_length(cfg: Config, elapsed: int)
    ensures
        wait_after(cfg, elapsed) >= 0,
        elapsed <= cfg.tick_seconds * 1_000_000_000 ==> elapsed + wait_after(cfg, elapsed)
            == cfg.tick_seconds * 1_000_000_000,
        elapsed >= cfg.tick_seconds * 1_000_000_000 ==> wait_after(cfg, elapsed) == 0,
{
}

/// How long to wait, in nanoseconds, after a tick that took `elapsed_nanos`;
/// `None` where no other tick is to follow.
pub fn after_tick(cfg: &Config, once: bool, elapsed_nanos: u128) -> (r: Option<u128>)
    ensures
        once ==> r is None,
        !once ==> (r matches Some(nanos) && nanos == wait_after(*cfg, elapsed_nanos as int)),
        !once ==> r == Some(
            if elapsed_nanos < cfg.tick_seconds * 1_000_000_000 {
                (cfg.tick_seconds * 1_000_000_000 - elapsed_nanos) as u128
            } else {
                0
            },
        ),
{
    if once {
        return None;
    }
    let tick: u128 = cfg.tick_seconds as u128 * 1_000_000_000;
    if elapsed_nanos < tick {
        Some(tick - elapsed_nanos)
    } else {
        Some(0)
    }
}

// ---------------------------------------------------------------------------
// Laws of sensing
// ---------------------------------------------------------------------------

/// Whether one of the readings that there are for a sensor meets or exceeds its
/// hard ceiling.
pub open spec fn reaches_ceiling(
    sensor: SensorConfig,
    available: Result<Seq<Reading>, Missing>,
) -> bool {
    available matches Ok(readings) && exists|i: int|
        0 <= i < readings.len() && sensor.hard_ceiling_c.le((#[trigger] readings[i]).temp_c)
}

/// Control goes back to the BMC exactly where one of a sensor's readings meets
/// or exceeds its hard ceiling.
pub proof fn law_hard_ceiling(
    sensor: SensorConfig,
    ipmi: Map<Seq<char>, Binary32>,
    entries: Result<Vec<HwmonEntry>, String>,
    bias: int,
    slew: SlewConfig,
)
    ensures
        verdict(sensor, sensors::available(sensor.spec, ipmi, entries), bias, slew) is Trip
            <==> reaches_ceiling(sensor, sensors::available(sensor.spec, ipmi, entries)),
{
    let available = sensors::available(sensor.spec, ipmi, entries);
    sensors::law_readings_numbers(sensor.spec, ipmi, entries);
    if let Ok(readings) = available {
        assert(readings.len() > 0);
        let k = sensors::hottest_index(readings) as int;
        if readings.len() > 1 {
            sensors::law_hottest(readings);
        }
        assert(0 <= k < readings.len());
        if sensor.hard_ceiling_c.le(readings[k].temp_c) {
            assert(verdict(sensor, available, bias, slew) is Trip);
        } else {
            assert forall|i: int| 0 <= i < readings.len() implies !sensor.hard_ceiling_c.le(
                (#[trigger] readings[i]).temp_c,
            ) by {
                if readings.len() > 1 {
                    assert(readings[i].temp_c.le(readings[k].temp_c));
                }
            }
        }
    }
}

/// A demand is within the configured range.
pub proof fn law_demand_in_range(
    sensor: SensorConfig,
    available: Result<Seq<Reading>, Missing>,
    bias: int,
    slew: SlewConfig,
)
    requires
        slew.min_duty <= slew.max_duty,
    ensures
        verdict(sensor, available, bias, slew) matches Verdict::Demand { duty, .. }
            ==> slew.min_duty <= duty <= slew.max_duty,
{
}

// ---------------------------------------------------------------------------
// Laws of a tick
// ---------------------------------------------------------------------------

/// The tick after sensors were asked in turn that say `verdicts`; after one that
/// has reached its hard ceiling no other is asked.
pub open spec fn asked(start: Tick, verdicts: Seq<Verdict>) -> Tick
    decreases verdicts.len(),
{
    if verdicts.len() == 0 {
        start
    } else {
        let before = asked(start, verdicts.drop_last());
        if before.tripped {
            before
        } else {
            before.after(verdicts.last())
        }
    }
}

/// The demands of sensors that say `verdicts`, none of which is a trip.
pub open spec fn demands_of(verdicts: Seq<Verdict>) -> Seq<Option<u8>> {
    Seq::new(
        verdicts.len(),
        |i: int|
            match verdicts[i] {
                Verdict::Demand { duty, .. } => Some(duty as u8),
                _ => None,
            },
    )
}

/// What the sensors of a configuration say, where `entries` is what the hwmon
/// directory held when each of them was asked.
pub open spec fn verdicts_of(
    cfg: Config,
    ipmi: Map<Seq<char>, Binary32>,
    entries: Seq<Result<Vec<HwmonEntry>, String>>,
) -> Seq<Verdict> {
    Seq::new(
        cfg.sensors@.len(),
        |i: int|
            verdict(
                cfg.sensors@[i],
                sensors::available(cfg.sensors@[i].spec, ipmi, entries[i]),
                tick_bias(cfg, ipmi) as int,
                cfg.slew,
            ),
    )
}

/// A tick in which a sensor has reached its hard ceiling is over: no other
/// sensor is asked and no duty is decided.
pub proof fn law_tripped_tick(tick: Tick, controller: Controller, cfg: Config)
    requires
        tick.tripped,
    ensures
        !tick.goes_on(cfg),
        tick.decides(controller, cfg) is None,
{
}

/// A tick trips exactly where one of the sensors that are asked does. Where none
/// does, there is a demand for each, in the order in which they were asked.
pub proof fn law_asked(bias: int, verdicts: Seq<Verdict>)
    ensures
        ({
            let tick = asked(Tick::start(bias), verdicts);
            &&& tick.bias == bias
            &&& tick.tripped <==> exists|i: int|
                0 <= i < verdicts.len() && (#[trigger] verdicts[i]) is Trip
            &&& !tick.tripped ==> tick.demands == demands_of(verdicts)
            &&& !tick.tripped ==> tick.demands.len() == verdicts.len()
            &&& !tick.tripped ==> forall|i: int|
                0 <= i < verdicts.len() ==> match #[trigger] verdicts[i] {
                    Verdict::Demand { duty, .. } => tick.demands[i] == Some(duty as u8),
                    _ => tick.demands[i] is None,
                }
            &&& !tick.tripped ==> (tick.successful == 0 <==> forall|i: int|
                0 <= i < verdicts.len() ==> (#[trigger] verdicts[i]) is Failed)
            &&& tick.tripped ==> tick.demands.len() < verdicts.len()
        }),
    decreases verdicts.len(),
{
    if verdicts.len() > 0 {
        let front = verdicts.drop_last();
        let last = verdicts.len() - 1;
        let before = asked(Tick::start(bias), front);
        law_asked(bias, front);
        assert forall|i: int| 0 <= i < last implies front[i] == #[trigger] verdicts[i] by {}
        assert(verdicts[last] == verdicts.last());
        if before.tripped {
            let i = choose|i: int| 0 <= i < front.len() && (#[trigger] front[i]) is Trip;
            assert(verdicts[i] is Trip);
        } else {
            assert forall|i: int| 0 <= i < last implies !((#[trigger] verdicts[i]) is Trip) by {
                assert(!(front[i] is Trip));
            }
            if !(verdicts.last() is Trip) {
                assert(before.after(verdicts.last()).demands =~= demands_of(verdicts));
            }
        }
    } else {
        assert(demands_of(verdicts) =~= Seq::empty());
    }
}

/// A duty is decided exactly where every sensor was asked and none of their
/// readings meets or exceeds its sensor's hard ceiling; it is then decided from
/// the demands of all of them.
pub proof fn law_ceiling_ends_tick(
    controller: Controller,
    cfg: Config,
    ipmi: Map<Seq<char>, Binary32>,
    entries: Seq<Result<Vec<HwmonEntry>, String>>,
    n: nat,
)
    requires
        n <= cfg.sensors@.len(),
    ensures
        ({
            let verdicts = verdicts_of(cfg, ipmi, entries);
            let tick = asked(
                Tick::start(tick_bias(cfg, ipmi) as int),
                verdicts.take(n as int),
            );
            let ceiling_met = exists|i: int|
                0 <= i < n && reaches_ceiling(
                    #[trigger] cfg.sensors@[i],
                    sensors::available(cfg.sensors@[i].spec, ipmi, entries[i]),
                );
            &&& tick.decides(controller, cfg) is Some <==> n == cfg.sensors@.len() && !ceiling_met
            &&& tick.decides(controller, cfg) matches Some(d) ==> d == controller.decision(
                cfg,
                demands_of(verdicts),
            )
            &&& tick.goes_on(cfg) <==> n < cfg.sensors@.len() && !ceiling_met
        }),
{
    let bias = tick_bias(cfg, ipmi) as int;
    let verdicts = verdicts_of(cfg, ipmi, entries);
    let first = verdicts.take(n as int);
    let tick = asked(Tick::start(bias), first);
    law_asked(bias, first);
    assert forall|i: int| 0 <= i < n implies ((#[trigger] first[i]) is Trip <==> reaches_ceiling(
        cfg.sensors@[i],
        sensors::available(cfg.sensors@[i].spec, ipmi, entries[i]),
    )) by {
        law_hard_ceiling(cfg.sensors@[i], ipmi, entries[i], bias, cfg.slew);
    }
    if tick.tripped {
        let i = choose|i: int| 0 <= i < first.len() && (#[trigger] first[i]) is Trip;
        assert(reaches_ceiling(
            cfg.sensors@[i],
            sensors::available(cfg.sensors@[i].spec, ipmi, entries[i]),
        ));
    } else {
        assert forall|i: int| 0 <= i < n implies !reaches_ceiling(
            #[trigger] cfg.sensors@[i],
            sensors::available(cfg.sensors@[i].spec, ipmi, entries[i]),
        ) by {
            assert(!(first[i] is Trip));
        }
        if n == cfg.sensors@.len() {
            assert(first =~= verdicts);
        }
    }
}

// ---------------------------------------------------------------------------
// Laws of control
// ---------------------------------------------------------------------------

/// Whether every demand is within the configured range.
pub open spec fn demands_in_range(demands: Seq<Option<u8>>, slew: SlewConfig) -> bool {
    forall|i: int|
        0 <= i < demands.len() ==> ((#[trigger] demands[i]) matches Some(d) ==> slew.min_duty <= d
            <= slew.max_duty)
}

/// Whether the duty that is set, if one is, is within the configured range.
pub open spec fn duty_in_range(state: Controller, slew: SlewConfig) -> bool {
    state.current_duty matches Some(d) ==> slew.min_duty <= d <= slew.max_duty
}

/// The loudest sensor wins: the target is the largest demand, and the lowest
/// duty where no sensor could be read.
pub proof fn law_loudest_wins(demands: Seq<Option<u8>>, slew: SlewConfig)
    ensures
        forall|i: int|
            0 <= i < demands.len() && (#[trigger] demands[i]) is Some ==> demands[i]->0
                <= target_for(demands, slew),
        demands.contains(Some(target_for(demands, slew))) || (target_for(demands, slew)
            == slew.min_duty && forall|i: int|
            0 <= i < demands.len() ==> (#[trigger] demands[i]) is None),
{
    control::law_loudest(demands);
}

/// The duty stays within the configured range, whatever is demanded and whether
/// sending it works or not.
pub proof fn law_duty_in_range(
    state: Controller,
    cfg: Config,
    demands: Seq<Option<u8>>,
    worked: bool,
)
    requires
        cfg.slew.min_duty <= cfg.slew.max_duty,
        demands_in_range(demands, cfg.slew),
        duty_in_range(state, cfg.slew),
    ensures
        cfg.slew.min_duty <= state.decision(cfg, demands).duty <= cfg.slew.max_duty,
        cfg.slew.min_duty <= state.decision(cfg, demands).target <= cfg.slew.max_duty,
        duty_in_range(state.held(state.decision(cfg, demands).duty), cfg.slew),
        duty_in_range(state.sent(state.decision(cfg, demands).duty, worked), cfg.slew),
{
    control::law_loudest(demands);
    if control::loudest(demands) is Some {
        let i = choose|i: int|
            0 <= i < demands.len() && demands[i] == control::loudest(demands);
        assert(demands[i] is Some);
    }
}

/// In one tick the duty rises and falls by no more than is configured, and it
/// never moves away from the target nor past it.
pub proof fn law_duty_step(state: Controller, cfg: Config, demands: Seq<Option<u8>>)
    requires
        cfg.slew.min_duty <= cfg.slew.max_duty,
        demands_in_range(demands, cfg.slew),
        duty_in_range(state, cfg.slew),
    ensures
        state.current_duty matches Some(curr) ==> {
            let decision = state.decision(cfg, demands);
            &&& curr - cfg.slew.max_fall_per_tick <= decision.duty <= curr
                + cfg.slew.max_rise_per_tick
            &&& curr <= decision.target ==> curr <= decision.duty <= decision.target
            &&& decision.target <= curr ==> decision.target <= decision.duty <= curr
        },
        state.current_duty is None ==> state.decision(cfg, demands).duty == state.decision(
            cfg,
            demands,
        ).target,
{
    law_duty_in_range(state, cfg, demands, true);
    if let Some(curr) = state.current_duty {
        let target = target_for(demands, cfg.slew);
        control::law_slew_step(curr as int, target as int, cfg.slew);
        control::law_slew_approaches(curr as int, target as int, cfg.slew);
    }
}

/// A change that is made is not smaller than the deadband.
pub proof fn law_change_size(state: Controller, cfg: Config, demands: Seq<Option<u8>>)
    ensures
        state.current_duty matches Some(curr) ==> {
            let decision = state.decision(cfg, demands);
            decision.changed ==> binary32::absolute(decision.duty - curr) >= cfg.slew.deadband_pct
        },
{
}

/// A duty that could not be sent is sent again in the next tick, whatever is
/// demanded then where none was set before, and else if the demands are the
/// same.
pub proof fn law_failed_write_retried(
    state: Controller,
    cfg: Config,
    demands: Seq<Option<u8>>,
    next_demands: Seq<Option<u8>>,
)
    requires
        state.decision(cfg, demands).changed,
        state.current_duty is None || next_demands == demands,
    ensures
        ({
            let first = state.decision(cfg, demands);
            let second = state.sent(first.duty, false).decision(cfg, next_demands);
            &&& second.changed
            &&& next_demands == demands ==> second.duty == first.duty
        }),
{
}

/// A heartbeat that could not be sent is due in the next tick too.
pub proof fn law_failed_heartbeat_retried(
    state: Controller,
    cfg: Config,
    demands: Seq<Option<u8>>,
    next_demands: Seq<Option<u8>>,
)
    requires
        state.decision(cfg, demands).heartbeat_due,
    ensures
        state.sent(state.decision(cfg, demands).duty, false).decision(
            cfg,
            next_demands,
        ).heartbeat_due,
{
}

/// Whether `states` are those of ticks with the given demands in none of which
/// the duty was to be sent.
pub open spec fn quiet(
    states: Seq<Controller>,
    demands: Seq<Seq<Option<u8>>>,
    cfg: Config,
) -> bool {
    &&& states.len() == demands.len() + 1
    &&& forall|i: int|
        #![trigger demands[i]]
        0 <= i < demands.len() ==> !states[i].decision(cfg, demands[i]).sends() && states[i + 1]
            == states[i].held(states[i].decision(cfg, demands[i]).duty)
}

/// The heartbeat: after a tick in which the duty was sent, fewer ticks pass
/// without sending it than a heartbeat has, so that it is sent at the latest in
/// the tick that is a whole heartbeat later. In the quiet ticks between, the
/// duty that is set does not change.
pub proof fn law_heartbeat(states: Seq<Controller>, demands: Seq<Seq<Option<u8>>>, cfg: Config)
    requires
        quiet(states, demands, cfg),
        states[0].ticks_since_write == 0,
    ensures
        demands.len() > 0 ==> demands.len() < cfg.write_heartbeat_ticks,
        states.last().ticks_since_write == demands.len(),
        states.last().current_duty == states[0].current_duty,
    decreases demands.len(),
{
    if demands.len() > 0 {
        let n = demands.len() - 1;
        let front = demands.drop_last();
        let earlier = states.drop_last();
        assert forall|i: int|
            #![trigger front[i]]
            0 <= i < front.len() implies !earlier[i].decision(cfg, front[i]).sends() && earlier[i
            + 1] == earlier[i].held(earlier[i].decision(cfg, front[i]).duty) by {
            assert(front[i] == demands[i]);
        }
        law_heartbeat(earlier, front, cfg);
        assert(earlier.last() == states[n]);
        assert(!states[n].decision(cfg, demands[n]).sends());
    }
}

/// What is decided, step by step. The target is the largest demand, and the
/// lowest duty where nothing is demanded. The first duty is the target. After
/// that the duty goes to the target where that is within the configured rise and
/// fall, and else by exactly as much (`aim`), but not out of the configured range
/// (`step`); and a step that is smaller than the deadband is not made.
pub proof fn law_decision(
    state: Controller,
    cfg: Config,
    demands: Seq<Option<u8>>,
    aim: int,
    step: int,
)
    requires
        cfg.slew.min_duty <= cfg.slew.max_duty,
        state.current_duty matches Some(curr) ==> {
            let target = state.decision(cfg, demands).target;
            &&& target - curr > cfg.slew.max_rise_per_tick ==> aim == curr
                + cfg.slew.max_rise_per_tick
            &&& curr - target > cfg.slew.max_fall_per_tick ==> aim == curr
                - cfg.slew.max_fall_per_tick
            &&& -cfg.slew.max_fall_per_tick <= target - curr <= cfg.slew.max_rise_per_tick ==> aim
                == target
            &&& control::ends_at(step, aim, cfg.slew)
        },
    ensures
        ({
            let decision = state.decision(cfg, demands);
            &&& forall|i: int|
                0 <= i < demands.len() && (#[trigger] demands[i]) is Some ==> demands[i]->0
                    <= decision.target
            &&& demands.contains(Some(decision.target)) || (decision.target == cfg.slew.min_duty
                && forall|i: int| 0 <= i < demands.len() ==> (#[trigger] demands[i]) is None)
            &&& match state.current_duty {
                None => decision.duty == decision.target,
                Some(curr) => {
                    &&& step - curr >= cfg.slew.deadband_pct || curr - step
                        >= cfg.slew.deadband_pct ==> decision.duty == step
                    &&& -cfg.slew.deadband_pct < step - curr < cfg.slew.deadband_pct
                        ==> decision.duty == curr
                },
            }
        }),
{
    law_loudest_wins(demands, cfg.slew);
    if let Some(curr) = state.current_duty {
        let target = state.decision(cfg, demands).target;
        control::law_slew_exact(curr as int, target as int, cfg.slew);
        assert(0 <= step <= 255);
        control::law_deadband_exact(curr, step as u8, cfg.slew.deadband_pct as int);
    }
}

/// A duty is sent exactly where it is another than the one that is set, or a
/// whole heartbeat has passed since the last time.
pub proof fn law_sends(state: Controller, cfg: Config, demands: Seq<Option<u8>>)
    ensures
        ({
            let decision = state.decision(cfg, demands);
            &&& decision.sends() <==> state.current_duty != Some(decision.duty)
                || state.ticks_since_write + 1 >= cfg.write_heartbeat_ticks
            &&& decision.changed <==> state.current_duty != Some(decision.duty)
            &&& decision.heartbeat_due <==> state.ticks_since_write + 1 >= cfg.write_heartbeat_ticks
        }),
{
}

/// After a duty was sent it is the one that is set; after it could not be sent,
/// the one that was set before still is. The ticks since a duty was sent count
/// from the last time that it worked.
pub proof fn law_after_tick(state: Controller, duty: u8)
    ensures
        state.sent(duty, true).current_duty == Some(duty),
        state.sent(duty, true).ticks_since_write == 0,
        state.sent(duty, false).current_duty == state.current_duty,
        state.ticks_since_write < u32::MAX ==> state.sent(duty, false).ticks_since_write
            == state.ticks_since_write + 1,
        state.held(duty).current_duty == Some(duty),
        state.ticks_since_write < u32::MAX ==> state.held(duty).ticks_since_write
            == state.ticks_since_write + 1,
        state.ticks_since_write == u32::MAX ==> state.held(duty).ticks_since_write == u32::MAX
            && state.sent(duty, false).ticks_since_write == u32::MAX,
{
}

/// A demand is made for the hottest reading: what the sensor's curve asks for at
/// its temperature and the inlet bias, added up, within the configured range. A
/// sensor fails exactly where there is nothing to read for it.
pub proof fn law_verdict(
    sensor: SensorConfig,
    ipmi: Map<Seq<char>, Binary32>,
    entries: Result<Vec<HwmonEntry>, String>,
    bias: int,
    slew: SlewConfig,
)
    requires
        slew.min_duty <= slew.max_duty,
    ensures
        ({
            let found = sensors::available(sensor.spec, ipmi, entries);
            match verdict(sensor, found, bias, slew) {
                Verdict::Failed(missing) => found == Err::<Seq<Reading>, Missing>(missing),
                Verdict::Trip { hottest } => found matches Ok(readings) && readings.contains(
                    hottest,
                ) && sensor.hard_ceiling_c.le(hottest.temp_c),
                Verdict::Demand { hottest, duty } => {
                    &&& found matches Ok(readings) && readings.contains(hottest) && (
                    readings.len() == 1 || forall|i: int|
                        0 <= i < readings.len() ==> (#[trigger] readings[i]).temp_c.le(
                            hottest.temp_c,
                        ))
                    &&& control::ends_at(
                        duty,
                        control::curve_duty(sensor.curve@, hottest.temp_c) + bias,
                        slew,
                    )
                    &&& !sensor.hard_ceiling_c.le(hottest.temp_c)
                },
            }
        }),
        sensors::available(sensor.spec, ipmi, entries) matches Err(missing) ==> verdict(
            sensor,
            sensors::available(sensor.spec, ipmi, entries),
            bias,
            slew,
        ) == Verdict::Failed(missing),
{
    let found = sensors::available(sensor.spec, ipmi, entries);
    sensors::law_readings_numbers(sensor.spec, ipmi, entries);
    if let Ok(readings) = found {
        assert(readings.len() > 0);
        let k = sensors::hottest_index(readings) as int;
        if readings.len() > 1 {
            sensors::law_hottest(readings);
        }
        assert(readings.contains(readings[k]));
        control::law_demand_sum(sensor.curve@, readings[k].temp_c, bias, slew);
    }
}

/// A hwmon sensor trips exactly where all files that belong to it can be read and
/// one of them holds a temperature that meets or exceeds the hard ceiling.
pub proof fn law_hard_ceiling_hwmon(
    sensor: SensorConfig,
    ipmi: Map<Seq<char>, Binary32>,
    entries: Vec<HwmonEntry>,
    bias: int,
    slew: SlewConfig,
)
    requires
        sensor.spec is Hwmon,
    ensures
        ({
            let chip = sensor.spec->chip@;
            let label = sensor.spec->label@;
            verdict(sensor, sensors::available(sensor.spec, ipmi, Ok(entries)), bias, slew) is Trip
                <==> {
                &&& forall|i: int, j: int| #[trigger]
                    hwmon::belongs_at(entries@, i, j, chip, label) ==> hwmon::is_readable(
                        entries@[i].files->0@[j],
                    )
                &&& exists|i: int, j: int| #[trigger]
                    hwmon::belongs_at(entries@, i, j, chip, label) && sensor.hard_ceiling_c.le(
                        hwmon::degrees(hwmon::millidegrees_in(entries@[i].files->0@[j])),
                    )
            }
        }),
{
    let chip = sensor.spec->chip@;
    let label = sensor.spec->label@;
    let found = sensors::available(sensor.spec, ipmi, Ok(entries));
    law_hard_ceiling(sensor, ipmi, Ok(entries), bias, slew);
    sensors::law_read_hwmon(sensor.spec, ipmi, Ok(entries));
    if let Ok(readings) = found {
        if reaches_ceiling(sensor, found) {
            let r = choose|r: int|
                0 <= r < readings.len() && sensor.hard_ceiling_c.le(
                    (#[trigger] readings[r]).temp_c,
                );
            assert(hwmon::has_source(entries@, readings[r], chip, label));
        }
        if exists|i: int, j: int| #[trigger]
            hwmon::belongs_at(entries@, i, j, chip, label) && sensor.hard_ceiling_c.le(
                hwmon::degrees(hwmon::millidegrees_in(entries@[i].files->0@[j])),
            ) {
            let (i, j) = choose|i: int, j: int| #[trigger]
                hwmon::belongs_at(entries@, i, j, chip, label) && sensor.hard_ceiling_c.le(
                    hwmon::degrees(hwmon::millidegrees_in(entries@[i].files->0@[j])),
                );
            let reading = hwmon::reading_of(entries@[i], entries@[i].files->0@[j], chip);
            assert(readings.contains(reading));
            let r = choose|r: int| 0 <= r < readings.len() && readings[r] == reading;
            assert(sensor.hard_ceiling_c.le(readings[r].temp_c));
        }
    } else if exists|i: int, j: int| #[trigger]
        hwmon::belongs_at(entries@, i, j, chip, label) && sensor.hard_ceiling_c.le(
            hwmon::degrees(hwmon::millidegrees_in(entries@[i].files->0@[j])),
        ) {
        // A file that belongs to the sensor is counted, so it is one that cannot
        // be read.
        let (i, j) = choose|i: int, j: int| #[trigger]
            hwmon::belongs_at(entries@, i, j, chip, label) && sensor.hard_ceiling_c.le(
                hwmon::degrees(hwmon::millidegrees_in(entries@[i].files->0@[j])),
            );
        hwmon::law_belonging_counted(entries@, i, j, chip, label);
    }
}

/// An IPMI sensor trips exactly where the table gives it a temperature that meets
/// or exceeds the hard ceiling.
pub proof fn law_hard_ceiling_ipmi(
    sensor: SensorConfig,
    ipmi: Map<Seq<char>, Binary32>,
    entries: Result<Vec<HwmonEntry>, String>,
    bias: int,
    slew: SlewConfig,
)
    requires
        sensor.spec is Ipmi,
    ensures
        verdict(sensor, sensors::available(sensor.spec, ipmi, entries), bias, slew) is Trip
            <==> ipmi.contains_key(sensor.spec->sensor@) && sensor.hard_ceiling_c.le(
            ipmi[sensor.spec->sensor@],
        ),
{
    law_hard_ceiling(sensor, ipmi, entries, bias, slew);
    sensors::law_read_ipmi(sensor.spec, ipmi, entries);
    if let Ok(readings) = sensors::available(sensor.spec, ipmi, entries) {
        assert(readings[0].temp_c == ipmi[sensor.spec->sensor@]);
    }
}

/// The inlet bias of a tick is that of the configured inlet sensor: nothing where
/// there is none, it has no temperature, or it is not above the threshold, and
/// else what it is too hot by, times the percentage per degree, up to the cap.
pub proof fn law_tick_bias(cfg: Config, ipmi: Map<Seq<char>, Binary32>)
    ensures
        cfg.inlet_bias is None ==> tick_bias(cfg, ipmi) == 0,
        cfg.inlet_bias matches Some(b) ==> {
            let t = ipmi[b.sensor@];
            &&& tick_bias(cfg, ipmi) <= b.max_bias_pct
            &&& !ipmi.contains_key(b.sensor@) ==> tick_bias(cfg, ipmi) == 0
            &&& ipmi.contains_key(b.sensor@) && t.le(b.threshold_c) ==> tick_bias(cfg, ipmi) == 0
            &&& ipmi.contains_key(b.sensor@) && b.threshold_c.lt(t) && t.difference(
                b.threshold_c,
            ).is_finite() && b.percent_per_degree_above.is_finite() && 0
                <= b.percent_per_degree_above.scaled() ==> control::near_bias(
                t,
                b,
                tick_bias(cfg, ipmi),
            )
        },
{
    if let Some(b) = cfg.inlet_bias {
        let t = ipmi[b.sensor@];
        control::law_bias_range(t, Some(t), b);
        if b.threshold_c.lt(t) && t.difference(b.threshold_c).is_finite()
            && b.percent_per_degree_above.is_finite() && 0 <= b.percent_per_degree_above.scaled() {
            control::law_bias_line(t, b);
        }
    }
}

/// What came of asking a sensor tells the demand and the hottest reading, or that
/// there is nothing to read, or the reading that has reached the hard ceiling,
/// with the sensor's name and ceiling.
pub proof fn law_says(sensed: Sensed, sensor: SensorConfig, verdict: Verdict)
    requires
        sensed.says(sensor, verdict),
    ensures
        verdict matches Verdict::Demand { hottest, duty } ==> (sensed matches Sensed::Demand {
            hottest: h,
            duty: d,
        } && h.temp_c == hottest.temp_c && h.label@ == hottest.label && d == duty),
        verdict is Failed ==> sensed is Failed,
        verdict matches Verdict::Trip { hottest } ==> (sensed matches Sensed::Trip(t)
            && t.sensor@ == sensor.name@ && t.temp_c == hottest.temp_c && t.label@ == hottest.label
            && t.ceiling_c == sensor.hard_ceiling_c),
{
}

} // verus!
