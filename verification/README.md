# fan-controllerd

A fan controller for Dell PowerEdge R630 / R730 / R730xd servers. It takes manual
control of the fans over IPMI and runs them on temperature curves: quiet at idle,
quick to react to load, and limited in how fast the duty may change.

- `src/` is the library: every decision of the daemon, verified with Verus.
- `app/` is the daemon around it: arguments, the configuration file, `ipmitool`,
  `/sys/class/hwmon`, signals and systemd.
- `tests/` runs the library on concrete values.

## What a tick does

1. `ipmitool sdr type temperature` is run and its output kept
   (`sensors::ipmi::IpmiCache`).
2. The sensors are asked in turn (`daemon::Sensing`). The hottest reading of a
   sensor sets its demand, by its curve and with the inlet bias on top. A reading
   at or above the sensor's hard ceiling ends the daemon, and the BMC takes over:
   no other sensor is asked and no duty is sent.
3. Once every sensor was asked, the loudest demand is the target. The duty moves
   towards it by the slew rate, and changes within the deadband are not made
   (`daemon::Controller`).
4. The duty is sent if it changed, and every `write_heartbeat_ticks` ticks in any
   case.

## What is proved

Each function's contract says exactly what it returns. Public proof functions
whose names start with `law_` state what holds of them together, among others:

- a higher temperature never gets a lower duty on a rising curve, and a curve
  passes through its points, wherever the distance from the point of the curve
  below is a finite single-precision number (`control`);
- between two points with a finite distance a curve follows the straight line
  through them, to within 0.5001 percentage points (`control`);
- the duty stays within the configured range and moves by no more than the slew
  rate (`daemon`);
- a tick decides on a duty exactly where every sensor was asked and none of their
  readings has reached its hard ceiling (`daemon`);
- the duty is sent at least once per heartbeat; a failed heartbeat is tried again,
  and so is a failed change while the demands stay the same (`daemon`);
- control goes back to the BMC where one of two attempts works (`safety`);
- a configuration is accepted exactly where it keeps every rule (`config`).

Single-precision arithmetic is done on bit patterns and proved to be correctly
rounded (`binary32`), so these hold of the numbers that are really computed with.

Two functions of the standard library are taken on trust: `String::from_utf8`
and `String::from_utf8_lossy` (`text`).
