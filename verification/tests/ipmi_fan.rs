use fan_controllerd::command::CommandOutcome;
use fan_controllerd::ipmi_fan::{FanCommand, IpmiFan, IpmiFanError};

fn run(command: FanCommand) -> Vec<String> {
    match command {
        FanCommand::Run(arguments) => arguments,
        FanCommand::Report(_) => panic!("not run"),
    }
}

fn exited(success: bool, stderr: &[u8]) -> CommandOutcome {
    CommandOutcome::Exited {
        success,
        status: "exit status: 1".into(),
        stdout: vec![],
        stderr: stderr.to_vec(),
    }
}

#[test]
fn dry_run_never_spawns() {
    let fan = IpmiFan::new(true);
    assert!(fan.is_dry_run());
    // Nothing to run, and that is a success.
    assert!(matches!(fan.enable_manual(), FanCommand::Report(_)));
    fan.conclude(None).unwrap();
    assert!(matches!(fan.set_duty(35), FanCommand::Report(_)));
    fan.conclude(None).unwrap();
    assert!(matches!(fan.set_duty(200), FanCommand::Report(_))); // clamps
    fan.conclude(None).unwrap();
    assert!(matches!(fan.restore_auto(), FanCommand::Report(_)));
    fan.conclude(None).unwrap();
}

#[test]
fn dry_run_reports_what_it_would_run() {
    let fan = IpmiFan::new(true);
    let report = |command: FanCommand| match command {
        FanCommand::Report(arguments) => arguments,
        FanCommand::Run(_) => panic!("run"),
    };
    assert_eq!(report(fan.enable_manual()), ["raw", "0x30", "0x30", "0x01", "0x00"]);
    assert_eq!(report(fan.restore_auto()), ["raw", "0x30", "0x30", "0x01", "0x01"]);
    assert_eq!(report(fan.set_duty(200)), ["raw", "0x30", "0x30", "0x02", "0xff", "0x64"]);
}

#[test]
fn commands_are_those_of_the_bmc() {
    let fan = IpmiFan::new(false);
    assert!(!fan.is_dry_run());
    assert_eq!(run(fan.enable_manual()), ["raw", "0x30", "0x30", "0x01", "0x00"]);
    assert_eq!(run(fan.restore_auto()), ["raw", "0x30", "0x30", "0x01", "0x01"]);
    assert_eq!(run(fan.set_duty(20)), ["raw", "0x30", "0x30", "0x02", "0xff", "0x14"]);
    assert_eq!(run(fan.set_duty(5))[5], "0x05");
    assert_eq!(run(fan.set_duty(100))[5], "0x64");
    assert_eq!(run(fan.set_duty(101))[5], "0x64");
    assert_eq!(run(fan.set_duty(255))[5], "0x64");
}

#[test]
fn outcomes_are_told_apart() {
    let fan = IpmiFan::new(false);
    assert!(fan.conclude(Some(exited(true, b"noise"))).is_ok());
    let e = fan.conclude(Some(CommandOutcome::NotStarted("gone".into()))).unwrap_err();
    assert!(matches!(&e, IpmiFanError::Spawn(r) if r == "gone"));
    assert_eq!(e.message(), "failed to spawn ipmitool: gone");
    let e = fan.conclude(Some(exited(false, b"  no \xff device\n"))).unwrap_err();
    assert!(matches!(&e, IpmiFanError::CommandFailed { .. }));
    assert_eq!(e.message(), "ipmitool exited exit status: 1: no \u{fffd} device");
}
