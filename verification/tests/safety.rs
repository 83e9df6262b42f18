use fan_controllerd::command::CommandOutcome;
use fan_controllerd::ipmi_fan::{FanCommand, IpmiFan, IpmiFanError};
use fan_controllerd::safety::{sleep_interruptible, BmcGuard, Handback};

fn failure() -> Result<(), IpmiFanError> {
    Err(IpmiFanError::Spawn("gone".into()))
}

#[test]
fn unengaged_guard_drops_without_calling_ipmi() {
    let g = BmcGuard::new(IpmiFan::new(true));
    assert!(!g.is_engaged());
    assert_eq!(g.release(), Handback::NotNeeded);
    drop(g);
}

#[test]
fn engaged_dry_run_guard_drops_cleanly() {
    let mut g = BmcGuard::new(IpmiFan::new(true));
    assert!(matches!(g.fan().enable_manual(), FanCommand::Report(_)));
    g.engage(None).unwrap();
    assert!(g.is_engaged());
    assert_eq!(g.release(), Handback::Attempt { number: 1, wait_millis: 0 });
    assert!(matches!(g.fan().restore_auto(), FanCommand::Report(_)));
    assert_eq!(BmcGuard::after_attempt(1, &g.fan().conclude(None)), Handback::Restored);
    drop(g);
}

#[test]
fn guard_is_engaged_only_by_a_success() {
    let mut g = BmcGuard::new(IpmiFan::new(false));
    assert!(g.engage(Some(CommandOutcome::NotStarted("gone".into()))).is_err());
    assert!(!g.is_engaged());
    let ok = CommandOutcome::Exited {
        success: true,
        status: "exit status: 0".into(),
        stdout: vec![],
        stderr: vec![],
    };
    assert!(g.engage(Some(ok)).is_ok());
    assert!(g.is_engaged());
    assert!(!g.fan().is_dry_run());
    // A later failure does not make it forget.
    assert!(g.engage(Some(CommandOutcome::NotStarted("gone".into()))).is_err());
    assert!(g.is_engaged());
}

#[test]
fn control_is_handed_back_in_two_attempts() {
    let second = Handback::Attempt { number: 2, wait_millis: 500 };
    assert_eq!(BmcGuard::after_attempt(1, &failure()), second);
    assert_eq!(BmcGuard::after_attempt(2, &Ok(())), Handback::Restored);
    assert_eq!(BmcGuard::after_attempt(2, &failure()), Handback::GaveUp);
}

#[test]
fn waits_are_cut_into_steps() {
    assert_eq!(sleep_interruptible(0, false), None);
    assert_eq!(sleep_interruptible(5, true), None);
    assert_eq!(sleep_interruptible(5, false), Some((5, 0)));
    assert_eq!(sleep_interruptible(200_000_000, false), Some((200_000_000, 0)));
    let mut left = 1_100_000_000u128;
    let mut slept = 0u128;
    let mut steps = 0;
    while let Some((chunk, rest)) = sleep_interruptible(left, false) {
        slept += chunk as u128;
        left = rest;
        steps += 1;
    }
    assert_eq!(slept, 1_100_000_000);
    assert_eq!(steps, 6);
}
