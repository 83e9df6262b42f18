//! The raw IPMI commands with which the fans of Dell's R630/R730 family are
//! controlled:
//!
//!   - manual control:     `ipmitool raw 0x30 0x30 0x01 0x00`
//!   - automatic control:  `ipmitool raw 0x30 0x30 0x01 0x01`
//!   - duty of all fans:   `ipmitool raw 0x30 0x30 0x02 0xff <duty in hex>`
//!
//! A method that stands for a command says with which arguments `ipmitool` has
//! to be run, or, in a dry run, would have been ([`FanCommand`]).
//! [`IpmiFan::conclude`] then says what the outcome means.

use vstd::prelude::*;
use vstd::string::*;
use vstd::utf8::*;
use crate::command::{self, CommandOutcome};
use crate::numeral::{self, write_hex};
use crate::text::{self, from_utf8_lossy, trim};

verus! {

/// Why a command failed.
#[derive(Debug)]
pub enum IpmiFanError {
    /// `ipmitool` could not be started.
    Spawn(String),
    /// `ipmitool` reported a failure.
    CommandFailed { status: String, stderr: String },
}

impl IpmiFanError {
    /// The message.
    pub fn message(&self) -> (r: String)
        ensures
            r@ == match *self {
                IpmiFanError::Spawn(reason) => "failed to spawn ipmitool: "@ + reason@,
                IpmiFanError::CommandFailed { status, stderr } => "ipmitool exited "@ + status@
                    + ": "@ + stderr@,
            },
    {
        match self {
            IpmiFanError::Spawn(reason) => {
                let mut r: String = "failed to spawn ipmitool: ".to_owned();
                r.append(reason.as_str());
                r
            },
            IpmiFanError::CommandFailed { status, stderr } => {
                let mut r: String = "ipmitool exited ".to_owned();
                r.append(status.as_str());
                r.append(": ");
                r.append(stderr.as_str());
                r
            },
        }
    }
}

/// The fans.
#[derive(Debug)]
pub struct IpmiFan {
    dry_run: bool,
}

/// A command for the fans, with the arguments of `ipmitool`.
#[derive(Debug)]
pub enum FanCommand {
    /// `ipmitool` has to be run.
    Run(Vec<String>),
    /// `ipmitool` must not be run, as in a dry run; it would have been run with
    /// these arguments.
    Report(Vec<String>),
}

impl FanCommand {
    /// The arguments.
    pub open spec fn texts(self) -> Seq<Seq<char>> {
        match self {
            FanCommand::Run(arguments) => command::argument_texts(arguments@),
            FanCommand::Report(arguments) => command::argument_texts(arguments@),
        }
    }
}

/// Whether `result` is what the outcome of a command means; `None` stands for
/// a command that was not run, as none is in a dry run. What a command that
/// failed has printed is read as UTF-8.
pub open spec fn concludes(
    outcome: Option<CommandOutcome>,
    result: Result<(), IpmiFanError>,
) -> bool {
    match outcome {
        None => result is Ok,
        Some(CommandOutcome::NotStarted(reason)) => result == Err::<(), IpmiFanError>(
            IpmiFanError::Spawn(reason),
        ),
        Some(CommandOutcome::Exited { success, status, stderr, .. }) => if success {
            result is Ok
        } else {
            result matches Err(e) && e is CommandFailed && e->status == status && e->stderr@
                == text::trimmed(text::lossy_text(stderr@)) && (valid_utf8(stderr@) ==> e->stderr@
                == text::trimmed(decode_utf8(stderr@)))
        },
    }
}

/// The arguments that give the fans the duty `pct`, or 100 where that is more.
pub open spec fn duty_arguments(pct: nat) -> Seq<Seq<char>> {
    let limited = if pct <= 100 {
        pct
    } else {
        100
    };
    seq!["raw"@, "0x30"@, "0x30"@, "0x02"@, "0xff"@, "0x"@ + numeral::hex(limited)]
}

impl IpmiFan {
    pub closed spec fn dry(self) -> bool {
        self.dry_run
    }

    /// Fans that are controlled, or, with `dry_run`, only pretended to be.
    pub fn new(dry_run: bool) -> (r: IpmiFan)
        ensures
            r.dry() == dry_run,
    {
        IpmiFan { dry_run }
    }

    pub fn is_dry_run(&self) -> (r: bool)
        ensures
            r == self.dry(),
    {
        self.dry_run
    }

    /// Takes over control. Needed once before any [`IpmiFan::set_duty`].
    pub fn enable_manual(&self) -> (r: FanCommand)
        ensures
            r is Report <==> self.dry(),
            r.texts() == seq!["raw"@, "0x30"@, "0x30"@, "0x01"@, "0x00"@],
    {
        self.run_raw("0x01", "0x00", None)
    }

    /// Hands control back to the BMC. It does no harm to do so more than once,
    /// or without having taken it.
    pub fn restore_auto(&self) -> (r: FanCommand)
        ensures
            r is Report <==> self.dry(),
            r.texts() == seq!["raw"@, "0x30"@, "0x30"@, "0x01"@, "0x01"@],
    {
        self.run_raw("0x01", "0x01", None)
    }

    /// Sets the duty, in percent; above 100 it counts as 100.
    pub fn set_duty(&self, pct: u8) -> (r: FanCommand)
        ensures
            r is Report <==> self.dry(),
            r.texts() == duty_arguments(pct as nat),
    {
        let limited: u8 = if pct <= 100 {
            pct
        } else {
            100
        };
        let mut hex: String = "0x".to_owned();
        hex.append(write_hex(limited).as_str());
        self.run_raw("0x02", "0xff", Some(hex))
    }

    /// A raw command of the fan group.
    fn run_raw(&self, verb: &str, object: &str, value: Option<String>) -> (r: FanCommand)
        ensures
            r is Report <==> self.dry(),
            r.texts() == seq!["raw"@, "0x30"@, "0x30"@, verb@, object@] + match value {
                Some(v) => seq![v@],
                None => Seq::empty(),
            },
    {
        let mut arguments: Vec<String> = Vec::new();
        arguments.push("raw".to_owned());
        arguments.push("0x30".to_owned());
        arguments.push("0x30".to_owned());
        arguments.push(verb.to_owned());
        arguments.push(object.to_owned());
        if let Some(v) = value {
            arguments.push(v);
        }
        assert(command::argument_texts(arguments@) =~= seq![
            "raw"@,
            "0x30"@,
            "0x30"@,
            verb@,
            object@,
        ] + match value {
            Some(v) => seq![v@],
            None => Seq::empty(),
        });
        if self.dry_run {
            FanCommand::Report(arguments)
        } else {
            FanCommand::Run(arguments)
        }
    }

    /// What the outcome of a command means. `None` stands for a command that
    /// was not run; in a dry run none is, and otherwise each is.
    pub fn conclude(&self, outcome: Option<CommandOutcome>) -> (r: Result<(), IpmiFanError>)
        requires
            outcome is None <==> self.dry(),
        ensures
            concludes(outcome, r),
            r is Ok <==> self.dry() || outcome->0.succeeded(),
    {
        match outcome {
            None => Ok(()),
            Some(CommandOutcome::NotStarted(reason)) => Err(IpmiFanError::Spawn(reason)),
            Some(CommandOutcome::Exited { success, status, stderr, .. }) => if success {
                Ok(())
            } else {
                let raw: String = from_utf8_lossy(&stderr);
                Err(
                    IpmiFanError::CommandFailed {
                        status,
                        stderr: trim(raw.as_str()).to_owned(),
                    },
                )
            },
        }
    }
}

/// Different duties up to 100 are set by different commands.
pub proof fn law_duty_arguments_distinct(a: nat, b: nat)
    requires
        a <= 100,
        b <= 100,
        duty_arguments(a) == duty_arguments(b),
    ensures
        a == b,
{
    let x = duty_arguments(a)[5];
    let y = duty_arguments(b)[5];
    reveal_strlit("0x");
    assert(x[2] == numeral::digit(a / 16) && x[3] == numeral::digit(a % 16));
    assert(y[2] == numeral::digit(b / 16) && y[3] == numeral::digit(b % 16));
}

/// The duty goes to the BMC as two hexadecimal digits with its value, or that of
/// 100 where it is more, behind the bytes that stand for setting the duty of all
/// fans.
pub proof fn law_duty_arguments(pct: nat)
    ensures
        duty_arguments(pct).len() == 6,
        duty_arguments(pct).take(5) == seq!["raw"@, "0x30"@, "0x30"@, "0x02"@, "0xff"@],
        duty_arguments(pct)[5].len() == 4,
        duty_arguments(pct)[5].take(2) == "0x"@,
        pct <= 100 ==> 16 * numeral::hex_value(duty_arguments(pct)[5][2]) + numeral::hex_value(
            duty_arguments(pct)[5][3],
        ) == pct,
        pct > 100 ==> 16 * numeral::hex_value(duty_arguments(pct)[5][2]) + numeral::hex_value(
            duty_arguments(pct)[5][3],
        ) == 100,
{
    let limited = if pct <= 100 {
        pct
    } else {
        100
    };
    reveal_strlit("0x");
    numeral::law_hex(limited);
    let value = duty_arguments(pct)[5];
    assert(value == "0x"@ + numeral::hex(limited));
    assert(value.take(2) =~= "0x"@);
    assert(duty_arguments(pct).take(5) =~= seq!["raw"@, "0x30"@, "0x30"@, "0x02"@, "0xff"@]);
}

/// A command that was run worked exactly where `ipmitool` ended with success; one
/// that could not be started is told from one that failed, and of that what it
/// printed is kept, without white space at its ends.
pub proof fn law_concludes(outcome: CommandOutcome, result: Result<(), IpmiFanError>)
    requires
        concludes(Some(outcome), result),
    ensures
        match outcome {
            CommandOutcome::NotStarted(reason) => result matches Err(e) && e is Spawn && e->Spawn_0@
                == reason@,
            CommandOutcome::Exited { success, status, stderr, .. } => {
                &&& result is Ok <==> success
                &&& !success ==> (result matches Err(e) && e is CommandFailed && e->status@
                    == status@ && (valid_utf8(stderr@) ==> e->stderr@ == text::trimmed(
                    decode_utf8(stderr@),
                )))
            },
        },
{
}

} // verus!
