//! Handing control back to the BMC, and waiting without missing a stop.
//!
//! Once the daemon has taken control of the fans, the BMC must end up in
//! automatic mode however the daemon exits. A [`BmcGuard`] is marked engaged
//! only after manual mode was enabled; when it goes, an engaged guard hands
//! control back, with one more attempt if the first fails, and a guard that was
//! never engaged does nothing.

use vstd::prelude::*;
use crate::command::CommandOutcome;
use crate::ipmi_fan::{self, IpmiFan, IpmiFanError};

verus! {

/// The fans, and whether control of them was taken.
#[derive(Debug)]
pub struct BmcGuard {
    fan: IpmiFan,
    engaged: bool,
}

/// The next thing to do when a guard goes.
#[derive(Debug, Clone, Copy, PartialEq, Eq, Structural)]
pub enum Handback {
    /// Nothing: control was never taken.
    NotNeeded,
    /// Run [`IpmiFan::restore_auto`], after the given wait. This is attempt
    /// `number`.
    Attempt { number: u8, wait_millis: u64 },
    /// Nothing more: control was handed back.
    Restored,
    /// Nothing more: every attempt failed.
    GaveUp,
}

/// The first thing to do when a guard goes.
pub open spec fn first_handback(engaged: bool) -> Handback {
    if engaged {
        Handback::Attempt { number: 1, wait_millis: 0 }
    } else {
        Handback::NotNeeded
    }
}

/// What to do after attempt `number`, which worked or not.
pub open spec fn handback_after(number: u8, worked: bool) -> Handback {
    if worked {
        Handback::Restored
    } else if number == 1 {
        Handback::Attempt { number: 2, wait_millis: 500 }
    } else {
        Handback::GaveUp
    }
}

impl BmcGuard {
    pub closed spec fn held_fan(self) -> IpmiFan {
        self.fan
    }

    pub closed spec fn is_taken(self) -> bool {
        self.engaged
    }

    /// A guard that is not engaged.
    pub fn new(fan: IpmiFan) -> (r: BmcGuard)
        ensures
            r.held_fan() == fan,
            !r.is_taken(),
    {
        BmcGuard { fan, engaged: false }
    }

    pub fn fan(&self) -> (r: &IpmiFan)
        ensures
            *r == self.held_fan(),
    {
        &self.fan
    }

    /// Marks the guard engaged where `outcome`, which is that of
    /// [`IpmiFan::enable_manual`], says that control was taken. It is `None`
    /// exactly in a dry run, in which the command is not run.
    pub fn engage(&mut self, outcome: Option<CommandOutcome>) -> (r: Result<(), IpmiFanError>)
        requires
            outcome is None <==> old(self).held_fan().dry(),
        ensures
            ipmi_fan::concludes(outcome, r),
            r is Ok <==> old(self).held_fan().dry() || outcome->0.succeeded(),
            final(self).is_taken() == (old(self).is_taken() || r is Ok),
            final(self).held_fan() == old(self).held_fan(),
    {
        self.fan.conclude(outcome)?;
        self.engaged = true;
        Ok(())
    }

    pub fn is_engaged(&self) -> (r: bool)
        ensures
            r == self.is_taken(),
    {
        self.engaged
    }

    /// The first thing to do when the guard goes.
    pub fn release(&self) -> (r: Handback)
        ensures
            r == first_handback(self.is_taken()),
    {
        if self.engaged {
            Handback::Attempt { number: 1, wait_millis: 0 }
        } else {
            Handback::NotNeeded
        }
    }

    /// What to do after attempt `number`, given what came of it.
    pub fn after_attempt(number: u8, result: &Result<(), IpmiFanError>) -> (r: Handback)
        ensures
            r == handback_after(number, result is Ok),
    {
        if result.is_ok() {
            Handback::Restored
        } else if number == 1 {
            Handback::Attempt { number: 2, wait_millis: 500 }
        } else {
            Handback::GaveUp
        }
    }
}

/// The number of attempts that are made in all from `step` on, where attempt
/// `n` works exactly if `works(n)`; at most `fuel` steps are followed.
pub open spec fn attempts_from(step: Handback, works: spec_fn(u8) -> bool, fuel: nat) -> nat
    decreases fuel,
{
    match step {
        Handback::Attempt { number, .. } => if fuel == 0 {
            0
        } else {
            1 + attempts_from(handback_after(number, works(number)), works, (fuel - 1) as nat)
        },
        _ => 0,
    }
}

/// How handing back ends from `step` on; as [`attempts_from`].
pub open spec fn end_from(step: Handback, works: spec_fn(u8) -> bool, fuel: nat) -> Handback
    decreases fuel,
{
    match step {
        Handback::Attempt { number, .. } => if fuel == 0 {
            step
        } else {
            end_from(handback_after(number, works(number)), works, (fuel - 1) as nat)
        },
        _ => step,
    }
}

/// An engaged guard tries to hand control back once, and a second time exactly
/// where the first failed, and it succeeds exactly where one of the two works.
/// A guard that is not engaged does nothing.
pub proof fn law_handback(engaged: bool, works: spec_fn(u8) -> bool, fuel: nat)
    requires
        fuel >= 2,
    ensures
        attempts_from(first_handback(engaged), works, fuel) == if !engaged {
            0int
        } else if works(1) {
            1
        } else {
            2
        },
        end_from(first_handback(engaged), works, fuel) == if !engaged {
            Handback::NotNeeded
        } else if works(1) || works(2) {
            Handback::Restored
        } else {
            Handback::GaveUp
        },
{
    reveal_with_fuel(attempts_from, 4);
    reveal_with_fuel(end_from, 4);
}

/// An engaged guard tries at once. Where that fails it tries once more, after half
/// a second, and then no more.
pub proof fn law_handback_steps(worked: bool)
    ensures
        first_handback(true) == (Handback::Attempt { number: 1, wait_millis: 0 }),
        handback_after(1, false) == (Handback::Attempt { number: 2, wait_millis: 500 }),
        !(handback_after(2, worked) is Attempt),
        handback_after(1, true) == Handback::Restored,
        handback_after(2, true) == Handback::Restored,
        handback_after(2, false) == Handback::GaveUp,
        first_handback(false) == Handback::NotNeeded,
{
}

// ---------------------------------------------------------------------------
// Waiting
// ---------------------------------------------------------------------------

/// The longest sleep between two looks at whether to stop, in nanoseconds.
pub const SLEEP_STEP_NANOS: u64 = 200_000_000;

/// How long to sleep at once when `remaining` nanoseconds are left.
pub open spec fn sleep_chunk(remaining: nat) -> nat {
    if remaining <= SLEEP_STEP_NANOS {
        remaining
    } else {
        SLEEP_STEP_NANOS as nat
    }
}

/// One step of a wait of which `remaining` nanoseconds are left: `None` where
/// the wait is over, which it also is where `stop` is set; else for how long to
/// sleep now, and what is left after that.
pub fn sleep_interruptible(remaining: u128, stop: bool) -> (r: Option<(u64, u128)>)
    ensures
        r is None <==> remaining == 0 || stop,
        r matches Some((chunk, rest)) ==> chunk == sleep_chunk(remaining as nat) && rest
            == remaining - chunk,
{
    if remaining == 0 || stop {
        None
    } else if remaining <= SLEEP_STEP_NANOS as u128 {
        Some((remaining as u64, 0))
    } else {
        Some((SLEEP_STEP_NANOS, remaining - SLEEP_STEP_NANOS as u128))
    }
}

/// How long is slept in all, of `remaining` nanoseconds, where the stop comes
/// after `looks` looks that did not see it.
pub open spec fn slept(remaining: nat, looks: nat) -> nat
    decreases looks,
{
    if remaining == 0 || looks == 0 {
        0
    } else {
        sleep_chunk(remaining) + slept(
            (remaining - sleep_chunk(remaining)) as nat,
            (looks - 1) as nat,
        )
    }
}

/// A wait that is not stopped lasts as long as it was meant to, and one that is
/// stopped ends within one step of the stop.
pub proof fn law_wait(remaining: nat, looks: nat)
    ensures
        slept(remaining, looks) == if remaining <= looks * SLEEP_STEP_NANOS {
            remaining as int
        } else {
            looks * SLEEP_STEP_NANOS
        },
    decreases looks,
{
    if remaining > 0 && looks > 0 {
        law_wait((remaining - sleep_chunk(remaining)) as nat, (looks - 1) as nat);
    }
}

} // verus!
