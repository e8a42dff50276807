//! How the driver for low-power networks finds its radio, and when it is restarted.

use crate::math::{lemma_pow2_grows, pow2};
use crate::text::{join, joined};
use vstd::prelude::*;

verus! {

/// No restart is delayed for more than this many seconds.
pub const MAX_EXPONENTIAL_BACKOFF_DELAY_SEC: i64 = 60;

/// A run of at least this many minutes counts as a success.
pub const RESET_EXPONENTIAL_BACKOFF_TIMER_MIN: i64 = 5;

/// Where radios are found if the configuration does not say.
pub const OT_PROTOCOL_PATH: &'static str = "/dev/class/ot-radio";

/// What to do after the driver has stopped.
#[derive(Clone, Copy, Debug, PartialEq, Eq, Structural)]
pub enum AfterRun {
    /// Stop for good.
    GiveUp,
    /// Start again after a delay, in seconds.
    Restart { delay: i64 },
}

/// When the driver is restarted.
#[derive(Clone, Copy, Debug, PartialEq, Eq, Structural)]
pub struct RestartPolicy {
    pub max_auto_restarts: u32,
    /// The restarts since the driver last ran for long.
    pub attempt_count: u32,
}

/// The delay before a restart doubles with each attempt, up to the greatest one.
pub open spec fn backoff(attempt: u32) -> int {
    if pow2(attempt as nat) > MAX_EXPONENTIAL_BACKOFF_DELAY_SEC {
        MAX_EXPONENTIAL_BACKOFF_DELAY_SEC as int
    } else {
        pow2(attempt as nat) as int
    }
}

impl RestartPolicy {
    /// The attempts that count after a run.
    pub open spec fn counted(self, minutes: i64) -> u32 {
        if minutes >= RESET_EXPONENTIAL_BACKOFF_TIMER_MIN {
            0
        } else {
            self.attempt_count
        }
    }

    /// The driver is not restarted after a run.
    pub open spec fn gives_up(self, minutes: i64) -> bool {
        self.max_auto_restarts <= self.counted(minutes)
    }

    /// The policy after a run.
    pub open spec fn next(self, minutes: i64) -> Self {
        RestartPolicy {
            attempt_count: if self.gives_up(minutes) {
                self.counted(minutes)
            } else {
                (self.counted(minutes) + 1) as u32
            },
            ..self
        }
    }

    /// Makes the policy of a driver that has not run yet.
    pub fn new(max_auto_restarts: u32) -> (result: Self)
        ensures
            result.max_auto_restarts == max_auto_restarts,
            result.attempt_count == 0,
    {
        RestartPolicy { max_auto_restarts, attempt_count: 0 }
    }

    /// Decides what to do after the driver ran for a number of minutes.
    pub fn after_run(&mut self, minutes: i64) -> (result: AfterRun)
        ensures
            *final(self) == old(self).next(minutes),
            result is GiveUp <==> old(self).gives_up(minutes),
            result is Restart ==> result->delay == backoff(old(self).counted(minutes)),
    {
        if minutes >= RESET_EXPONENTIAL_BACKOFF_TIMER_MIN {
            self.attempt_count = 0;
        }
        if self.max_auto_restarts <= self.attempt_count {
            return AfterRun::GiveUp;
        }
        let attempt: u32 = self.attempt_count;
        let mut delay: i64 = 1;
        if attempt >= 6 {
            proof {
                lemma_pow2_grows(6, attempt as nat);
                assert(pow2(6) == 64) by {
                    reveal_with_fuel(pow2, 7);
                }
            }
            delay = MAX_EXPONENTIAL_BACKOFF_DELAY_SEC;
        } else {
            let mut i: u32 = 0;
            while i < attempt
                invariant
                    i <= attempt < 6,
                    delay == pow2(i as nat),
                decreases attempt - i,
            {
                proof {
                    lemma_pow2_grows(i as nat, 5);
                    assert(pow2(5) == 32) by {
                        reveal_with_fuel(pow2, 6);
                    }
                    assert(pow2((i + 1) as nat) == 2 * pow2(i as nat));
                }
                delay = 2 * delay;
                i = i + 1;
            }
            proof {
                lemma_pow2_grows(attempt as nat, 5);
                assert(pow2(5) == 32) by {
                    reveal_with_fuel(pow2, 6);
                }
            }
        }
        self.attempt_count = attempt + 1;
        AfterRun::Restart { delay }
    }
}

/// Restarts are limited: the attempts never exceed the limit, each restart counts as one, and at the
/// limit the driver is given up unless it ran for long.
pub proof fn restarts_are_limited(policy: RestartPolicy, minutes: i64)
    requires
        policy.attempt_count <= policy.max_auto_restarts,
    ensures
        policy.next(minutes).attempt_count <= policy.max_auto_restarts,
        policy.gives_up(minutes) ==> policy.next(minutes).attempt_count
            == policy.max_auto_restarts,
        !policy.gives_up(minutes) && minutes < RESET_EXPONENTIAL_BACKOFF_TIMER_MIN ==> policy.next(
            minutes,
        ).attempt_count == policy.attempt_count + 1,
        minutes >= RESET_EXPONENTIAL_BACKOFF_TIMER_MIN && policy.max_auto_restarts > 0
            ==> !policy.gives_up(minutes) && policy.next(minutes).attempt_count == 1,
{
}

/// Every delay before a restart is at least a second and at most the greatest one, and no delay is
/// shorter than the one before it while the driver keeps failing.
pub proof fn backoff_grows(attempt: u32)
    requires
        attempt < u32::MAX,
    ensures
        1 <= backoff(attempt) <= backoff((attempt + 1) as u32)
            <= MAX_EXPONENTIAL_BACKOFF_DELAY_SEC,
{
    lemma_pow2_grows(attempt as nat, (attempt + 1) as nat);
    lemma_pow2_grows(0, attempt as nat);
}

/// There is not exactly one radio.
#[derive(Clone, Copy, Debug, PartialEq, Eq, Structural)]
pub struct WrongDeviceCount {
    pub count: usize,
}

/// The path that is configured for radios, or the usual one.
pub fn radio_path(configured: Option<String>) -> (result: String)
    ensures
        result@ == match configured {
            Some(path) => path@,
            None => OT_PROTOCOL_PATH@,
        },
{
    match configured {
        Some(path) => path,
        None => OT_PROTOCOL_PATH.to_owned(),
    }
}

/// The path of the radio. `entries` are the names in the directory, if the path is one: then there
/// must be exactly one, and it is the radio.
pub fn device_path(path: String, entries: Option<Vec<String>>) -> (result: Result<
    String,
    WrongDeviceCount,
>)
    ensures
        match entries {
            None => result is Ok && result->Ok_0@ == path@,
            Some(names) => {
                &&& result is Ok <==> names@.len() == 1
                &&& result is Ok ==> result->Ok_0@ == joined(path@, names@[0]@)
                &&& result is Err ==> result->Err_0.count == names@.len()
            },
        },
{
    match entries {
        None => Ok(path),
        Some(names) => if names.len() != 1 {
            Err(WrongDeviceCount { count: names.len() })
        } else {
            Ok(join(path.as_str(), names[0].as_str()))
        },
    }
}

/// The first delay is a second, and each delay is twice the one before, but never more than a minute.
pub proof fn delays_double(attempt: u32)
    requires
        attempt < u32::MAX,
    ensures
        backoff(0) == 1,
        2 * backoff(attempt) <= 60 ==> backoff((attempt + 1) as u32) == 2 * backoff(attempt),
        2 * backoff(attempt) > 60 ==> backoff((attempt + 1) as u32) == 60,
{
    assert(pow2(0) == 1);
    assert(pow2((attempt + 1) as nat) == 2 * pow2(attempt as nat));
}

/// The driver is given up just when the attempts since it last ran for five minutes have reached the
/// limit. Otherwise it is restarted, one more attempt counts, and the delay is that of the attempts
/// before. The limit never changes.
pub proof fn restart_is_decided(policy: RestartPolicy, minutes: i64)
    ensures
        minutes >= 5 ==> policy.counted(minutes) == 0,
        minutes < 5 ==> policy.counted(minutes) == policy.attempt_count,
        policy.gives_up(minutes) <==> if minutes >= 5 {
            policy.max_auto_restarts == 0
        } else {
            policy.attempt_count >= policy.max_auto_restarts
        },
        policy.next(minutes).max_auto_restarts == policy.max_auto_restarts,
        !policy.gives_up(minutes) ==> policy.next(minutes).attempt_count == if minutes >= 5 {
            1
        } else {
            policy.attempt_count + 1
        },
        policy.gives_up(minutes) ==> policy.next(minutes).attempt_count == if minutes >= 5 {
            0
        } else {
            policy.attempt_count as int
        },
{
}

/// Radios are usually found among the devices of their class. Delays end at a minute, and a driver
/// that ran for five minutes ran for long.
pub proof fn usual_path_and_limits()
    ensures
        OT_PROTOCOL_PATH@ == "/dev/class/ot-radio"@,
        MAX_EXPONENTIAL_BACKOFF_DELAY_SEC == 60,
        RESET_EXPONENTIAL_BACKOFF_TIMER_MIN == 5,
{
}

} // verus!
