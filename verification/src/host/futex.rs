//! Host futexes for suspended guest waits: which state the backend is in,
//! and what each result of a wait means. A kernel without vectored waits
//! leaves the guest to its other wait path.

use vstd::prelude::*;

verus! {

/// The backend's state.
#[derive(Clone, Copy, Debug, PartialEq, Eq, Structural)]
pub enum Support {
    /// Not yet probed.
    Unknown,
    /// In use.
    Supported,
    /// Never available on this host: the probe failed or it was turned off
    /// from outside.
    Unavailable,
    /// Turned off after a wait the host could not interpret. A waiter may
    /// still be parked in the kernel.
    Disabled,
}

/// A 32-bit word, private to the process.
pub const FUTEX_WAITV_PRIVATE: u32 = 130;

/// One word of a vectored wait, as the kernel takes it.
#[derive(Clone, Copy, Debug, PartialEq, Eq, Structural)]
pub struct Waiter {
    pub value: u64,
    pub address: u64,
    pub flags: u32,
    pub reserved: u32,
}

impl Waiter {
    /// Waits while the word at `address` holds `value`.
    pub fn new(address: u64, value: u32) -> (r: Self)
        ensures
            r == (Waiter {
                value: value as u64,
                address,
                flags: FUTEX_WAITV_PRIVATE,
                reserved: 0,
            }),
    {
        Waiter { value: value as u64, address, flags: FUTEX_WAITV_PRIVATE, reserved: 0 }
    }
}

/// What a system call on a futex came to.
#[derive(Clone, Copy, Debug, PartialEq, Eq, Structural)]
pub enum WaitResult {
    /// The word with this index was woken.
    Woken(usize),
    /// The deadline passed.
    TimedOut,
    /// A word did not hold what was expected.
    Changed,
    /// A signal interrupted the call.
    Signal,
    /// Anything else, with the error number.
    Failed(i32),
}

/// What a guest's wait came to.
#[derive(Clone, Copy, Debug, PartialEq, Eq, Structural)]
pub enum HostFutexResult {
    Woken,
    Interrupted,
    TimedOut,
    Unavailable,
}

/// What the words held after the call, against what was expected of them.
#[derive(Clone, Copy, Debug, PartialEq, Eq, Structural)]
pub struct Words {
    pub guest_changed: bool,
    pub interrupt_changed: bool,
    pub gate_changed: bool,
    /// Whether there is a deadline and it has passed.
    pub expired: bool,
}

/// What a wait does after a call: it ends, or calls again.
#[derive(Clone, Copy, Debug, PartialEq, Eq, Structural)]
pub enum WaitStep {
    Return(HostFutexResult),
    Again,
}

/// What a wait does after a call. The guest's word is the first of the three;
/// a change of either of the others comes before a change of the guest's.
pub open spec fn after_wait(result: WaitResult, words: Words) -> WaitStep {
    match result {
        WaitResult::Woken(0) => WaitStep::Return(HostFutexResult::Woken),
        WaitResult::Woken(index) => WaitStep::Return(
            if index <= 2 {
                HostFutexResult::Interrupted
            } else {
                HostFutexResult::Unavailable
            },
        ),
        WaitResult::TimedOut => WaitStep::Return(HostFutexResult::TimedOut),
        WaitResult::Changed => if words.gate_changed || words.interrupt_changed {
            WaitStep::Return(HostFutexResult::Interrupted)
        } else if words.guest_changed {
            WaitStep::Return(HostFutexResult::Woken)
        } else if words.expired {
            WaitStep::Return(HostFutexResult::TimedOut)
        } else {
            WaitStep::Again
        },
        WaitResult::Signal => if words.gate_changed || words.interrupt_changed {
            WaitStep::Return(HostFutexResult::Interrupted)
        } else {
            WaitStep::Again
        },
        WaitResult::Failed(_) => WaitStep::Return(HostFutexResult::Unavailable),
    }
}

impl Support {
    /// The state after the probe: in use where it is not turned off from
    /// outside and the probe's wait, which expects what is not there, is
    /// refused for that reason.
    pub fn install(turned_off: bool, probe: WaitResult) -> (r: Support)
        ensures
            r == if !turned_off && probe == WaitResult::Changed {
                Support::Supported
            } else {
                Support::Unavailable
            },
    {
        if !turned_off && probe == WaitResult::Changed {
            Support::Supported
        } else {
            Support::Unavailable
        }
    }

    /// Whether waits go to the backend.
    pub fn is_supported(self) -> (r: bool)
        ensures
            r == (self == Support::Supported),
    {
        self == Support::Supported
    }

    /// Takes the result of a call of a guest's wait. A result the wait cannot
    /// interpret, an error it does not handle or a word beyond those it
    /// passed, turns the backend off for the rest of the process; `said` is
    /// whether this is the wait that turned it off.
    pub fn wait(&mut self, result: WaitResult, words: Words) -> (r: (WaitStep, bool))
        ensures
            r.0 == after_wait(result, words),
            *final(self) == if r.0 == WaitStep::Return(HostFutexResult::Unavailable) {
                Support::Disabled
            } else {
                *old(self)
            },
            r.1 == (r.0 == WaitStep::Return(HostFutexResult::Unavailable) && *old(self)
                == Support::Supported),
    {
        let step = match result {
            WaitResult::Woken(index) => if index == 0 {
                WaitStep::Return(HostFutexResult::Woken)
            } else if index <= 2 {
                WaitStep::Return(HostFutexResult::Interrupted)
            } else {
                WaitStep::Return(HostFutexResult::Unavailable)
            },
            WaitResult::TimedOut => WaitStep::Return(HostFutexResult::TimedOut),
            WaitResult::Changed => if words.gate_changed || words.interrupt_changed {
                WaitStep::Return(HostFutexResult::Interrupted)
            } else if words.guest_changed {
                WaitStep::Return(HostFutexResult::Woken)
            } else if words.expired {
                WaitStep::Return(HostFutexResult::TimedOut)
            } else {
                WaitStep::Again
            },
            WaitResult::Signal => if words.gate_changed || words.interrupt_changed {
                WaitStep::Return(HostFutexResult::Interrupted)
            } else {
                WaitStep::Again
            },
            WaitResult::Failed(_) => WaitStep::Return(HostFutexResult::Unavailable),
        };
        if step == WaitStep::Return(HostFutexResult::Unavailable) {
            (step, self.disable_after_error())
        } else {
            (step, false)
        }
    }

    /// Gives up on the backend for the rest of the process. Returns whether
    /// it was in use until now: only the wait that turns it off says so.
    pub fn disable_after_error(&mut self) -> (said: bool)
        ensures
            *final(self) == Support::Disabled,
            said == (*old(self) == Support::Supported),
    {
        let said: bool = *self == Support::Supported;
        *self = Support::Disabled;
        said
    }

    /// How many waiters a wake asks the kernel for; `None` where no waiter
    /// can be parked. A disabled backend still wakes: a waiter parked before
    /// may need it.
    pub fn wake(self, count: u32) -> (r: Option<i32>)
        ensures
            r == if count == 0 || self == Support::Unavailable {
                None
            } else if count <= i32::MAX {
                Some(count as i32)
            } else {
                Some(i32::MAX)
            },
    {
        if count == 0 || self == Support::Unavailable {
            return None;
        }
        if count <= 2147483647 {
            Some(count as i32)
        } else {
            Some(2147483647)
        }
    }
}

/// How many waiters a wake woke: what the kernel returned, or none where it
/// failed.
pub fn woken(result: i64) -> (r: u32)
    ensures
        r == if 0 <= result <= u32::MAX {
            result as u32
        } else {
            0
        },
{
    if 0 <= result && result <= 4294967295 {
        result as u32
    } else {
        0
    }
}

/// A time in seconds and nanoseconds.
#[derive(Clone, Copy, Debug, PartialEq, Eq, Structural)]
pub struct Timespec {
    pub seconds: i64,
    pub nanoseconds: i64,
}

/// A second in nanoseconds.
pub const NANOS_PER_SECOND: i64 = 1000000000;

/// `a + b`, at most the largest number there is.
pub open spec fn saturating_sum(a: int, b: int) -> int {
    if a + b > i64::MAX {
        i64::MAX as int
    } else {
        a + b
    }
}

fn add_seconds(a: i64, b: i64) -> (r: i64)
    requires
        b >= 0,
    ensures
        r == saturating_sum(a as int, b as int),
{
    if a > 0 && b > 9223372036854775807 - a {
        9223372036854775807
    } else {
        a + b
    }
}

/// The time at which a wait ends: `remaining` after `now`, in whole seconds
/// and nanoseconds below one. A time too far off ends as late as can be said.
pub fn absolute_timeout(now: Timespec, remaining_seconds: u64, remaining_nanos: u32) -> (r: Timespec)
    requires
        0 <= now.nanoseconds < NANOS_PER_SECOND,
        remaining_nanos < NANOS_PER_SECOND,
    ensures
        0 <= r.nanoseconds < NANOS_PER_SECOND,
        ({
            let nanos = now.nanoseconds + remaining_nanos;
            let whole = if remaining_seconds <= i64::MAX {
                remaining_seconds as int
            } else {
                i64::MAX as int
            };
            let seconds = saturating_sum(now.seconds as int, whole);
            if nanos < NANOS_PER_SECOND {
                r.seconds == seconds && r.nanoseconds == nanos
            } else {
                r.seconds == saturating_sum(seconds, 1) && r.nanoseconds == nanos
                    - NANOS_PER_SECOND
            }
        }),
{
    let whole: i64 = if remaining_seconds <= 9223372036854775807 {
        remaining_seconds as i64
    } else {
        9223372036854775807
    };
    let seconds: i64 = add_seconds(now.seconds, whole);
    let nanos: i64 = now.nanoseconds + remaining_nanos as i64;
    if nanos < NANOS_PER_SECOND {
        Timespec { seconds, nanoseconds: nanos }
    } else {
        Timespec { seconds: add_seconds(seconds, 1), nanoseconds: nanos - NANOS_PER_SECOND }
    }
}

/// A wait ends by what woke it: the guest's own word wakes the guest, either of
/// the host's words interrupts it, and a word that is not among those waited
/// for, or an error, means that the wait cannot be relied on.
pub proof fn law_a_wait_ends_by_what_woke_it(index: usize, errno: i32, words: Words)
    ensures
        after_wait(WaitResult::Woken(index), words) == WaitStep::Return(
            if index == 0 {
                HostFutexResult::Woken
            } else if index == 1 || index == 2 {
                HostFutexResult::Interrupted
            } else {
                HostFutexResult::Unavailable
            },
        ),
        after_wait(WaitResult::Failed(errno), words) == WaitStep::Return(
            HostFutexResult::Unavailable,
        ),
        after_wait(WaitResult::TimedOut, words) == WaitStep::Return(HostFutexResult::TimedOut),
{
}

/// A wait that did not begin, or that a signal broke off, is interrupted where
/// the host changed one of its words. Else it is over where the guest's word
/// changed before the wait began, or where its time has passed by then, and
/// else it goes on.
pub proof fn law_a_broken_off_wait_looks_at_the_words(words: Words)
    ensures
        ({
            let changed = after_wait(WaitResult::Changed, words);
            let signal = after_wait(WaitResult::Signal, words);
            let host = words.gate_changed || words.interrupt_changed;
            &&& host ==> changed == WaitStep::Return(HostFutexResult::Interrupted) && signal
                == changed
            &&& !host ==> signal == WaitStep::Again
            &&& changed == WaitStep::Return(HostFutexResult::Woken) <==> !host
                && words.guest_changed
            &&& changed == WaitStep::Return(HostFutexResult::TimedOut) <==> !host
                && !words.guest_changed && words.expired
            &&& changed == WaitStep::Again <==> !host && !words.guest_changed && !words.expired
        }),
{
}

/// A sum of seconds is exact where it fits, and else the most that does.
pub proof fn law_seconds_saturate(a: int, b: int)
    requires
        i64::MIN <= a <= i64::MAX,
        0 <= b <= i64::MAX,
    ensures
        a + b <= i64::MAX ==> saturating_sum(a, b) == a + b,
        a + b > i64::MAX ==> saturating_sum(a, b) == i64::MAX,
        saturating_sum(a, b) >= a,
{
}

} // verus!
