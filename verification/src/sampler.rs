//! Decisions of the sampling loop and the command line, apart from the thread,
//! the clock and the terminal that carry them out.
use vstd::prelude::*;
use crate::model::Tick;
use crate::probe::str_equals;

verus! {

/// How a sampling pass ended.
#[derive(Debug, Clone, Copy, PartialEq, Eq, Structural)]
pub enum PassResult {
    /// The probe produced data.
    Sampled,
    /// The platform has no probe implementation; nothing will ever succeed.
    Unsupported,
    /// An OS call failed; the next pass may succeed.
    Failed,
}

/// What the sampling loop does after a pass.
#[derive(Debug, Clone, Copy, PartialEq, Eq, Structural)]
pub enum SamplerAction {
    /// Publish a snapshot with this tick, then sleep out the interval.
    Publish(Tick),
    /// Stop sampling and idle until asked to stop.
    Idle,
    /// Log the failure and sleep out the interval.
    Retry,
}

/// Pass counter and health of a sampling loop.
#[derive(Debug, Clone, Copy, PartialEq, Eq, Structural, Default)]
pub struct SamplerState {
    /// The tick of the last published snapshot.
    pub tick: Tick,
    /// Failed passes in a row; `u64::MAX` once the platform proved unsupported.
    pub consecutive_errors: u64,
}

impl SamplerState {
    /// Account for a pass: a success advances the tick and clears the error
    /// count; an unsupported platform saturates the count and stops; a failure
    /// counts one more error (wrapping, as the shared counter does).
    pub fn after_pass(&mut self, result: PassResult) -> (a: SamplerAction)
        ensures
            match result {
                PassResult::Sampled => {
                    &&& final(self).tick.0 == (if old(self).tick.0 == u64::MAX {
                        0
                    } else {
                        old(self).tick.0 + 1
                    })
                    &&& final(self).consecutive_errors == 0
                    &&& a == SamplerAction::Publish(final(self).tick)
                },
                PassResult::Unsupported => {
                    &&& final(self).tick == old(self).tick
                    &&& final(self).consecutive_errors == u64::MAX
                    &&& a == SamplerAction::Idle
                },
                PassResult::Failed => {
                    &&& final(self).tick == old(self).tick
                    &&& final(self).consecutive_errors == vstd::wrapping::u64_specs::wrapping_add(
                        old(self).consecutive_errors,
                        1,
                    )
                    &&& a == SamplerAction::Retry
                },
            },
    {
        match result {
            PassResult::Sampled => {
                self.tick = self.tick.next();
                self.consecutive_errors = 0;
                SamplerAction::Publish(self.tick)
            },
            PassResult::Unsupported => {
                self.consecutive_errors = u64::MAX;
                SamplerAction::Idle
            },
            PassResult::Failed => {
                self.consecutive_errors = self.consecutive_errors.wrapping_add(1);
                SamplerAction::Retry
            },
        }
    }
}

/// The stored sampling interval for a requested one of `micros` microseconds:
/// at least one, truncated to 64 bits.
pub fn interval_micros(micros: u128) -> (r: u64)
    ensures
        r == (if micros == 0 {
            1
        } else {
            micros as u64
        }),
{
    let m = if micros == 0 {
        1
    } else {
        micros
    };
    m as u64
}

/// The first index at or after `i` whose argument is `flag`, or -1.
pub open spec fn flag_from(args: Seq<String>, flag: Seq<char>, i: int) -> int
    decreases args.len() - i,
{
    if i < 0 || i >= args.len() {
        -1
    } else if args[i]@ == flag {
        i
    } else {
        flag_from(args, flag, i + 1)
    }
}

/// Value following `flag`, if present.
pub fn arg_value<'a>(args: &'a [String], flag: &str) -> (r: Option<&'a str>)
    ensures
        ({
            let i = flag_from(args@, flag@, 0);
            if i >= 0 && i + 1 < args@.len() {
                r matches Some(s) && s@ == args@[i + 1]@
            } else {
                r is None
            }
        }),
{
    let mut i: usize = 0;
    while i < args.len()
        invariant
            i <= args@.len(),
            flag_from(args@, flag@, 0) == flag_from(args@, flag@, i as int),
        decreases args@.len() - i,
    {
        if str_equals(args[i].as_str(), flag) {
            if i + 1 < args.len() {
                return Some(args[i + 1].as_str());
            }
            return None;
        }
        i = i + 1;
    }
    None
}

/// Which snapshots a history takes in: the tick it took last.
#[derive(Debug, Clone, Copy, PartialEq, Eq, Structural, Default)]
pub struct TickGate {
    pub last_tick: Option<Tick>,
}

impl TickGate {
    /// Whether to fold in a snapshot with this tick: not an empty one and not a
    /// repeat of the last tick taken, so that callers can offer whatever is
    /// newest on every wake-up without double-counting. A snapshot taken in
    /// becomes the last tick.
    pub fn take(&mut self, empty: bool, tick: Tick) -> (r: bool)
        ensures
            r == (!empty && old(self).last_tick != Some(tick)),
            final(self).last_tick == (if r {
                Some(tick)
            } else {
                old(self).last_tick
            }),
    {
        if empty {
            return false;
        }
        match self.last_tick {
            Some(t) => if t.0 == tick.0 {
                return false;
            },
            None => {},
        }
        self.last_tick = Some(tick);
        true
    }
}

} // verus!
