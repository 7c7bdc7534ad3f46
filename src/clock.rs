//! Tick source and the 16-bit relative timestamp compressor.

use vstd::prelude::*;

verus! {

/// Raw ticks per logical time unit.
pub const TICKS_PER_UNIT: u64 = 30000;

/// Largest delta, in units, that a record can carry.
pub const REL_MAX: u64 = 65535;

/// Elapsed units from `base` to `now`; zero when the tick source appears to
/// have moved backwards.
pub open spec fn units_between(base: u64, now: u64) -> int {
    if now >= base {
        (now - base) as int / TICKS_PER_UNIT as int
    } else {
        0
    }
}

/// One step of the compressor at tick `now`: the new base, the delta and
/// whether the call rebased.
pub open spec fn relative_step(base: Option<u64>, now: u64) -> (Option<u64>, u16, bool) {
    match base {
        None => (Some(now), 0u16, true),
        Some(b) => {
            if units_between(b, now) > REL_MAX as int {
                (Some(now), 0u16, true)
            } else {
                (Some(b), units_between(b, now) as u16, false)
            }
        },
    }
}

/// Reads the tick source: nanoseconds of the system clock since the Unix
/// epoch.
///
/// Relies on `std::time::SystemTime::elapsed`, called on the epoch: the time
/// from the epoch to now, or an error when the clock reads earlier than the
/// epoch (then the tick is 0). The value depends on the clock, so nothing is
/// promised of it.
#[verifier::external_body]
pub fn get_timestamp() -> u64 {
    match std::time::UNIX_EPOCH.elapsed() {
        Ok(d) => d.as_nanos() as u64,
        Err(_) => 0,
    }
}

/// Compresses absolute ticks into 16-bit deltas against a base tick.
#[derive(Copy, Clone)]
pub struct TimestampConverter {
    current_base: Option<u64>,
}

impl View for TimestampConverter {
    type V = Option<u64>;

    /// The base tick, if one is set.
    closed spec fn view(&self) -> Option<u64> {
        self.current_base
    }
}

impl TimestampConverter {
    /// A converter with no base: its next call rebases.
    pub fn new() -> (r: Self)
        ensures
            r@ is None,
    {
        TimestampConverter { current_base: None }
    }

    /// The compressor step at tick `now`: `(delta, rebased)`.
    pub fn get_relative_timestamp_at(&mut self, now: u64) -> (r: (u16, bool))
        ensures
            relative_step(old(self)@, now) == (final(self)@, r.0, r.1),
    {
        match self.current_base {
            None => {
                self.current_base = Some(now);
                (0, true)
            },
            Some(base) => {
                let delta_ticks = now.saturating_sub(base);
                let delta = delta_ticks / TICKS_PER_UNIT;
                if delta > REL_MAX {
                    self.current_base = Some(now);
                    (0, true)
                } else {
                    (delta as u16, false)
                }
            },
        }
    }

    /// The compressor step at the current tick of the tick source.
    pub fn get_relative_timestamp(&mut self) -> (r: (u16, bool))
        ensures
            exists|now: u64| relative_step(old(self)@, now) == (final(self)@, r.0, r.1),
    {
        let now = get_timestamp();
        self.get_relative_timestamp_at(now)
    }

    /// The current absolute tick.
    pub fn get_current_timestamp(&self) -> u64 {
        get_timestamp()
    }

    /// Clears the base: the next call rebases.
    pub fn reset(&mut self)
        ensures
            final(self)@ is None,
    {
        self.current_base = None;
    }
}

/// The first call after construction or reset rebases with delta 0.
pub proof fn lemma_first_call_rebases(now: u64)
    ensures
        relative_step(None, now) == (Some(now), 0u16, true),
{
}

/// With ticks that do not go backwards, two consecutive calls either keep the
/// base and give a delta no smaller than before, or rebase with delta 0.
pub proof fn lemma_relative_monotone(base: Option<u64>, t1: u64, t2: u64)
    requires
        t1 <= t2,
    ensures
        ({
            let (b1, d1, r1) = relative_step(base, t1);
            let (b2, d2, r2) = relative_step(b1, t2);
            (!r2 ==> d1 <= d2 && b2 == b1) && (r2 ==> d2 == 0 && b2 == Some(t2))
        }),
{
    let (b1, d1, r1) = relative_step(base, t1);
    let b = b1.unwrap();
    assert(units_between(b, t1) <= units_between(b, t2)) by {
        if t1 >= b {
            assert((t1 - b) as int / 30000 <= (t2 - b) as int / 30000) by (nonlinear_arith)
                requires
                    (t1 - b) as int <= (t2 - b) as int,
                    0 <= (t1 - b) as int,
            ;
        }
    }
}

} // verus!
