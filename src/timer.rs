//! Clock readings and the timer tick.

use crate::config::{CLOCK_FREQ, MICRO_PER_SEC, TICKS_PER_SEC};
use vstd::prelude::*;

verus! {

/// A time in seconds and microseconds.
#[derive(Clone, Copy, Debug, PartialEq, Eq, Structural)]
pub struct TimeVal {
    pub sec: u64,
    pub usec: u64,
}

/// The microseconds that a time stands for.
pub open spec fn total_usec(t: TimeVal) -> int {
    t.sec * 1_000_000 + t.usec
}

impl TimeVal {
    pub fn new() -> (r: Self)
        ensures
            r.sec == 0 && r.usec == 0,
    {
        TimeVal { sec: 0, usec: 0 }
    }

    /// The sum of two times, with the microseconds carried into seconds.
    pub fn add(self, other: Self) -> (r: Self)
        requires
            self.usec < 1_000_000,
            other.usec < 1_000_000,
            self.sec + other.sec < u64::MAX,
        ensures
            total_usec(r) == total_usec(self) + total_usec(other),
            r.usec < 1_000_000,
    {
        let mut sec = self.sec + other.sec;
        let mut usec = self.usec + other.usec;
        sec = sec + usec / MICRO_PER_SEC;
        usec = usec % MICRO_PER_SEC;
        TimeVal { sec, usec }
    }

    /// The difference of two times, zero when `other` is later.
    pub fn sub(self, other: Self) -> (r: Self)
        requires
            self.usec < 1_000_000,
            other.usec < 1_000_000,
        ensures
            total_usec(self) >= total_usec(other) ==> total_usec(r) == total_usec(self) - total_usec(other),
            total_usec(self) < total_usec(other) ==> r.sec == 0 && r.usec == 0,
            r.usec < 1_000_000,
    {
        if self.sec < other.sec {
            proof {
                assert(total_usec(self) < total_usec(other)) by (nonlinear_arith)
                    requires self.sec < other.sec, self.usec < 1_000_000;
            }
            TimeVal { sec: 0, usec: 0 }
        } else if self.sec == other.sec {
            if self.usec < other.usec {
                TimeVal { sec: 0, usec: 0 }
            } else {
                TimeVal { sec: 0, usec: self.usec - other.usec }
            }
        } else {
            proof {
                assert(total_usec(self) > total_usec(other)) by (nonlinear_arith)
                    requires self.sec > other.sec, other.usec < 1_000_000;
            }
            if self.usec < other.usec {
                TimeVal { sec: self.sec - other.sec - 1, usec: MICRO_PER_SEC + self.usec - other.usec }
            } else {
                TimeVal { sec: self.sec - other.sec, usec: self.usec - other.usec }
            }
        }
    }

    /// The 16 bytes of the time as user code lays it out: seconds, then
    /// microseconds, each little-endian.
    pub fn as_bytes(&self) -> (r: Vec<u8>)
        ensures
            r@ == vstd::bytes::spec_u64_to_le_bytes(self.sec) + vstd::bytes::spec_u64_to_le_bytes(self.usec),
            r@.len() == 16,
    {
        let mut r = vstd::bytes::u64_to_le_bytes(self.sec);
        let mut b = vstd::bytes::u64_to_le_bytes(self.usec);
        r.append(&mut b);
        r
    }
}

/// Microseconds since boot from a reading of `mtime`.
pub fn get_time_micro(ticks: u64) -> (r: u64)
    ensures
        r == ticks / 12,
{
    ticks / (CLOCK_FREQ / MICRO_PER_SEC)
}

/// A time of `us` microseconds.
pub fn get_time_val(us: u64) -> (r: TimeVal)
    ensures
        r.sec == us / 1_000_000,
        r.usec == us % 1_000_000,
        total_usec(r) == us,
{
    TimeVal { sec: us / MICRO_PER_SEC, usec: us % MICRO_PER_SEC }
}

/// A later reading gives a time that is not earlier, in the order of
/// seconds, then microseconds.
pub proof fn lemma_time_val_monotonic(us1: u64, us2: u64)
    requires
        us1 <= us2,
    ensures
        us1 / 1_000_000 < us2 / 1_000_000 || (us1 / 1_000_000 == us2 / 1_000_000 && us1 % 1_000_000 <= us2
            % 1_000_000),
{
    vstd::arithmetic::div_mod::lemma_div_is_ordered(us1 as int, us2 as int, 1_000_000);
    if us1 / 1_000_000 == us2 / 1_000_000 {
        vstd::arithmetic::div_mod::lemma_fundamental_div_mod(us1 as int, 1_000_000);
        vstd::arithmetic::div_mod::lemma_fundamental_div_mod(us2 as int, 1_000_000);
    }
}

/// The `mtime` value that the next timer interrupt is set to: one tick, a
/// hundredth of a second, after the reading `now`.
pub fn set_next_trigger(now: u64) -> (r: u64)
    ensures
        r == now.wrapping_add(CLOCK_FREQ / TICKS_PER_SEC),
{
    now.wrapping_add(CLOCK_FREQ / TICKS_PER_SEC)
}

} // verus!
