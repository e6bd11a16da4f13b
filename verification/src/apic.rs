//! The arithmetic of the local APIC timer: how a divisor is written to its
//! register, what a calibration run measures, and how many ticks a delay is.

use vstd::prelude::*;

verus! {

/// The count that a calibration run starts from.
pub const FULL_COUNT: u32 = 0xFFFF_FFFF;

/// Whether the timer can divide its clock by `divisor`: a power of two from 1 to 128.
pub open spec fn valid_divisor(divisor: u32) -> bool {
    divisor == 1 || divisor == 2 || divisor == 4 || divisor == 8 || divisor == 16 || divisor == 32
        || divisor == 64 || divisor == 128
}

/// What the divide configuration register holds for `divisor`.
pub open spec fn divisor_code(divisor: u32) -> u32 {
    if divisor == 1 {
        0b1011
    } else if divisor == 2 {
        0b0000
    } else if divisor == 4 {
        0b0001
    } else if divisor == 8 {
        0b0010
    } else if divisor == 16 {
        0b0011
    } else if divisor == 32 {
        0b1000
    } else if divisor == 64 {
        0b1001
    } else {
        0b1010
    }
}

/// The value to write to the divide configuration register for `divisor`;
/// `None` where the timer cannot divide by it.
pub fn divisor_encoding(divisor: u32) -> (r: Option<u32>)
    ensures
        valid_divisor(divisor) ==> r == Some(divisor_code(divisor)),
        !valid_divisor(divisor) ==> r is None,
{
    match divisor {
        1 => Some(0b1011),
        2 => Some(0b0000),
        4 => Some(0b0001),
        8 => Some(0b0010),
        16 => Some(0b0011),
        32 => Some(0b1000),
        64 => Some(0b1001),
        128 => Some(0b1010),
        _ => None,
    }
}

/// The frequency that a calibration run measured: the timer counted down
/// from [`FULL_COUNT`] to `current_count` in ten milliseconds, its clock
/// divided by `divisor`. The frequency is kept in 32 bits; what does not fit
/// is cut off.
pub fn measured_frequency(current_count: u32, divisor: u32) -> (hz: u32)
    ensures
        hz == ((FULL_COUNT - current_count) * 100 * divisor) % 0x1_0000_0000,
{
    let ticks_in_10ms = FULL_COUNT - current_count;
    assert(ticks_in_10ms * 100 * divisor <= 0xFFFF_FFFF * 100 * 0xFFFF_FFFF) by (nonlinear_arith)
        requires
            0 <= ticks_in_10ms <= 0xFFFF_FFFF,
            0 <= divisor <= 0xFFFF_FFFF,
    ;
    let product: u128 = ticks_in_10ms as u128 * 100 * divisor as u128;
    (product % 0x1_0000_0000) as u32
}

/// A calibrated timer: the frequency of its clock and the divisor it runs with.
#[derive(Debug, Clone, Copy, PartialEq, Eq, Structural)]
pub struct ApicTimer {
    pub frequency: u32,
    pub divisor: u32,
}

impl ApicTimer {
    /// The ticks that the timer counts in a millisecond.
    pub open spec fn ticks_per_ms(self) -> int {
        self.frequency as int / self.divisor as int / 1000
    }

    /// A timer of this frequency and divisor; `None` where the timer cannot
    /// divide by `divisor`.
    pub fn new(frequency: u32, divisor: u32) -> (r: Option<ApicTimer>)
        ensures
            valid_divisor(divisor) ==> r == Some(ApicTimer { frequency, divisor }),
            !valid_divisor(divisor) ==> r is None,
    {
        match divisor_encoding(divisor) {
            Some(_) => Some(ApicTimer { frequency, divisor }),
            None => None,
        }
    }

    /// The count to start the timer from for a delay of `delay_ms`
    /// milliseconds; `None` where the divisor is zero or the count does not
    /// fit the timer's 32 bits.
    pub fn delay_ticks(&self, delay_ms: u32) -> (r: Option<u32>)
        ensures
            match r {
                Some(ticks) => self.divisor != 0 && ticks == delay_ms * self.ticks_per_ms(),
                None => self.divisor == 0 || delay_ms * self.ticks_per_ms() > u32::MAX,
            },
    {
        if self.divisor == 0 {
            return None;
        }
        let effective_frequency = self.frequency / self.divisor;
        let ticks_per_ms = effective_frequency / 1_000;
        delay_ms.checked_mul(ticks_per_ms)
    }
}

} // verus!
