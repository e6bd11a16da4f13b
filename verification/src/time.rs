//! The firmware's calendar time as a count of milliseconds.

use vstd::prelude::*;

verus! {

/// A reading of the firmware's clock.
#[derive(Debug, Clone, Copy, PartialEq, Eq, Structural)]
pub struct Time {
    pub year: u16,
    pub month: u8,
    pub day: u8,
    pub hour: u8,
    pub minute: u8,
    pub second: u8,
    pub nanosecond: u32,
}

impl Time {
    /// The milliseconds that the reading stands for, with every year taken
    /// as 365 days and every month as 30.
    pub open spec fn milliseconds(self) -> int {
        self.year * 31_536_000_000 + self.month * 2_592_000_000 + self.day * 86_400_000 + self.hour
            * 3_600_000 + self.minute * 60_000 + self.second * 1_000 + self.nanosecond / 1_000_000
    }

    /// The reading as a timestamp in milliseconds, of which the low 32 bits
    /// are kept: two readings less than 49 days apart differ by the time
    /// between them, modulo 2^32.
    pub fn as_timestamp(&self) -> (ms: u32)
        ensures
            ms == self.milliseconds() % 0x1_0000_0000,
    {
        let total: u64 = self.year as u64 * 31_536_000_000 + self.month as u64 * 2_592_000_000
            + self.day as u64 * 86_400_000 + self.hour as u64 * 3_600_000 + self.minute as u64
            * 60_000 + self.second as u64 * 1_000 + (self.nanosecond / 1_000_000) as u64;
        (total % 0x1_0000_0000) as u32
    }
}

} // verus!
