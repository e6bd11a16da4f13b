//! The arithmetic of the PC speaker: the reload value of the interval timer
//! for a frequency, and the enable bits of the speaker control byte.

use vstd::prelude::*;

verus! {

/// The frequency of the interval timer's clock, in hertz.
pub const PIT_FREQUENCY: u32 = 1_193_182;

/// The bits of the speaker control byte that let the timer drive the speaker.
pub const ENABLE_BITS: u8 = 0x03;

/// The reload value of timer channel 2 as the two bytes that are written to it.
#[derive(Debug, Clone, Copy, PartialEq, Eq, Structural)]
pub struct Reload {
    /// The byte that is written first.
    pub low: u8,
    /// The byte that is written second.
    pub high: u8,
}

/// The speaker.
#[derive(Debug, Clone, Copy)]
pub struct PCSpeaker;

impl PCSpeaker {
    /// The reload value for a tone of `freq` hertz: the clock divided by the
    /// frequency, of which the low sixteen bits are kept.
    pub open spec fn reload_value(freq: u32) -> int {
        (PIT_FREQUENCY as int / freq as int) % 0x1_0000
    }

    /// The reload value for a tone of `freq` hertz, or `None` for a frequency
    /// of zero, which is silence.
    pub fn reload_for(freq: u32) -> (r: Option<Reload>)
        ensures
            freq == 0 <==> r is None,
            r matches Some(reload) ==> reload.low == Self::reload_value(freq) % 0x100 && reload.high
                == Self::reload_value(freq) / 0x100,
    {
        if freq == 0 {
            return None;
        }
        let divisor: u32 = (PIT_FREQUENCY / freq) % 0x1_0000;
        Some(Reload { low: (divisor % 0x100) as u8, high: (divisor / 0x100) as u8 })
    }

    /// The speaker control byte with the speaker switched on: the enable
    /// bits set, the others as they were.
    pub fn switched_on(state: u8) -> (r: u8)
        ensures
            r == state | ENABLE_BITS,
    {
        state | ENABLE_BITS
    }

    /// The speaker control byte with the speaker switched off: the enable
    /// bits clear, the others as they were.
    pub fn switched_off(state: u8) -> (r: u8)
        ensures
            r == state & !ENABLE_BITS,
    {
        state & !ENABLE_BITS
    }
}

} // verus!
