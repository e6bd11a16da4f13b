//! A player for a video with a score, for a machine without an operating
//! system: the score is a Standard MIDI File that is reduced to one voice
//! for a single oscillator, the video an archive of frames, and one software
//! clock keeps the two together.
//!
//! The library holds what is computed: reading the score ([`midi`], [`vlq`]),
//! reducing it to one voice ([`mono`], [`voice`]), the schedule of tone
//! changes, frames and waits ([`scheduler`], [`timing`]), the archive
//! ([`archive`]), the frames and the display ([`frame`], [`pixel`],
//! [`display`]), and the arithmetic of the timer, the speaker, the memory map
//! and the clock ([`apic`], [`pcs`], [`memory`], [`time`]). Whoever uses it
//! owns the hardware.

pub mod apic;
pub mod archive;
pub mod display;
pub mod frame;
pub mod memory;
pub mod midi;
pub mod mono;
pub mod pcs;
pub mod pixel;
pub mod polyphony;
pub mod scheduler;
pub mod sort;
pub mod time;
pub mod timing;
pub mod vlq;
pub mod voice;
