//! Interrupt numbers of the two chained PICs and the programmable interval
//! timer's divisor.
use vstd::prelude::*;

verus! {

pub const PIC_1_OFFSET: u8 = 32;

pub const PIC_2_OFFSET: u8 = PIC_1_OFFSET + 8;

/// Timer interrupts per second.
pub const TIMER_FREQUENCY: u64 = 1000;

/// The input clock of the programmable interval timer, in Hz.
pub const PIT_BASE_FREQUENCY: u64 = 1193180;

/// The hardware interrupts the kernel handles.
#[derive(PartialEq, Eq, Structural, Clone, Copy, Debug)]
pub enum InterruptIndex {
    Timer,
    Keyboard,
    AtaPrimary,
    AtaSecondary,
}

/// The vector of an interrupt: the timer and keyboard are the first two
/// lines of the first PIC, the ATA buses the last two of the second.
pub open spec fn interrupt_vector(i: InterruptIndex) -> u8 {
    match i {
        InterruptIndex::Timer => 32,
        InterruptIndex::Keyboard => 33,
        InterruptIndex::AtaPrimary => 46,
        InterruptIndex::AtaSecondary => 47,
    }
}

impl InterruptIndex {
    pub fn as_u8(self) -> (v: u8)
        ensures
            v == interrupt_vector(self),
    {
        match self {
            InterruptIndex::Timer => PIC_1_OFFSET,
            InterruptIndex::Keyboard => PIC_1_OFFSET + 1,
            InterruptIndex::AtaPrimary => PIC_1_OFFSET + 0xE,
            InterruptIndex::AtaSecondary => PIC_1_OFFSET + 0xF,
        }
    }

    pub fn as_usize(self) -> (v: usize)
        ensures
            v == interrupt_vector(self),
    {
        self.as_u8() as usize
    }
}

/// Distinct interrupts have distinct vectors.
pub proof fn interrupt_vectors_distinct(a: InterruptIndex, b: InterruptIndex)
    requires
        a != b,
    ensures
        interrupt_vector(a) != interrupt_vector(b),
{
}

/// The divisor that makes the timer tick `frequency` times a second, as the
/// low and the high byte the timer is sent.
pub fn pit_divisor_bytes(frequency: u64) -> (bytes: (u8, u8))
    requires
        frequency > 0,
    ensures
        bytes.0 == (PIT_BASE_FREQUENCY / frequency) & 0xFF,
        bytes.1 == ((PIT_BASE_FREQUENCY / frequency) >> 8u64) & 0xFF,
        bytes.0 + 256 * bytes.1 == (PIT_BASE_FREQUENCY / frequency) % 65536,
{
    let divisor = PIT_BASE_FREQUENCY / frequency;
    let low = (divisor & 0xFF) as u8;
    let high = ((divisor >> 8u64) & 0xFF) as u8;
    proof {
        assert((divisor & 0xFF) + 256 * ((divisor >> 8u64) & 0xFF) == divisor % 65536) by (bit_vector);
        assert(divisor & 0xFF < 256 && (divisor >> 8u64) & 0xFF < 256) by (bit_vector);
    }
    (low, high)
}

/// Whether a wait of `millis` ticks begun at tick `start` is over at tick
/// `now`.
pub fn sleep_done(start: u64, millis: u64, now: u64) -> (done: bool)
    requires
        start + millis <= u64::MAX,
    ensures
        done == (start + millis < now),
{
    !(start + millis >= now)
}

} // verus!
