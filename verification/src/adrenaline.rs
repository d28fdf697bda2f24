//! The programmable interval timer (PIT).
use vstd::prelude::*;
use crate::PortWrite;

verus! {

/// The PIT's input clock, in Hz.
pub const PIT_FREQUENCY: u32 = 1193182;

/// How many timer interrupts per second the kernel asks for.
pub const TICKS_PER_SECOND: u32 = 100;

/// The PIT's mode/command register.
pub const PIT_COMMAND: u16 = 0x43;

/// The data port of the PIT's channel 0.
pub const PIT_CHANNEL_0: u16 = 0x40;

/// Channel 0, low byte then high byte, rate generator, binary counting.
pub const PIT_MODE: u8 = 0x36;

/// The reload value that divides the PIT clock down to the tick rate.
pub open spec fn timer_divisor() -> int {
    PIT_FREQUENCY as int / TICKS_PER_SECOND as int
}

/// The register writes that start the timer: the mode, then the divisor's
/// low byte and high byte on channel 0.
pub open spec fn timer_setup() -> Seq<PortWrite> {
    seq![
        PortWrite { port: PIT_COMMAND, value: PIT_MODE },
        PortWrite { port: PIT_CHANNEL_0, value: (timer_divisor() % 256) as u8 },
        PortWrite { port: PIT_CHANNEL_0, value: (timer_divisor() / 256) as u8 },
    ]
}

/// Starts the timer at [`TICKS_PER_SECOND`]: returns the register writes
/// to make, in order.
pub fn wake() -> (writes: [PortWrite; 3])
    ensures
        writes@ == timer_setup(),
{
    let divisor: u32 = PIT_FREQUENCY / TICKS_PER_SECOND;
    assert(divisor == 11931);
    assert(divisor & 0xff == 155u32) by (bit_vector)
        requires
            divisor == 11931,
    ;
    assert(divisor >> 8u32 == 46u32) by (bit_vector)
        requires
            divisor == 11931,
    ;
    let writes = [
        PortWrite { port: PIT_COMMAND, value: PIT_MODE },
        PortWrite { port: PIT_CHANNEL_0, value: (divisor & 0xff) as u8 },
        PortWrite { port: PIT_CHANNEL_0, value: (divisor >> 8u32) as u8 },
    ];
    assert(writes@ =~= timer_setup());
    writes
}

/// The two bytes written to channel 0 make up the divisor again, so the
/// timer runs at the requested rate.
pub proof fn lemma_timer_divisor_bytes()
    ensures
        timer_setup()[1].value + 256 * timer_setup()[2].value == timer_divisor(),
        timer_setup()[1].port == PIT_CHANNEL_0,
        timer_setup()[2].port == PIT_CHANNEL_0,
{
}

} // verus!
