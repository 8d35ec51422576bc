//! RISC-V 64 with SV39 paging.

pub mod cpu;
pub mod page;
pub mod pte;
pub mod table;
pub mod trap;

use vstd::prelude::*;

verus! {

/// Ticks between two timer interrupts.
pub const TIMER_INTERVAL: u64 = 1000;

/// The registers that enabling the timer touches.
#[derive(Clone, Copy, Debug, PartialEq, Eq, Structural)]
pub struct TimerCsrs {
    pub mie: u64,
    pub sie: u64,
    pub sstatus: u64,
    pub menvcfg: u64,
    pub mcounteren: u64,
    pub mideleg: u64,
}

/// The value of the timer's compare register that makes it fire `interval`
/// ticks after the time `now`.
pub fn set_timer(now: u64, interval: u64) -> (deadline: u64)
    requires
        now + interval <= u64::MAX,
    ensures
        deadline == now + interval,
{
    now + interval
}

/// The registers as they have to be for the supervisor's timer to run:
/// the timer interrupt enabled for machine and supervisor, interrupts on in
/// the supervisor's status, the compare register and the time counter
/// open to the supervisor, and the interrupts delegated to it.
pub fn enable_timer(csrs: TimerCsrs) -> (r: TimerCsrs)
    ensures
        r.mie == csrs.mie | 0x20,
        r.sie == csrs.sie | 0x20,
        r.sstatus == csrs.sstatus | 2,
        r.menvcfg == csrs.menvcfg | 0x8000_0000_0000_0000,
        r.mcounteren == csrs.mcounteren | 2,
        r.mideleg == 0xffff,
{
    assert(1u64 << 5 == 0x20) by (bit_vector);
    assert(1u64 << 63 == 0x8000_0000_0000_0000) by (bit_vector);
    TimerCsrs {
        mie: csrs.mie | 1 << 5,
        sie: csrs.sie | 1 << 5,
        sstatus: csrs.sstatus | 2,
        menvcfg: csrs.menvcfg | 1 << 63,
        mcounteren: csrs.mcounteren | 2,
        mideleg: 0xffff,
    }
}

} // verus!
