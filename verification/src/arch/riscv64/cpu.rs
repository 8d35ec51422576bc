//! The processor's registers as values, and the handover from machine
//! mode to supervisor mode.

use vstd::prelude::*;

verus! {

/// The registers of an interrupted context.
#[derive(Clone, Copy, Debug)]
pub struct Context {
    pub regs: [u64; 32],
}

/// What the handover from machine mode to supervisor mode writes.
#[derive(Clone, Copy, Debug, PartialEq, Eq, Structural)]
pub struct SupervisorEntry {
    pub mstatus: u64,
    pub pmpcfg0: u64,
    pub pmpaddr0: u64,
    pub satp: u64,
    pub mepc: u64,
}

/// The registers for the return into supervisor mode: the previous
/// privilege set to supervisor, all of physical memory open to it, paging
/// off, and the return address behind the call that trapped.
pub fn trap_switch_to_s_level(mstatus: u64, mepc: u64) -> (entry: SupervisorEntry)
    requires
        mepc + 4 <= u64::MAX,
    ensures
        entry.mstatus == (mstatus & !0x1800u64) | 0x800,
        entry.pmpcfg0 == 0x1f,
        entry.pmpaddr0 == u64::MAX,
        entry.satp == 0,
        entry.mepc == mepc + 4,
{
    let mut mstatus = mstatus;
    mstatus &= !0x1800;
    mstatus |= 0x800;
    SupervisorEntry { mstatus, pmpcfg0: 0x1f, pmpaddr0: u64::MAX, satp: 0, mepc: mepc + 4 }
}

} // verus!
