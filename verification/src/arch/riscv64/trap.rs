//! What the trap handlers decide.

use crate::arch::riscv64::cpu::Context;
use crate::arch::riscv64::TIMER_INTERVAL;
use vstd::prelude::*;

verus! {

/// The bit of a cause that marks an interrupt.
pub const INTERRUPT_FLAG: u64 = 0x8000_0000_0000_0000;

/// The cause of a call from user mode into machine mode.
pub const MCAUSE_ECALL_U: u64 = 8;

/// The cause of a call from supervisor mode into machine mode.
pub const MCAUSE_ECALL_S: u64 = 9;

/// The cause of a call from machine mode.
pub const MCAUSE_ECALL_M: u64 = 11;

/// The cause of the supervisor's timer interrupt.
pub const SCAUSE_TIMER_S: u64 = 0x8000_0000_0000_0005;

/// The cause of a call from user mode.
pub const SCAUSE_ECALL_U: u64 = 8;

/// The cause of a call from supervisor mode.
pub const SCAUSE_ECALL_S: u64 = 9;

/// What is to be done about a trap.
#[derive(Clone, Copy, Debug, PartialEq, Eq, Structural)]
pub enum TrapAction {
    /// Nothing: the context goes on as it is.
    Resume,
    /// The exception's program counter is set to `pc`.
    SetPc { pc: u64 },
    /// The timer is set to fire at the time `deadline`.
    SetTimer { deadline: u64 },
}

/// The supervisor's trap is a call from user or supervisor mode.
pub open spec fn is_supervisor_ecall(scause: u64) -> bool {
    scause == SCAUSE_ECALL_U || scause == SCAUSE_ECALL_S
}

/// The machine's trap is a call from any mode.
pub open spec fn is_machine_ecall(mcause: u64) -> bool {
    mcause == MCAUSE_ECALL_M || mcause == MCAUSE_ECALL_S || mcause == MCAUSE_ECALL_U
}

/// What the machine-mode trap handler does: after a call it resumes behind
/// the call. The context goes back as it came.
pub fn mtrap_handler(ctx: Context, mcause: u64, mepc: u64) -> (r: (Context, TrapAction))
    requires
        is_machine_ecall(mcause) ==> mepc + 4 <= u64::MAX,
    ensures
        r.0 == ctx,
        r.1 == (if is_machine_ecall(mcause) {
            TrapAction::SetPc { pc: (mepc + 4) as u64 }
        } else {
            TrapAction::Resume
        }),
{
    if mcause == MCAUSE_ECALL_M || mcause == MCAUSE_ECALL_S || mcause == MCAUSE_ECALL_U {
        (ctx, TrapAction::SetPc { pc: mepc + 4 })
    } else {
        (ctx, TrapAction::Resume)
    }
}

/// What the supervisor-mode trap handler does: after a call it resumes
/// behind the call, and on the timer's interrupt it sets the timer anew,
/// one interval after the time `time`. The context goes back as it came.
pub fn strap_handler(ctx: Context, scause: u64, sepc: u64, time: u64) -> (r: (Context, TrapAction))
    requires
        is_supervisor_ecall(scause) ==> sepc + 4 <= u64::MAX,
        scause == SCAUSE_TIMER_S ==> time + TIMER_INTERVAL <= u64::MAX,
    ensures
        r.0 == ctx,
        r.1 == (if is_supervisor_ecall(scause) {
            TrapAction::SetPc { pc: (sepc + 4) as u64 }
        } else if scause == SCAUSE_TIMER_S {
            TrapAction::SetTimer { deadline: (time + TIMER_INTERVAL) as u64 }
        } else {
            TrapAction::Resume
        }),
{
    if scause == SCAUSE_ECALL_U || scause == SCAUSE_ECALL_S {
        (ctx, TrapAction::SetPc { pc: sepc + 4 })
    } else if scause == SCAUSE_TIMER_S {
        (ctx, TrapAction::SetTimer { deadline: crate::arch::riscv64::set_timer(time, TIMER_INTERVAL) })
    } else {
        (ctx, TrapAction::Resume)
    }
}

} // verus!
