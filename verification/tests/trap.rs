use kernel_core::arch::riscv64::cpu::{trap_switch_to_s_level, Context, SupervisorEntry};
use kernel_core::arch::riscv64::trap::{mtrap_handler, strap_handler, TrapAction};
use kernel_core::arch::riscv64::{enable_timer, set_timer, TimerCsrs, TIMER_INTERVAL};

fn ctx() -> Context {
    let mut regs = [0u64; 32];
    for (i, r) in regs.iter_mut().enumerate() {
        *r = (i as u64) * 3 + 1;
    }
    Context { regs }
}

#[test]
fn handover_sets_supervisor_and_opens_memory() {
    let e = trap_switch_to_s_level(0x1f_1888, 0x8000_0000);
    assert_eq!(
        e,
        SupervisorEntry {
            mstatus: 0x1f_0888,
            pmpcfg0: 0x1f,
            pmpaddr0: u64::MAX,
            satp: 0,
            mepc: 0x8000_0004,
        }
    );
    assert_eq!(trap_switch_to_s_level(0, 0).mstatus, 0x800);
    assert_eq!(trap_switch_to_s_level(0x1000, 0).mstatus, 0x800);
}

#[test]
fn supervisor_call_resumes_behind_the_call() {
    for cause in [8u64, 9] {
        let (c, action) = strap_handler(ctx(), cause, 0x1000, 77);
        assert_eq!(c.regs, ctx().regs);
        assert_eq!(action, TrapAction::SetPc { pc: 0x1004 });
    }
}

#[test]
fn supervisor_timer_is_set_anew() {
    let (c, action) = strap_handler(ctx(), 5 | (1 << 63), 0x1000, 5000);
    assert_eq!(c.regs, ctx().regs);
    assert_eq!(action, TrapAction::SetTimer { deadline: 5000 + TIMER_INTERVAL });
    assert_eq!(TIMER_INTERVAL, 1000);
}

#[test]
fn other_supervisor_traps_change_nothing() {
    for cause in [0u64, 5, 11, 8 | (1 << 63), 9 | (1 << 63), 7 | (1 << 63)] {
        let (c, action) = strap_handler(ctx(), cause, u64::MAX, u64::MAX);
        assert_eq!(c.regs, ctx().regs);
        assert_eq!(action, TrapAction::Resume);
    }
}

#[test]
fn machine_call_resumes_behind_the_call() {
    for cause in [8u64, 9, 11] {
        let (c, action) = mtrap_handler(ctx(), cause, 0x2000);
        assert_eq!(c.regs, ctx().regs);
        assert_eq!(action, TrapAction::SetPc { pc: 0x2004 });
    }
    assert_eq!(mtrap_handler(ctx(), 10, u64::MAX).1, TrapAction::Resume);
    assert_eq!(mtrap_handler(ctx(), 5 | (1 << 63), 0).1, TrapAction::Resume);
}

#[test]
fn timer_fires_one_interval_on() {
    assert_eq!(set_timer(10, 1000), 1010);
    assert_eq!(set_timer(u64::MAX - 1000, 1000), u64::MAX);
}

#[test]
fn enable_timer_sets_the_bits() {
    let r = enable_timer(TimerCsrs {
        mie: 0x1,
        sie: 0x20,
        sstatus: 0x100,
        menvcfg: 0x4,
        mcounteren: 0x1,
        mideleg: 0xdead,
    });
    assert_eq!(
        r,
        TimerCsrs {
            mie: 0x21,
            sie: 0x20,
            sstatus: 0x102,
            menvcfg: (1 << 63) | 0x4,
            mcounteren: 0x3,
            mideleg: 0xffff,
        }
    );
}
