//! What depends on the machine.

pub mod riscv64;
