//! Memory management and core services of a small single-hart kernel:
//! a buddy page allocator, a slab object cache on top of it, an SV39
//! page-table manager, and the pseudo-random generator, virtual file
//! system and message log that the kernel builds on them.

use vstd::prelude::*;

pub mod arch;
pub mod buddy_allocator;
pub mod buddy_cover;
pub mod buddy_laws;
pub mod buddy_lists;
pub mod cache_laws;
pub mod cache_manager;
pub mod crypto_framework;
pub mod devfs;
pub mod kmsg;
pub mod mcache;
pub mod page;
pub mod power;
pub mod rand;
pub mod task;
pub mod vfs;

verus! {

/// Size of a physical page in bytes.
pub const PAGE_SIZE: u64 = 4096;

} // verus!
