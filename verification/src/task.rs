//! The tasks: each with its number and its address space.

use crate::arch::riscv64::page::PageManager;
use crate::arch::riscv64::pte::satp_value_of;
use crate::arch::riscv64::table::{can_map_all, map_all, Table, PPN_LIMIT};
use crate::buddy_allocator::BuddyAllocator;
use crate::page::{KernelLayout, PageManagement};
use vstd::prelude::*;

verus! {

/// The number of the kernel's task.
pub const KERNEL_PID: usize = 0;

/// A task.
pub struct Task {
    pub pid: usize,
    /// The task's address space.
    pub page: PageManager,
}

/// Whether the kernel's task can be made, with an allocator that manages
/// `pages` pages: no segment ends before it starts, a page table can point
/// to every page of the heap, and the allocator has the pages for the root
/// directory and for the directories on the way to every page of the
/// kernel's segments.
pub fn can_task_init(buddy: &BuddyAllocator, pages: u64, layout: &KernelLayout) -> (ok: bool)
    requires
        buddy.wf(),
        pages == buddy@.pages,
    ensures
        ok == (layout.wf() && buddy@.can_alloc(1) && buddy@.start + buddy@.pages <= PPN_LIMIT
            && can_map_all(
            Table::empty(buddy@.alloc_base(1) as u64),
            buddy@.after_alloc(1),
            layout.pages(),
        )),
{
    let ordered = layout.text_start <= layout.text_end && layout.rodata_start <= layout.rodata_end
        && layout.data_start <= layout.data_end && layout.bss_start <= layout.bss_end;
    if !ordered || !PageManager::can_new(buddy, pages) {
        return false;
    }
    let mut trial = buddy.duplicate();
    let mut page = PageManager::new(&mut trial);
    page.try_map_kernel_region(&mut trial, layout)
}

/// Whether a task can be added, with an allocator that manages `pages`
/// pages: there is room for its number, a page table can point to every
/// page of the heap, and the allocator has a page for the root directory.
pub fn can_fork(tasks: &Vec<Task>, buddy: &BuddyAllocator, pages: u64) -> (ok: bool)
    requires
        buddy.wf(),
        pages == buddy@.pages,
    ensures
        ok == (tasks@.len() < usize::MAX && buddy@.can_alloc(1) && buddy@.start + buddy@.pages
            <= PPN_LIMIT),
{
    tasks.len() < usize::MAX && PageManager::can_new(buddy, pages)
}

/// Makes the kernel's task: its table maps the kernel's segments to
/// themselves. Hands out the tasks, of which it is the only one, and the
/// value of SATP that puts its table to use.
pub fn task_init(buddy: &mut BuddyAllocator, layout: &KernelLayout) -> (r: (Vec<Task>, u64))
    requires
        old(buddy).wf(),
        old(buddy)@.can_alloc(1),
        old(buddy)@.start + old(buddy)@.pages <= PPN_LIMIT,
        layout.wf(),
        can_map_all(
            Table::empty(old(buddy)@.alloc_base(1) as u64),
            old(buddy)@.after_alloc(1),
            layout.pages(),
        ),
    ensures
        final(buddy).wf(),
        r.0@.len() == 1,
        r.0@[0].pid == KERNEL_PID,
        (r.0@[0].page.table(), final(buddy)@) == map_all(
            Table::empty(old(buddy)@.alloc_base(1) as u64),
            old(buddy)@.after_alloc(1),
            layout.pages(),
        ),
        r.0@[0].page.table().wf(),
        r.0@[0].page.table().backed_by(final(buddy)@),
        r.1 == satp_value_of(r.0@[0].page.table().root),
{
    let mut kernel_page = PageManager::new(buddy);
    kernel_page.map_kernel_region(buddy, layout);
    let satp = kernel_page.switch_to();
    let kernel_task = Task { page: kernel_page, pid: KERNEL_PID };
    let mut tasks: Vec<Task> = Vec::new();
    tasks.push(kernel_task);
    (tasks, satp)
}

/// Appends a task with an empty address space of its own; its number is
/// one more than there were tasks.
pub fn kernel_fork(tasks: &mut Vec<Task>, buddy: &mut BuddyAllocator)
    requires
        old(tasks)@.len() < usize::MAX,
        old(buddy).wf(),
        old(buddy)@.can_alloc(1),
        old(buddy)@.start + old(buddy)@.pages <= PPN_LIMIT,
    ensures
        final(buddy).wf(),
        final(buddy)@ == old(buddy)@.after_alloc(1),
        final(tasks)@.len() == old(tasks)@.len() + 1,
        forall|i: int| 0 <= i < old(tasks)@.len() ==> final(tasks)@[i] == old(tasks)@[i],
        final(tasks)@.last().pid == old(tasks)@.len() + 1,
        final(tasks)@.last().page.table() == Table::empty(old(buddy)@.alloc_base(1) as u64),
        final(tasks)@.last().page.table().wf(),
        final(tasks)@.last().page.table().backed_by(final(buddy)@),
{
    let new_task = Task { pid: tasks.len() + 1, page: PageManager::new(buddy) };
    tasks.push(new_task);
}

} // verus!
