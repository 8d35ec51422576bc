//! Access rights of a mapping, the kernel's segments, and what a
//! page-table manager offers.

use crate::arch::riscv64::pte::{leaf_entry, satp_value_of};
use crate::arch::riscv64::table::{can_map_all, map_all, Table, VPN_LIMIT};
use crate::buddy_allocator::BuddyAllocator;
use crate::PAGE_SIZE;
use vstd::prelude::*;

verus! {

/// A right that a mapping grants.
#[derive(Clone, Copy, Debug, PartialEq, Eq, Structural)]
pub enum PageACL {
    Read,
    Write,
    Execute,
}

/// Where the kernel's segments lie: the first address of each and the
/// address after its last.
#[derive(Clone, Copy, Debug)]
pub struct KernelLayout {
    pub text_start: u64,
    pub text_end: u64,
    pub rodata_start: u64,
    pub rodata_end: u64,
    pub data_start: u64,
    pub data_end: u64,
    pub bss_start: u64,
    pub bss_end: u64,
}

/// The rights of code: read and execute.
pub open spec fn text_mode() -> Seq<PageACL> {
    seq![PageACL::Read, PageACL::Execute]
}

/// The rights of constants: read.
pub open spec fn rodata_mode() -> Seq<PageACL> {
    seq![PageACL::Read]
}

/// The rights of data: read and write.
pub open spec fn data_mode() -> Seq<PageACL> {
    seq![PageACL::Read, PageACL::Write]
}

/// The pages of the segment from `start` to `end`, each mapped to itself
/// with the rights of `mode`: every page with its leaf entry.
pub open spec fn segment_pages(start: u64, end: u64, mode: Seq<PageACL>) -> Seq<(u64, u64)> {
    Seq::new(
        ((end - start) / (PAGE_SIZE as int)) as nat,
        |i: int| (((start >> 12) + i) as u64, leaf_entry(((start >> 12) + i) as u64, mode)),
    )
}

impl KernelLayout {
    /// No segment ends before it starts.
    pub open spec fn wf(self) -> bool {
        &&& self.text_start <= self.text_end
        &&& self.rodata_start <= self.rodata_end
        &&& self.data_start <= self.data_end
        &&& self.bss_start <= self.bss_end
    }

    /// The pages of the kernel's segments with their leaf entries: code,
    /// then constants, then data, then zeroed data.
    pub open spec fn pages(self) -> Seq<(u64, u64)> {
        segment_pages(self.text_start, self.text_end, text_mode()) + segment_pages(
            self.rodata_start,
            self.rodata_end,
            rodata_mode(),
        ) + segment_pages(self.data_start, self.data_end, data_mode()) + segment_pages(
            self.bss_start,
            self.bss_end,
            data_mode(),
        )
    }
}

/// What the manager of an address space's page table offers. The pages of
/// the table's directories come from the buddy allocator and go back to it.
pub trait PageManagement {
    /// The table as a value.
    open spec fn table(&self) -> Table {
        arbitrary()
    }

    /// Maps the virtual page `vpn` to the physical page `ppn` with the
    /// rights of `mode`. Directories that are missing on the way are made.
    fn map(&mut self, buddy: &mut BuddyAllocator, vpn: u64, ppn: u64, mode: &[PageACL])
        requires
            old(buddy).wf(),
            old(self).table().wf(),
            old(self).table().backed_by(old(buddy)@),
            old(self).table().can_map(old(buddy)@, vpn),
        ensures
            final(buddy).wf(),
            final(buddy)@ == old(self).table().heap_after_map(old(buddy)@, vpn),
            final(self).table() == old(self).table().mapped(
                old(buddy)@,
                vpn,
                leaf_entry(ppn, mode@),
            ),
            final(self).table().wf(),
            final(self).table().backed_by(final(buddy)@),
            final(self).table().walk(vpn) == Some(leaf_entry(ppn, mode@)),
            forall|other: u64|
                other < VPN_LIMIT && other != vpn ==> #[trigger] final(self).table().walk(other)
                    == old(self).table().walk(other),
    ;

    /// Maps a page of constants: read only.
    fn map_rodata(&mut self, buddy: &mut BuddyAllocator, vpn: u64, ppn: u64)
        requires
            old(buddy).wf(),
            old(self).table().wf(),
            old(self).table().backed_by(old(buddy)@),
            old(self).table().can_map(old(buddy)@, vpn),
        ensures
            final(buddy).wf(),
            final(buddy)@ == old(self).table().heap_after_map(old(buddy)@, vpn),
            final(self).table() == old(self).table().mapped(
                old(buddy)@,
                vpn,
                leaf_entry(ppn, rodata_mode()),
            ),
            final(self).table().wf(),
            final(self).table().backed_by(final(buddy)@),
    ;

    /// Maps a page of data: read and write.
    fn map_data(&mut self, buddy: &mut BuddyAllocator, vpn: u64, ppn: u64)
        requires
            old(buddy).wf(),
            old(self).table().wf(),
            old(self).table().backed_by(old(buddy)@),
            old(self).table().can_map(old(buddy)@, vpn),
        ensures
            final(buddy).wf(),
            final(buddy)@ == old(self).table().heap_after_map(old(buddy)@, vpn),
            final(self).table() == old(self).table().mapped(
                old(buddy)@,
                vpn,
                leaf_entry(ppn, data_mode()),
            ),
            final(self).table().wf(),
            final(self).table().backed_by(final(buddy)@),
    ;

    /// Maps a page of code: read and execute.
    fn map_text(&mut self, buddy: &mut BuddyAllocator, vpn: u64, ppn: u64)
        requires
            old(buddy).wf(),
            old(self).table().wf(),
            old(self).table().backed_by(old(buddy)@),
            old(self).table().can_map(old(buddy)@, vpn),
        ensures
            final(buddy).wf(),
            final(buddy)@ == old(self).table().heap_after_map(old(buddy)@, vpn),
            final(self).table() == old(self).table().mapped(
                old(buddy)@,
                vpn,
                leaf_entry(ppn, text_mode()),
            ),
            final(self).table().wf(),
            final(self).table().backed_by(final(buddy)@),
    ;

    /// Takes the mapping of the virtual page `vpn` out of the table.
    /// Directories that this leaves empty go back to the allocator, the
    /// lower one first.
    fn unmap(&mut self, buddy: &mut BuddyAllocator, vpn: u64)
        requires
            old(buddy).wf(),
            old(self).table().wf(),
            old(self).table().backed_by(old(buddy)@),
            old(self).table().can_unmap(old(buddy)@, vpn),
        ensures
            final(buddy).wf(),
            final(buddy)@ == old(self).table().heap_after_unmap(old(buddy)@, vpn),
            final(self).table() == old(self).table().unmapped(vpn),
            final(self).table().wf(),
            final(self).table().backed_by(final(buddy)@),
            final(self).table().walk(vpn) is None,
            forall|other: u64|
                other < VPN_LIMIT && other != vpn ==> #[trigger] final(self).table().walk(other)
                    == old(self).table().walk(other),
    ;

    /// The value of SATP that makes this table the one in use.
    fn switch_to(&self) -> (satp: u64)
        ensures
            satp == satp_value_of(self.table().root),
    ;

    /// Maps the kernel's segments to themselves: code to read and execute,
    /// constants to read, data and zeroed data to read and write.
    fn map_kernel_region(&mut self, buddy: &mut BuddyAllocator, layout: &KernelLayout)
        requires
            old(buddy).wf(),
            old(self).table().wf(),
            old(self).table().backed_by(old(buddy)@),
            layout.wf(),
            can_map_all(old(self).table(), old(buddy)@, layout.pages()),
        ensures
            final(buddy).wf(),
            (final(self).table(), final(buddy)@) == map_all(
                old(self).table(),
                old(buddy)@,
                layout.pages(),
            ),
            final(self).table().wf(),
            final(self).table().backed_by(final(buddy)@),
    ;
}

} // verus!
