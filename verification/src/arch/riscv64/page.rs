//! The SV39 page-table manager: the table that maps and unmaps pages,
//! taking the pages of its directories from the buddy allocator.

pub use crate::arch::riscv64::pte::{PageDtrectory, PageTableEntry, MODE_SV39};
use crate::arch::riscv64::pte::{leaf_entry, pte_bits, satp_value};
use crate::arch::riscv64::table::{
    all_zero, can_map_all, child, lemma_indices, lemma_link, lemma_map_all_concat, lemma_mapped,
    lemma_mapped_other, lemma_path, lemma_unmapped, lemma_unmapped_other, link, map_all, Shape,
    Table, DIR_ENTRIES, PPN_LIMIT, VPN_LIMIT,
};
use crate::buddy_allocator::BuddyAllocator;
use crate::page::{
    data_mode, rodata_mode, segment_pages, text_mode, KernelLayout, PageACL, PageManagement,
};
use crate::PAGE_SIZE;
use crate::power::{lemma_order_of_pow2, page_range};
use std::collections::HashMap;
use vstd::prelude::*;

verus! {

/// The page-table manager of one address space.
pub struct PageManager {
    /// The page of the root directory.
    pub root: u64,
    /// The directories of the table, each under the page that holds it.
    pub frames: HashMap<u64, PageDtrectory>,
}

impl PageManager {
    /// Takes a page for a directory from the allocator.
    pub fn alloc_page_dir(buddy: &mut BuddyAllocator) -> (ppn: u64)
        requires
            old(buddy).wf(),
            old(buddy)@.can_alloc(1),
        ensures
            final(buddy).wf(),
            final(buddy)@ == old(buddy)@.after_alloc(1),
            ppn == old(buddy)@.alloc_base(1),
            old(buddy)@.start <= ppn < old(buddy)@.start + old(buddy)@.pages,
            old(buddy)@.free.contains(ppn - old(buddy)@.start),
    {
        let ppn = buddy.alloc_pages(1);
        proof {
            assert(page_range(ppn - old(buddy)@.start, 1).contains(ppn - old(buddy)@.start));
        }
        ppn
    }

    /// Gives the page of a directory back to the allocator.
    pub fn release_page_dir(buddy: &mut BuddyAllocator, ppn: u64)
        requires
            old(buddy).wf(),
            old(buddy)@.can_free(ppn as int, 1),
        ensures
            final(buddy).wf(),
            final(buddy)@ == old(buddy)@.after_free(ppn as int, 1),
    {
        buddy.free_pages(ppn, 1);
    }

    /// Whether a table can be made, with an allocator that manages `pages`
    /// pages: the allocator has a page for the root directory, and a table
    /// can point to every page of the heap.
    pub fn can_new(buddy: &BuddyAllocator, pages: u64) -> (ok: bool)
        requires
            buddy.wf(),
            pages == buddy@.pages,
        ensures
            ok == (buddy@.can_alloc(1) && buddy@.start + buddy@.pages <= PPN_LIMIT),
    {
        proof {
            buddy.lemma_free_pages();
        }
        pages <= PPN_LIMIT && buddy.start <= PPN_LIMIT - pages && buddy.can_alloc(1)
    }

    /// A table of one empty root directory, in a page from the allocator.
    pub fn new(buddy: &mut BuddyAllocator) -> (pm: Self)
        requires
            old(buddy).wf(),
            old(buddy)@.can_alloc(1),
            old(buddy)@.start + old(buddy)@.pages <= PPN_LIMIT,
        ensures
            final(buddy).wf(),
            final(buddy)@ == old(buddy)@.after_alloc(1),
            pm.table() == Table::empty(old(buddy)@.alloc_base(1) as u64),
            pm.table().wf(),
            pm.table().backed_by(final(buddy)@),
    {
        let root_pdir = Self::alloc_page_dir(buddy);
        let mut frames: HashMap<u64, PageDtrectory> = HashMap::new();
        frames.insert(root_pdir, PageDtrectory::zeroed());
        let pm = PageManager { root: root_pdir, frames };
        proof {
            assert(pm.table().dirs =~= Table::empty(root_pdir).dirs);
            crate::arch::riscv64::table::lemma_empty(root_pdir);
        }
        pm
    }

    /// What a walk of the table for the virtual page `vpn` finds: the leaf
    /// entry, if the way to it is there and it is not zero.
    pub fn walk(&self, vpn: u64) -> (leaf: Option<u64>)
        requires
            self.table().wf(),
            vpn < VPN_LIMIT,
        ensures
            leaf == self.table().walk(vpn),
    {
        let ghost t = self.table();
        let ghost s = choose|s: Shape| t.tree(s);
        proof {
            lemma_indices(vpn);
            lemma_path(t, s, vpn);
        }
        let v1 = (vpn >> 18) as usize;
        let v2 = ((vpn >> 9) & 0x1ff) as usize;
        let v3 = (vpn & 0x1ff) as usize;
        let v1_pte = self.entry(self.root, v1);
        if v1_pte == 0 {
            return None;
        }
        let v2_pte = self.entry(v1_pte >> 10, v2);
        if v2_pte == 0 {
            return None;
        }
        let v3_pte = self.entry(v2_pte >> 10, v3);
        if v3_pte == 0 {
            None
        } else {
            Some(v3_pte)
        }
    }

    /// Whether `vpn` can be mapped: it is a virtual page number, and the
    /// allocator has the pages for the directories that are missing on the
    /// way to it.
    pub fn can_map(&self, buddy: &BuddyAllocator, vpn: u64) -> (ok: bool)
        requires
            self.table().wf(),
            buddy.wf(),
        ensures
            ok == self.table().can_map(buddy@, vpn),
    {
        if vpn >= VPN_LIMIT {
            return false;
        }
        let ghost t = self.table();
        let ghost s = choose|s: Shape| t.tree(s);
        proof {
            lemma_indices(vpn);
            lemma_path(t, s, vpn);
        }
        let v1 = (vpn >> 18) as usize;
        let v2 = ((vpn >> 9) & 0x1ff) as usize;
        let v1_pte = self.entry(self.root, v1);
        if v1_pte == 0 {
            let mut trial = buddy.duplicate();
            if !trial.can_alloc(1) {
                return false;
            }
            trial.alloc_pages(1);
            return trial.can_alloc(1);
        }
        let v2_pte = self.entry(v1_pte >> 10, v2);
        if v2_pte == 0 {
            return buddy.can_alloc(1);
        }
        true
    }

    /// Whether `vpn` can be unmapped, with an allocator that manages
    /// `pages` pages: the directories on the way to it are there, and the
    /// allocator can take the pages of those that are left empty.
    pub fn can_unmap(&self, buddy: &BuddyAllocator, pages: u64, vpn: u64) -> (ok: bool)
        requires
            self.table().wf(),
            buddy.wf(),
            pages == buddy@.pages,
        ensures
            ok == self.table().can_unmap(buddy@, vpn),
    {
        if vpn >= VPN_LIMIT {
            return false;
        }
        let ghost t = self.table();
        let ghost s = choose|s: Shape| t.tree(s);
        proof {
            lemma_indices(vpn);
            lemma_path(t, s, vpn);
        }
        let v1 = (vpn >> 18) as usize;
        let v2 = ((vpn >> 9) & 0x1ff) as usize;
        let v3 = (vpn & 0x1ff) as usize;
        let v1_pte = self.entry(self.root, v1);
        if v1_pte == 0 {
            return false;
        }
        let v2_pte = self.entry(v1_pte >> 10, v2);
        if v2_pte == 0 {
            return false;
        }
        let d1 = v1_pte >> 10;
        let d0 = v2_pte >> 10;
        let ghost c = t.with_entry(d0, v3 as int, 0);
        let ghost c1 = c.detached(d1, v2 as int);
        proof {
            assert(c.dirs.contains_key(d0) && c.dirs.contains_key(d1) && c.dirs.contains_key(c.root));
            assert(c.dir0(vpn) == d0 && c.dir1(vpn) == d1);
            assert(c.dirs[d0] == t.dirs[d0].update(v3 as int, 0));
            assert(c1.dirs.contains_key(d1));
            assert(c1.dir1(vpn) == d1);
            assert(c1.dirs[d1] == t.dirs[d1].update(v2 as int, 0));
        }
        if !self.frames.get(&d0).unwrap().is_empty_but(v3) {
            return true;
        }
        if !buddy.can_free(pages, d0, 1) {
            return false;
        }
        if !self.frames.get(&d1).unwrap().is_empty_but(v2) {
            return true;
        }
        let mut trial = buddy.duplicate();
        trial.free_pages(d0, 1);
        trial.can_free(pages, d1, 1)
    }

    /// The page of the root directory.
    pub fn root_ppn(&self) -> (ppn: u64)
        ensures
            ppn == self.table().root,
    {
        self.root
    }

    /// Entry `i` of the directory in page `dir`.
    fn entry(&self, dir: u64, i: usize) -> (e: u64)
        requires
            self.frames@.contains_key(dir),
            i < DIR_ENTRIES,
        ensures
            e == self.table().dirs[dir][i as int],
    {
        let d = self.frames.get(&dir).unwrap();
        d.ptes[i]
    }

    /// Sets entry `i` of the directory in page `dir`.
    fn set_entry(&mut self, dir: u64, i: usize, bits: u64)
        requires
            old(self).frames@.contains_key(dir),
            i < DIR_ENTRIES,
        ensures
            final(self).table() == old(self).table().with_entry(dir, i as int, bits),
            final(self).root == old(self).root,
    {
        let mut d = self.frames.remove(&dir).unwrap();
        d.ptes[i] = bits;
        self.frames.insert(dir, d);
        proof {
            assert(self.table().dirs =~= old(self).table().with_entry(dir, i as int, bits).dirs);
        }
    }

    /// Puts a new, empty directory into page `ppn` and enters it in slot `i`
    /// of the directory in page `dir`.
    fn attach(&mut self, dir: u64, i: usize, ppn: u64)
        requires
            old(self).frames@.contains_key(dir),
            !old(self).frames@.contains_key(ppn),
            i < DIR_ENTRIES,
        ensures
            final(self).table() == old(self).table().attached(dir, i as int, ppn),
            final(self).root == old(self).root,
    {
        self.frames.insert(ppn, PageDtrectory::zeroed());
        let pte = PageTableEntry { r: false, w: false, x: false, u: false, ppn };
        let mut d = self.frames.remove(&dir).unwrap();
        d.set_pte(i, pte);
        self.frames.insert(dir, d);
        proof {
            assert(pte_bits(pte) == link(ppn)) by {
                assert(1u64 | 0 | 0 | 0 | 0 | (ppn << 10) == (ppn << 10) | 1) by (bit_vector);
            }
            assert(self.table().dirs =~= old(self).table().attached(dir, i as int, ppn).dirs);
        }
    }

    /// Takes the directory in page `ppn`, which slot `i` of the directory in
    /// page `dir` points to, out of the table.
    fn detach(&mut self, dir: u64, i: usize, ppn: u64)
        requires
            old(self).frames@.contains_key(dir),
            old(self).frames@.contains_key(ppn),
            dir != ppn,
            i < DIR_ENTRIES,
            ppn == child(old(self).table().dirs[dir][i as int]),
        ensures
            final(self).table() == old(self).table().detached(dir, i as int),
            final(self).root == old(self).root,
    {
        self.frames.remove(&ppn);
        let mut d = self.frames.remove(&dir).unwrap();
        d.ptes[i] = 0;
        self.frames.insert(dir, d);
        proof {
            assert(self.table().dirs =~= old(self).table().detached(dir, i as int).dirs);
        }
    }

    /// Whether the directory in page `dir` holds no entry.
    fn dir_is_empty(&self, dir: u64) -> (empty: bool)
        requires
            self.frames@.contains_key(dir),
        ensures
            empty == all_zero(self.table().dirs[dir]),
    {
        self.frames.get(&dir).unwrap().is_empty()
    }
}

impl PageManagement for PageManager {
    open spec fn table(&self) -> Table {
        Table {
            root: self.root,
            dirs: Map::new(
                |f: u64| self.frames@.contains_key(f),
                |f: u64| self.frames@[f].ptes@,
            ),
        }
    }

    fn map(&mut self, buddy: &mut BuddyAllocator, vpn: u64, ppn: u64, mode: &[PageACL]) {
        let ghost t0 = self.table();
        let ghost h0 = buddy@;
        let ghost s0 = choose|s: Shape| t0.tree(s);
        let mut r = false;
        let mut w = false;
        let mut x = false;
        let mut k: usize = 0;
        while k < mode.len()
            invariant
                k <= mode@.len(),
                r == mode@.subrange(0, k as int).contains(PageACL::Read),
                w == mode@.subrange(0, k as int).contains(PageACL::Write),
                x == mode@.subrange(0, k as int).contains(PageACL::Execute),
            decreases mode@.len() - k,
        {
            proof {
                let head = mode@.subrange(0, k as int);
                let next = mode@.subrange(0, k + 1);
                assert(next =~= head.push(mode@[k as int]));
                assert forall|a: PageACL| next.contains(a) <==> (head.contains(a) || a
                    == mode@[k as int]) by {
                    if head.contains(a) {
                        let j = choose|j: int| 0 <= j < head.len() && head[j] == a;
                        assert(next[j] == a);
                    }
                    if a == mode@[k as int] {
                        assert(next[k as int] == a);
                    }
                }
            }
            match mode[k] {
                PageACL::Read => {
                    r = true;
                },
                PageACL::Write => {
                    w = true;
                },
                PageACL::Execute => {
                    x = true;
                },
            }
            k += 1;
        }
        assert(mode@.subrange(0, mode@.len() as int) =~= mode@);
        let leaf = PageTableEntry { r, w, x, u: false, ppn };
        let leaf_bits = u64::from(leaf);
        proof {
            let a: u64 = if r { 2 } else { 0 };
            let b: u64 = if w { 4 } else { 0 };
            let c: u64 = if x { 8 } else { 0 };
            let e: u64 = ppn << 10;
            assert((1u64 | a | b | c | 0 | e) != 0) by (bit_vector);
            assert(leaf_bits == leaf_entry(ppn, mode@));
            lemma_indices(vpn);
            lemma_path(t0, s0, vpn);
            lemma_order_of_pow2(0);
            vstd::arithmetic::power2::lemma2_to64();
        }
        let v1 = (vpn >> 18) as usize;
        let v2 = ((vpn >> 9) & 0x1ff) as usize;
        let v3 = (vpn & 0x1ff) as usize;
        assert(t0.dirs.contains_key(self.root));
        let v1_pte = self.entry(self.root, v1);
        let v1_pte: PageTableEntry = if v1_pte == 0 {
            let ppn = Self::alloc_page_dir(buddy);
            proof {
                assert(t0.dirs.contains_key(ppn) == self.frames@.contains_key(ppn));
                lemma_link(ppn);
            }
            self.attach(self.root, v1, ppn);
            PageTableEntry { r: false, w: false, x: false, u: false, ppn }
        } else {
            PageTableEntry::from(v1_pte)
        };
        let ghost t1 = self.table();
        let ghost h1 = buddy@;
        assert(v1_pte.ppn == t1.dir1(vpn));
        assert(t1.dirs.contains_key(v1_pte.ppn));
        assert(forall|d: u64| t1.dirs.contains_key(d) ==> t0.dirs.contains_key(d) || (t0.missing(vpn)
            == 2 && d == h0.alloc_base(1)));
        let v2_pte = self.entry(v1_pte.ppn, v2);
        let v2_pte: PageTableEntry = if v2_pte == 0 {
            let ppn = Self::alloc_page_dir(buddy);
            proof {
                assert(t1.dirs.contains_key(ppn) == self.frames@.contains_key(ppn));
                if t1.dirs.contains_key(ppn) {
                    if t0.dirs.contains_key(ppn) {
                        assert(!h0.free.contains(ppn - h0.start));
                    }
                    assert(false);
                }
                lemma_link(ppn);
            }
            self.attach(v1_pte.ppn, v2, ppn);
            PageTableEntry { r: false, w: false, x: false, u: false, ppn }
        } else {
            PageTableEntry::from(v2_pte)
        };
        let ghost t2 = self.table();
        assert(v2_pte.ppn == t2.dir0(vpn));
        assert(t2.dirs.contains_key(v2_pte.ppn));
        self.set_entry(v2_pte.ppn, v3, leaf_bits);
        proof {
            let fa = h0.alloc_base(1) as u64;
            let fb = h0.after_alloc(1).alloc_base(1) as u64;
            assert(self.table() == t0.mapped_with(vpn, leaf_bits, fa, fb));
            lemma_mapped(t0, vpn, leaf_bits, fa, fb);
            assert forall|other: u64| other < VPN_LIMIT && other != vpn implies #[trigger] self.table().walk(
                other,
            ) == t0.walk(other) by {
                lemma_mapped_other(t0, vpn, leaf_bits, fa, fb, other);
            }
            let t3 = self.table();
            let h3 = buddy@;
            assert forall|d: u64| #[trigger] t3.dirs.contains_key(d) implies h3.start <= d < h3.start
                + h3.pages && !h3.free.contains(d - h3.start) by {
                if t0.dirs.contains_key(d) {
                    assert(!h0.free.contains(d - h0.start));
                }
            }
        }
    }

    fn unmap(&mut self, buddy: &mut BuddyAllocator, vpn: u64) {
        let ghost t0 = self.table();
        let ghost h0 = buddy@;
        let ghost s0 = choose|s: Shape| t0.tree(s);
        proof {
            lemma_indices(vpn);
            lemma_path(t0, s0, vpn);
            lemma_unmapped(t0, vpn);
        }
        let v1 = (vpn >> 18) as usize;
        let v2 = ((vpn >> 9) & 0x1ff) as usize;
        let v3 = (vpn & 0x1ff) as usize;
        assert(t0.dirs.contains_key(self.root));
        let v1_pte = PageTableEntry::from(self.entry(self.root, v1));
        assert(t0.dirs.contains_key(v1_pte.ppn));
        let v2_pte = PageTableEntry::from(self.entry(v1_pte.ppn, v2));
        let ghost d1 = v1_pte.ppn;
        let ghost d0 = v2_pte.ppn;
        assert(t0.dirs.contains_key(d0));
        self.set_entry(v2_pte.ppn, v3, 0);
        let ghost c = self.table();
        assert(c.dirs.contains_key(d0) && c.dirs.contains_key(d1) && c.dirs.contains_key(c.root));
        assert(c.dir0(vpn) == d0 && c.dir1(vpn) == d1);
        if self.dir_is_empty(v2_pte.ppn) {
            assert(t0.released(vpn)[0] == d0);
            Self::release_page_dir(buddy, v2_pte.ppn);
            self.detach(v1_pte.ppn, v2, v2_pte.ppn);
            let ghost c1 = self.table();
            assert(c1.dirs.contains_key(d1) && c1.dirs.contains_key(c1.root));
            assert(c1.dir1(vpn) == d1);
            if self.dir_is_empty(v1_pte.ppn) {
                assert(t0.released(vpn)[1] == d1);
                Self::release_page_dir(buddy, v1_pte.ppn);
                self.detach(self.root, v1, v1_pte.ppn);
            }
        }
        proof {
            let t3 = self.table();
            let h3 = buddy@;
            assert(t3 == t0.unmapped(vpn));
            assert forall|other: u64| other < VPN_LIMIT && other != vpn implies #[trigger] t3.walk(
                other,
            ) == t0.walk(other) by {
                lemma_unmapped_other(t0, vpn, other);
            }
            assert forall|d: u64| #[trigger] t3.dirs.contains_key(d) implies h3.start <= d < h3.start
                + h3.pages && !h3.free.contains(d - h3.start) by {
                assert(t0.dirs.contains_key(d));
                assert(!h0.free.contains(d - h0.start));
                assert(!t0.released(vpn).contains(d));
                if t0.released(vpn).len() >= 1 {
                    assert(t0.released(vpn)[0] != d);
                }
                if t0.released(vpn).len() == 2 {
                    assert(t0.released(vpn)[1] != d);
                }
            }
        }
    }

    fn switch_to(&self) -> (satp: u64) {
        satp_value(self.root_ppn(), MODE_SV39)
    }

    fn map_rodata(&mut self, buddy: &mut BuddyAllocator, vpn: u64, ppn: u64) {
        let mode = [PageACL::Read];
        assert(mode@ =~= rodata_mode());
        self.map(buddy, vpn, ppn, mode.as_slice());
    }


    fn map_data(&mut self, buddy: &mut BuddyAllocator, vpn: u64, ppn: u64) {
        let mode = [PageACL::Read, PageACL::Write];
        assert(mode@ =~= data_mode());
        self.map(buddy, vpn, ppn, mode.as_slice());
    }


    fn map_text(&mut self, buddy: &mut BuddyAllocator, vpn: u64, ppn: u64) {
        let mode = [PageACL::Read, PageACL::Execute];
        assert(mode@ =~= text_mode());
        self.map(buddy, vpn, ppn, mode.as_slice());
    }


    fn map_kernel_region(&mut self, buddy: &mut BuddyAllocator, layout: &KernelLayout) {
        let ghost t0 = self.table();
        let ghost h0 = buddy@;
        let ghost text = segment_pages(layout.text_start, layout.text_end, text_mode());
        let ghost rodata = segment_pages(layout.rodata_start, layout.rodata_end, rodata_mode());
        let ghost data = segment_pages(layout.data_start, layout.data_end, data_mode());
        let ghost bss = segment_pages(layout.bss_start, layout.bss_end, data_mode());
        proof {
            lemma_map_all_concat(t0, h0, text + rodata + data, bss);
            lemma_map_all_concat(t0, h0, text + rodata, data);
            lemma_map_all_concat(t0, h0, text, rodata);
        }
        let text_acl = [PageACL::Read, PageACL::Execute];
        let rodata_acl = [PageACL::Read];
        let data_acl = [PageACL::Read, PageACL::Write];
        assert(text_acl@ =~= text_mode());
        assert(rodata_acl@ =~= rodata_mode());
        assert(data_acl@ =~= data_mode());
        self.map_segment(buddy, layout.text_start, layout.text_end, text_acl.as_slice());
        self.map_segment(buddy, layout.rodata_start, layout.rodata_end, rodata_acl.as_slice());
        self.map_segment(buddy, layout.data_start, layout.data_end, data_acl.as_slice());
        self.map_segment(buddy, layout.bss_start, layout.bss_end, data_acl.as_slice());
    }

}

impl PageManager {
    /// Maps the pages of one segment to themselves with the rights of
    /// `mode`, as far as the allocator has the pages for the directories,
    /// and tells whether it mapped them all.
    fn try_map_segment(
        &mut self,
        buddy: &mut BuddyAllocator,
        start: u64,
        end: u64,
        mode: &[PageACL],
    ) -> (done: bool)
        requires
            old(buddy).wf(),
            old(self).table().wf(),
            old(self).table().backed_by(old(buddy)@),
            start <= end,
        ensures
            final(buddy).wf(),
            final(self).table().wf(),
            final(self).table().backed_by(final(buddy)@),
            done == can_map_all(old(self).table(), old(buddy)@, segment_pages(start, end, mode@)),
            done ==> (final(self).table(), final(buddy)@) == map_all(
                old(self).table(),
                old(buddy)@,
                segment_pages(start, end, mode@),
            ),
    {
        let ghost pages = segment_pages(start, end, mode@);
        let ghost t0 = self.table();
        let ghost h0 = buddy@;
        let count = (end - start) / PAGE_SIZE;
        let first = start >> 12;
        assert(first + count <= u64::MAX) by {
            assert(start <= end ==> (start >> 12) + (end - start) / 4096 <= 0xffff_ffff_ffff_ffff)
                by (bit_vector);
        }
        let mut i: u64 = 0;
        assert(pages.skip(0) =~= pages);
        while i < count
            invariant
                i <= count,
                first == start >> 12,
                first + count <= u64::MAX,
                pages == segment_pages(start, end, mode@),
                pages.len() == count,
                buddy.wf(),
                self.table().wf(),
                self.table().backed_by(buddy@),
                t0 == old(self).table(),
                h0 == old(buddy)@,
                can_map_all(self.table(), buddy@, pages.skip(i as int)) == can_map_all(t0, h0, pages),
                map_all(self.table(), buddy@, pages.skip(i as int)) == map_all(t0, h0, pages),
            decreases count - i,
        {
            proof {
                assert(pages.skip(i as int)[0] == pages[i as int]);
                assert(pages.skip(i as int).drop_first() =~= pages.skip(i + 1));
            }
            if !self.can_map(buddy, first + i) {
                proof {
                    assert(pages.skip(i as int)[0].0 == first + i);
                    assert(!can_map_all(self.table(), buddy@, pages.skip(i as int)));
                }
                return false;
            }
            self.map(buddy, first + i, first + i, mode);
            i += 1;
        }
        proof {
            assert(pages.skip(count as int).len() == 0);
        }
        true
    }

    /// Maps the kernel's segments to themselves as far as the allocator has
    /// the pages for the directories, and tells whether it mapped them all.
    pub fn try_map_kernel_region(&mut self, buddy: &mut BuddyAllocator, layout: &KernelLayout) -> (done:
        bool)
        requires
            old(buddy).wf(),
            old(self).table().wf(),
            old(self).table().backed_by(old(buddy)@),
            layout.wf(),
        ensures
            final(buddy).wf(),
            final(self).table().wf(),
            final(self).table().backed_by(final(buddy)@),
            done == can_map_all(old(self).table(), old(buddy)@, layout.pages()),
            done ==> (final(self).table(), final(buddy)@) == map_all(
                old(self).table(),
                old(buddy)@,
                layout.pages(),
            ),
    {
        let ghost t0 = self.table();
        let ghost h0 = buddy@;
        let ghost text = segment_pages(layout.text_start, layout.text_end, text_mode());
        let ghost rodata = segment_pages(layout.rodata_start, layout.rodata_end, rodata_mode());
        let ghost data = segment_pages(layout.data_start, layout.data_end, data_mode());
        let ghost bss = segment_pages(layout.bss_start, layout.bss_end, data_mode());
        proof {
            lemma_map_all_concat(t0, h0, text + rodata + data, bss);
            lemma_map_all_concat(t0, h0, text + rodata, data);
            lemma_map_all_concat(t0, h0, text, rodata);
        }
        let text_acl = [PageACL::Read, PageACL::Execute];
        let rodata_acl = [PageACL::Read];
        let data_acl = [PageACL::Read, PageACL::Write];
        assert(text_acl@ =~= text_mode());
        assert(rodata_acl@ =~= rodata_mode());
        assert(data_acl@ =~= data_mode());
        if !self.try_map_segment(buddy, layout.text_start, layout.text_end, text_acl.as_slice()) {
            return false;
        }
        if !self.try_map_segment(buddy, layout.rodata_start, layout.rodata_end, rodata_acl.as_slice()) {
            return false;
        }
        if !self.try_map_segment(buddy, layout.data_start, layout.data_end, data_acl.as_slice()) {
            return false;
        }
        self.try_map_segment(buddy, layout.bss_start, layout.bss_end, data_acl.as_slice())
    }

    /// Maps the pages of one segment to themselves with the rights of `mode`.
    fn map_segment(&mut self, buddy: &mut BuddyAllocator, start: u64, end: u64, mode: &[PageACL])
        requires
            old(buddy).wf(),
            old(self).table().wf(),
            old(self).table().backed_by(old(buddy)@),
            start <= end,
            can_map_all(old(self).table(), old(buddy)@, segment_pages(start, end, mode@)),
        ensures
            final(buddy).wf(),
            (final(self).table(), final(buddy)@) == map_all(
                old(self).table(),
                old(buddy)@,
                segment_pages(start, end, mode@),
            ),
            final(self).table().wf(),
            final(self).table().backed_by(final(buddy)@),
    {
        let ghost pages = segment_pages(start, end, mode@);
        let count = (end - start) / PAGE_SIZE;
        let first = start >> 12;
        assert(first + count <= u64::MAX) by {
            assert(start <= end ==> (start >> 12) + (end - start) / 4096 <= 0xffff_ffff_ffff_ffff)
                by (bit_vector);
        }
        let mut i: u64 = 0;
        assert(pages.skip(0) =~= pages);
        while i < count
            invariant
                i <= count,
                first == start >> 12,
                first + count <= u64::MAX,
                pages == segment_pages(start, end, mode@),
                pages.len() == count,
                buddy.wf(),
                self.table().wf(),
                self.table().backed_by(buddy@),
                can_map_all(self.table(), buddy@, pages.skip(i as int)),
                map_all(self.table(), buddy@, pages.skip(i as int)) == map_all(
                    old(self).table(),
                    old(buddy)@,
                    pages,
                ),
            decreases count - i,
        {
            proof {
                assert(pages.skip(i as int)[0] == pages[i as int]);
                assert(pages.skip(i as int).drop_first() =~= pages.skip(i + 1));
            }
            self.map(buddy, first + i, first + i, mode);
            i += 1;
        }
        proof {
            assert(pages.skip(count as int).len() == 0);
        }
    }
}

} // verus!
