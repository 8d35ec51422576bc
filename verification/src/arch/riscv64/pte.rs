//! Page-table entries and page directories of SV39.

use crate::arch::riscv64::table::{all_zero, zeros, DIR_ENTRIES};
use crate::page::PageACL;
use vstd::prelude::*;
use vstd::std_specs::convert::FromSpecImpl;

verus! {


/// The mode field of SATP that selects SV39.
pub const MODE_SV39: u64 = 8;

/// The entry is valid.
pub const PTE_V_FLAG: u64 = 1;

/// The page may be read.
pub const PTE_R_FLAG: u64 = 2;

/// The page may be written.
pub const PTE_W_FLAG: u64 = 4;

/// The page may be executed.
pub const PTE_X_FLAG: u64 = 8;

/// The page is open to user mode.
pub const PTE_U_FLAG: u64 = 16;

/// The value of SATP that selects SV39 and the root directory in page `ppn`.
pub open spec fn satp_value_of(ppn: u64) -> u64 {
    ppn | (8u64 << 60)
}

/// The value of SATP that selects `mode` and the root directory in page `ppn`.
pub fn satp_value(ppn: u64, mode: u64) -> (satp: u64)
    ensures
        satp == ppn | (mode << 60),
{
    ppn | (mode << 60)
}

/// A page-table entry, unpacked. Packed it is valid: an entry that is not
/// zero counts as valid.
#[derive(Clone, Copy, Debug, PartialEq, Eq, Structural)]
pub struct PageTableEntry {
    pub r: bool,
    pub w: bool,
    pub x: bool,
    pub u: bool,
    pub ppn: u64,
}

/// The entry as 64 bits: bit 0 valid, bits 1 to 4 read, write, execute and
/// user, the page number from bit 10 on.
pub open spec fn pte_bits(pte: PageTableEntry) -> u64 {
    1 | (if pte.r {
        2u64
    } else {
        0
    }) | (if pte.w {
        4u64
    } else {
        0
    }) | (if pte.x {
        8u64
    } else {
        0
    }) | (if pte.u {
        16u64
    } else {
        0
    }) | (pte.ppn << 10)
}

/// The entry that 64 bits stand for.
pub open spec fn pte_of(bits: u64) -> PageTableEntry {
    PageTableEntry {
        r: bits & 2 != 0,
        w: bits & 4 != 0,
        x: bits & 8 != 0,
        u: bits & 16 != 0,
        ppn: bits >> 10,
    }
}

/// Packing an entry and unpacking it again gives the entry, where its page
/// number has no more than 54 bits; packed, the entry is valid.
pub proof fn lemma_pte_round_trip(pte: PageTableEntry)
    requires
        pte.ppn < 0x40_0000_0000_0000,
    ensures
        pte_of(pte_bits(pte)) == pte,
        pte_bits(pte) & 1 == 1,
        pte_bits(pte) != 0,
{
    let r: u64 = if pte.r {
        2
    } else {
        0
    };
    let w: u64 = if pte.w {
        4
    } else {
        0
    };
    let x: u64 = if pte.x {
        8
    } else {
        0
    };
    let u: u64 = if pte.u {
        16
    } else {
        0
    };
    let p = pte.ppn;
    let v = 1u64 | r | w | x | u | (p << 10);
    assert(v == pte_bits(pte));
    assert((v & 2 != 0) == (r == 2) && (v & 4 != 0) == (w == 4) && (v & 8 != 0) == (x == 8) && (v
        & 16 != 0) == (u == 16) && v >> 10 == p && v & 1 == 1 && v != 0) by (bit_vector)
        requires
            v == 1u64 | r | w | x | u | (p << 10),
            r == 0 || r == 2,
            w == 0 || w == 4,
            x == 0 || x == 8,
            u == 0 || u == 16,
            p < 0x40_0000_0000_0000,
    ;
}

impl Default for PageTableEntry {
    fn default() -> (pte: Self)
        ensures
            pte == (PageTableEntry { r: false, w: false, x: false, u: false, ppn: 0 }),
    {
        PageTableEntry { r: false, w: false, x: false, u: false, ppn: 0 }
    }
}

impl From<u64> for PageTableEntry {
    fn from(pte_u64: u64) -> (pte: Self) {
        let mut pte = PageTableEntry { r: false, w: false, x: false, u: false, ppn: 0 };
        if pte_u64 & PTE_R_FLAG != 0 {
            pte.r = true;
        }
        if pte_u64 & PTE_W_FLAG != 0 {
            pte.w = true;
        }
        if pte_u64 & PTE_X_FLAG != 0 {
            pte.x = true;
        }
        if pte_u64 & PTE_U_FLAG != 0 {
            pte.u = true;
        }
        pte.ppn = pte_u64 >> 10;
        pte
    }
}

impl FromSpecImpl<u64> for PageTableEntry {
    open spec fn obeys_from_spec() -> bool {
        true
    }

    open spec fn from_spec(v: u64) -> Self {
        pte_of(v)
    }
}

impl From<PageTableEntry> for u64 {
    fn from(pte: PageTableEntry) -> (bits: u64) {
        let r: u64 = if pte.r {
            PTE_R_FLAG
        } else {
            0
        };
        let w: u64 = if pte.w {
            PTE_W_FLAG
        } else {
            0
        };
        let x: u64 = if pte.x {
            PTE_X_FLAG
        } else {
            0
        };
        let u: u64 = if pte.u {
            PTE_U_FLAG
        } else {
            0
        };
        PTE_V_FLAG | r | w | x | u | (pte.ppn << 10)
    }
}

impl FromSpecImpl<PageTableEntry> for u64 {
    open spec fn obeys_from_spec() -> bool {
        true
    }

    open spec fn from_spec(v: PageTableEntry) -> Self {
        pte_bits(v)
    }
}

/// The leaf entry of a mapping to page `ppn` with the rights of `mode`: valid, not for user mode.
pub open spec fn leaf_entry(ppn: u64, mode: Seq<PageACL>) -> u64 {
    pte_bits(
        PageTableEntry {
            r: mode.contains(PageACL::Read),
            w: mode.contains(PageACL::Write),
            x: mode.contains(PageACL::Execute),
            u: false,
            ppn,
        },
    )
}

/// A page directory: the 512 entries that one page holds.
pub struct PageDtrectory {
    pub ptes: [u64; DIR_ENTRIES],
}

impl PageDtrectory {
    /// A directory without entries, as a page that was zeroed holds it.
    pub fn zeroed() -> (dir: Self)
        ensures
            dir.ptes@ == zeros(),
    {
        let dir = PageDtrectory { ptes: [0u64;DIR_ENTRIES] };
        assert(dir.ptes@ =~= zeros());
        dir
    }

    /// Sets entry `count` to `pte`, packed.
    pub fn set_pte(&mut self, count: usize, pte: PageTableEntry)
        requires
            count < DIR_ENTRIES,
        ensures
            final(self).ptes@ == old(self).ptes@.update(count as int, pte_bits(pte)),
    {
        self.ptes[count] = u64::from(pte);
    }

    /// Whether the directory holds no entry but, at most, entry `i`.
    pub fn is_empty_but(&self, i: usize) -> (empty: bool)
        requires
            i < DIR_ENTRIES,
        ensures
            empty == all_zero(self.ptes@.update(i as int, 0)),
    {
        let ghost rest = self.ptes@.update(i as int, 0);
        let mut j: usize = 0;
        while j < DIR_ENTRIES
            invariant
                j <= 512,
                i < 512,
                rest == self.ptes@.update(i as int, 0),
                forall|l: int| 0 <= l < j ==> rest[l] == 0,
            decreases 512 - j,
        {
            if j != i && self.ptes[j] != 0 {
                assert(rest[j as int] != 0);
                return false;
            }
            j += 1;
        }
        true
    }

    /// Whether the directory holds no entry.
    pub fn is_empty(&self) -> (empty: bool)
        ensures
            empty == all_zero(self.ptes@),
    {
        let mut i: usize = 0;
        while i < DIR_ENTRIES
            invariant
                i <= 512,
                forall|j: int| 0 <= j < i ==> self.ptes@[j] == 0,
            decreases 512 - i,
        {
            if self.ptes[i] != 0 {
                return false;
            }
            i += 1;
        }
        true
    }
}

} // verus!
