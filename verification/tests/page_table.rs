use kernel_core::arch::riscv64::page::PageManager;
use kernel_core::arch::riscv64::pte::{
    satp_value, PageDtrectory, PageTableEntry, MODE_SV39, PTE_R_FLAG, PTE_U_FLAG, PTE_V_FLAG,
    PTE_W_FLAG, PTE_X_FLAG,
};
use kernel_core::buddy_allocator::BuddyAllocator;
use kernel_core::page::{KernelLayout, PageACL, PageManagement};

const HEAP_START: u64 = 0x80200;

fn heap(pages: u64) -> BuddyAllocator {
    let mut b = BuddyAllocator::new();
    b.init(HEAP_START, pages);
    b
}

fn root_is_empty(pm: &PageManager) -> bool {
    pm.frames.get(&pm.root).unwrap().ptes.iter().all(|e| *e == 0)
}

#[test]
fn pte_flags_have_their_bits() {
    assert_eq!(PTE_V_FLAG, 1);
    assert_eq!(PTE_R_FLAG, 1 << 1);
    assert_eq!(PTE_W_FLAG, 1 << 2);
    assert_eq!(PTE_X_FLAG, 1 << 3);
    assert_eq!(PTE_U_FLAG, 1 << 4);
}

#[test]
fn pte_packs_valid_flags_and_page() {
    let pte = PageTableEntry { r: true, w: false, x: true, u: false, ppn: 0x5000 };
    assert_eq!(u64::from(pte), (0x5000 << 10) | 0b1011);
    let all = PageTableEntry { r: true, w: true, x: true, u: true, ppn: 1 };
    assert_eq!(u64::from(all), (1 << 10) | 0b11111);
    let none = PageTableEntry { r: false, w: false, x: false, u: false, ppn: 0 };
    assert_eq!(u64::from(none), 1);
}

#[test]
fn pte_unpacks_flags_and_page() {
    let pte = PageTableEntry::from((0x1234u64 << 10) | 0b10101);
    assert_eq!(pte, PageTableEntry { r: false, w: true, x: false, u: true, ppn: 0x1234 });
    assert_eq!(PageTableEntry::from(0), PageTableEntry::default());
}

#[test]
fn pte_round_trip() {
    for bits in 0..16u64 {
        let pte = PageTableEntry {
            r: bits & 1 != 0,
            w: bits & 2 != 0,
            x: bits & 4 != 0,
            u: bits & 8 != 0,
            ppn: 0xabc_def0_1234 >> (bits % 3),
        };
        assert_eq!(PageTableEntry::from(u64::from(pte)), pte);
    }
}

#[test]
fn satp_selects_mode_and_root() {
    assert_eq!(satp_value(0x80200, MODE_SV39), (8u64 << 60) | 0x80200);
    assert_eq!(satp_value(0, 0), 0);
}

#[test]
fn directory_set_pte_and_is_empty() {
    let mut d = PageDtrectory::zeroed();
    assert!(d.is_empty());
    d.set_pte(511, PageTableEntry { r: true, w: false, x: false, u: false, ppn: 7 });
    assert_eq!(d.ptes[511], (7 << 10) | 0b11);
    assert!(!d.is_empty());
    d.ptes[511] = 0;
    assert!(d.is_empty());
}

#[test]
fn new_table_is_one_empty_root() {
    let mut b = heap(16);
    let pm = PageManager::new(&mut b);
    assert_eq!(pm.root_ppn(), HEAP_START);
    assert_eq!(pm.frames.len(), 1);
    assert!(root_is_empty(&pm));
    assert_eq!(b.free, 15);
    assert_eq!(pm.walk(0x1000), None);
    assert_eq!(pm.switch_to(), (8u64 << 60) | HEAP_START);
}

#[test]
fn scenario_map_read_execute_then_walk() {
    let mut b = heap(16);
    let mut pm = PageManager::new(&mut b);
    pm.map(&mut b, 0x1000, 0x5000, &[PageACL::Read, PageACL::Execute]);
    // valid, read and execute: bits 0, 1 and 3
    assert_eq!(pm.walk(0x1000), Some((0x5000 << 10) | 0b1011));
    let leaf = PageTableEntry::from(pm.walk(0x1000).unwrap());
    assert_eq!(leaf, PageTableEntry { r: true, w: false, x: true, u: false, ppn: 0x5000 });
    assert_eq!(pm.frames.len(), 3);
    assert_eq!(b.free, 13);
}

#[test]
fn walk_round_trip_for_every_acl() {
    let acls: [&[PageACL]; 8] = [
        &[],
        &[PageACL::Read],
        &[PageACL::Write],
        &[PageACL::Execute],
        &[PageACL::Read, PageACL::Write],
        &[PageACL::Read, PageACL::Execute],
        &[PageACL::Write, PageACL::Execute],
        &[PageACL::Read, PageACL::Write, PageACL::Execute, PageACL::Read],
    ];
    let mut b = heap(64);
    let mut pm = PageManager::new(&mut b);
    for (i, acl) in acls.iter().enumerate() {
        let vpn = 0x7ff_ffff - (i as u64) * 0x4_0201;
        let ppn = 0x9000 + i as u64;
        pm.map(&mut b, vpn, ppn, acl);
        let leaf = PageTableEntry::from(pm.walk(vpn).unwrap());
        assert_eq!(leaf.ppn, ppn);
        assert_eq!(leaf.r, acl.contains(&PageACL::Read));
        assert_eq!(leaf.w, acl.contains(&PageACL::Write));
        assert_eq!(leaf.x, acl.contains(&PageACL::Execute));
        assert!(!leaf.u);
        assert_eq!(pm.walk(vpn).unwrap() & 1, 1);
    }
}

#[test]
fn intermediate_entries_carry_no_access_bits() {
    let mut b = heap(16);
    let mut pm = PageManager::new(&mut b);
    pm.map(&mut b, (3 << 18) | (5 << 9) | 7, 0x42, &[PageACL::Read, PageACL::Write]);
    let e1 = pm.frames.get(&pm.root).unwrap().ptes[3];
    assert_eq!(e1 & 0x3ff, 1);
    let e2 = pm.frames.get(&(e1 >> 10)).unwrap().ptes[5];
    assert_eq!(e2 & 0x3ff, 1);
    let e3 = pm.frames.get(&(e2 >> 10)).unwrap().ptes[7];
    assert_eq!(e3, (0x42 << 10) | 0b111);
}

#[test]
fn remap_replaces_the_leaf() {
    let mut b = heap(16);
    let mut pm = PageManager::new(&mut b);
    pm.map(&mut b, 9, 0x100, &[PageACL::Read, PageACL::Write]);
    pm.map(&mut b, 9, 0x200, &[PageACL::Execute]);
    assert_eq!(pm.walk(9), Some((0x200 << 10) | 0b1001));
    assert_eq!(pm.frames.len(), 3);
}

#[test]
fn map_leaves_other_pages_alone() {
    let mut b = heap(32);
    let mut pm = PageManager::new(&mut b);
    pm.map(&mut b, 0x1000, 0x5000, &[PageACL::Read]);
    pm.map(&mut b, 0x1001, 0x5001, &[PageACL::Write]);
    pm.map(&mut b, 0x1200, 0x5002, &[PageACL::Execute]);
    pm.map(&mut b, 0x7_0000, 0x5003, &[PageACL::Read]);
    assert_eq!(pm.walk(0x1000), Some((0x5000 << 10) | 0b0011));
    assert_eq!(pm.walk(0x1001), Some((0x5001 << 10) | 0b0101));
    assert_eq!(pm.walk(0x1200), Some((0x5002 << 10) | 0b1001));
    assert_eq!(pm.walk(0x7_0000), Some((0x5003 << 10) | 0b0011));
    assert_eq!(pm.walk(0x1002), None);
    assert_eq!(pm.walk(0x2000), None);
    // root, one middle directory and two leaf directories, then a middle and a leaf one
    assert_eq!(pm.frames.len(), 6);
}

#[test]
fn scenario_map_then_unmap_collapses_the_table() {
    let mut b = heap(16);
    let mut pm = PageManager::new(&mut b);
    let free_before = b.free;
    pm.map(&mut b, 0x1000, 0x5000, &[PageACL::Read]);
    assert_eq!(b.free, free_before - 2);
    pm.unmap(&mut b, 0x1000);
    assert!(root_is_empty(&pm));
    assert_eq!(pm.frames.len(), 1);
    assert_eq!(b.free, free_before);
    assert_eq!(pm.walk(0x1000), None);
}

#[test]
fn unmap_keeps_directories_that_are_in_use() {
    let mut b = heap(32);
    let mut pm = PageManager::new(&mut b);
    pm.map(&mut b, 0x1000, 0x5000, &[PageACL::Read]);
    pm.map(&mut b, 0x1001, 0x5001, &[PageACL::Read]);
    pm.map(&mut b, 0x1200, 0x5002, &[PageACL::Read]);
    let free = b.free;
    pm.unmap(&mut b, 0x1000);
    assert_eq!(pm.walk(0x1000), None);
    assert_eq!(pm.walk(0x1001), Some((0x5001 << 10) | 0b11));
    assert_eq!(pm.frames.len(), 4);
    assert_eq!(b.free, free);
    pm.unmap(&mut b, 0x1001);
    // the leaf directory went back, the middle one still holds 0x1200
    assert_eq!(pm.frames.len(), 3);
    assert_eq!(b.free, free + 1);
    assert_eq!(pm.walk(0x1200), Some((0x5002 << 10) | 0b11));
    pm.unmap(&mut b, 0x1200);
    assert_eq!(pm.frames.len(), 1);
    assert_eq!(b.free, free + 3);
    assert!(root_is_empty(&pm));
}

#[test]
fn unmap_of_an_empty_leaf_changes_nothing_else() {
    let mut b = heap(32);
    let mut pm = PageManager::new(&mut b);
    pm.map(&mut b, 0x10, 0x20, &[PageACL::Read]);
    pm.unmap(&mut b, 0x11);
    assert_eq!(pm.walk(0x10), Some((0x20 << 10) | 0b11));
    assert_eq!(pm.frames.len(), 3);
}

#[test]
fn map_named_rights() {
    let mut b = heap(32);
    let mut pm = PageManager::new(&mut b);
    pm.map_text(&mut b, 1, 1);
    pm.map_rodata(&mut b, 2, 2);
    pm.map_data(&mut b, 3, 3);
    assert_eq!(pm.walk(1), Some((1 << 10) | 0b1011));
    assert_eq!(pm.walk(2), Some((2 << 10) | 0b0011));
    assert_eq!(pm.walk(3), Some((3 << 10) | 0b0111));
}

#[test]
fn map_kernel_region_maps_each_segment_to_itself() {
    let mut b = heap(64);
    let mut pm = PageManager::new(&mut b);
    let layout = KernelLayout {
        text_start: 0x8020_0000,
        text_end: 0x8020_3000,
        rodata_start: 0x8020_3000,
        rodata_end: 0x8020_4000,
        data_start: 0x8020_4000,
        data_end: 0x8020_6000,
        bss_start: 0x8020_6000,
        bss_end: 0x8020_7000,
    };
    pm.map_kernel_region(&mut b, &layout);
    for p in 0x80200u64..0x80203 {
        assert_eq!(pm.walk(p), Some((p << 10) | 0b1011));
    }
    assert_eq!(pm.walk(0x80203), Some((0x80203 << 10) | 0b0011));
    for p in 0x80204u64..0x80207 {
        assert_eq!(pm.walk(p), Some((p << 10) | 0b0111));
    }
    assert_eq!(pm.walk(0x80207), None);
    assert_eq!(pm.walk(0x801ff), None);
    assert_eq!(pm.frames.len(), 3);
}

#[test]
fn map_kernel_region_of_empty_segments_maps_nothing() {
    let mut b = heap(16);
    let mut pm = PageManager::new(&mut b);
    let layout = KernelLayout {
        text_start: 0x1000,
        text_end: 0x1000,
        rodata_start: 0x1000,
        rodata_end: 0x1fff,
        data_start: 0x2000,
        data_end: 0x2000,
        bss_start: 0x2000,
        bss_end: 0x2000,
    };
    pm.map_kernel_region(&mut b, &layout);
    assert_eq!(pm.frames.len(), 1);
    assert!(root_is_empty(&pm));
}

#[test]
fn can_map_counts_the_directories_that_are_missing() {
    // a root and two directories: three pages
    let mut b = heap(4);
    let mut pm = PageManager::new(&mut b);
    assert_eq!(b.free, 3);
    assert!(pm.can_map(&b, 0x1000));
    assert!(!pm.can_map(&b, 1 << 27));
    assert!(!pm.can_map(&b, u64::MAX));
    pm.map(&mut b, 0x1000, 0x5000, &[PageACL::Read]);
    assert_eq!(b.free, 1);
    // same leaf directory: nothing is missing
    assert!(pm.can_map(&b, 0x1001));
    // same middle directory, another leaf directory: one page
    assert!(pm.can_map(&b, 0x1000 + 512));
    // another middle directory: two pages, and one is left
    assert!(!pm.can_map(&b, 0x1000 + (1 << 18)));
    pm.map(&mut b, 0x1000 + 512, 0x6000, &[PageACL::Read]);
    assert_eq!(b.free, 0);
    assert!(pm.can_map(&b, 0x1002));
    assert!(!pm.can_map(&b, 0x1000 + 1024));
    assert!(!pm.can_map(&b, 0x1000 + (1 << 18)));
}

#[test]
fn can_unmap_needs_the_way_to_the_page() {
    let mut b = heap(16);
    let mut pm = PageManager::new(&mut b);
    assert!(!pm.can_unmap(&b, 16, 0x1000));
    pm.map(&mut b, 0x1000, 0x5000, &[PageACL::Read, PageACL::Execute]);
    assert!(pm.can_unmap(&b, 16, 0x1000));
    // the way is there though the leaf is empty
    assert!(pm.can_unmap(&b, 16, 0x1001));
    // no leaf directory, no middle directory, no virtual page
    assert!(!pm.can_unmap(&b, 16, 0x1000 + 512));
    assert!(!pm.can_unmap(&b, 16, 0x1000 + (1 << 18)));
    assert!(!pm.can_unmap(&b, 16, 1 << 27));
    let free = b.free;
    pm.unmap(&mut b, 0x1000);
    assert_eq!(b.free, free + 2);
    assert!(root_is_empty(&pm));
    assert!(!pm.can_unmap(&b, 16, 0x1000));
}

#[test]
fn can_unmap_asks_the_allocator_for_what_it_gives_back() {
    let mut b = heap(16);
    let mut pm = PageManager::new(&mut b);
    pm.map(&mut b, 0x1000, 0x5000, &[PageACL::Read]);
    pm.map(&mut b, 0x1001, 0x5001, &[PageACL::Read]);
    // without spare cells no page can come back
    while let Some(cell) = b.free_start {
        b.free_start = b.free_nodes[cell].next;
    }
    // the leaf directory stays in use: nothing comes back
    assert!(pm.can_unmap(&b, 16, 0x1000));
    pm.unmap(&mut b, 0x1000);
    // now the directories would come back
    assert!(!pm.can_unmap(&b, 16, 0x1001));
}

#[test]
fn directory_is_empty_but_one_entry() {
    let mut d = PageDtrectory::zeroed();
    assert!(d.is_empty_but(0));
    assert!(d.is_empty_but(511));
    d.ptes[7] = 1;
    assert!(d.is_empty_but(7));
    assert!(!d.is_empty_but(8));
    d.ptes[511] = 9;
    assert!(!d.is_empty_but(7));
    assert!(!d.is_empty_but(511));
}

#[test]
fn try_map_kernel_region_stops_where_pages_run_out() {
    let layout = KernelLayout {
        text_start: 0x8000_0000,
        text_end: 0x8000_2000,
        rodata_start: 0x8000_2000,
        rodata_end: 0x8000_3000,
        data_start: 0x8000_3000,
        data_end: 0x8000_4000,
        bss_start: 0x8000_4000,
        bss_end: 0x8000_5000,
    };
    // a root and two directories
    let mut b = heap(4);
    let mut pm = PageManager::new(&mut b);
    assert!(pm.try_map_kernel_region(&mut b, &layout));
    assert_eq!(b.free, 1);
    assert_eq!(pm.walk(0x80000), Some((0x80000 << 10) | 0b1011));
    assert_eq!(pm.walk(0x80002), Some((0x80002 << 10) | 0b0011));
    assert_eq!(pm.walk(0x80004), Some((0x80004 << 10) | 0b0111));
    assert_eq!(pm.walk(0x80005), None);

    // one page short
    let mut small = heap(2);
    let mut pm = PageManager::new(&mut small);
    assert!(!pm.try_map_kernel_region(&mut small, &layout));
    assert_eq!(pm.walk(0x80000), None);
}

#[test]
fn can_new_needs_a_free_page_in_reach_of_a_table() {
    let mut b = heap(1);
    assert!(PageManager::can_new(&b, 1));
    let _ = PageManager::new(&mut b);
    assert!(!PageManager::can_new(&b, 1));
    let mut far = BuddyAllocator::new();
    far.init(1 << 44, 4);
    assert!(!PageManager::can_new(&far, 4));
}
