use kernel_core::buddy_allocator::{ceil_to_power_2, BuddyAllocator};
use kernel_core::buddy_lists::{FreeNode, NODE_CAPACITY};

fn heap(start: u64, pages: u64) -> BuddyAllocator {
    let mut b = BuddyAllocator::new();
    b.init(start, pages);
    b
}

/// The runs on the list of `order`, head first.
fn runs(b: &BuddyAllocator, order: usize) -> Vec<u64> {
    let mut out = Vec::new();
    let mut cur = b.pows[order];
    while let Some(c) = cur {
        out.push(b.free_nodes[c].addr);
        cur = b.free_nodes[c].next;
    }
    out
}

fn spare(b: &BuddyAllocator) -> usize {
    let mut n = 0;
    let mut cur = b.free_start;
    while let Some(c) = cur {
        n += 1;
        cur = b.free_nodes[c].next;
    }
    n
}

fn listed_pages(b: &BuddyAllocator) -> u64 {
    (0..64).map(|p| (runs(b, p).len() as u64) << p).sum()
}

#[test]
fn free_node_new_has_no_successor() {
    let n = FreeNode::new(42);
    assert_eq!(n.addr, 42);
    assert_eq!(n.next, None);
}

#[test]
fn ceil_to_power_2_exact_values() {
    assert_eq!(ceil_to_power_2(0), 1);
    assert_eq!(ceil_to_power_2(1), 1);
    assert_eq!(ceil_to_power_2(2), 2);
    assert_eq!(ceil_to_power_2(3), 4);
    assert_eq!(ceil_to_power_2(4), 4);
    assert_eq!(ceil_to_power_2(5), 8);
    assert_eq!(ceil_to_power_2(512), 512);
    assert_eq!(ceil_to_power_2(513), 1024);
    assert_eq!(ceil_to_power_2(1 << 63), 1 << 63);
    assert_eq!(ceil_to_power_2((1 << 63) + 1), 0);
    assert_eq!(ceil_to_power_2(u64::MAX), 0);
}

#[test]
fn new_allocator_is_empty() {
    let b = BuddyAllocator::new();
    assert_eq!(b.start, 0);
    assert_eq!(b.free, 0);
    assert_eq!(b.free_start, None);
    assert!(b.pows.iter().all(|h| h.is_none()));
}

#[test]
fn init_power_of_two_heap() {
    let b = heap(0x80000, 16);
    assert_eq!(b.start, 0x80000);
    assert_eq!(b.free, 16);
    for p in 0..64 {
        if p == 4 {
            assert_eq!(runs(&b, p), vec![0]);
        } else {
            assert!(runs(&b, p).is_empty());
        }
    }
    assert_eq!(spare(&b), NODE_CAPACITY - 1);
}

#[test]
fn init_decomposes_into_descending_powers() {
    let b = heap(100, 13);
    assert_eq!(runs(&b, 3), vec![0]);
    assert_eq!(runs(&b, 2), vec![8]);
    assert!(runs(&b, 1).is_empty());
    assert_eq!(runs(&b, 0), vec![12]);
    assert_eq!(b.free, 13);
    assert_eq!(listed_pages(&b), 13);
    assert_eq!(spare(&b), NODE_CAPACITY - 3);
}

#[test]
fn init_single_page() {
    let b = heap(7, 1);
    assert_eq!(runs(&b, 0), vec![0]);
    assert_eq!(b.free, 1);
}

#[test]
fn init_kernel_heap_size() {
    let b = heap(0x80200, 128 * 1024 * 1024 / 4096);
    assert_eq!(runs(&b, 15), vec![0]);
    assert_eq!(b.free, 32768);
}

#[test]
fn scenario_alloc_1_2_4_1_then_free_in_reverse() {
    let start = 0x80000;
    let mut b = heap(start, 16);
    let a = b.alloc_pages(1);
    let c = b.alloc_pages(2);
    let d = b.alloc_pages(4);
    let e = b.alloc_pages(1);
    assert_eq!(b.free, 8);
    assert_eq!((a, c, d, e), (start, start + 2, start + 4, start + 1));
    assert_eq!(runs(&b, 3), vec![8]);
    assert_eq!(listed_pages(&b), 8);

    b.free_pages(e, 1);
    b.free_pages(d, 4);
    b.free_pages(c, 2);
    b.free_pages(a, 1);
    assert_eq!(b.free, 16);
    for p in 0..64 {
        if p == 4 {
            assert_eq!(runs(&b, p), vec![0]);
        } else {
            assert!(runs(&b, p).is_empty());
        }
    }
    assert_eq!(spare(&b), NODE_CAPACITY - 1);
}

#[test]
fn alloc_exact_match_takes_the_head() {
    let mut b = heap(0, 16);
    assert_eq!(b.alloc_pages(16), 0);
    assert_eq!(b.free, 0);
    assert_eq!(listed_pages(&b), 0);
    assert_eq!(spare(&b), NODE_CAPACITY);
}

#[test]
fn alloc_splits_put_upper_halves_back() {
    let mut b = heap(1000, 16);
    assert_eq!(b.alloc_pages(2), 1000);
    assert!(runs(&b, 0).is_empty());
    assert_eq!(runs(&b, 1), vec![2]);
    assert_eq!(runs(&b, 2), vec![4]);
    assert_eq!(runs(&b, 3), vec![8]);
    assert!(runs(&b, 4).is_empty());
    assert_eq!(b.free, 14);
}

#[test]
fn alloc_prefers_the_lowest_order_that_fits() {
    let mut b = heap(0, 13);
    // lists: order 3 -> [0], order 2 -> [8], order 0 -> [12]
    assert_eq!(b.alloc_pages(1), 12);
    assert_eq!(b.alloc_pages(1), 8);
    assert_eq!(runs(&b, 0), vec![9]);
    assert_eq!(runs(&b, 1), vec![10]);
    assert_eq!(runs(&b, 3), vec![0]);
}

#[test]
fn allocations_are_aligned_and_disjoint() {
    let start = 4096;
    let mut b = heap(start, 64);
    let sizes = [1u64, 4, 2, 8, 1, 16, 2, 4];
    let mut live: Vec<(u64, u64)> = Vec::new();
    for n in sizes {
        let base = b.alloc_pages(n);
        assert_eq!((base - start) % n, 0);
        assert!(base + n <= start + 64);
        for &(o, m) in &live {
            assert!(base + n <= o || o + m <= base);
        }
        live.push((base, n));
        let out: u64 = live.iter().map(|r| r.1).sum();
        assert_eq!(b.free + out, 64);
        assert_eq!(listed_pages(&b), b.free);
    }
}

#[test]
fn conservation_over_mixed_sequence() {
    let mut b = heap(0, 32);
    let a = b.alloc_pages(4);
    let c = b.alloc_pages(8);
    b.free_pages(a, 4);
    let d = b.alloc_pages(2);
    let e = b.alloc_pages(2);
    assert_eq!(b.free, 32 - 8 - 2 - 2);
    b.free_pages(c, 8);
    b.free_pages(e, 2);
    assert_eq!(b.free, 30);
    assert_eq!(listed_pages(&b), 30);
    b.free_pages(d, 2);
    assert_eq!(b.free, 32);
    assert_eq!(runs(&b, 5), vec![0]);
}

#[test]
fn freeing_both_buddies_gives_the_parent() {
    let mut b = heap(0, 8);
    let left = b.alloc_pages(2);
    let right = b.alloc_pages(2);
    assert_eq!((left, right), (0, 2));
    // the rest of the heap is out too, so that the parent cannot merge on
    let rest = b.alloc_pages(4);
    b.free_pages(left, 2);
    assert_eq!(runs(&b, 1), vec![0]);
    b.free_pages(right, 2);
    assert!(runs(&b, 1).is_empty());
    assert_eq!(runs(&b, 2), vec![0]);
    b.free_pages(rest, 4);
    assert_eq!(runs(&b, 3), vec![0]);
}

#[test]
fn right_buddy_merges_with_left() {
    let mut b = heap(0, 4);
    let left = b.alloc_pages(1);
    let right = b.alloc_pages(1);
    let next = b.alloc_pages(2);
    assert_eq!((left, right, next), (0, 1, 2));
    b.free_pages(left, 1);
    b.free_pages(right, 1);
    assert_eq!(runs(&b, 1), vec![0]);
    assert!(runs(&b, 0).is_empty());
    b.free_pages(next, 2);
    assert_eq!(runs(&b, 2), vec![0]);
}

#[test]
fn no_two_free_buddies_coexist() {
    let mut b = heap(0, 16);
    let pages: Vec<u64> = (0..16).map(|_| b.alloc_pages(1)).collect();
    for &p in pages.iter().rev() {
        b.free_pages(p, 1);
        for order in 0..63usize {
            let r = runs(&b, order);
            for &x in &r {
                assert!(!r.contains(&(x ^ (1u64 << order))));
            }
        }
    }
    assert_eq!(runs(&b, 4), vec![0]);
}

#[test]
fn buddy_in_the_middle_of_a_list_is_unlinked() {
    let mut b = heap(0, 8);
    let pages: Vec<u64> = (0..8).map(|_| b.alloc_pages(1)).collect();
    assert_eq!(pages, vec![0, 1, 2, 3, 4, 5, 6, 7]);
    b.free_pages(0, 1);
    b.free_pages(2, 1);
    b.free_pages(4, 1);
    assert_eq!(runs(&b, 0), vec![4, 2, 0]);
    b.free_pages(3, 1);
    assert_eq!(runs(&b, 0), vec![4, 0]);
    assert_eq!(runs(&b, 1), vec![2]);
    b.free_pages(1, 1);
    assert_eq!(runs(&b, 0), vec![4]);
    assert!(runs(&b, 1).is_empty());
    assert_eq!(runs(&b, 2), vec![0]);
    assert_eq!(b.free, 5);
}

#[test]
fn cells_are_recycled() {
    let mut b = heap(0, 16);
    for _ in 0..1000 {
        let a = b.alloc_pages(1);
        let c = b.alloc_pages(2);
        b.free_pages(a, 1);
        b.free_pages(c, 2);
    }
    assert_eq!(spare(&b), NODE_CAPACITY - 1);
    assert_eq!(b.free, 16);
}

#[test]
fn can_alloc_tells_what_alloc_pages_takes() {
    let mut b = heap(0, 16);
    assert!(b.can_alloc(1));
    assert!(b.can_alloc(16));
    assert!(!b.can_alloc(32));
    assert!(!b.can_alloc(0));
    assert!(!b.can_alloc(3));
    assert!(!b.can_alloc(u64::MAX));
    b.alloc_pages(8);
    assert!(b.can_alloc(8));
    assert!(!b.can_alloc(16));
    b.alloc_pages(8);
    assert!(!b.can_alloc(1));
}

#[test]
fn can_alloc_counts_the_cells_for_what_is_cut_off() {
    // every page of the heap but the last is taken one by one and every
    // second one given back: the free runs use up cells
    let pages = 2 * (NODE_CAPACITY as u64 + 16);
    let mut b = heap(0, pages.next_power_of_two());
    let taken: Vec<u64> = (0..pages).map(|_| b.alloc_pages(1)).collect();
    for p in taken.iter().step_by(2) {
        if spare(&b) == 0 {
            break;
        }
        b.free_pages(*p, 1);
    }
    assert_eq!(spare(&b), 0);
    // a single page heads a list: it goes out without a cell
    assert!(b.can_alloc(1));
    let before = b.free;
    b.alloc_pages(1);
    assert_eq!(b.free, before - 1);
    assert_eq!(spare(&b), 1);
}

#[test]
fn can_free_takes_what_was_handed_out() {
    let mut b = heap(100, 16);
    let a = b.alloc_pages(1);
    let c = b.alloc_pages(2);
    let d = b.alloc_pages(4);
    assert_eq!((a, c, d), (100, 102, 104));
    assert!(b.can_free(16, a, 1));
    assert!(b.can_free(16, c, 2));
    assert!(b.can_free(16, d, 4));
    // the halves of what was handed out are runs that can come back
    assert!(b.can_free(16, 104, 2));
    assert!(b.can_free(16, 106, 1));
    b.free_pages(d, 4);
    b.free_pages(c, 2);
    b.free_pages(a, 1);
    assert_eq!(b.free, 16);
    assert_eq!(runs(&b, 4), vec![0]);
}

#[test]
fn can_free_refuses_free_pages() {
    let mut b = heap(100, 16);
    // all pages are free
    assert!(!b.can_free(16, 100, 1));
    assert!(!b.can_free(16, 100, 16));
    let a = b.alloc_pages(2);
    assert_eq!(a, 100);
    // page 101 is out, page 102 is free
    assert!(b.can_free(16, 101, 1));
    assert!(!b.can_free(16, 102, 1));
    // a run that is partly free
    assert!(!b.can_free(16, 100, 4));
    b.free_pages(a, 2);
    // given back: a second time is refused
    assert!(!b.can_free(16, a, 2));
    assert!(!b.can_free(16, a, 1));
}

#[test]
fn can_free_refuses_runs_out_of_shape_or_out_of_the_heap() {
    let mut b = heap(100, 16);
    let a = b.alloc_pages(8);
    assert_eq!(a, 100);
    // not a power of two, or none
    assert!(!b.can_free(16, 100, 3));
    assert!(!b.can_free(16, 100, 0));
    // not aligned to its size
    assert!(!b.can_free(16, 101, 2));
    assert!(!b.can_free(16, 102, 4));
    // before the heap, behind it, across its end
    assert!(!b.can_free(16, 99, 1));
    assert!(!b.can_free(16, 116, 1));
    assert!(!b.can_free(16, 100, 32));
    assert!(!b.can_free(16, u64::MAX, 1));
    assert!(!b.can_free(16, 100, 1 << 63));
    assert!(b.can_free(16, 100, 8));
    assert!(b.can_free(16, 104, 4));
}

#[test]
fn can_free_without_a_spare_cell_needs_the_buddy() {
    let mut b = heap(0, 2);
    let a = b.alloc_pages(1);
    let c = b.alloc_pages(1);
    assert_eq!((a, c), (0, 1));
    // use up the spare cells
    while let Some(cell) = b.free_start {
        b.free_start = b.free_nodes[cell].next;
    }
    assert_eq!(spare(&b), 0);
    assert!(!b.can_free(2, a, 1));
    assert!(!b.can_free(2, c, 1));
}

#[test]
fn can_free_agrees_with_free_pages_over_a_mixed_sequence() {
    let mut b = heap(0x8000, 64);
    let mut live: Vec<(u64, u64)> = Vec::new();
    for (step, n) in [1u64, 4, 2, 8, 1, 16, 2, 1, 4, 8].iter().enumerate() {
        assert!(b.can_alloc(*n));
        live.push((b.alloc_pages(*n), *n));
        if step % 3 == 2 {
            let (base, pages) = live.remove(0);
            assert!(b.can_free(64, base, pages));
            b.free_pages(base, pages);
            assert!(!b.can_free(64, base, pages));
        }
        for (base, pages) in &live {
            assert!(b.can_free(64, *base, *pages));
        }
    }
    for (base, pages) in live {
        assert!(b.can_free(64, base, pages));
        b.free_pages(base, pages);
    }
    assert_eq!(b.free, 64);
    assert_eq!(runs(&b, 6), vec![0]);
}

#[test]
fn duplicate_is_a_copy_of_its_own() {
    let mut b = heap(100, 16);
    b.alloc_pages(2);
    let mut copy = b.duplicate();
    assert_eq!((copy.start, copy.free), (b.start, b.free));
    for order in 0..64 {
        assert_eq!(runs(&copy, order), runs(&b, order));
    }
    assert_eq!(spare(&copy), spare(&b));
    assert_eq!(copy.alloc_pages(4), 104);
    assert_eq!(copy.free, 10);
    // the allocator itself is as it was
    assert_eq!(b.free, 14);
    assert_eq!(b.alloc_pages(4), 104);
}
