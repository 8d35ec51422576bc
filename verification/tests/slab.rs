use kernel_core::buddy_allocator::BuddyAllocator;
use kernel_core::cache_manager::{large_page_count, CacheManager};
use kernel_core::mcache::{to_objsize, CACHE_NUM, CACHE_OBJ_COUNT};

const START: u64 = 0x80000;

fn heap(pages: u64) -> BuddyAllocator {
    let mut b = BuddyAllocator::new();
    b.init(START, pages);
    b
}

fn entries(m: &CacheManager) -> usize {
    m.caches.iter().filter(|c| c.is_some()).count()
}

#[test]
fn to_objsize_picks_the_least_class() {
    assert_eq!(to_objsize(0), Some(64));
    assert_eq!(to_objsize(1), Some(64));
    assert_eq!(to_objsize(64), Some(64));
    assert_eq!(to_objsize(65), Some(128));
    assert_eq!(to_objsize(200), Some(256));
    assert_eq!(to_objsize(4096), Some(4096));
    // there is no class of 8 KiB
    assert_eq!(to_objsize(4097), Some(16384));
    assert_eq!(to_objsize(8192), Some(16384));
    assert_eq!(to_objsize(4 * 1024 * 1024), Some(4 * 1024 * 1024));
    assert_eq!(to_objsize(4 * 1024 * 1024 + 1), None);
    assert_eq!(to_objsize(u64::MAX), None);
}

#[test]
fn to_objsize_is_monotone_and_covers() {
    let mut last = 0;
    let mut x = 0u64;
    while x <= 4 * 1024 * 1024 {
        let c = to_objsize(x).unwrap();
        assert!(c >= x);
        assert!(c >= last);
        last = c;
        x += 1 + x / 7;
    }
}

#[test]
fn first_object_of_a_new_entry_is_its_last_slot() {
    let mut b = heap(64);
    let mut m = CacheManager::default();
    let a = m.allocate(&mut b, 200);
    // 32 pages of 256-byte objects: 512 slots, the last one goes out first
    assert_eq!(a, START * 4096 + 511 * 256);
    assert_eq!(entries(&m), 1);
    let c = m.caches[0].as_ref().unwrap();
    assert_eq!((c.page_start, c.page_num, c.obj_size), (START * 4096, 32, 256));
    assert_eq!((c.obj_free, c.obj_alloc), (510, 1));
    assert_eq!(c.obj_start, START * 4096 + 256);
    assert_eq!(b.free, 32);
    let a2 = m.allocate(&mut b, 256);
    assert_eq!(a2, START * 4096 + 510 * 256);
}

#[test]
fn scenario_thousand_allocations_of_200_bytes() {
    let mut b = heap(128);
    let mut m = CacheManager::default();
    let mut out = Vec::new();
    for _ in 0..1000 {
        out.push(m.allocate(&mut b, 200));
    }
    assert_eq!(entries(&m), 2);
    for c in m.caches.iter().flatten() {
        assert_eq!(c.obj_size, 256);
        assert_eq!(c.page_num * 4096 / c.obj_size, CACHE_OBJ_COUNT);
        assert_eq!(c.obj_free + c.obj_alloc, CACHE_OBJ_COUNT - 1);
    }
    assert_eq!(m.caches[0].as_ref().unwrap().obj_alloc, 511);
    assert_eq!(m.caches[1].as_ref().unwrap().obj_alloc, 489);
    assert_eq!(b.free, 128 - 64);
    let mut sorted = out.clone();
    sorted.sort();
    sorted.dedup();
    assert_eq!(sorted.len(), 1000);
    for a in out {
        m.dealloc(&mut b, a, 200);
    }
    assert_eq!(entries(&m), 0);
    assert_eq!(b.free, 128);
    assert!(!m.is_cache_full);
}

#[test]
fn dealloc_then_alloc_round_trip() {
    let mut b = heap(64);
    let mut m = CacheManager::default();
    let keep = m.allocate(&mut b, 100);
    let free_before = b.free;
    let (f, al) = {
        let c = m.caches[0].as_ref().unwrap();
        (c.obj_free, c.obj_alloc)
    };
    let words_before = m.caches[0].as_ref().unwrap().words.clone();
    let a = m.allocate(&mut b, 100);
    assert_ne!(a, keep);
    m.dealloc(&mut b, a, 100);
    let c = m.caches[0].as_ref().unwrap();
    assert_eq!((c.obj_free, c.obj_alloc), (f, al));
    assert_eq!(c.words, words_before);
    assert_eq!(b.free, free_before);
    assert_eq!(entries(&m), 1);
}

#[test]
fn round_trip_that_opens_an_entry_gives_it_back() {
    let mut b = heap(256);
    let mut m = CacheManager::default();
    let a = m.allocate(&mut b, 1000);
    assert_eq!(entries(&m), 1);
    // objects of 1 KiB: an entry of 128 pages
    assert_eq!(b.free, 256 - 128);
    m.dealloc(&mut b, a, 1000);
    assert_eq!(entries(&m), 0);
    assert_eq!(b.free, 256);
}

#[test]
fn free_list_stays_in_address_order() {
    let mut b = heap(64);
    let mut m = CacheManager::default();
    let mut out: Vec<u64> = (0..20).map(|_| m.allocate(&mut b, 64)).collect();
    // give back in a scrambled order
    let order = [3usize, 17, 0, 9, 12, 5, 19, 1];
    for i in order {
        m.dealloc(&mut b, out[i], 64);
    }
    let c = m.caches[0].as_ref().unwrap();
    let mut list = Vec::new();
    let mut cur = c.obj_start;
    while cur != 0 {
        list.push(cur);
        cur = c.words[((cur - c.page_start) / c.obj_size) as usize];
    }
    assert_eq!(list.len() as u64, c.obj_free);
    assert!(list.windows(2).all(|w| w[0] < w[1]));
    // the highest free object goes out next
    let next = m.allocate(&mut b, 64);
    assert_eq!(next, *list.last().unwrap());
    out.clear();
}

#[test]
fn classes_get_entries_of_their_own() {
    let mut b = heap(256);
    let mut m = CacheManager::default();
    let a = m.allocate(&mut b, 64);
    let c = m.allocate(&mut b, 128);
    let d = m.allocate(&mut b, 64);
    assert_eq!(entries(&m), 2);
    assert_eq!(m.caches[0].as_ref().unwrap().obj_size, 64);
    assert_eq!(m.caches[1].as_ref().unwrap().obj_size, 128);
    assert_eq!(m.caches[0].as_ref().unwrap().page_num, 8);
    assert_eq!(m.caches[1].as_ref().unwrap().page_num, 16);
    assert_eq!(m.caches[0].as_ref().unwrap().obj_alloc, 2);
    assert!(a != c && c != d && a != d);
}

#[test]
fn large_requests_go_to_the_buddy_allocator() {
    let mut b = heap(4096);
    let mut m = CacheManager::default();
    let size = 5 * 1024 * 1024;
    let a = m.allocate(&mut b, size);
    // 1280 pages, rounded up to 2048
    assert_eq!(a, START * 4096);
    assert_eq!(b.free, 4096 - 2048);
    assert_eq!(entries(&m), 0);
    m.dealloc(&mut b, a, size);
    assert_eq!(b.free, 4096);
}

#[test]
fn large_request_one_byte_over_a_power_of_two_gets_the_next() {
    let mut b = heap(4096);
    let mut m = CacheManager::default();
    let size = 4 * 1024 * 1024 + 1;
    assert_eq!(large_page_count(size), 2048);
    let a = m.allocate(&mut b, size);
    assert_eq!(a, START * 4096);
    // 1024 pages would be one byte short
    assert_eq!(b.free, 4096 - 2048);
    assert_eq!(entries(&m), 0);
    m.dealloc(&mut b, a, size);
    assert_eq!(b.free, 4096);
    assert!(b.can_alloc(4096));
}

#[test]
fn large_page_count_is_the_least_power_that_holds_the_bytes() {
    assert_eq!(large_page_count(4 * 1024 * 1024), 1024);
    assert_eq!(large_page_count(4 * 1024 * 1024 + 1), 2048);
    assert_eq!(large_page_count(8 * 1024 * 1024 - 1), 2048);
    assert_eq!(large_page_count(8 * 1024 * 1024), 2048);
    assert_eq!(large_page_count(8 * 1024 * 1024 + 1), 4096);
    assert_eq!(large_page_count(5 * 1024 * 1024), 2048);
    assert_eq!(large_page_count(u64::MAX), 1 << 52);
    for size in [4194305u64, 6_000_000, 1 << 30, (1 << 30) + 1, u64::MAX] {
        let n = large_page_count(size);
        assert!(n.is_power_of_two());
        assert!(n as u128 * 4096 >= size as u128);
        assert!((n as u128 / 2) * 4096 < size as u128);
    }
}

#[test]
fn dealloc_of_a_foreign_address_changes_nothing() {
    let mut b = heap(64);
    let mut m = CacheManager::default();
    let a = m.allocate(&mut b, 64);
    let c = m.caches[0].as_ref().unwrap();
    let (f, al) = (c.obj_free, c.obj_alloc);
    m.dealloc(&mut b, 0x10, 64);
    let c = m.caches[0].as_ref().unwrap();
    assert_eq!((c.obj_free, c.obj_alloc), (f, al));
    m.dealloc(&mut b, a, 64);
    assert_eq!(entries(&m), 0);
}

#[test]
fn full_table_chains_to_a_successor() {
    // entries of 64-byte objects take 8 pages each; every allocation below
    // is the 511th of its entry or opens the next one
    let pages = (CACHE_NUM as u64 + 2) * 8;
    let mut b = heap(pages.next_power_of_two());
    let mut m = CacheManager::default();
    let mut first_of_entry = Vec::new();
    for e in 0..CACHE_NUM + 1 {
        for i in 0..511 {
            let a = m.allocate(&mut b, 64);
            if i == 0 {
                first_of_entry.push(a);
            }
        }
        if e + 1 == CACHE_NUM {
            assert!(m.is_cache_full);
            assert!(m.next.is_none());
        }
    }
    assert_eq!(entries(&m), CACHE_NUM);
    let next = m.next.as_ref().unwrap();
    assert_eq!(entries(next), 1);
    assert_eq!(next.caches[0].as_ref().unwrap().obj_alloc, 511);
    // an object of the successor finds its way back
    let a = *first_of_entry.last().unwrap();
    m.dealloc(&mut b, a, 64);
    assert_eq!(m.next.as_ref().unwrap().caches[0].as_ref().unwrap().obj_alloc, 510);
}

#[test]
fn can_serve_tells_what_allocate_takes() {
    // a heap of 8 pages holds one entry of 64-byte objects and nothing else
    let mut b = heap(8);
    let mut m = CacheManager::default();
    assert!(m.opens_entry_for(64));
    assert!(m.can_serve(&b, 8, 64));
    assert!(m.can_serve(&b, 8, 1));
    // an entry of 128-byte objects takes 16 pages
    assert!(!m.can_serve(&b, 8, 128));
    assert!(!m.can_serve(&b, 8, 5 * 1024 * 1024));
    let mut out = Vec::new();
    for _ in 0..511 {
        assert!(m.can_serve(&b, 8, 64));
        out.push(m.allocate(&mut b, 64));
        assert_eq!(m.opens_entry_for(64), out.len() == 511);
    }
    assert_eq!(b.free, 0);
    // the entry is used up and the heap has no pages for another
    assert!(m.opens_entry_for(64));
    assert!(!m.can_serve(&b, 8, 64));
    m.dealloc(&mut b, out[0], 64);
    assert!(!m.opens_entry_for(64));
    assert!(m.can_serve(&b, 8, 64));
    assert!(m.opens_entry_for(128));
}

#[test]
fn can_serve_large_requests_by_their_pages() {
    let b = heap(2048);
    let m = CacheManager::default();
    assert!(m.can_serve(&b, 2048, 4 * 1024 * 1024 + 1));
    assert!(m.can_serve(&b, 2048, 8 * 1024 * 1024));
    assert!(!m.can_serve(&b, 2048, 8 * 1024 * 1024 + 1));
    assert!(!m.can_serve(&b, 2048, u64::MAX));
}

#[test]
fn can_release_takes_objects_that_are_out_only() {
    let mut b = heap(64);
    let mut m = CacheManager::default();
    let a = m.allocate(&mut b, 64);
    let c = m.allocate(&mut b, 64);
    assert!(m.can_release(&b, 64, a, 64));
    assert!(m.can_release(&b, 64, c, 64));
    // inside an object, in the header, on the free list
    assert!(!m.can_release(&b, 64, a + 8, 64));
    let start = m.caches[0].as_ref().unwrap().page_start;
    assert!(!m.can_release(&b, 64, start, 64));
    assert!(!m.can_release(&b, 64, start + 64, 64));
    // an address in no entry's pages is taken and ignored
    assert!(m.can_release(&b, 64, 0x10, 64));
    m.dealloc(&mut b, a, 64);
    // given back: a second time is refused
    assert!(!m.can_release(&b, 64, a, 64));
    assert!(m.can_release(&b, 64, c, 64));
    m.dealloc(&mut b, c, 64);
    assert_eq!(entries(&m), 0);
    assert_eq!(b.free, 64);
}

#[test]
fn can_release_of_the_last_object_asks_the_allocator() {
    let mut b = heap(8);
    let mut m = CacheManager::default();
    let a = m.allocate(&mut b, 64);
    assert!(m.can_release(&b, 8, a, 64));
    // without a spare cell the allocator cannot take the entry's pages
    while let Some(cell) = b.free_start {
        b.free_start = b.free_nodes[cell].next;
    }
    assert!(!m.can_release(&b, 8, a, 64));
}

#[test]
fn can_release_large_runs() {
    let mut b = heap(4096);
    let mut m = CacheManager::default();
    let size = 4 * 1024 * 1024 + 1;
    let a = m.allocate(&mut b, size);
    assert!(m.can_release(&b, 4096, a, size));
    assert!(!m.can_release(&b, 4096, a + 2048 * 4096, size));
    assert!(!m.can_release(&b, 4096, 0, size));
    m.dealloc(&mut b, a, size);
    assert!(!m.can_release(&b, 4096, a, size));
}

#[test]
fn entry_tells_its_objects_and_which_are_out() {
    let mut b = heap(64);
    let mut m = CacheManager::default();
    let a = m.allocate(&mut b, 256);
    let c = m.caches[0].as_ref().unwrap();
    let start = c.page_start;
    assert!(c.has_object(a));
    assert!(c.has_object(start + 256));
    assert!(!c.has_object(start));
    assert!(!c.has_object(start + 257));
    assert!(!c.has_object(start - 256));
    assert!(!c.has_object(start + 512 * 256));
    assert!(c.has_object(start + 511 * 256));
    assert!(c.is_out(a));
    assert!(!c.is_out(start + 256));
    assert!(!c.is_out(a + 1));
    assert!(!c.is_out(start));
    assert_eq!((1..512).filter(|k| c.is_out(start + k * 256)).count(), 1);
}

#[test]
fn can_serve_refuses_pages_whose_addresses_do_not_fit() {
    let mut b = BuddyAllocator::new();
    b.init(1 << 52, 64);
    let m = CacheManager::default();
    assert!(!m.can_serve(&b, 64, 64));
    assert!(!m.can_serve(&b, 64, 5 * 1024 * 1024));
    let mut b = BuddyAllocator::new();
    b.init((1 << 51) - 64, 64);
    assert!(m.can_serve(&b, 64, 64));
}
