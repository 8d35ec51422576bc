use kernel_core::buddy_allocator::BuddyAllocator;
use kernel_core::page::{KernelLayout, PageManagement};
use kernel_core::task::{can_fork, can_task_init, kernel_fork, task_init, KERNEL_PID};

fn layout() -> KernelLayout {
    KernelLayout {
        text_start: 0x8000_0000,
        text_end: 0x8000_2000,
        rodata_start: 0x8000_2000,
        rodata_end: 0x8000_3000,
        data_start: 0x8000_3000,
        data_end: 0x8000_4000,
        bss_start: 0x8000_4000,
        bss_end: 0x8000_5000,
    }
}

#[test]
fn task_init_makes_the_kernel_task() {
    let mut b = BuddyAllocator::new();
    b.init(0x80100, 64);
    let (tasks, satp) = task_init(&mut b, &layout());
    assert_eq!(tasks.len(), 1);
    assert_eq!(tasks[0].pid, KERNEL_PID);
    assert_eq!(tasks[0].pid, 0);
    assert_eq!(satp, (8u64 << 60) | tasks[0].page.root_ppn());
    assert_eq!(satp, tasks[0].page.switch_to());
    assert_eq!(tasks[0].page.walk(0x80000), Some((0x80000 << 10) | 0b1011));
    assert_eq!(tasks[0].page.walk(0x80002), Some((0x80002 << 10) | 0b0011));
    assert_eq!(tasks[0].page.walk(0x80004), Some((0x80004 << 10) | 0b0111));
    assert_eq!(tasks[0].page.walk(0x80005), None);
    assert_eq!(b.free, 64 - 3);
}

#[test]
fn kernel_fork_appends_tasks_with_growing_numbers() {
    let mut b = BuddyAllocator::new();
    b.init(0x80100, 64);
    let (mut tasks, _) = task_init(&mut b, &layout());
    kernel_fork(&mut tasks, &mut b);
    kernel_fork(&mut tasks, &mut b);
    let pids: Vec<usize> = tasks.iter().map(|t| t.pid).collect();
    assert_eq!(pids, vec![0, 2, 3]);
    assert_eq!(tasks[1].page.frames.len(), 1);
    assert_ne!(tasks[1].page.root_ppn(), tasks[2].page.root_ppn());
    assert_ne!(tasks[0].page.root_ppn(), tasks[1].page.root_ppn());
    assert_eq!(tasks[1].page.walk(0x80000), None);
    assert_eq!(b.free, 64 - 5);
}

#[test]
fn can_task_init_tells_whether_the_pages_are_there() {
    for pages in 1..=8u64 {
        let mut b = BuddyAllocator::new();
        b.init(0x80100, pages);
        let free = b.free;
        // a root and two directories
        assert_eq!(can_task_init(&b, pages, &layout()), pages >= 3);
        // the test takes nothing
        assert_eq!(b.free, free);
        if pages >= 3 {
            let (tasks, _) = task_init(&mut b, &layout());
            assert_eq!(tasks.len(), 1);
            assert_eq!(b.free, pages - 3);
        }
    }
}

#[test]
fn can_task_init_refuses_pages_that_are_no_virtual_pages() {
    let mut b = BuddyAllocator::new();
    b.init(0x80100, 64);
    let mut far = layout();
    far.bss_start = 1 << 39;
    far.bss_end = (1 << 39) + 0x1000;
    assert!(!can_task_init(&b, 64, &far));
}

#[test]
fn can_task_init_refuses_segments_out_of_order() {
    let mut b = BuddyAllocator::new();
    b.init(0x80100, 64);
    let mut bad = layout();
    bad.data_end = bad.data_start - 0x1000;
    assert!(!can_task_init(&b, 64, &bad));
    assert!(can_task_init(&b, 64, &layout()));
}

#[test]
fn can_task_init_refuses_a_heap_that_no_table_can_point_to() {
    let mut b = BuddyAllocator::new();
    b.init(1 << 44, 64);
    assert!(!can_task_init(&b, 64, &layout()));
    let mut b = BuddyAllocator::new();
    b.init((1 << 44) - 64, 64);
    assert!(can_task_init(&b, 64, &layout()));
}

#[test]
fn can_fork_needs_a_page_for_the_root() {
    let mut b = BuddyAllocator::new();
    b.init(0x80100, 4);
    let (mut tasks, _) = task_init(&mut b, &layout());
    assert_eq!(b.free, 1);
    assert!(can_fork(&tasks, &b, 4));
    kernel_fork(&mut tasks, &mut b);
    assert_eq!(b.free, 0);
    assert!(!can_fork(&tasks, &b, 4));
    assert_eq!(tasks.len(), 2);
}
