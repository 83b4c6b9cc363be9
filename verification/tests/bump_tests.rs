use kernel_heap::align::align_up;
use kernel_heap::bump::BumpAllocator;

#[test]
fn align_up_values() {
    assert_eq!(align_up(10, 8), Some(16));
    assert_eq!(align_up(16, 8), Some(16));
    assert_eq!(align_up(0, 1), Some(0));
    assert_eq!(align_up(7, 1), Some(7));
    assert_eq!(align_up(0x1001, 4096), Some(0x2000));
    assert_eq!(align_up(u64::MAX - 3, 8), None);
}

#[test]
fn new_starts_zeroed() {
    let b = BumpAllocator::new();
    assert_eq!(b.heap_start, 0);
    assert_eq!(b.heap_end, 0);
    assert_eq!(b.next, 0);
    assert_eq!(b.allocations, 0);
}

#[test]
fn init_sets_range() {
    let mut b = BumpAllocator::new();
    b.init(0x1000, 1024);
    assert_eq!(b.heap_start, 0x1000);
    assert_eq!(b.heap_end, 0x1400);
    assert_eq!(b.next, 0x1000);
    assert_eq!(b.allocations, 0);
}

#[test]
fn bump_scenario_1024_at_0x1000() {
    // Heap of 1024 units at base 0x1000.
    let mut b = BumpAllocator::new();
    b.init(0x1000, 1024);
    assert_eq!(b.allocate(64, 8), Some(0x1000));
    assert_eq!(b.allocate(64, 8), Some(0x1040));
    // Free the first allocation: one of two outstanding, so the cursor
    // stays put and the next request continues from 0x1080.
    b.deallocate(0x1000, 64, 8);
    assert_eq!(b.allocate(32, 8), Some(0x1080));
}

#[test]
fn matched_deallocs_reset_cursor() {
    let mut b = BumpAllocator::new();
    b.init(0x1000, 1024);
    let a1 = b.allocate(64, 8).unwrap();
    let a2 = b.allocate(32, 8).unwrap();
    b.deallocate(a2, 32, 8);
    assert_eq!(b.next, 0x1060);
    b.deallocate(a1, 64, 8);
    assert_eq!(b.next, 0x1000);
    assert_eq!(b.allocations, 0);
}

#[test]
fn partial_deallocs_never_reset_cursor() {
    let mut b = BumpAllocator::new();
    b.init(0x1000, 1024);
    let a1 = b.allocate(64, 8).unwrap();
    let _a2 = b.allocate(64, 8).unwrap();
    let _a3 = b.allocate(64, 8).unwrap();
    b.deallocate(a1, 64, 8);
    assert_eq!(b.next, 0x10c0);
    b.deallocate(a1, 64, 8);
    assert_eq!(b.next, 0x10c0);
    assert_eq!(b.allocations, 1);
}

#[test]
fn failed_request_changes_nothing() {
    let mut b = BumpAllocator::new();
    b.init(0x1000, 100);
    assert_eq!(b.allocate(64, 8), Some(0x1000));
    let next_before = b.next;
    let count_before = b.allocations;
    // 0x1040 + 64 would run past heap_end == 0x1064.
    assert_eq!(b.allocate(64, 8), None);
    assert_eq!(b.next, next_before);
    assert_eq!(b.allocations, count_before);
}

#[test]
fn arithmetic_overflow_fails_closed() {
    let mut b = BumpAllocator::new();
    b.init(u64::MAX - 64, 64);
    let next_before = b.next;
    assert_eq!(b.allocate(100, 8), None);
    assert_eq!(b.next, next_before);
    assert_eq!(b.allocations, 0);
}

#[test]
fn alignment_is_honored() {
    let mut b = BumpAllocator::new();
    b.init(0x1008, 256);
    let a = b.allocate(10, 16).unwrap();
    assert_eq!(a, 0x1010);
    assert_eq!(a % 16, 0);
    assert_eq!(b.next, 0x101a);
}
