use kernel_heap::linked_list::{AllocError, LinkedListAllocator, ListNode};

#[test]
fn new_list_is_empty() {
    let l = LinkedListAllocator::new();
    assert_eq!(l.regions.len(), 0);
}

#[test]
fn init_creates_single_region() {
    let mut l = LinkedListAllocator::new();
    l.init(0x1000, 1024);
    assert_eq!(l.regions.len(), 1);
    assert_eq!(l.regions[0].start, 0x1000);
    assert_eq!(l.regions[0].size, 1024);
}

#[test]
fn list_node_addresses() {
    let n = ListNode::new(0x1000, 64);
    assert_eq!(n.start_address(), 0x1000);
    assert_eq!(n.end_address(), 0x1040);
}

#[test]
fn scenario_1024_at_0x1000() {
    // Heap of 1024 units at base 0x1000.
    let mut l = LinkedListAllocator::new();
    l.init(0x1000, 1024);
    assert_eq!(l.allocate(64, 8), Some(0x1000));
    assert_eq!(l.allocate(64, 8), Some(0x1040));
    // Free the first allocation; first-fit reuses 0x1000.
    assert!(l.deallocate(0x1000, 64, 8).is_ok());
    assert_eq!(l.allocate(32, 8), Some(0x1000));
}

#[test]
fn exact_fit_reuse_returns_same_address() {
    let mut l = LinkedListAllocator::new();
    l.init(0x1000, 1024);
    let _ = l.allocate(128, 8).unwrap();
    let a = l.allocate(64, 8).unwrap();
    assert!(l.deallocate(a, 64, 8).is_ok());
    assert_eq!(l.allocate(64, 8), Some(a));
}

#[test]
fn round_trip_restores_free_list() {
    let mut l = LinkedListAllocator::new();
    l.init(0x1000, 1024);
    let _ = l.allocate(64, 8).unwrap();
    let before: Vec<ListNode> = l.regions.clone();
    let total_before: u64 = l.regions.iter().map(|n| n.size).sum();
    let a = l.allocate(48, 8).unwrap();
    assert!(l.deallocate(a, 48, 8).is_ok());
    let total_after: u64 = l.regions.iter().map(|n| n.size).sum();
    assert_eq!(l.regions.len(), before.len());
    assert_eq!(total_after, total_before);
    assert_eq!(l.regions, before);
}

#[test]
fn adjacent_frees_coalesce_into_one_region() {
    let mut l = LinkedListAllocator::new();
    l.init(0x1000, 1024);
    let a1 = l.allocate(64, 8).unwrap();
    let a2 = l.allocate(64, 8).unwrap();
    assert_eq!((a1, a2), (0x1000, 0x1040));
    assert!(l.deallocate(a1, 64, 8).is_ok());
    // [0x1000, 64) and the tail [0x1080, 896) with a live block between.
    assert_eq!(l.regions.len(), 2);
    assert!(l.deallocate(a2, 64, 8).is_ok());
    // The freed block touches both neighbors: exactly one region remains.
    assert_eq!(l.regions.len(), 1);
    assert_eq!(l.regions[0].start, 0x1000);
    assert_eq!(l.regions[0].size, 1024);
    // A block larger than either 64-unit fragment but within the merged
    // region fits.
    assert_eq!(l.allocate(128, 8), Some(0x1000));
}

#[test]
fn overlapping_free_is_corruption() {
    let mut l = LinkedListAllocator::new();
    l.init(0x1000, 1024);
    let a = l.allocate(64, 8).unwrap();
    assert!(l.deallocate(a, 64, 8).is_ok());
    // Freeing the same block again overlaps the now-free region.
    assert_eq!(l.deallocate(a, 64, 8), Err(AllocError::CorruptionDetected));
    // Handing back a range that overlaps the free tail is caught too.
    assert_eq!(
        l.add_free_region(0x1200, 64),
        Err(AllocError::CorruptionDetected)
    );
}

#[test]
fn malformed_regions_are_rejected() {
    let mut l = LinkedListAllocator::new();
    assert_eq!(
        l.add_free_region(0x1001, 64),
        Err(AllocError::PreconditionViolation)
    );
    assert_eq!(
        l.add_free_region(0x1000, 8),
        Err(AllocError::PreconditionViolation)
    );
    // An aligned range that would wrap the address space.
    assert_eq!(
        l.add_free_region(u64::MAX - 15, 32),
        Err(AllocError::PreconditionViolation)
    );
    assert_eq!(l.regions.len(), 0);
}

#[test]
fn failed_allocation_changes_nothing() {
    let mut l = LinkedListAllocator::new();
    l.init(0x1000, 64);
    assert_eq!(l.allocate(128, 8), None);
    assert_eq!(l.regions.len(), 1);
    assert_eq!(l.regions[0].start, 0x1000);
    assert_eq!(l.regions[0].size, 64);
}

#[test]
fn unusably_small_fragment_is_never_carved() {
    let mut l = LinkedListAllocator::new();
    l.init(0x1000, 72);
    // 72 - 64 leaves 8 units: too small for a region, so the request
    // does not fit at all.
    assert_eq!(l.allocate(64, 8), None);
    // 72 - 56 leaves 16 units: exactly a region's worth.
    assert_eq!(l.allocate(56, 8), Some(0x1000));
    assert_eq!(l.regions.len(), 1);
    assert_eq!(l.regions[0].start, 0x1038);
    assert_eq!(l.regions[0].size, 16);
}

#[test]
fn size_align_pads_requests() {
    assert_eq!(LinkedListAllocator::size_align(10, 1), Some((16, 8)));
    assert_eq!(LinkedListAllocator::size_align(17, 8), Some((24, 8)));
    assert_eq!(LinkedListAllocator::size_align(5, 32), Some((32, 32)));
    assert_eq!(LinkedListAllocator::size_align(0, 8), Some((16, 8)));
    assert_eq!(LinkedListAllocator::size_align(64, 8), Some((64, 8)));
    assert_eq!(LinkedListAllocator::size_align(u64::MAX - 2, 8), None);
}

#[test]
fn alloc_from_region_checks_fit() {
    let n = ListNode::new(0x1000, 64);
    assert_eq!(LinkedListAllocator::alloc_from_region(&n, 32, 8), Ok(0x1000));
    assert_eq!(LinkedListAllocator::alloc_from_region(&n, 64, 8), Ok(0x1000));
    // Leftover of 4 units is an unusable fragment.
    assert_eq!(LinkedListAllocator::alloc_from_region(&n, 60, 8), Err(()));
    assert_eq!(LinkedListAllocator::alloc_from_region(&n, 128, 8), Err(()));
    // Alignment padding can push the block past the region's end.
    let n2 = ListNode::new(0x1008, 64);
    assert_eq!(LinkedListAllocator::alloc_from_region(&n2, 64, 32), Err(()));
}

#[test]
fn find_region_splices_out_first_fit() {
    let mut l = LinkedListAllocator::new();
    l.init(0x1000, 1024);
    let (node, start) = l.find_region(64, 8).unwrap();
    assert_eq!(node.start, 0x1000);
    assert_eq!(node.size, 1024);
    assert_eq!(start, 0x1000);
    assert_eq!(l.regions.len(), 0);
}

#[test]
fn first_fit_skips_too_small_regions() {
    let mut l = LinkedListAllocator::new();
    l.init(0x1000, 1024);
    let a1 = l.allocate(32, 8).unwrap();
    let _a2 = l.allocate(64, 8).unwrap();
    assert!(l.deallocate(a1, 32, 8).is_ok());
    // Free list: [0x1000, 32) then the tail; a 64-unit request must
    // come from the tail.
    assert_eq!(l.allocate(64, 8), Some(0x1060));
    // A 32-unit request reuses the first hole.
    assert_eq!(l.allocate(32, 8), Some(0x1000));
}
