use kmem::addr::{Address, Frame};
use kmem::block::{BlockAllocator, BlockPage};
use kmem::malloc::AllocError;
use kmem::paging::VirtualAddressor;
use kmem::pmm::{FrameAllocator, MemoryRegion};

fn fresh_allocator(total_frames: usize) -> BlockAllocator {
    let regions = vec![MemoryRegion { start: 0, end: total_frames * 4096 }];
    let frames = FrameAllocator::new(&regions, total_frames * 4096).unwrap();
    let addressor = VirtualAddressor::new(frames, 0);
    BlockAllocator::new(addressor).unwrap()
}

#[test]
fn block_page_states() {
    let mut p = BlockPage::new();
    assert!(p.is_empty());
    assert!(!p.is_full());
    p.set_full();
    assert!(p.is_full());
    assert_eq!(*p.value(), u64::MAX);
    p.set_empty();
    assert!(p.is_empty());
    *p.value_mut() = 0b101;
    assert_eq!(*p.value(), 0b101);
    assert!(!p.is_empty());
}

#[test]
fn fresh_map_reserves_page_zero_and_its_table() {
    let a = fresh_allocator(1024);
    assert_eq!(a.len(), 512);
    assert_eq!(a.get_page_state(0), Some(true));
    assert_eq!(a.get_page_state(1), Some(true));
    assert_eq!(a.get_page_state(2), Some(false));
    assert_eq!(a.get_page_state(512), None);
}

#[test]
fn first_allocation_lands_after_the_reserved_pages() {
    // an otherwise-empty one-page map: page 0 reserved, page 1 the table
    let mut a = fresh_allocator(1024);
    let h = a.allocate(32, None).unwrap();
    let (addr, len) = h.into_parts();
    assert_eq!(addr, 2 * 4096);
    assert_eq!(len, 64);
    assert!(len >= 32);
}

#[test]
fn alignment_is_honored() {
    let mut a = fresh_allocator(1024);
    let (addr1, _) = a.allocate(100, Some(256)).unwrap().into_parts();
    assert_eq!(addr1 % 256, 0);
    let (addr2, len2) = a.allocate(100, Some(8192)).unwrap().into_parts();
    assert_eq!(addr2 % 8192, 0);
    assert!(len2 >= 100);
    assert!(addr1 + 128 <= addr2 || addr2 + len2 <= addr1);
}

#[test]
fn invalid_alignment_is_refused() {
    let mut a = fresh_allocator(1024);
    assert!(matches!(a.allocate(10, Some(3)), Err(AllocError::InvalidAlignment(3))));
    assert!(matches!(a.allocate(10, Some(0)), Err(AllocError::InvalidAlignment(0))));
}

#[test]
fn dealloc_makes_the_range_reusable() {
    let mut a = fresh_allocator(1024);
    let (addr, _) = a.allocate(32, None).unwrap().into_parts();
    a.dealloc(addr, 32);
    let (again, _) = a.allocate(32, None).unwrap().into_parts();
    assert_eq!(addr, again);
}

#[test]
fn growth_serves_what_did_not_fit() {
    let mut a = fresh_allocator(4096);
    let before = a.len();
    let (small, _) = a.allocate(32, None).unwrap().into_parts();
    // more bytes than the whole current map holds: the map must grow
    let (big, big_len) = a.allocate(before * 4096, None).unwrap().into_parts();
    assert!(a.len() > before);
    assert!(big_len >= before * 4096);
    assert!(small + 64 <= big || big + big_len <= small);
}

#[test]
fn two_live_allocations_never_overlap() {
    let mut a = fresh_allocator(1024);
    let (x, xl) = a.allocate(1000, None).unwrap().into_parts();
    let (y, yl) = a.allocate(3000, None).unwrap().into_parts();
    assert!(x + xl <= y || y + yl <= x);
}

#[test]
fn contiguous_allocation_is_page_backed() {
    let mut a = fresh_allocator(1024);
    let (paddr, h) = a.alloc_contiguous(3).unwrap();
    let (vaddr, len) = h.into_parts();
    assert_eq!(len, 3 * 4096);
    assert_eq!(vaddr % 4096, 0);
    assert_eq!(paddr.as_usize() % 4096, 0);
}

#[test]
fn identity_mapping_overlap_rolls_back() {
    let regions = vec![MemoryRegion { start: 0, end: 1024 * 4096 }];
    let mut frames = FrameAllocator::new(&regions, 1024 * 4096).unwrap();
    for i in 100..103 {
        frames.lock_frame(Address::<Frame>::from_index(i).unwrap()).unwrap();
    }
    let addressor = VirtualAddressor::new(frames, 0);
    let mut a = BlockAllocator::new(addressor).unwrap();
    // take page 101 first
    let h = a.alloc_identity(101, 1).unwrap();
    assert_eq!(h.into_parts(), (101 * 4096, 4096));
    assert_eq!(a.get_page_state(101), Some(true));
    // a request over 100..103 hits page 101 and must roll page 100 back
    assert!(matches!(a.alloc_identity(100, 3), Err(AllocError::IdentityMappingOverlaps)));
    assert_eq!(a.get_page_state(100), Some(false));
    assert_eq!(a.get_page_state(102), Some(false));
    assert_eq!(a.get_page_state(101), Some(true));
}

#[test]
fn alloc_against_binds_reserved_frames() {
    let regions = vec![MemoryRegion { start: 0, end: 1024 * 4096 }];
    let mut frames = FrameAllocator::new(&regions, 1024 * 4096).unwrap();
    for i in 200..204 {
        frames.lock_frame(Address::<Frame>::from_index(i).unwrap()).unwrap();
    }
    let addressor = VirtualAddressor::new(frames, 0);
    let mut a = BlockAllocator::new(addressor).unwrap();
    let (addr, len) = a.alloc_against(200, 4).unwrap().into_parts();
    assert_eq!(len, 4 * 4096);
    assert_eq!(addr % 4096, 0);
    let first_page = addr / 4096;
    for o in 0..4 {
        assert_eq!(a.get_page_state(first_page + o), Some(true));
    }
}

#[test]
fn physical_memory_translates_by_the_offset() {
    let regions = vec![MemoryRegion { start: 0, end: 64 * 4096 }];
    let frames = FrameAllocator::new(&regions, 64 * 4096).unwrap();
    let addressor = VirtualAddressor::new(frames, 0xffff_0000_0000);
    let a = BlockAllocator::new(addressor).unwrap();
    let phys = kmem::addr::Address::<kmem::addr::Physical>::new(0x1234000).unwrap();
    assert_eq!(a.physical_memory(phys).get(), 0xffff_0000_0000 + 0x1234000);
}

#[test]
fn a_zero_byte_request_still_takes_one_block() {
    let mut a = fresh_allocator(1024);
    let (_, len) = a.allocate(0, None).unwrap().into_parts();
    assert_eq!(len, 64);
}

#[test]
fn block_state_reports_occupancy() {
    let mut a = fresh_allocator(1024);
    let (addr, _) = a.allocate(100, None).unwrap().into_parts();
    let first = addr / 64;
    assert_eq!(a.block_state(first), Some(true));
    assert_eq!(a.block_state(first + 1), Some(true));
    assert_eq!(a.block_state(first + 2), Some(false));
    assert_eq!(a.block_state(512 * 64), None);
}

#[test]
fn identity_mapping_grows_the_map_on_demand() {
    let regions = vec![MemoryRegion { start: 0, end: 4096 * 4096 }];
    let mut frames = FrameAllocator::new(&regions, 4096 * 4096).unwrap();
    for i in 600..602 {
        frames.lock_frame(Address::<Frame>::from_index(i).unwrap()).unwrap();
    }
    let addressor = VirtualAddressor::new(frames, 0);
    let mut a = BlockAllocator::new(addressor).unwrap();
    assert_eq!(a.len(), 512);
    let h = a.alloc_identity(600, 2).unwrap();
    assert_eq!(h.into_parts(), (600 * 4096, 2 * 4096));
    assert!(a.len() > 512);
    assert_eq!(a.get_page_state(600), Some(true));
    assert_eq!(a.get_page_state(601), Some(true));
}

#[test]
fn against_grows_the_map_on_demand() {
    let regions = vec![MemoryRegion { start: 0, end: 4096 * 4096 }];
    let mut frames = FrameAllocator::new(&regions, 4096 * 4096).unwrap();
    for i in 2000..2600 {
        frames.lock_frame(Address::<Frame>::from_index(i).unwrap()).unwrap();
    }
    let addressor = VirtualAddressor::new(frames, 0);
    let mut a = BlockAllocator::new(addressor).unwrap();
    assert_eq!(a.len(), 512);
    let (addr, len) = a.alloc_against(2000, 600).unwrap().into_parts();
    assert!(a.len() > 512);
    assert_eq!(len, 600 * 4096);
    assert_eq!(addr % 4096, 0);
}

#[test]
fn exhausted_frames_fail_the_bootstrap() {
    // two frames: the bitmap takes frame 0, and frame 1 is locked away,
    // so the block allocator cannot map its own table
    let regions = vec![MemoryRegion { start: 0, end: 2 * 4096 }];
    let mut frames = FrameAllocator::new(&regions, 2 * 4096).unwrap();
    frames.lock_frame(Address::<Frame>::from_index(1).unwrap()).unwrap();
    let addressor = VirtualAddressor::new(frames, 0);
    assert!(matches!(
        BlockAllocator::new(addressor),
        Err(AllocError::OutOfMemory)
    ));
}

#[test]
fn contiguous_failure_leaves_the_map_untouched() {
    // sixteen frames: the bitmap and the block table use a few, so no run of
    // sixteen free frames is left, and the request must fail cleanly
    let mut a = fresh_allocator(16);
    let len_before = a.len();
    let states: Vec<Option<bool>> = (0..len_before).map(|p| a.get_page_state(p)).collect();
    match a.alloc_contiguous(16) {
        Err(AllocError::FallocError(_)) => {}
        other => panic!("expected a frame-table failure, got {:?}", other.map(|_| ())),
    }
    assert_eq!(a.len(), len_before);
    for p in 0..len_before {
        assert_eq!(a.get_page_state(p), states[p]);
    }
}

#[test]
fn identity_mapping_overlap_with_itself_is_reported() {
    let regions = vec![MemoryRegion { start: 0, end: 4096 * 4096 }];
    let mut frames = FrameAllocator::new(&regions, 4096 * 4096).unwrap();
    for i in 300..302 {
        frames.lock_frame(Address::<Frame>::from_index(i).unwrap()).unwrap();
    }
    let addressor = VirtualAddressor::new(frames, 0);
    let mut a = BlockAllocator::new(addressor).unwrap();
    a.alloc_identity(300, 2).unwrap();
    // the same range again: page 300 is already mapped, so the call must
    // report the overlap and leave everything as it was
    assert!(matches!(a.alloc_identity(300, 2), Err(AllocError::IdentityMappingOverlaps)));
    assert_eq!(a.get_page_state(300), Some(true));
    assert_eq!(a.get_page_state(301), Some(true));
    assert_eq!(a.get_page_state(302), Some(false));
}
