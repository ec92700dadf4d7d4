use kmem::addr::{Address, Frame};
use kmem::pmm::{Error, FrameAllocator, MemoryDescriptor, MemoryRegion};

fn table_with(total_frames: usize) -> FrameAllocator {
    let regions = vec![MemoryRegion { start: 0, end: total_frames * 4096 }];
    FrameAllocator::new(&regions, total_frames * 4096).unwrap()
}

#[test]
fn next_frame_returns_distinct_free_frames() {
    let mut t = table_with(1024);
    // the table's own storage owns frame 0
    let a = t.next_frame().unwrap().index();
    let b = t.next_frame().unwrap().index();
    let c = t.next_frame().unwrap().index();
    assert_ne!(a, b);
    assert_ne!(b, c);
    assert_ne!(a, c);
    assert_eq!(a, 1);
    assert_eq!(b, 2);
    assert_eq!(c, 3);
}

#[test]
fn freed_frame_is_reused() {
    let mut t = table_with(1024);
    let a = t.next_frame().unwrap();
    t.free_frame(a).unwrap();
    let b = t.next_frame().unwrap();
    assert_eq!(a.index(), b.index());
}

#[test]
fn three_runs_of_four_then_reuse() {
    // a Frame Table over 1024 frames; the bitmap itself owns frame 0
    let mut t = table_with(1024);
    let r1 = t.next_frames(4, None).unwrap().index();
    let r2 = t.next_frames(4, None).unwrap().index();
    let r3 = t.next_frames(4, None).unwrap().index();
    assert!(r1 < r2 && r2 < r3);
    assert!(r1 + 4 <= r2 && r2 + 4 <= r3);
    for o in 0..4 {
        t.free_frame(Address::<Frame>::from_index(r1 + o).unwrap()).unwrap();
    }
    let again = t.next_frames(4, None).unwrap().index();
    assert_eq!(again, r1);
}

#[test]
fn aligned_runs_start_on_stride() {
    let mut t = table_with(1024);
    let r = t.next_frames(3, Some(8)).unwrap().index();
    assert_eq!(r % 8, 0);
    let r2 = t.next_frames(3, Some(8)).unwrap().index();
    assert_eq!(r2 % 8, 0);
    assert!(r + 3 <= r2 || r2 + 3 <= r);
}

#[test]
fn exhaustion_reports_none_free() {
    let mut t = table_with(2);
    assert_eq!(t.next_frame().unwrap().index(), 1);
    assert!(matches!(t.next_frame(), Err(Error::NoneFree)));
}

#[test]
fn out_of_bounds_frames_are_refused() {
    let mut t = table_with(2);
    let far = Address::<Frame>::from_index(100_000).unwrap();
    assert!(matches!(t.free_frame(far), Err(Error::OutOfBounds)));
    assert!(matches!(t.lock_frame(far), Err(Error::OutOfBounds)));
}

#[test]
fn lock_frame_is_idempotent_from_outside() {
    let mut t = table_with(16);
    let f = Address::<Frame>::from_index(5).unwrap();
    t.lock_frame(f).unwrap();
    t.lock_frame(f).unwrap();
    t.free_frame(f).unwrap();
    // frame 0 hosts the table, so frame 5 is found after 1..=4 are taken
    t.lock_frame(Address::<Frame>::from_index(1).unwrap()).unwrap();
    t.lock_frame(Address::<Frame>::from_index(2).unwrap()).unwrap();
    t.lock_frame(Address::<Frame>::from_index(3).unwrap()).unwrap();
    t.lock_frame(Address::<Frame>::from_index(4).unwrap()).unwrap();
    assert_eq!(t.next_frame().unwrap().index(), 5);
}

#[test]
fn reserve_system_frames_locks_reserved_descriptors() {
    let mut t = table_with(64);
    let map = vec![
        MemoryDescriptor { phys_start: 4096 * 8, page_count: 4, reserve: true },
        MemoryDescriptor { phys_start: 4096 * 20, page_count: 2, reserve: false },
        MemoryDescriptor { phys_start: 4096 * 30 + 17, page_count: 3, reserve: true },
    ];
    t.reserve_system_frames(&map);
    // frames 8..12 are now taken, 20..22 are not, the unaligned entry is skipped
    t.free_frame(Address::<Frame>::from_index(8).unwrap()).unwrap();
    assert_eq!(t.next_frames(4, Some(4)).unwrap().index(), 4);
    assert_eq!(t.next_frames(4, Some(4)).unwrap().index(), 12);
}

#[test]
fn total_memory_counts_whole_table() {
    let t = table_with(1024);
    assert_eq!(t.total_memory(), 1024 * 4096);
}
