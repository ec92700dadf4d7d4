use kmem::region_table::{FrameTable, Region};

#[test]
pub fn test_push() {
    let mut table = FrameTable::<usize>::default();

    for idx in 0..24 {
        table.insert({
            let mut d = Region { metadata: 0usize, start: 0, end: 1 };
            d.start = idx * 24;
            d.end = (idx + 1) * 24;

            d
        });

        println!("Current Table Status:");
        println!("{:?}", table);
    }
}

#[test]
fn insert_keeps_order_and_count() {
    let mut table = FrameTable::<usize>::default();
    table.insert(Region { metadata: 1usize, start: 100, end: 200 });
    table.insert(Region { metadata: 2usize, start: 0, end: 50 });
    table.insert(Region { metadata: 3usize, start: 300, end: 400 });
    assert_eq!(table.len(), 3);
    assert!(!table.is_empty());
    assert!(!table.is_full());
}

#[test]
fn region_accessors() {
    let r = Region { metadata: 7usize, start: 16, end: 48 };
    assert_eq!(r.extents(), (16, 48));
    assert_eq!(r.size(), 32);
    assert_eq!(r.metadata(), 7);
}
