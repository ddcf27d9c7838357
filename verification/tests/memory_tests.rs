use kernel::allocator::BumpAllocator;
use kernel::memory::allocator::LinkedListAllocator;
use kernel::memory::paging::{is_present, page_directory_index, page_table_index, table_entry};
use kernel::memory::{allocate_memory, FrameBitmap};

#[test]
fn frames_handed_out_in_order() {
    let mut b = FrameBitmap::new();
    assert_eq!(allocate_memory(&mut b), Some(0x200000));
    assert_eq!(allocate_memory(&mut b), Some(0x201000));
    assert_eq!(allocate_memory(&mut b), Some(0x202000));
}

#[test]
fn frames_run_out() {
    let mut b = FrameBitmap::new();
    let mut last = 0;
    for _ in 0..8192 {
        last = allocate_memory(&mut b).unwrap();
    }
    assert_eq!(last, 0x200000 + 8191 * 4096);
    assert_eq!(allocate_memory(&mut b), None);
}

#[test]
fn linked_list_first_fit_and_split() {
    let mut a = LinkedListAllocator::new();
    a.init(0x1000, 0x100);
    assert_eq!(a.allocate(32, 8), 0x1000);
    assert_eq!(a.allocate(8, 8), 0x1020);
    assert_eq!(a.allocate(0x100, 8), 0);
}

#[test]
fn linked_list_small_remainder_handed_out_whole() {
    let mut a = LinkedListAllocator::new();
    a.init(0x1000, 40);
    assert_eq!(a.allocate(32, 8), 0x1000);
    assert_eq!(a.allocate(16, 8), 0);
}

#[test]
fn linked_list_dealloc_goes_first() {
    let mut a = LinkedListAllocator::default();
    a.init(0x1000, 0x100);
    let p = a.allocate(64, 8);
    assert_eq!(p, 0x1000);
    a.deallocate(p, 64, 8);
    assert_eq!(a.allocate(64, 8), 0x1000);
}

#[test]
fn linked_list_empty_gives_null() {
    let mut a = LinkedListAllocator::new();
    assert_eq!(a.allocate(1, 1), 0);
}

#[test]
fn linked_list_skips_small_regions() {
    let mut a = LinkedListAllocator::new();
    a.init(0x8000, 0x100);
    a.init(0x1000, 16);
    assert_eq!(a.allocate(32, 1), 0x8000);
    assert_eq!(a.allocate(16, 1), 0x1000);
}

#[test]
fn bump_aligns_and_advances() {
    let mut b = BumpAllocator::new(0x200001, 0x300000);
    assert_eq!(b.allocate(16, 8), 0x200008);
    assert_eq!(b.allocate(1, 1), 0x200018);
    assert_eq!(b.allocate(4, 4096), 0x201000);
}

#[test]
fn bump_out_of_memory() {
    let mut b = BumpAllocator::new(0x200000, 0x200010);
    assert_eq!(b.allocate(0x20, 1), 0);
    assert_eq!(b.allocate(0x10, 1), 0x200000);
    assert_eq!(b.allocate(1, 1), 0);
}

#[test]
fn paging_indices() {
    assert_eq!(page_directory_index(0x800000), 4);
    assert_eq!(page_table_index(0x800000), 0);
    assert_eq!(page_directory_index(0x2345678), 0x11);
    assert_eq!(page_table_index(0x2345678), 0x145);
}

#[test]
fn paging_entries() {
    assert_eq!(table_entry(0x123456, 7), 0x123007);
    assert_eq!(table_entry(0x13000, 3), 0x13003);
    assert!(is_present(0x13003));
    assert!(!is_present(0x13002));
}
