use mamu_search::page::{page_size_or_default, page_start};
use mamu_search::{page_size, PageStatusBitmap, ValuePair, ValuePairSet, ValueType, DEFAULT_PAGE_SIZE};

#[test]
fn bitmap_covers_partial_pages() {
    // 0x800 bytes before the page border, 0x10 behind it
    let bitmap = PageStatusBitmap::new(0x810, 0x1800, 4096);
    assert_eq!(bitmap.num_pages(), 2);
    assert_eq!(bitmap.base_addr(), 0x1800);
    assert_eq!(bitmap.length(), 0x810);
    assert_eq!(bitmap.page_size(), 4096);
    assert_eq!(PageStatusBitmap::new(0x800, 0x1800, 4096).num_pages(), 1);
    assert_eq!(PageStatusBitmap::new(0x801, 0x1800, 4096).num_pages(), 2);
    assert_eq!(PageStatusBitmap::new(0, 0x1800, 4096).num_pages(), 1);
    assert_eq!(PageStatusBitmap::new(0, 0x1000, 4096).num_pages(), 0);
    assert_eq!(PageStatusBitmap::new(4096 * 3, 0x1000, 4096).num_pages(), 3);
    assert_eq!(PageStatusBitmap::new(4096 * 3, 0x1001, 4096).num_pages(), 4);
    assert_eq!(PageStatusBitmap::new(100, 10, 16).num_pages(), 7);
}

#[test]
fn bitmap_marks_and_counts() {
    let mut bitmap = PageStatusBitmap::new(4096 * 6, 0x10000, 4096);
    assert_eq!(bitmap.success_count(), 0);
    assert!(bitmap.get_success_page_ranges().is_empty());
    bitmap.mark_success(0);
    bitmap.mark_success(1);
    bitmap.mark_success(3);
    bitmap.mark_success(5);
    bitmap.mark_success(5);
    // beyond the last page: nothing changes
    bitmap.mark_success(6);
    assert_eq!(bitmap.success_count(), 4);
    assert!(bitmap.is_page_success(0));
    assert!(!bitmap.is_page_success(2));
    assert!(bitmap.is_page_success(5));
    assert!(!bitmap.is_page_success(6));
    assert_eq!(bitmap.get_success_page_ranges(), vec![(0, 2), (3, 4), (5, 6)]);
    bitmap.mark_all_success();
    assert_eq!(bitmap.success_count(), 6);
    assert_eq!(bitmap.get_success_page_ranges(), vec![(0, 6)]);
}

#[test]
fn bitmap_tells_addresses_on_read_pages() {
    let mut bitmap = PageStatusBitmap::new(0x3000, 0x10800, 4096);
    assert_eq!(bitmap.num_pages(), 4);
    bitmap.mark_success(1);
    assert!(!bitmap.is_address_success(0x10800));
    assert!(!bitmap.is_address_success(0x10fff));
    assert!(bitmap.is_address_success(0x11000));
    assert!(bitmap.is_address_success(0x11fff));
    assert!(!bitmap.is_address_success(0x12000));
    // before the first page and behind the last
    assert!(!bitmap.is_address_success(0xffff));
    assert!(!bitmap.is_address_success(0x14000));
    bitmap.mark_success(0);
    // the first page counts from its start, also before the chunk's first byte
    assert!(bitmap.is_address_success(0x10000));
}

#[test]
fn page_size_rules() {
    assert_eq!(DEFAULT_PAGE_SIZE, 4096);
    assert_eq!(page_size_or_default(Some(16384)), 16384);
    assert_eq!(page_size_or_default(Some(0)), 4096);
    assert_eq!(page_size_or_default(Some(-1)), 4096);
    assert_eq!(page_size_or_default(None), 4096);
    let size = page_size();
    assert!(size > 0);
    assert_eq!(size & (size - 1), 0, "the page size of this machine is a power of two");
    assert_eq!(page_start(0x12345, 4096), 0x12000);
    assert_eq!(page_start(0x12000, 4096), 0x12000);
    assert_eq!(page_start(0x12345, 16384), 0x10000);
    assert_eq!(page_start(7, 1), 7);
}

#[test]
fn pair_set_is_ordered_by_address() {
    let mut set = ValuePairSet::new();
    assert!(set.is_empty());
    assert_eq!(set.len(), 0);
    assert!(set.insert(ValuePair::new(0x30, ValueType::Dword)));
    assert!(set.insert(ValuePair::new(0x10, ValueType::Word)));
    assert!(set.insert(ValuePair::new(0x20, ValueType::Byte)));
    assert!(set.insert(ValuePair::new(u64::MAX, ValueType::Double)));
    assert!(set.insert(ValuePair::new(0, ValueType::Float)));
    assert_eq!(set.len(), 5);
    assert!(!set.is_empty());
    assert!(set.contains(0x20));
    assert!(!set.contains(0x21));
    assert_eq!(set.get(0x10), Some(ValueType::Word));
    assert_eq!(set.get(0x11), None);
    assert_eq!(
        set.to_vec(),
        vec![
            ValuePair::new(0, ValueType::Float),
            ValuePair::new(0x10, ValueType::Word),
            ValuePair::new(0x20, ValueType::Byte),
            ValuePair::new(0x30, ValueType::Dword),
            ValuePair::new(u64::MAX, ValueType::Double),
        ]
    );
}

#[test]
fn pair_set_holds_an_address_once() {
    let mut set = ValuePairSet::new();
    assert!(set.insert(ValuePair::new(0x10, ValueType::Word)));
    // the later pair gives the address its type
    assert!(!set.insert(ValuePair::new(0x10, ValueType::Qword)));
    assert_eq!(set.len(), 1);
    assert_eq!(set.to_vec(), vec![ValuePair::new(0x10, ValueType::Qword)]);
    set.insert_batch(&vec![
        ValuePair::new(0x18, ValueType::Byte),
        ValuePair::new(0x10, ValueType::Float),
        ValuePair::new(0x08, ValueType::Byte),
    ]);
    assert_eq!(
        set.to_vec(),
        vec![
            ValuePair::new(0x08, ValueType::Byte),
            ValuePair::new(0x10, ValueType::Float),
            ValuePair::new(0x18, ValueType::Byte),
        ]
    );
}

#[test]
fn pair_set_holds_many() {
    let mut set = ValuePairSet::new();
    for i in 0..5000u64 {
        set.insert(ValuePair::new((i * 7919) % 10007, ValueType::Dword));
    }
    assert_eq!(set.len(), 5000);
    let listed = set.to_vec();
    assert_eq!(listed.len(), 5000);
    assert!(listed.windows(2).all(|two| two[0].addr < two[1].addr));
}
