use mamu_search::{
    progress_percent, ProgressBuffer, SearchEngineManager, SearchError, SearchFilter, SearchMode,
    SearchQuery, SearchResultItem, SearchResultManager, SearchResultMode, SearchValue, ValuePair,
    ValueType, DEFAULT_CHUNK_SIZE, PROGRESS_BUFFER_LEN,
};

fn single_query() -> SearchQuery {
    SearchQuery::new(vec![SearchValue::fixed(5, ValueType::Dword)], SearchMode::Ordered, 4)
}

fn pairs(addrs: &[u64]) -> Vec<ValuePair> {
    addrs.iter().map(|addr| ValuePair::new(*addr, ValueType::Dword)).collect()
}

fn addresses(items: &[SearchResultItem]) -> Vec<u64> {
    items.iter().map(|item| item.address()).collect()
}

#[test]
fn filter_starts_cleared() {
    let filter = SearchFilter::new();
    assert!(!filter.is_active());
    assert!(!filter.enable_address_filter);
    assert!(!filter.enable_type_filter);
    assert_eq!(filter.address_start, 0);
    assert_eq!(filter.address_end, 0);
    assert!(filter.type_ids.is_empty());
    assert!(filter.accepts(0x1234, ValueType::Byte));
    let default = SearchFilter::default();
    assert!(!default.is_active());
}

#[test]
fn filter_is_active_and_clears() {
    let mut filter = SearchFilter::new();
    filter.enable_address_filter = true;
    assert!(filter.is_active());
    filter.clear();
    assert!(!filter.is_active());
    filter.enable_type_filter = true;
    assert!(filter.is_active());
    filter.clear();
    filter.type_ids.push(ValueType::Word);
    assert!(filter.is_active());
    filter.clear();
    assert!(!filter.is_active());
    assert!(filter.type_ids.is_empty());
}

#[test]
fn filter_accepts_by_address_and_type() {
    let mut filter = SearchFilter::new();
    filter.enable_address_filter = true;
    filter.address_start = 0x100;
    filter.address_end = 0x200;
    assert!(filter.accepts(0x100, ValueType::Byte));
    assert!(filter.accepts(0x1ff, ValueType::Byte));
    assert!(!filter.accepts(0x200, ValueType::Byte));
    assert!(!filter.accepts(0xff, ValueType::Byte));
    filter.enable_type_filter = true;
    filter.type_ids = vec![ValueType::Dword, ValueType::Float];
    assert!(filter.accepts(0x100, ValueType::Float));
    assert!(!filter.accepts(0x100, ValueType::Byte));
    assert!(!filter.accepts(0x300, ValueType::Float));
    filter.enable_address_filter = false;
    assert!(filter.accepts(0x300, ValueType::Dword));
    // types that are listed while the type filter is off do not filter
    filter.enable_type_filter = false;
    assert!(filter.accepts(0x300, ValueType::Byte));
}

#[test]
fn progress_percent_rounds_down() {
    assert_eq!(progress_percent(0, 0), 0);
    assert_eq!(progress_percent(0, 7), 0);
    assert_eq!(progress_percent(1, 3), 33);
    assert_eq!(progress_percent(2, 3), 66);
    assert_eq!(progress_percent(29, 100), 29);
    assert_eq!(progress_percent(3, 3), 100);
    assert_eq!(progress_percent(5, 3), 100);
    assert_eq!(progress_percent(usize::MAX - 1, usize::MAX), 99);
}

#[test]
fn progress_buffer_layout() {
    assert_eq!(PROGRESS_BUFFER_LEN, 20);
    let mut buffer = ProgressBuffer::new(24);
    assert_eq!(buffer.as_bytes(), &[0u8; 24][..]);
    buffer.update(42, 7, 0x0102_0304_0506_0708);
    buffer.update_heartbeat(-2);
    let bytes = buffer.as_bytes().to_vec();
    assert_eq!(&bytes[0..4], &42i32.to_le_bytes());
    assert_eq!(&bytes[4..8], &7i32.to_le_bytes());
    assert_eq!(&bytes[8..16], &0x0102_0304_0506_0708i64.to_le_bytes());
    assert_eq!(&bytes[16..20], &(-2i32).to_le_bytes());
    assert_eq!(&bytes[20..24], &[0, 0, 0, 0]);
    buffer.update(-1, i32::MIN, -1);
    let bytes = buffer.as_bytes().to_vec();
    assert_eq!(&bytes[0..4], &(-1i32).to_le_bytes());
    assert_eq!(&bytes[4..8], &i32::MIN.to_le_bytes());
    assert_eq!(&bytes[8..16], &(-1i64).to_le_bytes());
    assert_eq!(&bytes[16..20], &(-2i32).to_le_bytes());
    buffer.reset();
    assert_eq!(buffer.as_bytes(), &[0u8; 24][..]);
}

#[test]
fn progress_buffer_too_short_is_left_alone() {
    let mut buffer = ProgressBuffer::new(19);
    buffer.update(1, 2, 3);
    buffer.update_heartbeat(4);
    buffer.reset();
    assert_eq!(buffer.as_bytes(), &[0u8; 19][..]);
    let mut empty = ProgressBuffer::new(0);
    empty.update(1, 2, 3);
    assert!(empty.as_bytes().is_empty());
}

#[test]
fn store_keeps_results_by_address() {
    let mut store = SearchResultManager::new(1 << 20);
    assert_eq!(store.memory_buffer_size(), 1 << 20);
    assert_eq!(store.get_mode(), SearchResultMode::Exact);
    assert_eq!(store.total_count(), 0);
    store.add_results_batch(vec![
        SearchResultItem::new_exact(0x30, ValueType::Dword),
        SearchResultItem::new_exact(0x10, ValueType::Word),
        SearchResultItem::new_exact(0x20, ValueType::Byte),
    ]);
    store.add_results_batch(vec![
        SearchResultItem::new_exact(0x20, ValueType::Qword),
        SearchResultItem::new_exact(0x05, ValueType::Byte),
        SearchResultItem::new_exact(0x40, ValueType::Byte),
    ]);
    assert_eq!(store.total_count(), 5);
    let all = store.get_results(0, 10);
    assert_eq!(addresses(&all), vec![0x05, 0x10, 0x20, 0x30, 0x40]);
    // the later result took the place of the earlier one at 0x20
    assert_eq!(all[2].value_type(), ValueType::Qword);
    assert_eq!(addresses(&store.get_results(1, 2)), vec![0x10, 0x20]);
    assert_eq!(addresses(&store.get_results(4, 5)), vec![0x40]);
    assert_eq!(addresses(&store.get_results(5, 5)), Vec::<u64>::new());
    assert_eq!(addresses(&store.get_results(9, usize::MAX)), Vec::<u64>::new());
    assert_eq!(addresses(&store.get_results(2, usize::MAX)), vec![0x20, 0x30, 0x40]);
    assert_eq!(store.get_all_exact_results().len(), 5);
    assert_eq!(store.get_all_exact_results()[0].address, 0x05);
    assert_eq!(store.get_all_exact_results()[0].typ, ValueType::Byte);
}

#[test]
fn store_removes_results() {
    let mut store = SearchResultManager::new(0);
    store.add_results_batch(
        (0..6).map(|i| SearchResultItem::new_exact(0x100 + i, ValueType::Byte)).collect(),
    );
    assert_eq!(store.remove_result(6), Err(SearchError::ResultStoreError));
    assert_eq!(store.total_count(), 6);
    assert_eq!(store.remove_result(0), Ok(()));
    assert_eq!(addresses(&store.get_results(0, 10)), vec![0x101, 0x102, 0x103, 0x104, 0x105]);
    assert_eq!(store.remove_results_batch(vec![4, 1, 1]), Ok(()));
    assert_eq!(addresses(&store.get_results(0, 10)), vec![0x101, 0x103, 0x104]);
    assert_eq!(store.remove_results_batch(vec![0, 3]), Err(SearchError::ResultStoreError));
    assert_eq!(store.total_count(), 3);
    assert_eq!(store.remove_results_batch(Vec::new()), Ok(()));
    assert_eq!(store.total_count(), 3);
    store.set_mode(SearchResultMode::Fuzzy);
    assert_eq!(store.get_mode(), SearchResultMode::Fuzzy);
    assert_eq!(store.total_count(), 3);
    store.clear();
    assert_eq!(store.total_count(), 0);
    assert_eq!(store.get_mode(), SearchResultMode::Fuzzy);
}

#[test]
fn manager_needs_init() {
    let mut manager = SearchEngineManager::new();
    assert!(!manager.is_initialized());
    assert_eq!(manager.chunk_size(), DEFAULT_CHUNK_SIZE);
    assert_eq!(DEFAULT_CHUNK_SIZE, 512 * 1024);
    assert_eq!(
        manager.search_memory(&single_query(), &Vec::new()),
        Err(SearchError::NotInitialized)
    );
    assert_eq!(manager.get_results(0, 1).unwrap_err(), SearchError::NotInitialized);
    assert_eq!(manager.get_total_count(), Err(SearchError::NotInitialized));
    assert_eq!(manager.clear_results(), Err(SearchError::NotInitialized));
    assert_eq!(manager.remove_result(0), Err(SearchError::NotInitialized));
    assert_eq!(manager.remove_results_batch(vec![0]), Err(SearchError::NotInitialized));
    assert_eq!(manager.get_current_mode(), Err(SearchError::NotInitialized));
    assert!(!manager.is_initialized());
}

#[test]
fn manager_init_sets_the_chunk_size() {
    let mut manager = SearchEngineManager::new();
    assert_eq!(manager.init(1024, String::from("cache"), 0), Ok(()));
    assert!(manager.is_initialized());
    assert_eq!(manager.chunk_size(), 512 * 1024);
    assert_eq!(manager.init(1024, String::from("cache"), 4096), Ok(()));
    assert_eq!(manager.chunk_size(), 4096);
    assert_eq!(manager.get_total_count(), Ok(0));
    assert_eq!(manager.get_current_mode(), Ok(SearchResultMode::Exact));
}

#[test]
fn manager_refuses_bad_queries() {
    let mut manager = SearchEngineManager::new();
    manager.init(1024, String::new(), 0).unwrap();
    assert_eq!(manager.search_memory(&single_query(), &vec![pairs(&[1, 2])]), Ok(2));
    let empty = SearchQuery::new(Vec::new(), SearchMode::Ordered, 8);
    assert_eq!(manager.search_memory(&empty, &Vec::new()), Err(SearchError::EmptyQuery));
    let narrow = SearchQuery::new(
        vec![SearchValue::fixed(1, ValueType::Dword), SearchValue::fixed(2, ValueType::Dword)],
        SearchMode::Ordered,
        7,
    );
    assert_eq!(manager.search_memory(&narrow, &Vec::new()), Err(SearchError::RangeTooSmall));
    // a refused search leaves the results of the last one
    assert_eq!(manager.get_total_count(), Ok(2));
}

#[test]
fn manager_merges_regions_by_address() {
    let mut manager = SearchEngineManager::new();
    manager.init(1024, String::new(), 0).unwrap();
    let regions = vec![pairs(&[0x300, 0x304]), Vec::new(), pairs(&[0x100, 0x104]), pairs(&[0x200])];
    assert_eq!(manager.search_memory(&single_query(), &regions), Ok(5));
    assert_eq!(
        addresses(&manager.get_results(0, 100).unwrap()),
        vec![0x100, 0x104, 0x200, 0x300, 0x304]
    );
    assert_eq!(addresses(&manager.get_results(1, 2).unwrap()), vec![0x104, 0x200]);
    assert_eq!(manager.get_total_count(), Ok(5));
    // a new search drops the results of the last one
    assert_eq!(manager.search_memory(&single_query(), &vec![pairs(&[0x10])]), Ok(1));
    assert_eq!(addresses(&manager.get_results(0, 100).unwrap()), vec![0x10]);
    // a search without results still completes
    assert_eq!(manager.search_memory(&single_query(), &Vec::new()), Ok(0));
    assert_eq!(manager.get_total_count(), Ok(0));
}

#[test]
fn manager_removes_and_clears() {
    let mut manager = SearchEngineManager::new();
    manager.init(1024, String::new(), 0).unwrap();
    manager.search_memory(&single_query(), &vec![pairs(&[1, 2, 3, 4])]).unwrap();
    assert_eq!(manager.remove_result(4), Err(SearchError::ResultStoreError));
    assert_eq!(manager.remove_result(1), Ok(()));
    assert_eq!(addresses(&manager.get_results(0, 9).unwrap()), vec![1, 3, 4]);
    assert_eq!(manager.remove_results_batch(vec![0, 2]), Ok(()));
    assert_eq!(addresses(&manager.get_results(0, 9).unwrap()), vec![3]);
    assert_eq!(manager.remove_results_batch(vec![1]), Err(SearchError::ResultStoreError));
    assert_eq!(manager.clear_results(), Ok(()));
    assert_eq!(manager.get_total_count(), Ok(0));
}

#[test]
fn manager_filters_listings_only() {
    let mut manager = SearchEngineManager::new();
    manager.init(1024, String::new(), 0).unwrap();
    let found = vec![
        ValuePair::new(0x10, ValueType::Dword),
        ValuePair::new(0x20, ValueType::Word),
        ValuePair::new(0x30, ValueType::Dword),
        ValuePair::new(0x40, ValueType::Float),
    ];
    manager.search_memory(&single_query(), &vec![found]).unwrap();
    assert!(!manager.get_filter().is_active());
    // ids 9 and -1 stand for no type
    assert_eq!(manager.set_filter(true, 0x20, 0x40, true, vec![2, 9, 1, -1]), Ok(()));
    assert!(manager.get_filter().is_active());
    assert_eq!(manager.get_filter().type_ids, vec![ValueType::Dword, ValueType::Word]);
    assert_eq!(addresses(&manager.get_results(0, 9).unwrap()), vec![0x20, 0x30]);
    assert_eq!(addresses(&manager.get_results(1, 9).unwrap()), vec![0x30]);
    assert_eq!(manager.get_total_count(), Ok(4));
    assert_eq!(manager.set_filter(false, 0, 0, true, vec![4]), Ok(()));
    assert_eq!(addresses(&manager.get_results(0, 9).unwrap()), vec![0x40]);
    assert_eq!(manager.clear_filter(), Ok(()));
    assert!(!manager.get_filter().is_active());
    assert_eq!(addresses(&manager.get_results(0, 9).unwrap()), vec![0x10, 0x20, 0x30, 0x40]);
}

#[test]
fn manager_progress_area() {
    let mut manager = SearchEngineManager::new();
    assert!(manager.progress_buffer().is_none());
    manager.report_progress(1, 2, 3);
    assert!(manager.progress_buffer().is_none());
    manager.set_progress_buffer(20);
    manager.report_progress(50, 2, 300);
    let bytes = manager.progress_buffer().unwrap().as_bytes().to_vec();
    assert_eq!(&bytes[0..4], &50i32.to_le_bytes());
    assert_eq!(&bytes[4..8], &2i32.to_le_bytes());
    assert_eq!(&bytes[8..16], &300i64.to_le_bytes());
    manager.clear_progress_buffer();
    assert!(manager.progress_buffer().is_none());
}
