use mamu_search::{
    refine_search_group_with_dfs, refine_single_search, PageStatusBitmap, SearchEngineManager,
    SearchError, SearchMode, SearchQuery, SearchResultItem, SearchValue, ValuePair, ValuePairSet,
    ValueType, DEFAULT_PAGE_SIZE,
};

const PAGE_SIZE: usize = DEFAULT_PAGE_SIZE;

/// An in-process stand-in for the memory of another process: blocks of
/// bytes at chosen addresses, with pages that can be made to fail.
struct MockMemory {
    blocks: Vec<(u64, Vec<u8>)>,
    faulty_pages: Vec<u64>,
}

impl MockMemory {
    fn new() -> Self {
        MockMemory { blocks: Vec::new(), faulty_pages: Vec::new() }
    }

    fn malloc(&mut self, addr: u64, size: usize) -> Result<u64, String> {
        let end = addr.checked_add(size as u64).ok_or("address overflow")?;
        for (base, bytes) in &self.blocks {
            if addr < base + bytes.len() as u64 && *base < end {
                return Err(format!("0x{:X} overlaps a block", addr));
            }
        }
        self.blocks.push((addr, vec![0u8; size]));
        Ok(addr)
    }

    fn total_allocated(&self) -> usize {
        self.blocks.iter().map(|(_, bytes)| bytes.len()).sum()
    }

    fn block_of(&self, addr: u64, len: usize) -> Option<(usize, usize)> {
        for (index, (base, bytes)) in self.blocks.iter().enumerate() {
            if addr >= *base && addr + len as u64 <= base + bytes.len() as u64 {
                return Some((index, (addr - base) as usize));
            }
        }
        None
    }

    fn mem_write(&mut self, addr: u64, data: &[u8]) -> Result<(), String> {
        let (index, at) = self.block_of(addr, data.len()).ok_or("not allocated")?;
        self.blocks[index].1[at..at + data.len()].copy_from_slice(data);
        Ok(())
    }

    fn mem_write_u32(&mut self, addr: u64, value: u32) -> Result<(), String> {
        self.mem_write(addr, &value.to_le_bytes())
    }

    #[allow(dead_code)]
    fn mem_write_u64(&mut self, addr: u64, value: u64) -> Result<(), String> {
        self.mem_write(addr, &value.to_le_bytes())
    }

    #[allow(dead_code)]
    fn mem_write_f32(&mut self, addr: u64, value: f32) -> Result<(), String> {
        self.mem_write(addr, &value.to_le_bytes())
    }

    #[allow(dead_code)]
    fn mem_read(&self, addr: u64, size: usize) -> Result<Vec<u8>, String> {
        let (index, at) = self.block_of(addr, size).ok_or("not allocated")?;
        if self.faulty_pages.contains(&(addr & !(PAGE_SIZE as u64 - 1))) {
            return Err(format!("page fault at 0x{:X}", addr));
        }
        Ok(self.blocks[index].1[at..at + size].to_vec())
    }

    #[allow(dead_code)]
    fn set_faulty_pages(&mut self, base: u64, pages: &[usize]) -> Result<(), String> {
        for page in pages {
            self.faulty_pages.push((base & !(PAGE_SIZE as u64 - 1)) + (*page * PAGE_SIZE) as u64);
        }
        Ok(())
    }

    /// Reads `buf.len()` bytes at `addr` page by page: a page that is
    /// allocated and not faulty is copied and marked as read.
    fn mem_read_with_status(
        &self,
        addr: u64,
        buf: &mut [u8],
        status: &mut PageStatusBitmap,
    ) -> Result<(), String> {
        let end = addr + buf.len() as u64;
        let mut page_start = addr & !(PAGE_SIZE as u64 - 1);
        let mut index = 0usize;
        while page_start < end {
            let from = page_start.max(addr);
            let upto = (page_start + PAGE_SIZE as u64).min(end);
            if !self.faulty_pages.contains(&page_start) {
                if let Some((block, at)) = self.block_of(from, (upto - from) as usize) {
                    let len = (upto - from) as usize;
                    let offset = (from - addr) as usize;
                    buf[offset..offset + len].copy_from_slice(&self.blocks[block].1[at..at + len]);
                    status.mark_success(index);
                }
            }
            page_start += PAGE_SIZE as u64;
            index += 1;
        }
        Ok(())
    }
}

/// Searches the block for a single value chunk by chunk.
fn perform_single_search(
    mem: &MockMemory,
    search_value: &SearchValue,
    base_addr: u64,
    region_size: usize,
) -> Result<ValuePairSet, String> {
    let mut results = ValuePairSet::new();
    let mut matches_checked = 0usize;

    let chunk_size = 64 * 1024;
    let mut current = base_addr;
    let end_addr = base_addr + region_size as u64;
    let value_type = search_value.value_type();

    while current < end_addr {
        let chunk_end = (current + chunk_size as u64).min(end_addr);
        let chunk_len = (chunk_end - current) as usize;

        let mut chunk_buffer = vec![0u8; chunk_len];
        let mut page_status = PageStatusBitmap::new(chunk_len, current as usize, PAGE_SIZE);

        if mem.mem_read_with_status(current, &mut chunk_buffer, &mut page_status).is_ok() {
            SearchEngineManager::search_in_buffer_with_status(
                &chunk_buffer,
                current,
                base_addr,
                end_addr,
                value_type.size(),
                search_value,
                value_type,
                &page_status,
                &mut results,
                &mut matches_checked,
            );
        }

        current = chunk_end;
    }

    Ok(results)
}

fn set_of(pairs: &[ValuePair]) -> ValuePairSet {
    let mut set = ValuePairSet::new();
    for pair in pairs {
        set.insert(*pair);
    }
    set
}

/// Refines the pairs against a single value on the memory as it is now.
fn refine_results_single(
    mem: &MockMemory,
    existing_results: &ValuePairSet,
    search_value: &SearchValue,
) -> Result<ValuePairSet, String> {
    let existing = existing_results.to_vec();
    let windows: Vec<Option<Vec<u8>>> = existing
        .iter()
        .map(|pair| mem.mem_read(pair.addr, pair.value_type.size()).ok())
        .collect();
    Ok(set_of(&refine_single_search(&existing, &windows, search_value)))
}

/// Refines the pairs against a group query on the memory as it is now.
fn refine_results_group(
    mem: &MockMemory,
    existing_results: &ValuePairSet,
    query: &SearchQuery,
) -> Result<ValuePairSet, String> {
    let existing = existing_results.to_vec();
    let widest = query.values.iter().map(|v| v.value_type().size()).max().unwrap_or(0);
    let windows: Vec<Option<Vec<u8>>> = existing
        .iter()
        .map(|pair| mem.mem_read(pair.addr, widest + query.range as usize).ok())
        .collect();
    Ok(refine_search_group_with_dfs(&existing, &windows, query))
}

/// Looks for the group at every fourth address of the block.
fn perform_group_search(mem: &MockMemory, query1: &SearchQuery, base_addr: u64) -> ValuePairSet {
    let mut results1 = ValuePairSet::new();
    let chunk_size = 64 * 1024;
    let mut current = base_addr;
    let end_addr = base_addr + 1 * 1024 * 1024;

    while current < end_addr {
        let chunk_end = (current + chunk_size as u64).min(end_addr);
        let chunk_len = (chunk_end - current) as usize;

        let mut chunk_buffer = vec![0u8; chunk_len];
        let mut page_status = PageStatusBitmap::new(chunk_len, current as usize, PAGE_SIZE);

        if mem.mem_read_with_status(current, &mut chunk_buffer, &mut page_status).is_ok() {
            for offset in (0..chunk_len
                .saturating_sub(query1.total_size() + query1.range as usize))
                .step_by(4)
            {
                let addr = current + offset as u64;
                let slice_end =
                    (offset + query1.total_size() + query1.range as usize).min(chunk_len);
                let slice = &chunk_buffer[offset..slice_end];

                if let Some(value_offsets) =
                    SearchEngineManager::try_match_group_at_address(slice, addr, query1)
                {
                    for (idx, value_offset) in value_offsets.iter().enumerate() {
                        let value_addr = addr + *value_offset as u64;
                        let value_type = query1.values[idx].value_type();
                        results1.insert(ValuePair::new(value_addr, value_type));
                    }
                }
            }
        }

        current = chunk_end;
    }
    results1
}

#[test]
fn test_single_to_single_refine() {
    let mut mem = MockMemory::new();
    let base_addr = mem.malloc(0x7000000000, 1 * 1024 * 1024).unwrap();

    let test_data = vec![
        (0x1000, 100u32, 200u32),
        (0x2000, 100u32, 300u32),
        (0x3000, 100u32, 200u32),
        (0x4000, 150u32, 200u32),
        (0x5000, 100u32, 200u32),
        (0x6000, 100u32, 250u32),
    ];

    for (offset, val1, val2) in &test_data {
        mem.mem_write_u32(base_addr + offset, *val1).unwrap();
        mem.mem_write_u32(base_addr + offset + 4, *val2).unwrap();
    }

    let query1 = SearchValue::fixed(100, ValueType::Dword);
    let results1 = perform_single_search(&mem, &query1, base_addr, 1 * 1024 * 1024).unwrap();

    assert_eq!(results1.len(), 5, "Should find 5 addresses with value 100");

    mem.mem_write_u32(base_addr + 0x2000, 200u32).unwrap();
    mem.mem_write_u32(base_addr + 0x6000, 200u32).unwrap();

    let query2 = SearchValue::fixed(200, ValueType::Dword);
    let results2 = refine_results_single(&mem, &results1, &query2).unwrap();

    assert_eq!(results2.len(), 2, "Should find 2 addresses that have value 200");
}

#[test]
fn test_single_to_group_refine() {
    let mut mem = MockMemory::new();
    let base_addr = mem.malloc(0x7100000000, 1 * 1024 * 1024).unwrap();

    let test_patterns = vec![
        (0x1000, 100u32, 200u32, 300u32),
        (0x2000, 100u32, 250u32, 300u32),
        (0x3000, 100u32, 200u32, 300u32),
        (0x4000, 150u32, 200u32, 300u32),
        (0x5000, 100u32, 200u32, 350u32),
    ];

    for (offset, v1, v2, v3) in &test_patterns {
        mem.mem_write_u32(base_addr + offset, *v1).unwrap();
        mem.mem_write_u32(base_addr + offset + 4, *v2).unwrap();
        mem.mem_write_u32(base_addr + offset + 8, *v3).unwrap();
    }
    let query1 = SearchValue::fixed(100, ValueType::Dword);
    let results1 = perform_single_search(&mem, &query1, base_addr, 1 * 1024 * 1024).unwrap();

    assert_eq!(results1.len(), 4, "Should find 4 addresses with value 100");

    let query2 = SearchQuery::new(
        vec![SearchValue::fixed(200, ValueType::Dword), SearchValue::fixed(300, ValueType::Dword)],
        SearchMode::Ordered,
        128,
    );

    let results2 = refine_results_group(&mem, &results1, &query2).unwrap();

    assert_eq!(results2.len(), 0, "Should find 0 addresses with pattern [200, 300]");
}

#[test]
fn test_group_to_single_refine() {
    let mut mem = MockMemory::new();
    let base_addr = mem.malloc(0x7200000000, 1 * 1024 * 1024).unwrap();

    let test_patterns = vec![
        (0x1000, 100u32, 200u32),
        (0x2000, 100u32, 200u32),
        (0x3000, 100u32, 200u32),
        (0x4000, 100u32, 250u32),
        (0x5000, 100u32, 200u32),
    ];

    for (offset, v1, v2) in &test_patterns {
        mem.mem_write_u32(base_addr + offset, *v1).unwrap();
        mem.mem_write_u32(base_addr + offset + 4, *v2).unwrap();
    }

    let query1 = SearchQuery::new(
        vec![SearchValue::fixed(100, ValueType::Dword), SearchValue::fixed(200, ValueType::Dword)],
        SearchMode::Ordered,
        128,
    );
    let results1 = perform_group_search(&mem, &query1, base_addr);

    mem.mem_write_u32(base_addr + 0x2000, 150u32).unwrap();

    let query2 = SearchValue::fixed(100, ValueType::Dword);
    let results2 = refine_results_single(&mem, &results1, &query2).unwrap();

    println!(
        "{} addresses in patterns [100, 200], {} still have value 100",
        results1.len(),
        results2.len()
    );
}

#[test]
fn test_group_to_group_refine() {
    let mut mem = MockMemory::new();
    let base_addr = mem.malloc(0x7300000000, 1 * 1024 * 1024).unwrap();

    let test_patterns = vec![
        (0x1000, 100u32, 200u32, 300u32, 400u32),
        (0x2000, 100u32, 200u32, 350u32, 400u32),
        (0x3000, 100u32, 200u32, 300u32, 400u32),
        (0x4000, 150u32, 200u32, 300u32, 400u32),
        (0x5000, 100u32, 200u32, 300u32, 400u32),
    ];

    for (offset, v1, v2, v3, v4) in &test_patterns {
        mem.mem_write_u32(base_addr + offset, *v1).unwrap();
        mem.mem_write_u32(base_addr + offset + 4, *v2).unwrap();
        mem.mem_write_u32(base_addr + offset + 8, *v3).unwrap();
        mem.mem_write_u32(base_addr + offset + 12, *v4).unwrap();
    }

    let query1 = SearchQuery::new(
        vec![SearchValue::fixed(100, ValueType::Dword), SearchValue::fixed(200, ValueType::Dword)],
        SearchMode::Ordered,
        128,
    );
    let results1 = perform_group_search(&mem, &query1, base_addr);

    let query2 = SearchQuery::new(
        vec![SearchValue::fixed(300, ValueType::Dword), SearchValue::fixed(400, ValueType::Dword)],
        SearchMode::Ordered,
        128,
    );

    let results2 = refine_results_group(&mem, &results1, &query2).unwrap();

    println!(
        "{} addresses with pattern [100, 200], {} also have pattern [300, 400]",
        results1.len(),
        results2.len()
    );
}

#[test]
fn test_range_to_fixed_refine() {
    let mut mem = MockMemory::new();
    let base_addr = mem.malloc(0x7400000000, 1 * 1024 * 1024).unwrap();

    let test_data = vec![
        (0x1000, 75u32),
        (0x2000, 100u32),
        (0x3000, 125u32),
        (0x4000, 100u32),
        (0x5000, 50u32),
        (0x6000, 100u32),
        (0x7000, 200u32),
    ];

    for (offset, val) in &test_data {
        mem.mem_write_u32(base_addr + offset, *val).unwrap();
    }

    let query1 = SearchValue::range(50, 150, ValueType::Dword, false);
    let results1 = perform_single_search(&mem, &query1, base_addr, 1 * 1024 * 1024).unwrap();

    assert_eq!(results1.len(), 6, "Should find 6 values in range");

    let query2 = SearchValue::fixed(100, ValueType::Dword);
    let results2 = refine_results_single(&mem, &results1, &query2).unwrap();

    assert_eq!(results2.len(), 3, "Should find 3 addresses with value 100");
}

fn dword_pairs(addrs: &[u64]) -> Vec<ValuePair> {
    addrs.iter().map(|addr| ValuePair::new(*addr, ValueType::Dword)).collect()
}

/// The windows that a reader gets at the addresses from a memory that
/// holds the given dwords: `len` bytes at each address.
fn windows_of(memory: &[(u64, u32)], addrs: &[u64], len: usize) -> Vec<Option<Vec<u8>>> {
    addrs
        .iter()
        .map(|addr| {
            let mut bytes = vec![0u8; len];
            for (at, value) in memory {
                for (i, byte) in value.to_le_bytes().iter().enumerate() {
                    let position = *at + i as u64;
                    if position >= *addr && position < *addr + len as u64 {
                        bytes[(position - addr) as usize] = *byte;
                    }
                }
            }
            Some(bytes)
        })
        .collect()
}

#[test]
fn refine_single_keeps_matching_pairs_with_their_types() {
    let existing = vec![
        ValuePair::new(0x1000, ValueType::Dword),
        ValuePair::new(0x2000, ValueType::Word),
        ValuePair::new(0x3000, ValueType::Dword),
        ValuePair::new(0x4000, ValueType::Dword),
    ];
    let windows = vec![
        Some(200u32.to_le_bytes().to_vec()),
        Some(200u16.to_le_bytes().to_vec()),
        None,
        Some(vec![200, 0, 0]),
    ];
    let value = SearchValue::fixed(200, ValueType::Dword);
    // the word is too narrow for the value, one window was not read, one is
    // too short
    assert_eq!(
        refine_single_search(&existing, &windows, &value),
        vec![ValuePair::new(0x1000, ValueType::Dword)]
    );
    // a missing window counts as not read
    assert_eq!(refine_single_search(&existing, &Vec::new(), &value), Vec::new());
}

#[test]
fn refine_single_twice_is_refine_once() {
    let memory = [(0x10u64, 5u32), (0x20, 6), (0x30, 5), (0x40, 7)];
    let addrs = [0x10u64, 0x20, 0x30, 0x40];
    let value = SearchValue::fixed(5, ValueType::Dword);
    let once = refine_single_search(&dword_pairs(&addrs), &windows_of(&memory, &addrs, 4), &value);
    assert_eq!(once, dword_pairs(&[0x10, 0x30]));
    let kept: Vec<u64> = once.iter().map(|pair| pair.addr).collect();
    let twice = refine_single_search(&once, &windows_of(&memory, &kept, 4), &value);
    assert_eq!(twice, once);
}

#[test]
fn refine_group_finds_groups_among_neighbours() {
    let memory = [(0x100u64, 300u32), (0x104, 400), (0x200, 300), (0x300, 400), (0x304, 300)];
    let addrs = [0x100u64, 0x104, 0x200, 0x300, 0x304];
    let query = SearchQuery::new(
        vec![SearchValue::fixed(300, ValueType::Dword), SearchValue::fixed(400, ValueType::Dword)],
        SearchMode::Ordered,
        16,
    );
    let refined =
        refine_search_group_with_dfs(&dword_pairs(&addrs), &windows_of(&memory, &addrs, 20), &query);
    // 300 at 0x100 with 400 at 0x104; 300 at 0x200 is alone; 400 at 0x300
    // comes before 300 at 0x304
    assert_eq!(refined.to_vec(), dword_pairs(&[0x100, 0x104]));

    let unordered = SearchQuery::new(query.values.clone(), SearchMode::Unordered, 16);
    let refined = refine_search_group_with_dfs(
        &dword_pairs(&addrs),
        &windows_of(&memory, &addrs, 20),
        &unordered,
    );
    assert_eq!(refined.to_vec(), dword_pairs(&[0x100, 0x104, 0x300, 0x304]));
}

#[test]
fn refine_group_backtracks() {
    // value 1 matches at 0x10 and 0x14, value 2 only at 0x14, value 3 at 0x18:
    // first comes, first served would give 0x14 to value 1 from start 0x14
    let memory = [(0x10u64, 9u32), (0x14, 9), (0x18, 3)];
    let addrs = [0x10u64, 0x14, 0x18];
    let nine = SearchValue::range(9, 9, ValueType::Dword, false);
    let query = SearchQuery::new(
        vec![nine, nine, SearchValue::fixed(3, ValueType::Dword)],
        SearchMode::Unordered,
        8,
    );
    let refined =
        refine_search_group_with_dfs(&dword_pairs(&addrs), &windows_of(&memory, &addrs, 12), &query);
    assert_eq!(refined.to_vec(), dword_pairs(&[0x10, 0x14, 0x18]));
}

#[test]
fn refine_group_respects_the_range() {
    let memory = [(0x100u64, 1u32), (0x120, 2)];
    let addrs = [0x100u64, 0x120];
    let values =
        vec![SearchValue::fixed(1, ValueType::Dword), SearchValue::fixed(2, ValueType::Dword)];
    let near = SearchQuery::new(values.clone(), SearchMode::Ordered, 0x20);
    let far = SearchQuery::new(values, SearchMode::Ordered, 0x1f);
    let pairs = dword_pairs(&addrs);
    assert_eq!(
        refine_search_group_with_dfs(&pairs, &windows_of(&memory, &addrs, 0x24), &near).len(),
        2
    );
    assert_eq!(
        refine_search_group_with_dfs(&pairs, &windows_of(&memory, &addrs, 0x24), &far).len(),
        0
    );
}

#[test]
fn refine_group_twice_is_refine_once() {
    let memory = [(0x100u64, 300u32), (0x104, 400), (0x200, 300), (0x300, 400), (0x304, 300)];
    let addrs = [0x100u64, 0x104, 0x200, 0x300, 0x304];
    for mode in [SearchMode::Ordered, SearchMode::Unordered] {
        let query = SearchQuery::new(
            vec![
                SearchValue::fixed(300, ValueType::Dword),
                SearchValue::fixed(400, ValueType::Dword),
            ],
            mode,
            16,
        );
        let once = refine_search_group_with_dfs(
            &dword_pairs(&addrs),
            &windows_of(&memory, &addrs, 20),
            &query,
        )
        .to_vec();
        let kept: Vec<u64> = once.iter().map(|pair| pair.addr).collect();
        let twice =
            refine_search_group_with_dfs(&once, &windows_of(&memory, &kept, 20), &query).to_vec();
        assert_eq!(twice, once);
    }
}

#[test]
fn manager_refines_its_store() {
    let mut manager = SearchEngineManager::new();
    let query = SearchQuery::new(
        vec![SearchValue::fixed(5, ValueType::Dword)],
        SearchMode::Ordered,
        4,
    );
    assert_eq!(manager.refine_search(&query, &Vec::new()), Err(SearchError::NotInitialized));
    assert_eq!(manager.refine_windows(&query), Err(SearchError::NotInitialized));
    manager.init(1024, String::from("/tmp/cache"), 0).unwrap();
    // nothing stored: nothing to refine
    assert_eq!(manager.refine_search(&query, &Vec::new()), Ok(0));

    let found = vec![dword_pairs(&[0x10, 0x20, 0x30])];
    assert_eq!(manager.search_memory(&query, &found), Ok(3));
    assert_eq!(manager.refine_windows(&query), Ok(vec![(0x10, 8), (0x20, 8), (0x30, 8)]));
    let windows = vec![
        Some(5u32.to_le_bytes().to_vec()),
        Some(6u32.to_le_bytes().to_vec()),
        Some(5u32.to_le_bytes().to_vec()),
    ];
    assert_eq!(manager.refine_search(&query, &windows), Ok(2));
    let listed: Vec<u64> = manager
        .get_results(0, 10)
        .unwrap()
        .iter()
        .map(|item: &SearchResultItem| item.address())
        .collect();
    assert_eq!(listed, vec![0x10, 0x30]);

    let group = SearchQuery::new(
        vec![SearchValue::fixed(5, ValueType::Dword), SearchValue::fixed(7, ValueType::Word)],
        SearchMode::Ordered,
        0x40,
    );
    assert_eq!(manager.refine_windows(&group), Ok(vec![(0x10, 0x44), (0x30, 0x44)]));
    let mut first = vec![0u8; 0x44];
    first[0..4].copy_from_slice(&5u32.to_le_bytes());
    first[0x20..0x22].copy_from_slice(&7u16.to_le_bytes());
    let windows = vec![Some(first), Some(vec![0u8; 0x44])];
    assert_eq!(manager.refine_search(&group, &windows), Ok(2));
    let listed: Vec<(u64, ValueType)> = manager
        .get_results(0, 10)
        .unwrap()
        .iter()
        .map(|item| (item.address(), item.value_type()))
        .collect();
    assert_eq!(listed, vec![(0x10, ValueType::Dword), (0x30, ValueType::Word)]);
}
