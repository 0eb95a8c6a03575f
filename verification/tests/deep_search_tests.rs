use mamu_search::{
    deep_match_group, search_in_buffer_group, search_in_buffer_group_deep,
    search_in_buffer_group_with, PageStatusBitmap, SearchEngineManager, SearchMode, SearchQuery,
    SearchValue, ValuePairSet, ValueType, DEFAULT_COMBINATION_LIMIT, DEFAULT_PAGE_SIZE,
};
use mamu_search::scan::Depth;

const PAGE_SIZE: usize = DEFAULT_PAGE_SIZE;

/// An in-process stand-in for the memory of another process: blocks of
/// bytes at chosen addresses, with pages that can be made to fail.
struct MockMemory {
    blocks: Vec<(u64, Vec<u8>)>,
    faulty_pages: Vec<u64>,
}

impl MockMemory {
    fn new() -> Self {
        MockMemory { blocks: Vec::new(), faulty_pages: Vec::new() }
    }

    fn malloc(&mut self, addr: u64, size: usize) -> Result<u64, String> {
        let end = addr.checked_add(size as u64).ok_or("address overflow")?;
        for (base, bytes) in &self.blocks {
            if addr < base + bytes.len() as u64 && *base < end {
                return Err(format!("0x{:X} overlaps a block", addr));
            }
        }
        self.blocks.push((addr, vec![0u8; size]));
        Ok(addr)
    }

    fn total_allocated(&self) -> usize {
        self.blocks.iter().map(|(_, bytes)| bytes.len()).sum()
    }

    fn block_of(&self, addr: u64, len: usize) -> Option<(usize, usize)> {
        for (index, (base, bytes)) in self.blocks.iter().enumerate() {
            if addr >= *base && addr + len as u64 <= base + bytes.len() as u64 {
                return Some((index, (addr - base) as usize));
            }
        }
        None
    }

    fn mem_write(&mut self, addr: u64, data: &[u8]) -> Result<(), String> {
        let (index, at) = self.block_of(addr, data.len()).ok_or("not allocated")?;
        self.blocks[index].1[at..at + data.len()].copy_from_slice(data);
        Ok(())
    }

    fn mem_write_u32(&mut self, addr: u64, value: u32) -> Result<(), String> {
        self.mem_write(addr, &value.to_le_bytes())
    }

    #[allow(dead_code)]
    fn mem_write_u64(&mut self, addr: u64, value: u64) -> Result<(), String> {
        self.mem_write(addr, &value.to_le_bytes())
    }

    #[allow(dead_code)]
    fn mem_write_f32(&mut self, addr: u64, value: f32) -> Result<(), String> {
        self.mem_write(addr, &value.to_le_bytes())
    }

    #[allow(dead_code)]
    fn mem_read(&self, addr: u64, size: usize) -> Result<Vec<u8>, String> {
        let (index, at) = self.block_of(addr, size).ok_or("not allocated")?;
        if self.faulty_pages.contains(&(addr & !(PAGE_SIZE as u64 - 1))) {
            return Err(format!("page fault at 0x{:X}", addr));
        }
        Ok(self.blocks[index].1[at..at + size].to_vec())
    }

    #[allow(dead_code)]
    fn set_faulty_pages(&mut self, base: u64, pages: &[usize]) -> Result<(), String> {
        for page in pages {
            self.faulty_pages.push((base & !(PAGE_SIZE as u64 - 1)) + (*page * PAGE_SIZE) as u64);
        }
        Ok(())
    }

    /// Reads `buf.len()` bytes at `addr` page by page: a page that is
    /// allocated and not faulty is copied and marked as read.
    fn mem_read_with_status(
        &self,
        addr: u64,
        buf: &mut [u8],
        status: &mut PageStatusBitmap,
    ) -> Result<(), String> {
        let end = addr + buf.len() as u64;
        let mut page_start = addr & !(PAGE_SIZE as u64 - 1);
        let mut index = 0usize;
        while page_start < end {
            let from = page_start.max(addr);
            let upto = (page_start + PAGE_SIZE as u64).min(end);
            if !self.faulty_pages.contains(&page_start) {
                if let Some((block, at)) = self.block_of(from, (upto - from) as usize) {
                    let len = (upto - from) as usize;
                    let offset = (from - addr) as usize;
                    buf[offset..offset + len].copy_from_slice(&self.blocks[block].1[at..at + len]);
                    status.mark_success(index);
                }
            }
            page_start += PAGE_SIZE as u64;
            index += 1;
        }
        Ok(())
    }
}

fn dword_query(values: &[i128], mode: SearchMode, range: u32) -> SearchQuery {
    SearchQuery::new(
        values.iter().map(|v| SearchValue::fixed(*v, ValueType::Dword)).collect(),
        mode,
        range,
    )
}

/// Writes the dwords at the offsets, reads the whole block and searches it
/// deeply.
fn deep_search_of(
    block_addr: u64,
    writes: &[(u64, u32)],
    query: &SearchQuery,
) -> (u64, ValuePairSet, usize) {
    let mut mem = MockMemory::new();
    let base_addr = mem.malloc(block_addr, 64 * 1024).unwrap();
    for (offset, value) in writes {
        mem.mem_write_u32(base_addr + offset, *value).unwrap();
    }

    let search_start = base_addr;
    let search_size = 64 * 1024;
    let mut buffer = vec![0u8; search_size];
    let mut page_status = PageStatusBitmap::new(buffer.len(), search_start as usize, PAGE_SIZE);
    mem.mem_read_with_status(search_start, &mut buffer, &mut page_status).unwrap();

    let mut results = ValuePairSet::new();
    let mut matches_checked = 0usize;
    search_in_buffer_group_deep(
        &buffer,
        search_start,
        search_start,
        search_start + search_size as u64,
        4,
        query,
        &page_status,
        &mut results,
        &mut matches_checked,
    );
    (base_addr, results, matches_checked)
}

#[test]
fn test_deep_search_ordered_duplicate_last_value() {
    let offset_0 = 0x1000u64;
    let query = dword_query(&[100, 200, 300], SearchMode::Ordered, 16);
    let (base_addr, results, _) = deep_search_of(
        0x7000000000,
        &[(offset_0, 100), (offset_0 + 0x4, 200), (offset_0 + 0x8, 300), (offset_0 + 0xC, 300)],
        &query,
    );

    assert_eq!(results.len(), 4, "Deep search should find all 4 addresses");

    let expected_addrs = vec![
        base_addr + offset_0,
        base_addr + offset_0 + 0x4,
        base_addr + offset_0 + 0x8,
        base_addr + offset_0 + 0xC,
    ];
    for (i, expected_addr) in expected_addrs.iter().enumerate() {
        assert!(
            results.to_vec().iter().any(|p| p.addr == *expected_addr),
            "Should find address at position {} (0x{:X})",
            i,
            expected_addr
        );
    }
}

#[test]
fn test_deep_search_ordered_triple_duplicate() {
    let offset_0 = 0x2000u64;
    let query = dword_query(&[100, 200, 300], SearchMode::Ordered, 20);
    let (base_addr, results, _) = deep_search_of(
        0x8000000000,
        &[
            (offset_0, 100),
            (offset_0 + 0x4, 200),
            (offset_0 + 0x8, 200),
            (offset_0 + 0xC, 200),
            (offset_0 + 0x10, 300),
        ],
        &query,
    );

    assert_eq!(results.len(), 5, "Should find all 5 addresses from 3 combinations");

    let expected_addrs = vec![
        base_addr + offset_0,
        base_addr + offset_0 + 0x4,
        base_addr + offset_0 + 0x8,
        base_addr + offset_0 + 0xC,
        base_addr + offset_0 + 0x10,
    ];
    for (i, expected_addr) in expected_addrs.iter().enumerate() {
        assert!(
            results.to_vec().iter().any(|p| p.addr == *expected_addr),
            "Should find address at position {} (0x{:X})",
            i,
            expected_addr
        );
    }
}

#[test]
fn test_deep_search_ordered_duplicate_first_value() {
    let offset_0 = 0x3000u64;
    let query = dword_query(&[100, 200, 300], SearchMode::Ordered, 16);
    let (base_addr, results, _) = deep_search_of(
        0x9000000000,
        &[(offset_0, 100), (offset_0 + 0x4, 100), (offset_0 + 0x8, 200), (offset_0 + 0xC, 300)],
        &query,
    );

    assert_eq!(results.len(), 4, "Should find all 4 addresses from 2 combinations");

    let expected_addrs = vec![
        base_addr + offset_0,
        base_addr + offset_0 + 0x4,
        base_addr + offset_0 + 0x8,
        base_addr + offset_0 + 0xC,
    ];
    for (i, expected_addr) in expected_addrs.iter().enumerate() {
        assert!(
            results.to_vec().iter().any(|p| p.addr == *expected_addr),
            "Should find address at position {} (0x{:X})",
            i,
            expected_addr
        );
    }
}

#[test]
fn test_deep_search_single_value_multiple_matches() {
    let offset_0 = 0x4000u64;
    let query = dword_query(&[300], SearchMode::Ordered, 4);
    let (base_addr, results, _) = deep_search_of(
        0xA000000000,
        &[(offset_0, 300), (offset_0 + 0x4, 300), (offset_0 + 0x8, 300)],
        &query,
    );

    assert_eq!(results.len(), 3, "Should find all 3 addresses");

    let expected_addrs =
        vec![base_addr + offset_0, base_addr + offset_0 + 0x4, base_addr + offset_0 + 0x8];
    for (i, expected_addr) in expected_addrs.iter().enumerate() {
        assert!(
            results.to_vec().iter().any(|p| p.addr == *expected_addr),
            "Should find address at position {} (0x{:X})",
            i,
            expected_addr
        );
    }
}

#[test]
fn test_deep_search_ordered_with_gaps() {
    let offset_0 = 0x5000u64;
    let query = dword_query(&[100, 200, 300], SearchMode::Ordered, 36);
    let (base_addr, results, _) = deep_search_of(
        0xB000000000,
        &[(offset_0, 100), (offset_0 + 0x10, 200), (offset_0 + 0x14, 200), (offset_0 + 0x20, 300)],
        &query,
    );

    assert_eq!(results.len(), 4, "Should find all 4 addresses from 2 sparse combinations");

    let expected_addrs = vec![
        base_addr + offset_0,
        base_addr + offset_0 + 0x10,
        base_addr + offset_0 + 0x14,
        base_addr + offset_0 + 0x20,
    ];
    for (i, expected_addr) in expected_addrs.iter().enumerate() {
        assert!(
            results.to_vec().iter().any(|p| p.addr == *expected_addr),
            "Should find address at position {} (0x{:X})",
            i,
            expected_addr
        );
    }
}

#[test]
fn test_deep_vs_standard_search_comparison() {
    let offset_0 = 0x1000u64;
    let query = dword_query(&[100, 200, 300], SearchMode::Ordered, 16);
    let (base_addr, deep_results, _) = deep_search_of(
        0xC000000000,
        &[(offset_0, 100), (offset_0 + 0x4, 200), (offset_0 + 0x8, 300), (offset_0 + 0xC, 300)],
        &query,
    );

    assert_eq!(deep_results.len(), 4);
    assert!(deep_results.to_vec().iter().any(|p| p.addr == base_addr + offset_0));
    assert!(deep_results.to_vec().iter().any(|p| p.addr == base_addr + offset_0 + 0x4));
    assert!(deep_results.to_vec().iter().any(|p| p.addr == base_addr + offset_0 + 0x8));
    assert!(deep_results.to_vec().iter().any(|p| p.addr == base_addr + offset_0 + 0xC));
}

fn dwords(values: &[u32]) -> Vec<u8> {
    let mut bytes = Vec::new();
    for value in values {
        bytes.extend_from_slice(&value.to_le_bytes());
    }
    bytes
}

#[test]
fn deep_match_lists_combinations_in_search_order() {
    let window = dwords(&[100, 200, 200, 300]);
    let query = dword_query(&[100, 200, 300], SearchMode::Ordered, 16);
    assert_eq!(
        deep_match_group(&window, &query, DEFAULT_COMBINATION_LIMIT),
        vec![vec![0, 4, 12], vec![0, 8, 12]]
    );
}

#[test]
fn deep_match_stops_at_the_limit() {
    let window = dwords(&[100, 200, 200, 300, 300]);
    let query = dword_query(&[100, 200, 300], SearchMode::Ordered, 20);
    assert_eq!(deep_match_group(&window, &query, 100).len(), 4);
    assert_eq!(
        deep_match_group(&window, &query, 3),
        vec![vec![0, 4, 12], vec![0, 4, 16], vec![0, 8, 12]]
    );
    assert_eq!(deep_match_group(&window, &query, 0), Vec::<Vec<usize>>::new());
}

#[test]
fn deep_match_unordered_takes_every_position_of_every_value() {
    let window = dwords(&[200, 100, 100]);
    let query = dword_query(&[100, 200], SearchMode::Unordered, 12);
    assert_eq!(deep_match_group(&window, &query, 10), vec![vec![4, 0], vec![8, 0]]);
}

#[test]
fn deep_match_of_nothing_is_empty() {
    let window = dwords(&[100, 300]);
    let query = dword_query(&[100, 200], SearchMode::Ordered, 8);
    assert_eq!(deep_match_group(&window, &query, 10), Vec::<Vec<usize>>::new());
}

#[test]
fn deep_scan_finds_a_superset_of_the_standard_scan() {
    let mut buffer = vec![0u8; 8192];
    let writes: [(usize, u32); 9] = [
        (0x100, 100),
        (0x104, 100),
        (0x108, 200),
        (0x10c, 300),
        (0x110, 300),
        (0x1000, 300),
        (0x1004, 100),
        (0x1008, 200),
        (0x100c, 300),
    ];
    for (offset, value) in writes {
        buffer[offset..offset + 4].copy_from_slice(&value.to_le_bytes());
    }
    let mut status = PageStatusBitmap::new(buffer.len(), 0x40000, PAGE_SIZE);
    status.mark_all_success();
    for mode in [SearchMode::Ordered, SearchMode::Unordered] {
        let query = dword_query(&[100, 200, 300], mode, 24);
        let mut standard = ValuePairSet::new();
        let mut deep = ValuePairSet::new();
        let (mut a, mut b) = (0usize, 0usize);
        search_in_buffer_group(
            &buffer, 0x40000, 0x40000, 0x42000, 4, &query, &status, &mut standard, &mut a,
        );
        search_in_buffer_group_with(
            &buffer,
            0x40000,
            0x40000,
            0x42000,
            4,
            &query,
            &status,
            Depth::Exhaustive { limit: 1 },
            &mut deep,
            &mut b,
        );
        // with one combination a window the deep scan is the standard scan
        assert_eq!(standard.to_vec(), deep.to_vec());
        let mut deeper = ValuePairSet::new();
        let mut c = 0usize;
        SearchEngineManager::search_in_buffer_group_deep(
            &buffer, 0x40000, 0x40000, 0x42000, 4, &query, &status, &mut deeper, &mut c,
        );
        for pair in standard.to_vec() {
            assert!(deeper.contains(pair.addr));
        }
        assert!(deeper.len() >= standard.len());
        assert_eq!(a, c);
    }
}
