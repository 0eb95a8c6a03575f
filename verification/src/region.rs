//! The sliding chunk driver: scans a region chunk by chunk and keeps the
//! last bytes of each chunk, so that a match that lies across the border
//! of two chunks is found when the later one is scanned.
//!
//! The driver does not read memory. It says which chunk it needs next,
//! takes what the reader got for that chunk, and scans it.
use crate::group_search::search_in_buffer_group_with;
use crate::page::{page_count, page_floor, page_start, PageStatus, PageStatusBitmap};
use crate::results::{insert_all, ValuePairSet};
use crate::scan::{lesser, Depth, ScanInput};
use crate::types::{prefix_min_width, SearchMode, SearchQuery, SearchValue, ValueType};
use vstd::prelude::*;
use vstd::slice::slice_subrange;

verus! {

/// The number of pages that start below `addr`.
pub open spec fn pages_below(addr: int, page_size: int) -> int {
    addr / page_size + if addr % page_size == 0 {
        0int
    } else {
        1int
    }
}

/// The page status of a chunk with the `range` bytes before it: every page
/// that holds one of the bytes before the chunk counts as read, as does
/// every page that was read with the chunk.
pub open spec fn overlap_status(status: PageStatus, range: int) -> PageStatus {
    let base = status.base_addr - range;
    let size = status.page_size;
    let lead = pages_below(status.base_addr, size) - base / size;
    let shift = (page_floor(status.base_addr, size) - page_floor(base, size)) / size;
    PageStatus {
        base_addr: base,
        length: range + status.length,
        page_size: size,
        pages: Seq::new(
            page_count(base, range + status.length, size) as nat,
            |j: int|
                j < lead || (shift <= j && j - shift < status.pages.len() && status.pages[j
                    - shift]),
        ),
    }
}

/// What the reader got for a chunk: the bytes and the page status, or
/// nothing where the read failed as a whole.
pub type ChunkOutcome = Option<(Seq<u8>, PageStatus)>;

/// The state of a region scan.
pub struct RegionScanView {
    /// The first address of the region.
    pub start: int,
    /// The address behind the region.
    pub end: int,
    /// The number of bytes read at a time.
    pub chunk_size: int,
    /// The number of bytes in a page.
    pub page_size: int,
    /// What a window that holds a match contributes.
    pub depth: Depth,
    /// The values of the query.
    pub values: Seq<SearchValue>,
    /// The mode of the query.
    pub mode: SearchMode,
    /// The range of the query.
    pub range: int,
    /// The address of the chunk that is read next.
    pub current: int,
    /// Whether no chunk was scanned yet.
    pub is_first_chunk: bool,
    /// Whether the chunk before the next one was scanned.
    pub prev_chunk_valid: bool,
    /// The bytes of the chunk before the next one, where a chunk follows
    /// it.
    pub carried: Seq<u8>,
    /// The pairs found so far.
    pub results: Map<u64, ValueType>,
}

impl RegionScanView {
    /// Whether every chunk of the region was taken.
    pub open spec fn done(self) -> bool {
        self.current >= self.end
    }

    /// The address behind the chunk that is read next.
    pub open spec fn chunk_end(self) -> int {
        lesser(self.current + self.chunk_size, self.end)
    }

    /// The length of the chunk that is read next.
    pub open spec fn chunk_len(self) -> int {
        self.chunk_end() - self.current
    }

    /// The distance between the addresses that a scan without an anchor
    /// probes: the smallest width among the values.
    pub open spec fn min_element_size(self) -> int {
        prefix_min_width(self.values, self.values.len() as int) as int
    }

    /// Whether the next chunk is scanned together with the last bytes of
    /// the chunk before it.
    pub open spec fn overlaps(self) -> bool {
        !self.is_first_chunk && self.prev_chunk_valid
    }

    /// What the scan of the next chunk depends on. The region that the scan
    /// keeps to ends where the chunk ends.
    pub open spec fn chunk_input(self, data: Seq<u8>, status: PageStatus) -> ScanInput {
        if self.overlaps() {
            ScanInput {
                buffer: self.carried.subrange(self.chunk_size - self.range, self.chunk_size) + data,
                buffer_addr: self.current - self.range,
                region_start: self.start,
                region_end: self.chunk_end(),
                min_element_size: self.min_element_size(),
                values: self.values,
                mode: self.mode,
                range: self.range,
                status: overlap_status(status, self.range),
            }
        } else {
            ScanInput {
                buffer: data,
                buffer_addr: self.current,
                region_start: self.start,
                region_end: self.chunk_end(),
                min_element_size: self.min_element_size(),
                values: self.values,
                mode: self.mode,
                range: self.range,
                status,
            }
        }
    }

    /// Whether the chunk is scanned: it was read, and at least one of its
    /// pages was.
    pub open spec fn scans(outcome: ChunkOutcome) -> bool {
        match outcome {
            None => false,
            Some((_, status)) => exists|i: int| 0 <= i < status.pages.len() && status.pages[i],
        }
    }

    /// The state after the reader's outcomes for the next chunks were
    /// taken, one after the other; once the region was taken whole, further
    /// outcomes change nothing.
    pub open spec fn replay(self, outcomes: Seq<ChunkOutcome>) -> RegionScanView
        decreases outcomes.len(),
    {
        if outcomes.len() == 0 {
            self
        } else if self.replay(outcomes.drop_last()).done() {
            self.replay(outcomes.drop_last())
        } else {
            self.replay(outcomes.drop_last()).after_chunk(outcomes.last())
        }
    }

    /// The state after the reader's outcome for the next chunk was taken.
    ///
    /// A chunk that was read with at least one page is scanned: alone
    /// where it is the first that is scanned or the chunk before it was
    /// not scanned, and else together with the last `range` bytes of the
    /// chunk before it. Where another chunk follows, the bytes of this one
    /// are kept for it.
    pub open spec fn after_chunk(self, outcome: ChunkOutcome) -> RegionScanView {
        let scanned = Self::scans(outcome);
        RegionScanView {
            current: self.chunk_end(),
            is_first_chunk: self.is_first_chunk && !scanned,
            prev_chunk_valid: scanned,
            carried: match outcome {
                Some((data, _)) => if self.chunk_end() < self.end {
                    data
                } else {
                    self.carried
                },
                None => self.carried,
            },
            results: match outcome {
                Some((data, status)) => if scanned {
                    insert_all(
                        self.results,
                        self.chunk_input(data, status).pairs(
                            self.chunk_input(data, status).scanner(),
                            self.depth,
                        ),
                    )
                } else {
                    self.results
                },
                None => self.results,
            },
            ..self
        }
    }
}

/// The page status of a chunk with the `range` bytes before it.
fn combine_status(status: &PageStatusBitmap, range: u32) -> (combined: PageStatusBitmap)
    requires
        status@.base_addr >= range,
        range + status@.length <= usize::MAX,
    ensures
        combined@ == overlap_status(status@, range as int),
{
    let size = status.page_size();
    let current = status.base_addr();
    let length = status.length();
    let base = current - range as usize;
    let mut combined = PageStatusBitmap::new(range as usize + length, base, size);
    assert(current % size != 0 ==> current / size < current) by (nonlinear_arith)
        requires
            size > 0,
            current >= 0,
    ;
    let below = current / size + if current % size == 0 {
        0
    } else {
        1
    };
    assert(base / size <= current / size) by (nonlinear_arith)
        requires
            base <= current,
            size > 0,
    ;
    let lead = below - base / size;
    let mut i: usize = 0;
    while i < lead
        invariant
            0 <= i <= lead,
            combined@.base_addr == base,
            combined@.length == range + length,
            combined@.page_size == size,
            combined@.pages.len() == page_count(
                base as int,
                range as int + length as int,
                size as int,
            ),
            forall|j: int| 0 <= j < combined@.pages.len() ==> combined@.pages[j] == (j < i),
        decreases lead - i,
    {
        combined.mark_success(i);
        i += 1;
    }
    assert(current % size <= current && base % size <= base) by (nonlinear_arith)
        requires
            size > 0,
            current >= 0,
            base >= 0,
    ;
    let current_floor = current - current % size;
    let base_floor = base - base % size;
    assert(base - base % size <= current - current % size) by (nonlinear_arith)
        requires
            base <= current,
            size > 0,
    ;
    let shift = (current_floor - base_floor) / size;
    let count = status.num_pages();
    let mut k: usize = 0;
    while k < count
        invariant
            0 <= k <= count,
            count == status@.pages.len(),
            combined@.base_addr == base,
            combined@.length == range + length,
            combined@.page_size == size,
            combined@.pages.len() == page_count(
                base as int,
                range as int + length as int,
                size as int,
            ),
            forall|j: int|
                0 <= j < combined@.pages.len() ==> combined@.pages[j] == (j < lead || (shift <= j
                    && j - shift < k && status@.pages[j - shift])),
        decreases count - k,
    {
        let ghost pages_before = combined@.pages;
        let total = combined.num_pages();
        if status.is_page_success(k) {
            match shift.checked_add(k) {
                Some(index) => {
                    combined.mark_success(index);
                },
                None => {},
            }
        }
        proof {
            assert forall|j: int| 0 <= j < combined@.pages.len() implies combined@.pages[j] == (j
                < lead || (shift <= j && j - shift < k + 1 && status@.pages[j - shift])) by {
                if j == shift + k {
                    assert(j - shift == k);
                    assert(shift + k < total);
                    if status@.pages[k as int] {
                        assert(combined@.pages[j]);
                    } else {
                        assert(combined@.pages[j] == pages_before[j]);
                    }
                } else {
                    assert(combined@.pages[j] == pages_before[j]);
                    assert(pages_before[j] == (j < lead || (shift <= j && j - shift < k
                        && status@.pages[j - shift])));
                }
            }
        }
        k += 1;
    }
    proof {
        assert(combined@.pages =~= overlap_status(status@, range as int).pages);
    }
    combined
}

/// Copies `data` into `buffer` from `at` on.
fn copy_into(buffer: &mut Vec<u8>, at: usize, data: &[u8])
    requires
        at + data@.len() <= old(buffer)@.len(),
    ensures
        final(buffer)@.len() == old(buffer)@.len(),
        final(buffer)@.subrange(at as int, at + data@.len()) == data@,
        forall|j: int|
            0 <= j < old(buffer)@.len() && !(at <= j < at + data@.len()) ==> final(buffer)@[j]
                == old(buffer)@[j],
{
    let n = data.len();
    let size = buffer.len();
    let mut i: usize = 0;
    while i < n
        invariant
            0 <= i <= n,
            n == data@.len(),
            size == buffer@.len(),
            buffer@.len() == old(buffer)@.len(),
            at + n <= buffer@.len(),
            forall|j: int| at <= j < at + i ==> buffer@[j] == data@[j - at],
            forall|j: int|
                0 <= j < buffer@.len() && !(at <= j < at + i) ==> buffer@[j] == old(buffer)@[j],
        decreases n - i,
    {
        buffer.set(at + i, data[i]);
        i += 1;
    }
    proof {
        assert(buffer@.subrange(at as int, at + n) =~= data@);
    }
}

/// A region scan in progress.
pub struct RegionScan<'q> {
    query: &'q SearchQuery,
    start: u64,
    end: u64,
    chunk_size: usize,
    page_size: usize,
    depth: Depth,
    min_element_size: usize,
    current: u64,
    is_first_chunk: bool,
    prev_chunk_valid: bool,
    sliding_buffer: Vec<u8>,
    results: ValuePairSet,
}

impl<'q> View for RegionScan<'q> {
    type V = RegionScanView;

    closed spec fn view(&self) -> RegionScanView {
        RegionScanView {
            start: self.start as int,
            end: self.end as int,
            chunk_size: self.chunk_size as int,
            page_size: self.page_size as int,
            depth: self.depth,
            values: self.query.values@,
            mode: self.query.mode,
            range: self.query.range as int,
            current: self.current as int,
            is_first_chunk: self.is_first_chunk,
            prev_chunk_valid: self.prev_chunk_valid,
            carried: self.sliding_buffer@.subrange(0, self.chunk_size as int),
            results: self.results@,
        }
    }
}

impl<'q> RegionScan<'q> {
    /// What holds of every scan that `new` made and `accept` moved on.
    pub closed spec fn wf(&self) -> bool {
        &&& self.chunk_size > 0
        &&& self.page_size > 0
        &&& self.query.range <= self.chunk_size
        &&& self.sliding_buffer@.len() == 2 * self.chunk_size
        &&& self.end <= usize::MAX
        &&& self.query.values@.len() <= usize::MAX / 8
        &&& self.min_element_size == self@.min_element_size()
        &&& self.min_element_size > 0
        &&& (self.prev_chunk_valid && self.current < self.end ==> self.current >= self.chunk_size)
    }

    /// A scan of the region `start .. end` that has taken no chunk yet.
    /// The first chunk starts where the page of `start` starts.
    pub fn new(
        query: &'q SearchQuery,
        start: u64,
        end: u64,
        chunk_size: usize,
        page_size: usize,
        depth: Depth,
    ) -> (scan: RegionScan<'q>)
        requires
            chunk_size > 0,
            page_size > 0,
            query.range <= chunk_size,
            2 * chunk_size <= usize::MAX,
            end <= usize::MAX,
            query.values@.len() <= usize::MAX / 8,
        ensures
            scan.wf(),
            scan@.start == start,
            scan@.end == end,
            scan@.chunk_size == chunk_size,
            scan@.page_size == page_size,
            scan@.depth == depth,
            scan@.values == query.values@,
            scan@.mode == query.mode,
            scan@.range == query.range,
            scan@.current == page_floor(start as int, page_size as int),
            scan@.is_first_chunk,
            !scan@.prev_chunk_valid,
            scan@.results == Map::<u64, ValueType>::empty(),
    {
        let sliding_buffer: Vec<u8> = vec![0u8; 2 * chunk_size];
        RegionScan {
            query,
            start,
            end,
            chunk_size,
            page_size,
            depth,
            min_element_size: query.min_element_size(),
            current: page_start(start, page_size),
            is_first_chunk: true,
            prev_chunk_valid: false,
            sliding_buffer,
            results: ValuePairSet::new(),
        }
    }

    /// The chunk that the reader is to read next, by its address and its
    /// length, or `None` when the region was taken whole.
    pub fn next_chunk(&self) -> (chunk: Option<(u64, usize)>)
        requires
            self.wf(),
        ensures
            chunk == (if self@.done() {
                None
            } else {
                Some((self@.current as u64, self@.chunk_len() as usize))
            }),
            !self@.done() ==> 0 < self@.chunk_len() <= self@.chunk_size && self@.current
                + self@.chunk_len() <= usize::MAX,
    {
        if self.current >= self.end {
            None
        } else if self.end - self.current <= self.chunk_size as u64 {
            Some((self.current, (self.end - self.current) as usize))
        } else {
            Some((self.current, self.chunk_size))
        }
    }

    /// The page size that the scan works with.
    pub fn page_size(&self) -> (size: usize)
        ensures
            size == self@.page_size,
    {
        self.page_size
    }

    /// Takes what the reader got for the chunk that `next_chunk` named, and
    /// scans it.
    pub fn accept(&mut self, outcome: Option<(&[u8], &PageStatusBitmap)>)
        requires
            old(self).wf(),
            !old(self)@.done(),
            match outcome {
                Some((data, status)) => {
                    &&& data@.len() == old(self)@.chunk_len()
                    &&& status@.base_addr == old(self)@.current
                    &&& status@.length == old(self)@.chunk_len()
                    &&& status@.page_size == old(self)@.page_size
                },
                None => true,
            },
        ensures
            final(self).wf(),
            final(self)@ == old(self)@.after_chunk(
                match outcome {
                    Some((data, status)) => Some((data@, status@)),
                    None => None,
                },
            ),
    {
        let chunk_len: usize = if self.end - self.current <= self.chunk_size as u64 {
            (self.end - self.current) as usize
        } else {
            self.chunk_size
        };
        let chunk_end = self.current + chunk_len as u64;
        let ghost before = self@;
        match outcome {
            None => {
                self.prev_chunk_valid = false;
            },
            Some((data, status)) => {
                copy_into(&mut self.sliding_buffer, self.chunk_size, data);
                assert(self.sliding_buffer@.subrange(0, self.chunk_size as int) =~= before.carried);
                if status.success_count() > 0 {
                    let mut matches_checked: usize = 0;
                    if !self.is_first_chunk && self.prev_chunk_valid {
                        let range = self.query.range as usize;
                        let combined = combine_status(status, self.query.range);
                        let view = slice_subrange(
                            self.sliding_buffer.as_slice(),
                            self.chunk_size - range,
                            self.chunk_size + chunk_len,
                        );
                        proof {
                            assert(view@ =~= before.carried.subrange(
                                self.chunk_size - range,
                                self.chunk_size as int,
                            ) + data@);
                        }
                        search_in_buffer_group_with(
                            view,
                            self.current - range as u64,
                            self.start,
                            chunk_end,
                            self.min_element_size,
                            self.query,
                            &combined,
                            self.depth,
                            &mut self.results,
                            &mut matches_checked,
                        );
                    } else {
                        search_in_buffer_group_with(
                            data,
                            self.current,
                            self.start,
                            chunk_end,
                            self.min_element_size,
                            self.query,
                            status,
                            self.depth,
                            &mut self.results,
                            &mut matches_checked,
                        );
                    }
                    self.is_first_chunk = false;
                    self.prev_chunk_valid = true;
                } else {
                    self.prev_chunk_valid = false;
                }
                if chunk_end < self.end {
                    copy_into(&mut self.sliding_buffer, 0, data);
                    assert(self.sliding_buffer@.subrange(0, self.chunk_size as int) =~= data@);
                }
            },
        }
        self.current = chunk_end;
    }

    /// The pairs found so far.
    pub fn results(&self) -> (found: &ValuePairSet)
        ensures
            found@ == self@.results,
    {
        &self.results
    }

    /// Ends the scan and hands out the pairs found.
    pub fn finish(self) -> (found: ValuePairSet)
        ensures
            found@ == self@.results,
    {
        self.results
    }
}

} // verus!
