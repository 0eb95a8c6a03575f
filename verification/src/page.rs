//! Memory pages: the page size of the machine, and the bitmap that records
//! which pages of a chunk were read successfully.
use vstd::prelude::*;

verus! {

/// The page size assumed when the system reports none.
pub const DEFAULT_PAGE_SIZE: usize = 4096;

/// The first address of the page that holds `addr`.
pub open spec fn page_floor(addr: int, page_size: int) -> int {
    addr - addr % page_size
}

/// The number of pages that the bytes `base .. base + length` touch.
pub open spec fn page_count(base: int, length: int, page_size: int) -> int {
    (base % page_size + length) / page_size + if (base % page_size + length) % page_size == 0 {
        0int
    } else {
        1int
    }
}

/// The index of the page that holds `addr`, counted from the page that
/// holds `base`.
pub open spec fn page_index(addr: int, base: int, page_size: int) -> int {
    (addr - page_floor(base, page_size)) / page_size
}

/// The number of successful pages among the first `n`.
pub open spec fn count_success(pages: Seq<bool>, n: int) -> nat
    decreases n,
{
    if n <= 0 {
        0
    } else {
        count_success(pages, n - 1) + if pages[n - 1] {
            1nat
        } else {
            0nat
        }
    }
}

/// Whether `ranges` lists, in ascending order, the maximal runs of
/// successful pages as half-open intervals of page indices.
pub open spec fn is_success_ranges(ranges: Seq<(usize, usize)>, pages: Seq<bool>) -> bool {
    &&& forall|k: int| 0 <= k < ranges.len() ==> (#[trigger] ranges[k]).0 < ranges[k].1 <= pages.len()
    &&& forall|k: int| 0 <= k < ranges.len() - 1 ==> (#[trigger] ranges[k]).1 < ranges[k + 1].0
    &&& forall|i: int|
        0 <= i < pages.len() ==> (#[trigger] pages[i] <==> in_ranges(ranges, i))
}

/// Whether one of the intervals holds the index.
pub open spec fn in_ranges(ranges: Seq<(usize, usize)>, index: int) -> bool {
    exists|k: int| 0 <= k < ranges.len() && (#[trigger] ranges[k]).0 <= index < ranges[k].1
}

/// The address of a byte that lies `offset` bytes into a chunk is on a page
/// that the chunk's bitmap has.
pub proof fn lemma_page_index_in_count(base: int, length: int, page_size: int, addr: int)
    requires
        page_size > 0,
        base >= 0,
        base <= addr < base + length,
    ensures
        0 <= page_index(addr, base, page_size) < page_count(base, length, page_size),
        page_floor(base, page_size) <= base,
{
    let total = base % page_size + length;
    let x = addr - page_floor(base, page_size);
    assert(0 <= base % page_size < page_size) by (nonlinear_arith)
        requires
            page_size > 0,
    ;
    assert(0 <= x < total);
    assert(0 <= x / page_size && x / page_size < total / page_size + if total % page_size == 0 {
        0int
    } else {
        1int
    }) by (nonlinear_arith)
        requires
            0 <= x < total,
            page_size > 0,
    ;
}

/// What a page bitmap stands for.
pub struct PageStatus {
    /// The address of the first byte of the chunk.
    pub base_addr: int,
    /// The number of bytes in the chunk.
    pub length: int,
    /// The number of bytes in a page.
    pub page_size: int,
    /// For each page that the chunk touches, whether it was read.
    pub pages: Seq<bool>,
}

impl PageStatus {
    /// The index of the page that holds `addr`.
    pub open spec fn index_of(self, addr: int) -> int {
        page_index(addr, self.base_addr, self.page_size)
    }

    /// Whether `addr` lies on a page of the chunk that was read.
    pub open spec fn address_ok(self, addr: int) -> bool {
        &&& page_floor(self.base_addr, self.page_size) <= addr
        &&& self.index_of(addr) < self.pages.len()
        &&& self.pages[self.index_of(addr)]
    }

    /// Whether the bitmap has a page for every byte of the chunk and no
    /// other.
    pub open spec fn well_formed(self) -> bool {
        &&& self.page_size > 0
        &&& self.base_addr >= 0
        &&& self.length >= 0
        &&& self.pages.len() == page_count(self.base_addr, self.length, self.page_size)
    }
}

/// Per-page read success inside one chunk. Page 0 is the page that holds
/// the chunk's first byte.
pub struct PageStatusBitmap {
    base_addr: usize,
    length: usize,
    page_size: usize,
    pages: Vec<bool>,
}

impl View for PageStatusBitmap {
    type V = PageStatus;

    closed spec fn view(&self) -> PageStatus {
        PageStatus {
            base_addr: self.base_addr as int,
            length: self.length as int,
            page_size: self.page_size as int,
            pages: self.pages@,
        }
    }
}

impl PageStatusBitmap {
    #[verifier::type_invariant]
    spec fn inv(self) -> bool {
        &&& self.page_size > 0
        &&& self.base_addr + self.length <= usize::MAX
        &&& self.pages@.len() == page_count(
            self.base_addr as int,
            self.length as int,
            self.page_size as int,
        )
    }

    /// A bitmap without pages, for a chunk without bytes at address 0, with
    /// pages of one byte.
    fn vacant() -> (bitmap: PageStatusBitmap)
        ensures
            bitmap@.base_addr == 0,
            bitmap@.length == 0,
            bitmap@.page_size == 1,
            bitmap@.pages == Seq::<bool>::empty(),
            bitmap@.well_formed(),
    {
        let bitmap = PageStatusBitmap {
            base_addr: 0,
            length: 0,
            page_size: 1,
            pages: Vec::new(),
        };
        assert(page_count(0, 0, 1) == 0);
        bitmap
    }

    /// A bitmap for the `length` bytes at `base_addr`, with every page
    /// marked as not read.
    pub fn new(length: usize, base_addr: usize, page_size: usize) -> (bitmap: PageStatusBitmap)
        requires
            page_size > 0,
            base_addr + length <= usize::MAX,
        ensures
            bitmap@.base_addr == base_addr,
            bitmap@.length == length,
            bitmap@.page_size == page_size,
            bitmap@.well_formed(),
            forall|i: int| 0 <= i < bitmap@.pages.len() ==> !bitmap@.pages[i],
    {
        let lead = base_addr % page_size;
        assert(lead <= base_addr) by (nonlinear_arith)
            requires
                lead == base_addr % page_size,
                page_size > 0,
        ;
        let total = lead + length;
        let count = if total % page_size == 0 {
            total / page_size
        } else {
            assert(total / page_size < total) by (nonlinear_arith)
                requires
                    total % page_size != 0,
                    page_size > 0,
                    total >= 0,
            ;
            total / page_size + 1
        };
        let mut pages: Vec<bool> = Vec::new();
        let mut i: usize = 0;
        while i < count
            invariant
                0 <= i <= count,
                pages@.len() == i,
                forall|j: int| 0 <= j < i ==> !pages@[j],
            decreases count - i,
        {
            pages.push(false);
            i += 1;
        }
        PageStatusBitmap { base_addr, length, page_size, pages }
    }

    pub fn num_pages(&self) -> (n: usize)
        ensures
            n == self@.pages.len(),
    {
        self.pages.len()
    }

    pub fn base_addr(&self) -> (addr: usize)
        ensures
            addr == self@.base_addr,
    {
        self.base_addr
    }

    pub fn length(&self) -> (length: usize)
        ensures
            length == self@.length,
    {
        self.length
    }

    /// The page size; with it a caller learns that the bitmap covers its
    /// chunk and that the chunk lies in the address space.
    pub fn page_size(&self) -> (size: usize)
        ensures
            size == self@.page_size,
            size > 0,
            self@.well_formed(),
            self@.base_addr + self@.length <= usize::MAX,
    {
        proof {
            use_type_invariant(self);
        }
        self.page_size
    }

    /// Whether page `index` was read; no page beyond the last was.
    pub fn is_page_success(&self, index: usize) -> (ok: bool)
        ensures
            ok == (index < self@.pages.len() && self@.pages[index as int]),
    {
        index < self.pages.len() && self.pages[index]
    }

    /// Whether the byte at `addr` lies on a page of the chunk that was
    /// read.
    pub fn is_address_success(&self, addr: u64) -> (ok: bool)
        ensures
            ok == self@.address_ok(addr as int),
    {
        proof {
            use_type_invariant(self);
        }
        let base = self.base_addr as u64;
        let size = self.page_size as u64;
        let lead = base % size;
        assert(lead <= base) by (nonlinear_arith)
            requires
                lead == base % size,
                size > 0,
        ;
        let floor = base - lead;
        if addr < floor {
            return false;
        }
        let index = (addr - floor) / size;
        if index >= self.pages.len() as u64 {
            return false;
        }
        self.pages[index as usize]
    }

    /// The number of pages that were read.
    pub fn success_count(&self) -> (n: usize)
        ensures
            n == count_success(self@.pages, self@.pages.len() as int),
            n > 0 <==> exists|i: int| 0 <= i < self@.pages.len() && self@.pages[i],
    {
        let mut n: usize = 0;
        let mut i: usize = 0;
        while i < self.pages.len()
            invariant
                0 <= i <= self.pages@.len(),
                n == count_success(self.pages@, i as int),
                n <= i,
                n > 0 <==> exists|j: int| 0 <= j < i && self.pages@[j],
            decreases self.pages@.len() - i,
        {
            if self.pages[i] {
                n += 1;
            }
            i += 1;
        }
        proof {
            assert(self@.pages == self.pages@);
            if n > 0 {
                let j = choose|j: int| 0 <= j < i && self.pages@[j];
                assert(0 <= j < self@.pages.len() && self@.pages[j]);
            }
        }
        n
    }

    /// Marks page `index` as read. An index beyond the last page changes
    /// nothing.
    pub fn mark_success(&mut self, index: usize)
        ensures
            final(self)@.base_addr == old(self)@.base_addr,
            final(self)@.length == old(self)@.length,
            final(self)@.page_size == old(self)@.page_size,
            final(self)@.pages == (if index < old(self)@.pages.len() {
                old(self)@.pages.update(index as int, true)
            } else {
                old(self)@.pages
            }),
    {
        proof {
            use_type_invariant(&*self);
        }
        if index < self.pages.len() {
            let mut taken = PageStatusBitmap::vacant();
            core::mem::swap(self, &mut taken);
            let PageStatusBitmap { base_addr, length, page_size, pages } = taken;
            let mut pages = pages;
            pages.set(index, true);
            *self = PageStatusBitmap { base_addr, length, page_size, pages };
        }
    }

    /// Marks every page as read.
    pub fn mark_all_success(&mut self)
        ensures
            final(self)@.base_addr == old(self)@.base_addr,
            final(self)@.length == old(self)@.length,
            final(self)@.page_size == old(self)@.page_size,
            final(self)@.pages.len() == old(self)@.pages.len(),
            forall|i: int| 0 <= i < final(self)@.pages.len() ==> final(self)@.pages[i],
    {
        proof {
            use_type_invariant(&*self);
        }
        let mut taken = PageStatusBitmap::vacant();
        core::mem::swap(self, &mut taken);
        let PageStatusBitmap { base_addr, length, page_size, pages } = taken;
        let mut pages = pages;
        let n = pages.len();
        let mut i: usize = 0;
        while i < n
            invariant
                0 <= i <= n,
                n == pages@.len(),
                forall|j: int| 0 <= j < i ==> pages@[j],
            decreases n - i,
        {
            pages.set(i, true);
            i += 1;
        }
        *self = PageStatusBitmap { base_addr, length, page_size, pages };
    }

    /// The maximal runs of pages that were read, in ascending order, as
    /// half-open intervals of page indices.
    pub fn get_success_page_ranges(&self) -> (ranges: Vec<(usize, usize)>)
        ensures
            is_success_ranges(ranges@, self@.pages),
    {
        let n = self.pages.len();
        let mut ranges: Vec<(usize, usize)> = Vec::new();
        let mut start: usize = 0;
        let mut open: bool = false;
        let mut i: usize = 0;
        while i < n
            invariant
                0 <= i <= n,
                n == self.pages@.len(),
                open ==> start < i,
                open ==> forall|j: int| start <= j < i ==> self.pages@[j],
                open ==> (start == 0 || !self.pages@[start - 1]),
                !open && i > 0 ==> !self.pages@[i - 1],
                forall|k: int|
                    0 <= k < ranges@.len() ==> (#[trigger] ranges@[k]).0 < ranges@[k].1 <= (if open {
                        start
                    } else {
                        i
                    }),
                forall|k: int| 0 <= k < ranges@.len() - 1 ==> (#[trigger] ranges@[k]).1 < ranges@[k + 1].0,
                forall|j: int|
                    0 <= j < (if open {
                        start
                    } else {
                        i
                    }) ==> (#[trigger] self.pages@[j] <==> in_ranges(ranges@, j)),
            decreases n - i,
        {
            if self.pages[i] {
                if !open {
                    start = i;
                    open = true;
                }
            } else {
                if open {
                    let ghost before = ranges@;
                    ranges.push((start, i));
                    open = false;
                    proof {
                        let last = before.len() as int;
                        assert(ranges@[last] == (start, i));
                        assert forall|k: int| 0 <= k < ranges@.len() - 1 implies (#[trigger] ranges@[k]).1
                            < ranges@[k + 1].0 by {
                            if k + 1 == last {
                                assert(ranges@[k] == before[k]);
                                // the page before `start` failed, while the page
                                // at the end of the range before it was read
                                assert(before[k].0 <= before[k].1 - 1 < before[k].1);
                                assert(in_ranges(before, before[k].1 - 1));
                            } else {
                                assert(ranges@[k] == before[k]);
                                assert(ranges@[k + 1] == before[k + 1]);
                            }
                        }
                        assert forall|j: int| 0 <= j < i + 1 implies (#[trigger] self.pages@[j]
                            <==> in_ranges(ranges@, j)) by {
                            if j < start {
                                if in_ranges(before, j) {
                                    let k = choose|k: int|
                                        0 <= k < before.len() && (#[trigger] before[k]).0 <= j
                                            < before[k].1;
                                    assert(ranges@[k] == before[k]);
                                }
                                if in_ranges(ranges@, j) {
                                    let k = choose|k: int|
                                        0 <= k < ranges@.len() && (#[trigger] ranges@[k]).0 <= j
                                            < ranges@[k].1;
                                    assert(k != last);
                                    assert(ranges@[k] == before[k]);
                                }
                            } else if j < i {
                                assert(ranges@[last].0 <= j < ranges@[last].1);
                            } else {
                                if in_ranges(ranges@, j) {
                                    let k = choose|k: int|
                                        0 <= k < ranges@.len() && (#[trigger] ranges@[k]).0 <= j
                                            < ranges@[k].1;
                                    assert(false);
                                }
                            }
                        }
                    }
                } else {
                    proof {
                        assert forall|j: int| 0 <= j < i + 1 implies (#[trigger] self.pages@[j]
                            <==> in_ranges(ranges@, j)) by {
                            if j == i {
                                if in_ranges(ranges@, j) {
                                    let k = choose|k: int|
                                        0 <= k < ranges@.len() && (#[trigger] ranges@[k]).0 <= j
                                            < ranges@[k].1;
                                    assert(false);
                                }
                            }
                        }
                    }
                }
            }
            i += 1;
        }
        if open {
            let ghost before = ranges@;
            ranges.push((start, n));
            proof {
                let last = before.len() as int;
                assert(ranges@[last] == (start, n));
                assert forall|k: int| 0 <= k < ranges@.len() - 1 implies (#[trigger] ranges@[k]).1
                    < ranges@[k + 1].0 by {
                    if k + 1 == last {
                        assert(ranges@[k] == before[k]);
                        assert(before[k].0 <= before[k].1 - 1 < before[k].1);
                        assert(in_ranges(before, before[k].1 - 1));
                    } else {
                        assert(ranges@[k] == before[k]);
                        assert(ranges@[k + 1] == before[k + 1]);
                    }
                }
                assert forall|j: int| 0 <= j < n implies (#[trigger] self.pages@[j] <==> in_ranges(
                    ranges@,
                    j,
                )) by {
                    if j < start {
                        if in_ranges(before, j) {
                            let k = choose|k: int|
                                0 <= k < before.len() && (#[trigger] before[k]).0 <= j
                                    < before[k].1;
                            assert(ranges@[k] == before[k]);
                        }
                        if in_ranges(ranges@, j) {
                            let k = choose|k: int|
                                0 <= k < ranges@.len() && (#[trigger] ranges@[k]).0 <= j
                                    < ranges@[k].1;
                            assert(k != last);
                            assert(ranges@[k] == before[k]);
                        }
                    } else {
                        assert(ranges@[last].0 <= j < ranges@[last].1);
                    }
                }
            }
        }
        ranges
    }
}

/// Asks the system for its page size through `nix::unistd::sysconf`.
/// The answer depends on the machine, so nothing is claimed of it.
#[verifier::external_body]
fn system_page_size() -> (reported: Option<i64>) {
    match nix::unistd::sysconf(nix::unistd::SysconfVar::PAGE_SIZE) {
        Ok(Some(size)) => Some(size as i64),
        Ok(None) => None,
        Err(_) => None,
    }
}

/// The page size that is chosen when the system reported `reported`: the
/// reported size where it is positive and fits the machine word, and 4096
/// otherwise.
pub open spec fn chosen_page_size(reported: Option<i64>) -> usize {
    match reported {
        Some(n) => if 0 < n <= usize::MAX {
            n as usize
        } else {
            DEFAULT_PAGE_SIZE
        },
        None => DEFAULT_PAGE_SIZE,
    }
}

/// The page size to work with when the system reported `reported`: the
/// reported size where it is positive and fits the machine word, and 4096
/// otherwise.
pub fn page_size_or_default(reported: Option<i64>) -> (size: usize)
    ensures
        size == chosen_page_size(reported),
        size > 0,
{
    match reported {
        Some(n) => {
            if n > 0 && n as u64 <= usize::MAX as u64 {
                n as usize
            } else {
                DEFAULT_PAGE_SIZE
            }
        },
        None => DEFAULT_PAGE_SIZE,
    }
}

/// The page size of this machine, or 4096 where the system reports none:
/// the size chosen from what the system reported. What the system reports
/// depends on the machine.
pub fn page_size() -> (size: usize)
    ensures
        exists|reported: Option<i64>| size == #[trigger] chosen_page_size(reported),
        size > 0,
{
    let reported = system_page_size();
    let size = page_size_or_default(reported);
    assert(size == chosen_page_size(reported));
    size
}

/// The first address of the page that holds `addr`.
pub fn page_start(addr: u64, page_size: usize) -> (start: u64)
    requires
        page_size > 0,
    ensures
        start == page_floor(addr as int, page_size as int),
        start <= addr,
        addr - start < page_size,
{
    let size = page_size as u64;
    let lead = addr % size;
    assert(lead <= addr && lead < size) by (nonlinear_arith)
        requires
            lead == addr % size,
            size > 0,
    ;
    addr - lead
}

} // verus!
