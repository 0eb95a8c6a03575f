//! The scan for a single value, and the refinement of found pairs against
//! a single value.
use crate::page::{PageStatus, PageStatusBitmap};
use crate::results::{insert_all, ValuePair, ValuePairSet};
use crate::scan::{align_up, lemma_no_multiple_between};
use crate::types::{SearchValue, ValueType};
use vstd::prelude::*;
use vstd::slice::slice_subrange;

verus! {

/// Everything that the scan of one buffer for a single value depends on.
pub struct SingleScan {
    /// The bytes that were read.
    pub buffer: Seq<u8>,
    /// The address of the first byte of the buffer.
    pub buffer_addr: int,
    /// The first address of the region that is searched.
    pub region_start: int,
    /// The address behind the region that is searched.
    pub region_end: int,
    /// The distance between the addresses that are probed.
    pub alignment: int,
    /// The value looked for.
    pub value: SearchValue,
    /// The type as which memory is read and found values are recorded.
    pub value_type: ValueType,
    /// Which pages of the buffer were read.
    pub status: PageStatus,
}

impl SingleScan {
    /// The first address that lies in the buffer and in the region.
    pub open spec fn search_start(self) -> int {
        if self.buffer_addr >= self.region_start {
            self.buffer_addr
        } else {
            self.region_start
        }
    }

    /// The address behind the last that lies in the buffer and in the
    /// region.
    pub open spec fn search_end(self) -> int {
        if self.buffer_addr + self.buffer.len() <= self.region_end {
            self.buffer_addr + self.buffer.len()
        } else {
            self.region_end
        }
    }

    /// Whether the scan reads a value at `offset`: the address there is a
    /// multiple of the alignment, lies in buffer and region on a page that
    /// was read, and a whole value fits behind it in both.
    pub open spec fn probes_at(self, offset: int) -> bool {
        let addr = self.buffer_addr + offset;
        &&& 0 <= offset < self.buffer.len()
        &&& addr % self.alignment == 0
        &&& align_up(self.search_start(), self.alignment) <= addr
        &&& addr + self.value_type.spec_size() <= self.search_end()
        &&& self.status.address_ok(addr)
    }

    /// Whether the scan finds the value at `offset`.
    pub open spec fn hit_at(self, offset: int) -> bool {
        self.probes_at(offset) && self.value.matches(
            self.buffer.subrange(offset, offset + self.value_type.spec_size()),
        )
    }

    /// The pairs that the scan hands out at the offsets below `upto`, by
    /// ascending address.
    pub open spec fn pairs_below(self, upto: int) -> Seq<ValuePair>
        decreases upto,
    {
        if upto <= 0 {
            Seq::empty()
        } else if self.hit_at(upto - 1) {
            self.pairs_below(upto - 1).push(
                ValuePair { addr: (self.buffer_addr + upto - 1) as u64, value_type: self.value_type },
            )
        } else {
            self.pairs_below(upto - 1)
        }
    }

    /// The number of values that the scan reads at the offsets below
    /// `upto`.
    pub open spec fn probes_below(self, upto: int) -> nat
        decreases upto,
    {
        if upto <= 0 {
            0
        } else {
            self.probes_below(upto - 1) + if self.probes_at(upto - 1) {
                1nat
            } else {
                0nat
            }
        }
    }

    /// All pairs that the scan hands out.
    pub open spec fn pairs(self) -> Seq<ValuePair> {
        self.pairs_below(self.buffer.len() as int)
    }

    /// The number of values that the scan reads.
    pub open spec fn probes(self) -> nat {
        self.probes_below(self.buffer.len() as int)
    }
}

/// Where the scan reads nothing between two offsets, it hands out nothing
/// there.
pub proof fn lemma_single_nothing_between(scan: SingleScan, from: int, upto: int)
    requires
        0 <= from <= upto,
        forall|o: int| from <= o < upto ==> !#[trigger] scan.probes_at(o),
    ensures
        scan.pairs_below(upto) == scan.pairs_below(from),
        scan.probes_below(upto) == scan.probes_below(from),
    decreases upto - from,
{
    if from < upto {
        lemma_single_nothing_between(scan, from, upto - 1);
        assert(!scan.probes_at(upto - 1));
    }
}

/// The scan reads at most one value at each offset.
pub proof fn lemma_single_probes_bounded(scan: SingleScan, upto: int)
    requires
        0 <= upto,
    ensures
        scan.probes_below(upto) <= upto,
    decreases upto,
{
    if upto > 0 {
        lemma_single_probes_bounded(scan, upto - 1);
    }
}

/// What a scan of these values for a single value depends on.
pub open spec fn single_scan(
    buffer: Seq<u8>,
    buffer_addr: u64,
    region_start: u64,
    region_end: u64,
    alignment: usize,
    search_value: SearchValue,
    value_type: ValueType,
    page_status: PageStatusBitmap,
) -> SingleScan {
    SingleScan {
        buffer,
        buffer_addr: buffer_addr as int,
        region_start: region_start as int,
        region_end: region_end as int,
        alignment: alignment as int,
        value: search_value,
        value_type,
        status: page_status@,
    }
}

/// Scans a buffer for a single value: reads a value of `value_type` at
/// every address that is a multiple of `alignment` and lies in the buffer
/// and in the region on a page that was read, and puts the address with
/// `value_type` into `results` where the bytes there match `search_value`.
/// `matches_checked` grows by the number of values read.
pub fn search_in_buffer_with_status(
    buffer: &[u8],
    buffer_addr: u64,
    region_start: u64,
    region_end: u64,
    alignment: usize,
    search_value: &SearchValue,
    value_type: ValueType,
    page_status: &PageStatusBitmap,
    results: &mut ValuePairSet,
    matches_checked: &mut usize,
)
    requires
        alignment > 0,
        buffer_addr + buffer@.len() <= u64::MAX,
        *old(matches_checked) + buffer@.len() <= usize::MAX,
    ensures
        ({
            let scan = single_scan(
                buffer@,
                buffer_addr,
                region_start,
                region_end,
                alignment,
                *search_value,
                value_type,
                *page_status,
            );
            &&& final(results)@ == insert_all(old(results)@, scan.pairs())
            &&& *final(matches_checked) == *old(matches_checked) + scan.probes()
        }),
{
    let ghost scan = single_scan(
        buffer@,
        buffer_addr,
        region_start,
        region_end,
        alignment,
        *search_value,
        value_type,
        *page_status,
    );
    let buffer_len = buffer.len();
    let buffer_end = buffer_addr + buffer_len as u64;
    let search_start = if buffer_addr >= region_start {
        buffer_addr
    } else {
        region_start
    };
    let search_end = if buffer_end <= region_end {
        buffer_end
    } else {
        region_end
    };
    let size = value_type.size() as u64;
    let step = alignment as u64;
    let rem = search_start % step;
    assert(rem < step) by (nonlinear_arith)
        requires
            rem == search_start % step,
            step > 0,
    ;
    let pad = if rem == 0 {
        0
    } else {
        step - rem
    };
    proof {
        assert(insert_all(results@, Seq::<ValuePair>::empty()) == results@);
    }
    if search_start >= search_end || search_end - search_start <= pad {
        proof {
            assert forall|o: int| 0 <= o < buffer_len implies !#[trigger] scan.probes_at(o) by {}
            lemma_single_nothing_between(scan, 0, buffer_len as int);
        }
        return ;
    }
    let mut addr = search_start + pad;
    proof {
        assert(addr == align_up(scan.search_start(), scan.alignment));
        assert(addr % step == 0) by (nonlinear_arith)
            requires
                addr == search_start + pad,
                rem == search_start % step,
                pad == (if rem == 0 {
                    0
                } else {
                    step - rem
                }),
                step > 0,
                rem < step,
        ;
        assert forall|o: int| 0 <= o < addr - buffer_addr implies !#[trigger] scan.probes_at(o) by {}
        lemma_single_nothing_between(scan, 0, addr - buffer_addr);
    }
    loop
        invariant_except_break
            *matches_checked == *old(matches_checked) + scan.probes_below(addr - buffer_addr),
            results@ == insert_all(old(results)@, scan.pairs_below(addr - buffer_addr)),
        invariant
            buffer_len == buffer@.len(),
            buffer_end == buffer_addr + buffer_len,
            buffer_end <= u64::MAX,
            step == alignment,
            step > 0,
            size == value_type.spec_size(),
            scan == single_scan(
                buffer@,
                buffer_addr,
                region_start,
                region_end,
                alignment,
                *search_value,
                value_type,
                *page_status,
            ),
            search_start == scan.search_start(),
            search_end == scan.search_end(),
            align_up(scan.search_start(), scan.alignment) <= addr < search_end,
            buffer_addr <= addr,
            addr % step == 0,
            *old(matches_checked) + buffer@.len() <= usize::MAX,
        ensures
            *matches_checked == *old(matches_checked) + scan.probes(),
            results@ == insert_all(old(results)@, scan.pairs()),
        decreases search_end - addr,
    {
        let offset = (addr - buffer_addr) as usize;
        proof {
            lemma_single_probes_bounded(scan, offset as int);
        }
        if search_end - addr >= size && page_status.is_address_success(addr) {
            *matches_checked = *matches_checked + 1;
            let element = slice_subrange(buffer, offset, offset + size as usize);
            let hit = match search_value.matched(element) {
                Ok(true) => true,
                _ => false,
            };
            if hit {
                let _ = results.insert(ValuePair::new(addr, value_type));
                proof {
                    assert(scan.hit_at(offset as int));
                    let before = scan.pairs_below(offset as int);
                    let after = scan.pairs_below(offset as int + 1);
                    assert(after.drop_last() =~= before);
                }
            } else {
                proof {
                    assert(!scan.hit_at(offset as int));
                }
            }
        } else {
            proof {
                assert(!scan.probes_at(offset as int));
            }
        }
        if search_end - addr <= step {
            proof {
                assert forall|o: int| offset + 1 <= o < buffer_len implies !#[trigger] scan.probes_at(
                    o,
                ) by {
                    if buffer_addr + o < search_end {
                        lemma_no_multiple_between(addr as int, buffer_addr + o, step as int);
                    }
                }
                lemma_single_nothing_between(scan, offset as int + 1, buffer_len as int);
            }
            break ;
        }
        proof {
            assert forall|o: int| offset + 1 <= o < offset + step implies !#[trigger] scan.probes_at(
                o,
            ) by {
                lemma_no_multiple_between(addr as int, buffer_addr + o, step as int);
            }
            lemma_single_nothing_between(scan, offset as int + 1, offset as int + step as int);
            assert((addr + step) % (step as int) == 0) by (nonlinear_arith)
                requires
                    addr % step == 0,
                    step > 0,
            ;
        }
        addr = addr + step;
    }
}

} // verus!
