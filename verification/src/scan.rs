//! What a scan of one buffer finds, stated over mathematical values.
//!
//! A scan walks the offsets of a buffer in ascending order. At some offsets
//! it probes a window of the buffer; where the window holds a match, the
//! address and type of every matched value are handed out.
use crate::deep::deep_offsets;
use crate::matcher::group_offsets;
use crate::page::PageStatus;
use crate::results::ValuePair;
use crate::types::{prefix_width, SearchMode, SearchValue};
use vstd::prelude::*;

verus! {

/// The least multiple of `step` that is not below `addr`.
pub open spec fn align_up(addr: int, step: int) -> int {
    if addr % step == 0 {
        addr
    } else {
        addr + step - addr % step
    }
}

/// Whether `pattern` stands in `buffer` at `offset`.
pub open spec fn occurs_at(buffer: Seq<u8>, pattern: Seq<u8>, offset: int) -> bool {
    &&& 0 <= offset
    &&& offset + pattern.len() <= buffer.len()
    &&& buffer.subrange(offset, offset + pattern.len()) == pattern
}

/// The byte pattern that a value seeds a scan with, if it has one: the
/// bytes of a fixed integer, or of a fixed float of a float type.
pub open spec fn anchor_pattern(value: SearchValue) -> Option<Seq<u8>> {
    match value {
        SearchValue::FixedInt { value, value_type } => Some(
            value@.take(value_type.spec_size() as int),
        ),
        SearchValue::FixedFloat { pattern, value_type, .. } => if value_type.spec_is_float() {
            Some(pattern@.take(value_type.spec_size() as int))
        } else {
            None
        },
        _ => None,
    }
}

/// The index of the first value at or after `from` that has an anchor
/// pattern.
pub open spec fn first_anchor_from(values: Seq<SearchValue>, from: int) -> Option<int>
    decreases values.len() - from,
{
    if from < 0 || from >= values.len() {
        None
    } else if anchor_pattern(values[from]).is_some() {
        Some(from)
    } else {
        first_anchor_from(values, from + 1)
    }
}

/// The index of the query's anchor: its first value with an anchor pattern.
pub open spec fn anchor_index(values: Seq<SearchValue>) -> Option<int> {
    first_anchor_from(values, 0)
}

/// A window of a buffer, by the address of its first byte and its length.
pub struct Window {
    pub start: int,
    pub len: int,
}

/// How the windows of a scan are chosen.
pub enum Scanner {
    /// At every occurrence of the query's anchor pattern.
    AnchorFirst,
    /// At every aligned address on a page that was read.
    Aligned,
}

/// What a window that holds a match contributes.
#[derive(Debug, Clone, Copy, PartialEq, Eq, Structural)]
pub enum Depth {
    /// The first hit of every value.
    FirstMatch,
    /// Every combination of hits, up to `limit` combinations a window.
    Exhaustive { limit: usize },
}

/// Everything that a scan of one buffer depends on.
pub struct ScanInput {
    /// The bytes that were read.
    pub buffer: Seq<u8>,
    /// The address of the first byte of the buffer.
    pub buffer_addr: int,
    /// The first address of the region that is searched.
    pub region_start: int,
    /// The address behind the region that is searched.
    pub region_end: int,
    /// The distance between the addresses that a scan without an anchor
    /// probes.
    pub min_element_size: int,
    /// The values of the query.
    pub values: Seq<SearchValue>,
    /// The mode of the query.
    pub mode: SearchMode,
    /// The range of the query.
    pub range: int,
    /// Which pages of the buffer were read.
    pub status: PageStatus,
}

impl ScanInput {
    /// The address behind the buffer.
    pub open spec fn buffer_end(self) -> int {
        self.buffer_addr + self.buffer.len()
    }

    /// The first address that lies in the buffer and in the region.
    pub open spec fn search_start(self) -> int {
        if self.buffer_addr >= self.region_start {
            self.buffer_addr
        } else {
            self.region_start
        }
    }

    /// The address behind the last that lies in the buffer and in the
    /// region.
    pub open spec fn search_end(self) -> int {
        if self.buffer_end() <= self.region_end {
            self.buffer_end()
        } else {
            self.region_end
        }
    }

    /// The first aligned address that lies in the buffer and in the region.
    pub open spec fn first_addr(self) -> int {
        align_up(self.search_start(), self.min_element_size)
    }

    /// The summed widths of the values.
    pub open spec fn total_width(self) -> int {
        prefix_width(self.values, self.values.len() as int) as int
    }

    /// The length of the window of an ordered match, before the buffer and
    /// the region cut it: the range, or the summed widths where they are
    /// larger.
    pub open spec fn window_len(self) -> int {
        if self.total_width() > self.range {
            self.total_width()
        } else {
            self.range
        }
    }

    /// The address of the byte at `offset`.
    pub open spec fn addr_at(self, offset: int) -> int {
        self.buffer_addr + offset
    }

    /// Whether the anchor-first scan looks at `offset`: the anchor pattern
    /// stands there, at an address that is a multiple of the pattern's
    /// length, not before the first aligned address and inside buffer and
    /// region.
    pub open spec fn anchor_candidate(self, offset: int) -> bool {
        match anchor_index(self.values) {
            None => false,
            Some(k) => {
                let pattern = anchor_pattern(self.values[k]).unwrap();
                &&& occurs_at(self.buffer, pattern, offset)
                &&& self.addr_at(offset) % (pattern.len() as int) == 0
                &&& self.first_addr() <= self.addr_at(offset) < self.search_end()
            },
        }
    }

    /// The window that the anchor-first scan probes for the anchor at
    /// `offset`, if it probes one.
    ///
    /// Ordered: the window starts as many bytes before the anchor as the
    /// values before the anchor are wide (at address 0 where that many are
    /// not there). It is probed when its start lies in the region, in the
    /// buffer and on a page that was read, and it ends `window_len` bytes
    /// later, or where the buffer or the region ends.
    ///
    /// Unordered: the window is probed when the anchor lies in the region
    /// and on a page that was read; it reaches `range` bytes to either side
    /// of the anchor's address, as far as the buffer and the region go.
    /// Nothing before the region or behind it is looked at.
    pub open spec fn anchor_window(self, offset: int) -> Option<Window> {
        let anchor_addr = self.addr_at(offset);
        match self.mode {
            SearchMode::Ordered => {
                let before = prefix_width(self.values, anchor_index(self.values).unwrap()) as int;
                let start = if anchor_addr >= before {
                    anchor_addr - before
                } else {
                    0
                };
                if start < self.region_start || start >= self.region_end || !self.status.address_ok(
                    start,
                ) || start < self.buffer_addr {
                    None
                } else {
                    Some(Window { start, len: lesser(start + self.window_len(), self.search_end()) - start })
                }
            },
            SearchMode::Unordered => {
                if anchor_addr < self.region_start || anchor_addr >= self.region_end
                    || !self.status.address_ok(anchor_addr) {
                    None
                } else {
                    let low = if anchor_addr >= self.range {
                        anchor_addr - self.range
                    } else {
                        0
                    };
                    let start = if low >= self.search_start() {
                        low
                    } else {
                        self.search_start()
                    };
                    Some(Window { start, len: lesser(anchor_addr + self.range, self.search_end()) - start })
                }
            },
        }
    }

    /// The window that the aligned scan probes at `offset`, if it probes
    /// one: the `range` bytes from an aligned address that lies, not before
    /// the first aligned address, on a page that was read, where that many
    /// bytes are left in buffer and region.
    pub open spec fn aligned_window(self, offset: int) -> Option<Window> {
        let addr = self.addr_at(offset);
        if 0 <= offset < self.buffer.len() && addr % self.min_element_size == 0 && self.first_addr()
            <= addr && addr + self.range <= self.search_end() && addr < self.search_end()
            && self.status.address_ok(addr) {
            Some(Window { start: addr, len: self.range })
        } else {
            None
        }
    }

    /// The window that the scanner probes at `offset`, if it probes one.
    pub open spec fn probe(self, scanner: Scanner, offset: int) -> Option<Window> {
        match scanner {
            Scanner::AnchorFirst => if self.anchor_candidate(offset) {
                self.anchor_window(offset)
            } else {
                None
            },
            Scanner::Aligned => self.aligned_window(offset),
        }
    }

    /// The bytes of a window.
    pub open spec fn window_bytes(self, window: Window) -> Seq<u8> {
        self.buffer.subrange(
            window.start - self.buffer_addr,
            window.start - self.buffer_addr + window.len,
        )
    }

    /// The pairs that one assignment of offsets to the values gives, in the
    /// order of the values.
    pub open spec fn pairs_of(self, window: Window, offsets: Seq<int>) -> Seq<ValuePair> {
        Seq::new(
            offsets.len(),
            |i: int|
                ValuePair {
                    addr: (window.start + offsets[i]) as u64,
                    value_type: self.values[i].spec_value_type(),
                },
        )
    }

    /// The pairs that the first match in a window gives, if the window
    /// holds a match.
    pub open spec fn first_match_pairs(self, window: Window) -> Seq<ValuePair> {
        match group_offsets(self.window_bytes(window), self.values, self.mode) {
            None => Seq::empty(),
            Some(offsets) => self.pairs_of(window, offsets),
        }
    }

    /// The pairs that the assignments give, one assignment after the
    /// other.
    pub open spec fn pairs_of_all(self, window: Window, assignments: Seq<Seq<int>>) -> Seq<
        ValuePair,
    >
        decreases assignments.len(),
    {
        if assignments.len() == 0 {
            Seq::empty()
        } else {
            self.pairs_of_all(window, assignments.drop_last()) + self.pairs_of(
                window,
                assignments.last(),
            )
        }
    }

    /// The pairs that an exhaustive match in a window gives.
    pub open spec fn exhaustive_pairs(self, window: Window, limit: nat) -> Seq<ValuePair> {
        self.pairs_of_all(
            window,
            deep_offsets(self.window_bytes(window), self.values, self.mode, limit),
        )
    }

    /// The pairs that a window gives.
    pub open spec fn window_pairs(self, window: Window, depth: Depth) -> Seq<ValuePair> {
        match depth {
            Depth::FirstMatch => self.first_match_pairs(window),
            Depth::Exhaustive { limit } => self.exhaustive_pairs(window, limit as nat),
        }
    }

    /// The pairs that the scanner hands out at `offset`.
    pub open spec fn pairs_at(self, scanner: Scanner, depth: Depth, offset: int) -> Seq<
        ValuePair,
    > {
        match self.probe(scanner, offset) {
            None => Seq::empty(),
            Some(window) => self.window_pairs(window, depth),
        }
    }

    /// The pairs that the scanner hands out at the offsets below `upto`, in
    /// the order in which it does.
    pub open spec fn pairs_below(self, scanner: Scanner, depth: Depth, upto: int) -> Seq<
        ValuePair,
    >
        decreases upto,
    {
        if upto <= 0 {
            Seq::empty()
        } else {
            self.pairs_below(scanner, depth, upto - 1) + self.pairs_at(scanner, depth, upto - 1)
        }
    }

    /// The number of windows that the scanner probes at the offsets below
    /// `upto`.
    pub open spec fn probes_below(self, scanner: Scanner, upto: int) -> nat
        decreases upto,
    {
        if upto <= 0 {
            0
        } else {
            self.probes_below(scanner, upto - 1) + if self.probe(scanner, upto - 1).is_some() {
                1nat
            } else {
                0nat
            }
        }
    }

    /// All pairs that the scanner hands out, in the order in which it does.
    pub open spec fn pairs(self, scanner: Scanner, depth: Depth) -> Seq<ValuePair> {
        self.pairs_below(scanner, depth, self.buffer.len() as int)
    }

    /// The number of windows that the scanner probes.
    pub open spec fn probes(self, scanner: Scanner) -> nat {
        self.probes_below(scanner, self.buffer.len() as int)
    }

    /// The scanner that a group search uses: anchor-first where the query
    /// has an anchor, aligned where it has none.
    pub open spec fn scanner(self) -> Scanner {
        if anchor_index(self.values).is_some() {
            Scanner::AnchorFirst
        } else {
            Scanner::Aligned
        }
    }
}

/// The lesser of two numbers.
pub open spec fn lesser(a: int, b: int) -> int {
    if a <= b {
        a
    } else {
        b
    }
}

/// Where the scanner probes nothing between two offsets, it hands out
/// nothing there.
pub proof fn lemma_nothing_between(
    input: ScanInput,
    scanner: Scanner,
    depth: Depth,
    from: int,
    upto: int,
)
    requires
        0 <= from <= upto,
        forall|o: int| from <= o < upto ==> (#[trigger] input.probe(scanner, o)).is_none(),
    ensures
        input.pairs_below(scanner, depth, upto) == input.pairs_below(scanner, depth, from),
        input.probes_below(scanner, upto) == input.probes_below(scanner, from),
    decreases upto - from,
{
    if from < upto {
        lemma_nothing_between(input, scanner, depth, from, upto - 1);
        assert(input.probe(scanner, upto - 1).is_none());
        assert(input.pairs_below(scanner, depth, upto - 1) + Seq::<ValuePair>::empty()
            =~= input.pairs_below(scanner, depth, upto - 1));
    }
}

/// The scanner probes at most one window at each offset.
pub proof fn lemma_probes_bounded(input: ScanInput, scanner: Scanner, upto: int)
    requires
        0 <= upto,
    ensures
        input.probes_below(scanner, upto) <= upto,
    decreases upto,
{
    if upto > 0 {
        lemma_probes_bounded(input, scanner, upto - 1);
    }
}

/// Between two neighbouring multiples of a step lies no multiple of it.
pub proof fn lemma_no_multiple_between(low: int, addr: int, step: int)
    requires
        step > 0,
        low % step == 0,
        low < addr < low + step,
    ensures
        addr % step != 0,
{
    assert(addr % step != 0) by (nonlinear_arith)
        requires
            step > 0,
            low % step == 0,
            low < addr < low + step,
    ;
}

} // verus!
