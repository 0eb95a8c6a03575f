//! Chunk-boundary independence: what a region scan finds does not depend
//! on the size of the chunks in which the region is read.
use crate::laws::{
    in_address_space, is_match_of, lemma_align_up_not_below, lemma_anchor_pattern_len,
    lemma_first_anchor, lemma_match_shape, lemma_pair_origin, lemma_pairs_below_member,
    lemma_probe_in_bounds,
};
use crate::results::{has_addr, insert_all, lemma_insert_all_dom};
use crate::matcher::{
    first_hit, group_offsets, lemma_first_hit, lemma_ordered_offsets, ordered_offsets,
    ordered_offsets_from,
};
use crate::page::{
    lemma_page_index_in_count, page_count, page_floor, page_index, PageStatus,
};
use crate::region::{overlap_status, pages_below, ChunkOutcome, RegionScanView};
use crate::scan::{
    align_up, anchor_index, anchor_pattern, occurs_at, Depth, ScanInput, Scanner, Window,
};
use crate::types::{prefix_min_width, prefix_width, SearchMode, SearchValue, ValueType};
use vstd::prelude::*;

verus! {

/// A first hit in the first bytes of a window is a first hit in the whole
/// window.
pub proof fn lemma_first_hit_extends(
    long: Seq<u8>,
    n: int,
    value: SearchValue,
    from: int,
)
    requires
        0 <= from,
        0 <= n <= long.len(),
        first_hit(long.take(n), value, from).is_some(),
    ensures
        first_hit(long, value, from) == first_hit(long.take(n), value, from),
    decreases n - from,
{
    let short = long.take(n);
    let w = value.width() as int;
    assert(short.subrange(from, from + w) =~= long.subrange(from, from + w));
    if !value.matches(short.subrange(from, from + w)) {
        lemma_first_hit_extends(long, n, value, from + w);
    }
}

/// A first hit that ends in the first bytes of a window is a first hit in
/// those bytes alone.
pub proof fn lemma_first_hit_truncates(
    long: Seq<u8>,
    n: int,
    value: SearchValue,
    from: int,
)
    requires
        0 <= from,
        0 <= n <= long.len(),
        first_hit(long, value, from).is_some(),
        first_hit(long, value, from).unwrap() + value.width() <= n,
    ensures
        first_hit(long.take(n), value, from) == first_hit(long, value, from),
    decreases long.len() - from,
{
    let short = long.take(n);
    let w = value.width() as int;
    lemma_first_hit(long, value, from);
    assert(short.subrange(from, from + w) =~= long.subrange(from, from + w));
    if !value.matches(long.subrange(from, from + w)) {
        lemma_first_hit_truncates(long, n, value, from + w);
    }
}

/// An ordered match in the first bytes of a window is the ordered match of
/// the whole window.
pub proof fn lemma_ordered_extends(
    long: Seq<u8>,
    n: int,
    values: Seq<SearchValue>,
    index: int,
    cursor: int,
)
    requires
        0 <= index <= values.len(),
        0 <= cursor,
        0 <= n <= long.len(),
        ordered_offsets_from(long.take(n), values, index, cursor).is_some(),
    ensures
        ordered_offsets_from(long, values, index, cursor) == ordered_offsets_from(
            long.take(n),
            values,
            index,
            cursor,
        ),
    decreases values.len() - index,
{
    if index < values.len() {
        let short = long.take(n);
        lemma_first_hit_extends(long, n, values[index], cursor);
        let at = first_hit(short, values[index], cursor).unwrap();
        lemma_first_hit(short, values[index], cursor);
        lemma_ordered_extends(long, n, values, index + 1, at + values[index].width());
    }
}

/// An ordered match of a window that ends in the first bytes of the window
/// is the ordered match of those bytes alone.
pub proof fn lemma_ordered_truncates(
    long: Seq<u8>,
    n: int,
    values: Seq<SearchValue>,
    index: int,
    cursor: int,
)
    requires
        0 <= index <= values.len(),
        0 <= cursor,
        0 <= n <= long.len(),
        ordered_offsets_from(long, values, index, cursor).is_some(),
        forall|i: int|
            0 <= i < values.len() - index ==> (#[trigger] ordered_offsets_from(
                long,
                values,
                index,
                cursor,
            ).unwrap()[i]) + values[index + i].width() <= n,
    ensures
        ordered_offsets_from(long.take(n), values, index, cursor) == ordered_offsets_from(
            long,
            values,
            index,
            cursor,
        ),
    decreases values.len() - index,
{
    if index < values.len() {
        let offsets = ordered_offsets_from(long, values, index, cursor).unwrap();
        let at = first_hit(long, values[index], cursor).unwrap();
        let next = at + values[index].width();
        let rest = ordered_offsets_from(long, values, index + 1, next).unwrap();
        assert(offsets == seq![at] + rest);
        assert(offsets[0] == at);
        lemma_first_hit(long, values[index], cursor);
        lemma_first_hit_truncates(long, n, values[index], cursor);
        lemma_ordered_offsets(long, values, index + 1, next);
        assert forall|i: int| 0 <= i < values.len() - (index + 1) implies (#[trigger] rest[i])
            + values[index + 1 + i].width() <= n by {
            assert(offsets[i + 1] == rest[i]);
        }
        lemma_ordered_truncates(long, n, values, index + 1, next);
    }
}

/// Every multiple of a step at or above an address is at or above the
/// least such multiple.
pub proof fn lemma_align_up_least(addr: int, step: int, multiple: int)
    requires
        step > 0,
        multiple % step == 0,
        addr <= multiple,
    ensures
        align_up(addr, step) <= multiple,
{
    if addr % step != 0 {
        let up = addr + step - addr % step;
        assert(0 < addr % step < step) by (nonlinear_arith)
            requires
                step > 0,
                addr % step != 0,
        ;
        vstd::arithmetic::div_mod::lemma_fundamental_div_mod(addr, step);
        vstd::arithmetic::div_mod::lemma_fundamental_div_mod(multiple, step);
        let q = addr / step;
        let r = multiple / step;
        assert(multiple == step * r);
        assert(addr == step * q + addr % step);
        assert(up == step * (q + 1)) by (nonlinear_arith)
            requires
                up == addr + step - addr % step,
                addr == step * q + addr % step,
        ;
        assert(r > q) by (nonlinear_arith)
            requires
                step * r >= step * q + addr % step,
                addr % step > 0,
                step > 0,
        ;
        assert(step * r >= step * (q + 1)) by (nonlinear_arith)
            requires
                r >= q + 1,
                step > 0,
        ;
    }
}

/// The least multiple of a step at or above an address does not shrink
/// when the address grows.
pub proof fn lemma_align_up_monotone(low: int, high: int, step: int)
    requires
        step > 0,
        low <= high,
    ensures
        align_up(low, step) <= align_up(high, step),
{
    lemma_align_up_not_below(high, step);
    if high % step == 0 {
        lemma_align_up_least(low, step, high);
    } else {
        let up = high + step - high % step;
        vstd::arithmetic::div_mod::lemma_fundamental_div_mod(high, step);
        let q = high / step;
        assert(up == (q + 1) * step) by (nonlinear_arith)
            requires
                up == high + step - high % step,
                high == step * q + high % step,
        ;
        vstd::arithmetic::div_mod::lemma_mod_multiples_basic(q + 1, step);
        lemma_align_up_least(low, step, up);
    }
}

/// Whether one scan looks at a part of what another looks at: its buffer
/// is a part of the other's buffer, its region ends where its buffer ends
/// and not behind the other's region, every address of either buffer lies
/// on a page that was read, and all else is the same.
pub open spec fn is_part_of(part: ScanInput, whole: ScanInput) -> bool {
    let shift = part.buffer_addr - whole.buffer_addr;
    &&& 0 <= whole.buffer_addr
    &&& 0 <= shift
    &&& shift + part.buffer.len() <= whole.buffer.len()
    &&& part.buffer == whole.buffer.subrange(shift, shift + part.buffer.len())
    &&& part.region_start == whole.region_start
    &&& part.region_end == part.buffer_end()
    &&& part.region_end <= whole.region_end
    &&& part.min_element_size == whole.min_element_size
    &&& part.min_element_size > 0
    &&& part.values == whole.values
    &&& part.mode == whole.mode
    &&& part.range == whole.range
    &&& part.range >= 1
    &&& forall|addr: int|
        part.buffer_addr <= addr < part.buffer_end() ==> #[trigger] part.status.address_ok(addr)
    &&& forall|addr: int|
        whole.buffer_addr <= addr < whole.buffer_end() ==> #[trigger] whole.status.address_ok(addr)
}

/// Where the match of a probed window ends: with the window for the
/// aligned scan, and with the last value of the match for the anchor-first
/// scan.
pub open spec fn match_end(
    input: ScanInput,
    scanner: Scanner,
    window: Window,
    offsets: Seq<int>,
) -> int {
    match scanner {
        Scanner::Aligned => window.start + window.len,
        Scanner::AnchorFirst => if offsets.len() == 0 {
            window.start
        } else {
            window.start + offsets.last() + input.values[input.values.len() - 1].width()
        },
    }
}

/// Whether the scan is one that the law speaks of: a scan without an
/// anchor, or an ordered scan whose range holds all values.
pub open spec fn independent_of_chunks(input: ScanInput) -> bool {
    input.scanner() == Scanner::Aligned || (input.mode == SearchMode::Ordered
        && input.total_width() <= input.range)
}

/// What a part finds, the whole finds: a window that the scan of the part
/// probes is probed, with the same start, by the scan of the whole, and a
/// match in it is the match of the whole's window and ends inside the
/// part.
pub proof fn lemma_part_found_in_whole(part: ScanInput, whole: ScanInput, offset: int)
    requires
        is_part_of(part, whole),
        independent_of_chunks(part),
        part.probe(part.scanner(), offset).is_some(),
        group_offsets(
            part.window_bytes(part.probe(part.scanner(), offset).unwrap()),
            part.values,
            part.mode,
        ).is_some(),
    ensures
        ({
            let shift = part.buffer_addr - whole.buffer_addr;
            let scanner = part.scanner();
            let window = part.probe(scanner, offset).unwrap();
            let offsets = group_offsets(part.window_bytes(window), part.values, part.mode);
            &&& 0 <= offset + shift < whole.buffer.len()
            &&& whole.probe(scanner, offset + shift).is_some()
            &&& whole.probe(scanner, offset + shift).unwrap().start == window.start
            &&& group_offsets(
                whole.window_bytes(whole.probe(scanner, offset + shift).unwrap()),
                whole.values,
                whole.mode,
            ) == offsets
            &&& match_end(
                whole,
                scanner,
                whole.probe(scanner, offset + shift).unwrap(),
                offsets.unwrap(),
            ) <= part.region_end
        }),
{
    let shift = part.buffer_addr - whole.buffer_addr;
    let scanner = part.scanner();
    let window = part.probe(scanner, offset).unwrap();
    let bytes = part.window_bytes(window);
    let offsets = group_offsets(bytes, part.values, part.mode).unwrap();
    let step = part.min_element_size;
    lemma_align_up_monotone(whole.search_start(), part.search_start(), step);
    lemma_align_up_not_below(whole.search_start(), step);
    lemma_align_up_not_below(part.search_start(), step);
    match scanner {
        Scanner::Aligned => {
            let addr = part.addr_at(offset);
            assert(whole.addr_at(offset + shift) == addr);
            assert(whole.status.address_ok(addr));
            let found = whole.aligned_window(offset + shift);
            assert(found == Some(window));
            assert(whole.window_bytes(window) =~= bytes);
        },
        Scanner::AnchorFirst => {
            let k = anchor_index(part.values).unwrap();
            lemma_first_anchor(part.values, 0);
            let pattern = anchor_pattern(part.values[k]).unwrap();
            lemma_anchor_pattern_len(part.values[k]);
            let addr = part.addr_at(offset);
            assert(occurs_at(part.buffer, pattern, offset));
            assert(part.buffer.subrange(offset, offset + pattern.len()) =~= whole.buffer.subrange(
                offset + shift,
                offset + shift + pattern.len(),
            ));
            assert(occurs_at(whole.buffer, pattern, offset + shift));
            assert(whole.anchor_candidate(offset + shift));
            assert(whole.status.address_ok(window.start));
            let found = whole.anchor_window(offset + shift).unwrap();
            assert(found.start == window.start);
            assert(0 <= window.len <= found.len);
            let long = whole.window_bytes(found);
            assert(long.take(window.len) =~= bytes);
            lemma_ordered_extends(long, window.len, part.values, 0, 0);
            lemma_ordered_offsets(bytes, part.values, 0, 0);
            if offsets.len() > 0 {
                assert(offsets[offsets.len() - 1] + part.values[0 + (offsets.len() - 1)].width()
                    <= bytes.len());
            }
        },
    }
}

/// What the whole finds, the part finds that holds it: a window that the
/// scan of the whole probes, which starts in the part and whose match ends
/// in the part, is probed by the scan of the part and has the same match
/// there.
pub proof fn lemma_whole_found_in_part(part: ScanInput, whole: ScanInput, offset: int)
    requires
        is_part_of(part, whole),
        independent_of_chunks(part),
        part.min_element_size == prefix_min_width(part.values, part.values.len() as int),
        0 <= offset < whole.buffer.len(),
        whole.probe(whole.scanner(), offset).is_some(),
        group_offsets(
            whole.window_bytes(whole.probe(whole.scanner(), offset).unwrap()),
            whole.values,
            whole.mode,
        ).is_some(),
        part.buffer_addr <= whole.probe(whole.scanner(), offset).unwrap().start,
        match_end(
            whole,
            whole.scanner(),
            whole.probe(whole.scanner(), offset).unwrap(),
            group_offsets(
                whole.window_bytes(whole.probe(whole.scanner(), offset).unwrap()),
                whole.values,
                whole.mode,
            ).unwrap(),
        ) <= part.region_end,
    ensures
        ({
            let shift = part.buffer_addr - whole.buffer_addr;
            let scanner = whole.scanner();
            let window = whole.probe(scanner, offset).unwrap();
            let offsets = group_offsets(whole.window_bytes(window), whole.values, whole.mode);
            &&& 0 <= offset - shift < part.buffer.len()
            &&& part.probe(scanner, offset - shift).is_some()
            &&& part.probe(scanner, offset - shift).unwrap().start == window.start
            &&& group_offsets(
                part.window_bytes(part.probe(scanner, offset - shift).unwrap()),
                part.values,
                part.mode,
            ) == offsets
        }),
{
    let shift = part.buffer_addr - whole.buffer_addr;
    let scanner = whole.scanner();
    let window = whole.probe(scanner, offset).unwrap();
    let long = whole.window_bytes(window);
    let offsets = group_offsets(long, whole.values, whole.mode).unwrap();
    let step = part.min_element_size;
    let values = part.values;
    lemma_align_up_not_below(whole.search_start(), step);
    match scanner {
        Scanner::Aligned => {
            let addr = whole.addr_at(offset);
            assert(window == Window { start: addr, len: whole.range });
            assert(part.addr_at(offset - shift) == addr);
            lemma_align_up_least(part.search_start(), step, addr);
            assert(part.status.address_ok(addr));
            assert(part.aligned_window(offset - shift) == Some(window));
            assert(part.window_bytes(window) =~= long);
        },
        Scanner::AnchorFirst => {
            let k = anchor_index(values).unwrap();
            lemma_first_anchor(values, 0);
            let pattern = anchor_pattern(values[k]).unwrap();
            lemma_anchor_pattern_len(values[k]);
            let addr = whole.addr_at(offset);
            let before = prefix_width(values, k) as int;
            assert(occurs_at(whole.buffer, pattern, offset));
            // the match holds all values, so it ends behind the anchor
            lemma_ordered_offsets(long, values, 0, 0);
            lemma_last_offset_bound(long, values);
            crate::types::lemma_prefix_width_monotone(values, k + 1, values.len() as int);
            assert(prefix_width(values, k + 1) == prefix_width(values, k) + values[k].width());
            let end = match_end(whole, scanner, window, offsets);
            assert(window.start + before + pattern.len() <= end);
            assert(window.start <= addr);
            assert(addr - before <= window.start);
            assert(addr + pattern.len() <= part.region_end);
            assert(part.addr_at(offset - shift) == addr);
            assert(whole.buffer.subrange(offset, offset + pattern.len()) =~= part.buffer.subrange(
                offset - shift,
                offset - shift + pattern.len(),
            ));
            assert(occurs_at(part.buffer, pattern, offset - shift));
            // the anchor's address is a multiple of the scan's step
            lemma_min_width_divides(values, values.len() as int, k);
            crate::laws::lemma_multiple_of_multiple(addr, pattern.len() as int, step);
            lemma_align_up_least(part.search_start(), step, addr);
            assert(part.anchor_candidate(offset - shift));
            assert(part.status.address_ok(window.start));
            let found = part.anchor_window(offset - shift).unwrap();
            assert(found.start == window.start);
            assert(found.len <= window.len);
            assert(end - window.start <= found.len);
            let short = part.window_bytes(found);
            assert(long.take(found.len) =~= short);
            assert forall|i: int| 0 <= i < values.len() - 0 implies (#[trigger] ordered_offsets_from(
                long,
                values,
                0,
                0,
            ).unwrap()[i]) + values[0 + i].width() <= found.len by {
                lemma_offsets_below_last(long, values, i);
            }
            lemma_ordered_truncates(long, found.len, values, 0, 0);
        },
    }
}

/// The last value of an ordered match ends at least as far into the window
/// as all values are wide together.
pub proof fn lemma_last_offset_bound(window: Seq<u8>, values: Seq<SearchValue>)
    requires
        values.len() > 0,
        ordered_offsets(window, values).is_some(),
    ensures
        ordered_offsets(window, values).unwrap().len() == values.len(),
        prefix_width(values, values.len() as int) <= ordered_offsets(window, values).unwrap().last()
            + values[values.len() - 1].width(),
{
    lemma_ordered_offsets(window, values, 0, 0);
    lemma_offsets_at_least_prefix(window, values, values.len() - 1);
}

/// Value `i` of an ordered match lies at least as far into the window as
/// the values before it are wide together.
pub proof fn lemma_offsets_at_least_prefix(window: Seq<u8>, values: Seq<SearchValue>, i: int)
    requires
        0 <= i < values.len(),
        ordered_offsets(window, values).is_some(),
    ensures
        ordered_offsets(window, values).unwrap().len() == values.len(),
        prefix_width(values, i) <= ordered_offsets(window, values).unwrap()[i],
    decreases i,
{
    lemma_ordered_offsets(window, values, 0, 0);
    let offsets = ordered_offsets(window, values).unwrap();
    if i > 0 {
        lemma_offsets_at_least_prefix(window, values, i - 1);
        assert(offsets[i - 1] + values[0 + (i - 1)].width() <= offsets[i]);
    }
}

/// No value of an ordered match ends behind the last.
pub proof fn lemma_offsets_below_last(window: Seq<u8>, values: Seq<SearchValue>, i: int)
    requires
        0 <= i < values.len(),
        ordered_offsets(window, values).is_some(),
    ensures
        ordered_offsets(window, values).unwrap().len() == values.len(),
        ordered_offsets(window, values).unwrap()[i] + values[i].width() <= ordered_offsets(
            window,
            values,
        ).unwrap().last() + values[values.len() - 1].width(),
    decreases values.len() - i,
{
    lemma_ordered_offsets(window, values, 0, 0);
    let offsets = ordered_offsets(window, values).unwrap();
    if i < values.len() - 1 {
        lemma_offsets_below_last(window, values, i + 1);
        assert(offsets[i] + values[0 + i].width() <= offsets[i + 1]);
    }
}

/// The smallest width among values divides the width of each of them, for
/// widths are 1, 2, 4 or 8.
pub proof fn lemma_min_width_divides(values: Seq<SearchValue>, n: int, k: int)
    requires
        0 <= k < n <= values.len(),
    ensures
        prefix_min_width(values, n) > 0,
        (values[k].width() as int) % (prefix_min_width(values, n) as int) == 0,
{
    crate::types::lemma_prefix_min_width(values, n);
    let least = prefix_min_width(values, n) as int;
    let width = values[k].width() as int;
    let i = choose|i: int| 0 <= i < n && #[trigger] values[i].width() == prefix_min_width(values, n);
    assert(values[i].width() == 1 || values[i].width() == 2 || values[i].width() == 4
        || values[i].width() == 8);
    assert(width == 1 || width == 2 || width == 4 || width == 8);
    assert(least <= width);
    assert(width % least == 0) by {
        assert(1int % 1 == 0 && 2int % 1 == 0 && 4int % 1 == 0 && 8int % 1 == 0);
        assert(2int % 2 == 0 && 4int % 2 == 0 && 8int % 2 == 0);
        assert(4int % 4 == 0 && 8int % 4 == 0 && 8int % 8 == 0);
    }
}

/// The `len` bytes of a memory from `addr` on.
pub open spec fn memory_bytes(memory: spec_fn(int) -> u8, addr: int, len: int) -> Seq<u8> {
    Seq::new(
        if len > 0 {
            len as nat
        } else {
            0
        },
        |i: int| memory(addr + i),
    )
}

/// The page status of a chunk of which every page was read.
pub open spec fn all_read(addr: int, len: int, page_size: int) -> PageStatus {
    PageStatus {
        base_addr: addr,
        length: len,
        page_size,
        pages: Seq::new(
            if page_count(addr, len, page_size) > 0 {
                page_count(addr, len, page_size) as nat
            } else {
                0
            },
            |i: int| true,
        ),
    }
}

/// What a reader gets for a chunk of a memory that it can read whole.
pub open spec fn read_all(memory: spec_fn(int) -> u8, addr: int, len: int, page_size: int)
    -> ChunkOutcome {
    Some((memory_bytes(memory, addr, len), all_read(addr, len, page_size)))
}

/// The state of a region scan after all chunks of the region were read
/// from a memory that the reader can read whole.
pub open spec fn scan_all(view: RegionScanView, memory: spec_fn(int) -> u8) -> RegionScanView
    decreases view.end - view.current,
{
    if view.done() || view.chunk_size <= 0 {
        view
    } else {
        scan_all(
            view.after_chunk(
                read_all(memory, view.current, view.chunk_len(), view.page_size),
            ),
            memory,
        )
    }
}

/// The scan of the whole region in one piece.
pub open spec fn whole_input(view: RegionScanView, memory: spec_fn(int) -> u8) -> ScanInput {
    let base = page_floor(view.start, view.page_size);
    ScanInput {
        buffer: memory_bytes(memory, base, view.end - base),
        buffer_addr: base,
        region_start: view.start,
        region_end: view.end,
        min_element_size: view.min_element_size(),
        values: view.values,
        mode: view.mode,
        range: view.range,
        status: all_read(base, view.end - base, view.page_size),
    }
}

/// The scan of the next chunk of a memory that the reader can read whole.
pub open spec fn pass_input(view: RegionScanView, memory: spec_fn(int) -> u8) -> ScanInput {
    view.chunk_input(
        memory_bytes(memory, view.current, view.chunk_len()),
        all_read(view.current, view.chunk_len(), view.page_size),
    )
}

/// Whether the scan hands out `addr` for value `i` of the match of the
/// window that it probes at `offset`.
pub open spec fn probe_finds(input: ScanInput, scanner: Scanner, addr: u64, offset: int, i: int) -> bool {
    let window = input.probe(scanner, offset).unwrap();
    let offsets = group_offsets(input.window_bytes(window), input.values, input.mode).unwrap();
    &&& 0 <= offset < input.buffer.len()
    &&& input.probe(scanner, offset).is_some()
    &&& group_offsets(input.window_bytes(window), input.values, input.mode).is_some()
    &&& 0 <= i < offsets.len()
    &&& addr == window.start + offsets[i]
}

/// Whether the scan of the whole region hands out `addr` for value `i` of
/// the match of the window that it probes at `offset`, and the match ends
/// at or before `limit`.
pub open spec fn found_at(whole: ScanInput, limit: int, addr: u64, offset: int, i: int) -> bool {
    let scanner = whole.scanner();
    let window = whole.probe(scanner, offset).unwrap();
    let offsets = group_offsets(whole.window_bytes(window), whole.values, whole.mode).unwrap();
    &&& probe_finds(whole, scanner, addr, offset, i)
    &&& match_end(whole, scanner, window, offsets) <= limit
}

/// Whether the scan of the whole region hands out `addr` in a match that
/// ends at or before `limit`.
pub open spec fn found_before(whole: ScanInput, limit: int, addr: u64) -> bool {
    exists|offset: int, i: int| found_at(whole, limit, addr, offset, i)
}

/// Whether a region scan is one that the law speaks of: it stands at its
/// first chunk, its chunks hold the range of the query, the region lies in
/// the address space, every window holds one match at most, and the query
/// has no anchor or is ordered with a range that holds all its values.
pub open spec fn at_start(view: RegionScanView) -> bool {
    &&& view.page_size > 0
    &&& 1 <= view.range <= view.chunk_size
    &&& 0 <= view.start <= u64::MAX
    &&& view.end <= u64::MAX
    &&& view.depth == Depth::FirstMatch
    &&& view.current == page_floor(view.start, view.page_size)
    &&& view.is_first_chunk
    &&& !view.prev_chunk_valid
    &&& view.results == Map::<u64, ValueType>::empty()
    &&& (anchor_index(view.values).is_none() || (view.mode == SearchMode::Ordered && prefix_width(
        view.values,
        view.values.len() as int,
    ) <= view.range))
}

/// What holds of a region scan between two chunks of a memory that the
/// reader can read whole.
pub open spec fn on_the_way(
    view: RegionScanView,
    origin: RegionScanView,
    memory: spec_fn(int) -> u8,
) -> bool {
    let base = page_floor(origin.start, origin.page_size);
    &&& at_start(origin)
    &&& view.start == origin.start
    &&& view.end == origin.end
    &&& view.chunk_size == origin.chunk_size
    &&& view.page_size == origin.page_size
    &&& view.depth == origin.depth
    &&& view.values == origin.values
    &&& view.mode == origin.mode
    &&& view.range == origin.range
    &&& base <= view.current
    &&& (view.current == base ==> view.is_first_chunk && !view.prev_chunk_valid)
    &&& (view.current > base ==> !view.is_first_chunk && view.prev_chunk_valid)
    &&& (view.current > base && view.current < view.end ==> base <= view.current - view.chunk_size
        && view.carried == memory_bytes(
        memory,
        view.current - view.chunk_size,
        view.chunk_size,
    ))
    &&& forall|addr: u64|
        view.results.contains_key(addr) <==> #[trigger] found_before(
            whole_input(origin, memory),
            view.current,
            addr,
        )
}

/// The quotient of a number less a multiple of the divisor.
pub proof fn lemma_div_less_multiple(x: int, size: int, q: int)
    requires
        size > 0,
    ensures
        (x - size * q) / size == x / size - q,
{
    vstd::arithmetic::div_mod::lemma_fundamental_div_mod(x, size);
    assert(x - size * q == (x / size - q) * size + x % size) by (nonlinear_arith)
        requires
            x == size * (x / size) + x % size,
    ;
    assert(0 <= x % size < size) by (nonlinear_arith)
        requires
            size > 0,
    ;
    vstd::arithmetic::div_mod::lemma_fundamental_div_mod_converse(
        x - size * q,
        size,
        x / size - q,
        x % size,
    );
}

/// The index of the page of an address, by the quotients of the address
/// and of the base.
pub proof fn lemma_page_index_by_quotients(addr: int, base: int, size: int)
    requires
        size > 0,
    ensures
        page_index(addr, base, size) == addr / size - base / size,
        page_floor(base, size) == size * (base / size),
{
    vstd::arithmetic::div_mod::lemma_fundamental_div_mod(base, size);
    lemma_div_less_multiple(addr, size, base / size);
}

/// Every address of a chunk that was read whole lies on a page that was
/// read.
pub proof fn lemma_all_read_ok(base: int, len: int, size: int, addr: int)
    requires
        size > 0,
        0 <= base,
        base <= addr < base + len,
    ensures
        all_read(base, len, size).address_ok(addr),
{
    lemma_page_index_in_count(base, len, size, addr);
}

/// Every address of a chunk that was read whole, and of the bytes before
/// it that are scanned with it, lies on a page that counts as read.
pub proof fn lemma_overlap_all_read_ok(current: int, len: int, size: int, range: int, addr: int)
    requires
        size > 0,
        0 <= range,
        0 <= current - range,
        0 < len,
        current - range <= addr < current + len,
    ensures
        overlap_status(all_read(current, len, size), range).address_ok(addr),
{
    let base = current - range;
    let status = all_read(current, len, size);
    let combined = overlap_status(status, range);
    lemma_page_index_in_count(base, range + len, size, addr);
    lemma_page_index_by_quotients(addr, base, size);
    lemma_page_index_by_quotients(current, base, size);
    lemma_page_index_by_quotients(addr, current, size);
    let index = addr / size - base / size;
    assert(combined.index_of(addr) == index);
    let lead = pages_below(current, size) - base / size;
    let shift = (page_floor(current, size) - page_floor(base, size)) / size;
    assert(page_floor(current, size) - page_floor(base, size) == size * (current / size)
        - size * (base / size));
    lemma_div_less_multiple(size * (current / size), size, base / size);
    assert((size * (current / size)) / size == current / size) by {
        vstd::arithmetic::div_mod::lemma_div_multiples_vanish(current / size, size);
        assert(size * (current / size) == (current / size) * size) by (nonlinear_arith);
    }
    assert(shift == current / size - base / size);
    if addr < current {
        vstd::arithmetic::div_mod::lemma_div_is_ordered(addr, current, size);
        if current % size == 0 {
            vstd::arithmetic::div_mod::lemma_fundamental_div_mod(current, size);
            vstd::arithmetic::div_mod::lemma_fundamental_div_mod(addr, size);
            assert(addr / size < current / size) by (nonlinear_arith)
                requires
                    addr < current,
                    current == size * (current / size),
                    addr == size * (addr / size) + addr % size,
                    0 <= addr % size,
                    size > 0,
            ;
        }
        assert(index < lead);
    } else {
        vstd::arithmetic::div_mod::lemma_div_is_ordered(current, addr, size);
        lemma_page_index_in_count(current, len, size, addr);
        assert(shift <= index);
        assert(index - shift == page_index(addr, current, size));
        assert(status.pages[index - shift]);
    }
    assert(combined.pages[index]);
}

/// The scan of the next chunk looks at a part of what the scan of the
/// whole region looks at.
pub proof fn lemma_pass_is_part(
    view: RegionScanView,
    origin: RegionScanView,
    memory: spec_fn(int) -> u8,
)
    requires
        on_the_way(view, origin, memory),
        !view.done(),
    ensures
        is_part_of(pass_input(view, memory), whole_input(origin, memory)),
        independent_of_chunks(pass_input(view, memory)),
        pass_input(view, memory).min_element_size == prefix_min_width(
            view.values,
            view.values.len() as int,
        ),
        pass_input(view, memory).scanner() == whole_input(origin, memory).scanner(),
        pass_input(view, memory).region_end == view.chunk_end(),
        view.overlaps() ==> pass_input(view, memory).buffer_addr == view.current - view.range,
        !view.overlaps() ==> pass_input(view, memory).buffer_addr == page_floor(
            origin.start,
            origin.page_size,
        ),
{
    let part = pass_input(view, memory);
    let whole = whole_input(origin, memory);
    let base = page_floor(origin.start, origin.page_size);
    let size = view.page_size;
    let len = view.chunk_len();
    let data = memory_bytes(memory, view.current, len);
    assert(0 <= origin.start % size <= origin.start) by (nonlinear_arith)
        requires
            size > 0,
            0 <= origin.start,
    ;
    if view.values.len() > 0 {
        lemma_min_width_divides(view.values, view.values.len() as int, 0);
    }
    assert(0 < len <= view.chunk_size);
    let shift = part.buffer_addr - whole.buffer_addr;
    if view.overlaps() {
        assert(view.current > base);
        let carried = memory_bytes(memory, view.current - view.chunk_size, view.chunk_size);
        assert(part.buffer =~= memory_bytes(memory, view.current - view.range, view.range + len));
        assert(part.buffer =~= whole.buffer.subrange(shift, shift + part.buffer.len()));
        assert forall|addr: int| part.buffer_addr <= addr < part.buffer_end() implies #[trigger] part.status.address_ok(
            addr,
        ) by {
            lemma_overlap_all_read_ok(view.current, len, size, view.range, addr);
        }
    } else {
        assert(view.current == base);
        assert(part.buffer =~= whole.buffer.subrange(shift, shift + part.buffer.len()));
        assert forall|addr: int| part.buffer_addr <= addr < part.buffer_end() implies #[trigger] part.status.address_ok(
            addr,
        ) by {
            lemma_all_read_ok(view.current, len, size, addr);
        }
    }
    assert forall|addr: int| whole.buffer_addr <= addr < whole.buffer_end() implies #[trigger] whole.status.address_ok(
        addr,
    ) by {
        lemma_all_read_ok(base, view.end - base, size, addr);
    }
}

/// An address among the pairs of a scan is handed out for a value of the
/// match of a window that the scan probes.
pub proof fn lemma_pairs_come_from_probes(input: ScanInput, scanner: Scanner, addr: u64)
    requires
        in_address_space(input),
        has_addr(input.pairs(scanner, Depth::FirstMatch), addr),
    ensures
        exists|offset: int, i: int| #[trigger] probe_finds(input, scanner, addr, offset, i),
{
    let pairs = input.pairs(scanner, Depth::FirstMatch);
    let j = choose|j: int| 0 <= j < pairs.len() && (#[trigger] pairs[j]).addr == addr;
    let pair = pairs[j];
    assert(pairs.contains(pair));
    lemma_pair_origin(input, scanner, Depth::FirstMatch, pair);
    let (offset, offsets, i) = choose|offset: int, offsets: Seq<int>, i: int|
        {
            &&& 0 <= offset < input.buffer.len()
            &&& input.probe(scanner, offset).is_some()
            &&& #[trigger] is_match_of(
                input,
                input.probe(scanner, offset).unwrap(),
                Depth::FirstMatch,
                offsets,
            )
            &&& 0 <= i < offsets.len()
            &&& pair == #[trigger] input.pairs_of(input.probe(scanner, offset).unwrap(), offsets)[i]
        };
    let window = input.probe(scanner, offset).unwrap();
    lemma_probe_in_bounds(input, scanner, offset);
    lemma_match_shape(input, window, Depth::FirstMatch, offsets);
    assert(0 <= offsets[i] && offsets[i] + input.values[i].width() <= window.len);
    assert(probe_finds(input, scanner, addr, offset, i));
}

/// An address that is handed out for a value of the match of a window that
/// a scan probes is among the pairs of the scan.
pub proof fn lemma_probes_give_pairs(
    input: ScanInput,
    scanner: Scanner,
    addr: u64,
    offset: int,
    i: int,
)
    requires
        in_address_space(input),
        probe_finds(input, scanner, addr, offset, i),
    ensures
        has_addr(input.pairs(scanner, Depth::FirstMatch), addr),
{
    let window = input.probe(scanner, offset).unwrap();
    let offsets = group_offsets(input.window_bytes(window), input.values, input.mode).unwrap();
    let pairs = input.pairs(scanner, Depth::FirstMatch);
    let here = input.pairs_at(scanner, Depth::FirstMatch, offset);
    assert(here == input.pairs_of(window, offsets));
    let pair = here[i];
    assert(pair.addr == addr);
    assert(here.contains(pair));
    lemma_pairs_below_member(input, scanner, Depth::FirstMatch, input.buffer.len() as int, pair);
    let j = choose|j: int| 0 <= j < pairs.len() && pairs[j] == pair;
    assert(pairs[j].addr == addr);
}

/// The match of a window that a scan of the law probes ends behind the
/// start of the window, no more than the range behind it, and not behind
/// the buffer and the region.
pub proof fn lemma_match_end_bounds(input: ScanInput, addr: u64, offset: int, i: int)
    requires
        in_address_space(input),
        independent_of_chunks(input),
        input.range >= 1,
        probe_finds(input, input.scanner(), addr, offset, i),
    ensures
        ({
            let window = input.probe(input.scanner(), offset).unwrap();
            let offsets = group_offsets(
                input.window_bytes(window),
                input.values,
                input.mode,
            ).unwrap();
            let end = match_end(input, input.scanner(), window, offsets);
            &&& window.start < end <= window.start + input.range
            &&& end <= input.search_end()
            &&& input.buffer_addr <= window.start
        }),
{
    let scanner = input.scanner();
    let window = input.probe(scanner, offset).unwrap();
    let offsets = group_offsets(input.window_bytes(window), input.values, input.mode).unwrap();
    lemma_probe_in_bounds(input, scanner, offset);
    assert(is_match_of(input, window, Depth::FirstMatch, offsets));
    lemma_match_shape(input, window, Depth::FirstMatch, offsets);
    let last = offsets.len() - 1;
    assert(0 <= offsets[last] && offsets[last] + input.values[last].width() <= window.len);
}

/// What the scan of a part hands out, the scan of the whole hands out in a
/// match that ends in the part.
pub proof fn lemma_part_adds_found(part: ScanInput, whole: ScanInput, addr: u64)
    requires
        is_part_of(part, whole),
        independent_of_chunks(part),
        in_address_space(part),
        part.scanner() == whole.scanner(),
        has_addr(part.pairs(part.scanner(), Depth::FirstMatch), addr),
    ensures
        found_before(whole, part.region_end, addr),
{
    let scanner = part.scanner();
    let shift = part.buffer_addr - whole.buffer_addr;
    lemma_pairs_come_from_probes(part, scanner, addr);
    let (offset, i) = choose|offset: int, i: int| #[trigger]
        probe_finds(part, scanner, addr, offset, i);
    lemma_part_found_in_whole(part, whole, offset);
    assert(found_at(whole, part.region_end, addr, offset + shift, i));
}

/// What the scan of the whole hands out in a match that starts and ends in
/// a part, the scan of the part hands out.
pub proof fn lemma_found_is_in_part(
    part: ScanInput,
    whole: ScanInput,
    addr: u64,
    offset: int,
    i: int,
)
    requires
        is_part_of(part, whole),
        independent_of_chunks(part),
        in_address_space(part),
        part.scanner() == whole.scanner(),
        part.min_element_size == prefix_min_width(part.values, part.values.len() as int),
        found_at(whole, part.region_end, addr, offset, i),
        part.buffer_addr <= whole.probe(whole.scanner(), offset).unwrap().start,
    ensures
        has_addr(part.pairs(part.scanner(), Depth::FirstMatch), addr),
{
    let scanner = part.scanner();
    let shift = part.buffer_addr - whole.buffer_addr;
    lemma_whole_found_in_part(part, whole, offset);
    assert(probe_finds(part, scanner, addr, offset - shift, i));
    lemma_probes_give_pairs(part, scanner, addr, offset - shift, i);
}

/// The state after the next chunk of a memory that the reader can read
/// whole: the chunk is scanned, and its bytes are kept where another
/// follows.
pub proof fn lemma_next_state(
    view: RegionScanView,
    origin: RegionScanView,
    memory: spec_fn(int) -> u8,
)
    requires
        on_the_way(view, origin, memory),
        !view.done(),
    ensures
        ({
            let next = view.after_chunk(
                read_all(memory, view.current, view.chunk_len(), view.page_size),
            );
            let part = pass_input(view, memory);
            &&& next.results == insert_all(
                view.results,
                part.pairs(part.scanner(), Depth::FirstMatch),
            )
            &&& next.current == view.chunk_end()
            &&& next.current > view.current
            &&& !next.is_first_chunk
            &&& next.prev_chunk_valid
            &&& next.start == view.start
            &&& next.end == view.end
            &&& next.chunk_size == view.chunk_size
            &&& next.page_size == view.page_size
            &&& next.depth == view.depth
            &&& next.values == view.values
            &&& next.mode == view.mode
            &&& next.range == view.range
            &&& (next.current < next.end ==> next.current == view.current + view.chunk_size
                && next.carried == memory_bytes(memory, view.current, view.chunk_size))
        }),
{
    let len = view.chunk_len();
    let outcome = read_all(memory, view.current, len, view.page_size);
    let status = all_read(view.current, len, view.page_size);
    assert(0 <= origin.start % view.page_size <= origin.start) by (nonlinear_arith)
        requires
            view.page_size > 0,
            0 <= origin.start,
    ;
    lemma_page_index_in_count(view.current, len, view.page_size, view.current);
    assert(status.pages[0]);
    assert(RegionScanView::scans(outcome));
}

/// One address, one chunk further: after the next chunk the scan holds an
/// address exactly when the scan of the whole region hands it out in a
/// match that ends with that chunk or before.
pub proof fn lemma_one_address_further(
    view: RegionScanView,
    origin: RegionScanView,
    memory: spec_fn(int) -> u8,
    addr: u64,
)
    requires
        on_the_way(view, origin, memory),
        !view.done(),
    ensures
        view.after_chunk(
            read_all(memory, view.current, view.chunk_len(), view.page_size),
        ).results.contains_key(addr) <==> found_before(
            whole_input(origin, memory),
            view.chunk_end(),
            addr,
        ),
{
    let part = pass_input(view, memory);
    let whole = whole_input(origin, memory);
    let scanner = whole.scanner();
    let pairs = part.pairs(scanner, Depth::FirstMatch);
    let limit = view.chunk_end();
    lemma_next_state(view, origin, memory);
    lemma_pass_is_part(view, origin, memory);
    assert(0 <= origin.start % view.page_size <= origin.start) by (nonlinear_arith)
        requires
            view.page_size > 0,
            0 <= origin.start,
    ;
    assert(in_address_space(part));
    assert(in_address_space(whole));
    lemma_insert_all_dom(view.results, pairs, addr);
    assert(view.results.contains_key(addr) <==> found_before(whole, view.current, addr));
    if found_before(whole, view.current, addr) {
        let (offset, i) = choose|offset: int, i: int| found_at(whole, view.current, addr, offset, i);
        assert(found_at(whole, limit, addr, offset, i));
    }
    if has_addr(pairs, addr) {
        lemma_part_adds_found(part, whole, addr);
    }
    if found_before(whole, limit, addr) {
        let (offset, i) = choose|offset: int, i: int| found_at(whole, limit, addr, offset, i);
        let window = whole.probe(scanner, offset).unwrap();
        let offsets = group_offsets(whole.window_bytes(window), whole.values, whole.mode).unwrap();
        if match_end(whole, scanner, window, offsets) <= view.current {
            assert(found_at(whole, view.current, addr, offset, i));
        } else {
            lemma_match_end_bounds(whole, addr, offset, i);
            lemma_found_is_in_part(part, whole, addr, offset, i);
        }
    }
}

/// One chunk further: what holds between two chunks holds again after the
/// next chunk was read and scanned.
pub proof fn lemma_one_chunk_further(
    view: RegionScanView,
    origin: RegionScanView,
    memory: spec_fn(int) -> u8,
)
    requires
        on_the_way(view, origin, memory),
        !view.done(),
    ensures
        on_the_way(
            view.after_chunk(read_all(memory, view.current, view.chunk_len(), view.page_size)),
            origin,
            memory,
        ),
        view.after_chunk(
            read_all(memory, view.current, view.chunk_len(), view.page_size),
        ).current > view.current,
{
    let next = view.after_chunk(read_all(memory, view.current, view.chunk_len(), view.page_size));
    let whole = whole_input(origin, memory);
    lemma_next_state(view, origin, memory);
    assert forall|addr: u64| next.results.contains_key(addr) <==> #[trigger] found_before(
        whole,
        next.current,
        addr,
    ) by {
        lemma_one_address_further(view, origin, memory, addr);
    }
}

/// To the end of the region: what holds between two chunks holds when all
/// chunks were read and scanned.
pub proof fn lemma_to_the_end(
    view: RegionScanView,
    origin: RegionScanView,
    memory: spec_fn(int) -> u8,
)
    requires
        on_the_way(view, origin, memory),
    ensures
        on_the_way(scan_all(view, memory), origin, memory),
        scan_all(view, memory).done(),
    decreases view.end - view.current,
{
    if !view.done() {
        lemma_one_chunk_further(view, origin, memory);
        lemma_to_the_end(
            view.after_chunk(read_all(memory, view.current, view.chunk_len(), view.page_size)),
            origin,
            memory,
        );
    }
}

/// A region scan that reads a memory whole finds the addresses that the
/// scan of the whole region in one piece finds.
pub proof fn lemma_scan_finds_what_the_whole_holds(
    origin: RegionScanView,
    memory: spec_fn(int) -> u8,
    addr: u64,
)
    requires
        at_start(origin),
    ensures
        scan_all(origin, memory).results.contains_key(addr) <==> insert_all(
            Map::<u64, ValueType>::empty(),
            whole_input(origin, memory).pairs(
                whole_input(origin, memory).scanner(),
                Depth::FirstMatch,
            ),
        ).contains_key(addr),
{
    let whole = whole_input(origin, memory);
    let scanner = whole.scanner();
    let base = page_floor(origin.start, origin.page_size);
    assert(0 <= origin.start % origin.page_size <= origin.start) by (nonlinear_arith)
        requires
            origin.page_size > 0,
            0 <= origin.start,
    ;
    if origin.values.len() > 0 {
        lemma_min_width_divides(origin.values, origin.values.len() as int, 0);
    }
    assert(in_address_space(whole));
    assert(independent_of_chunks(whole));
    assert forall|x: u64| origin.results.contains_key(x) <==> #[trigger] found_before(
        whole,
        origin.current,
        x,
    ) by {
        if found_before(whole, origin.current, x) {
            let (offset, i) = choose|offset: int, i: int|
                found_at(whole, origin.current, x, offset, i);
            lemma_match_end_bounds(whole, x, offset, i);
            assert(false);
        }
    }
    assert(on_the_way(origin, origin, memory));
    lemma_to_the_end(origin, origin, memory);
    let last = scan_all(origin, memory);
    let pairs = whole.pairs(scanner, Depth::FirstMatch);
    lemma_insert_all_dom(Map::<u64, ValueType>::empty(), pairs, addr);
    assert(last.results.contains_key(addr) <==> found_before(whole, last.current, addr));
    if found_before(whole, last.current, addr) {
        let (offset, i) = choose|offset: int, i: int| found_at(whole, last.current, addr, offset, i);
        lemma_probes_give_pairs(whole, scanner, addr, offset, i);
    }
    if has_addr(pairs, addr) {
        lemma_pairs_come_from_probes(whole, scanner, addr);
        let (offset, i) = choose|offset: int, i: int| #[trigger]
            probe_finds(whole, scanner, addr, offset, i);
        lemma_match_end_bounds(whole, addr, offset, i);
        assert(found_at(whole, last.current, addr, offset, i));
    }
}

/// Chunk-boundary independence: two scans of the same region of the same
/// memory for the same query find the same addresses, whatever the sizes
/// of their chunks, where the reader can read the memory whole, each
/// chunk holds the range of the query, and the query has no fixed value
/// or is ordered with a range that holds all its values.
pub proof fn lemma_chunk_size_independence(
    first: RegionScanView,
    second: RegionScanView,
    memory: spec_fn(int) -> u8,
    addr: u64,
)
    requires
        at_start(first),
        at_start(second),
        first.start == second.start,
        first.end == second.end,
        first.page_size == second.page_size,
        first.values == second.values,
        first.mode == second.mode,
        first.range == second.range,
    ensures
        scan_all(first, memory).results.contains_key(addr) <==> scan_all(
            second,
            memory,
        ).results.contains_key(addr),
{
    lemma_scan_finds_what_the_whole_holds(first, memory, addr);
    lemma_scan_finds_what_the_whole_holds(second, memory, addr);
    assert(whole_input(first, memory) == whole_input(second, memory));
}

} // verus!
