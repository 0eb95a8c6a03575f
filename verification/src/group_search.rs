//! The scanners of a group search: the anchor-first scanner, which looks
//! for the bytes of a fixed value and probes a window at each occurrence,
//! and the aligned scanner, which probes a window at every aligned address.
use crate::deep::{
    as_assignments, deep_match_group, lemma_deep_assignments_shape, DEFAULT_COMBINATION_LIMIT,
};
use crate::matcher::{
    as_ints, group_offsets, lemma_ordered_offsets, lemma_unordered_offsets,
    try_match_group_at_address,
};
use crate::page::PageStatusBitmap;
use crate::results::{insert_all, lemma_insert_all_concat, ValuePair, ValuePairSet};
use crate::scan::{
    align_up, anchor_index, anchor_pattern, first_anchor_from, lemma_nothing_between,
    lemma_no_multiple_between, lemma_probes_bounded, occurs_at, Depth, ScanInput, Scanner,
    Window,
};
use crate::types::{prefix_width, SearchMode, SearchQuery, SearchValue};
use vstd::prelude::*;
use vstd::slice::slice_subrange;

verus! {

/// `memchr::memmem::Finder`, the searcher for one byte string. Nothing of
/// its inside is known here.
#[verifier::external_type_specification]
#[verifier::external_body]
pub struct ExFinder<'n>(memchr::memmem::Finder<'n>);

/// The byte string that a finder looks for.
pub uninterp spec fn finder_needle(finder: memchr::memmem::Finder<'_>) -> Seq<u8>;

/// `memchr::memmem::Finder::new`: a finder for the given needle.
#[verifier::external_body]
fn finder_new<'n>(needle: &'n [u8]) -> (finder: memchr::memmem::Finder<'n>)
    ensures
        finder_needle(finder) == needle@,
{
    memchr::memmem::Finder::new(needle)
}

/// `memchr::memmem::Finder::find`: the index of the first occurrence of
/// the finder's needle in the haystack, or `None` where it occurs nowhere.
#[verifier::external_body]
fn finder_find(finder: &memchr::memmem::Finder<'_>, haystack: &[u8]) -> (found: Option<usize>)
    ensures
        match found {
            Some(at) => occurs_at(haystack@, finder_needle(*finder), at as int) && forall|i: int|
                0 <= i < at ==> !occurs_at(haystack@, finder_needle(*finder), i),
            None => forall|i: int| !occurs_at(haystack@, finder_needle(*finder), i),
        },
{
    finder.find(haystack)
}

/// What a scan of these values depends on.
pub open spec fn scan_input(
    buffer: Seq<u8>,
    buffer_addr: u64,
    region_start: u64,
    region_end: u64,
    min_element_size: usize,
    query: SearchQuery,
    page_status: PageStatusBitmap,
) -> ScanInput {
    ScanInput {
        buffer,
        buffer_addr: buffer_addr as int,
        region_start: region_start as int,
        region_end: region_end as int,
        min_element_size: min_element_size as int,
        values: query.values@,
        mode: query.mode,
        range: query.range as int,
        status: page_status@,
    }
}

/// The first `size` bytes of an array of eight.
fn leading_bytes(bytes: &[u8; 8], size: usize) -> (head: Vec<u8>)
    requires
        size <= 8,
    ensures
        head@ == bytes@.take(size as int),
{
    let mut head: Vec<u8> = Vec::new();
    let mut i: usize = 0;
    while i < size
        invariant
            0 <= i <= size <= 8,
            head@ == bytes@.take(i as int),
        decreases size - i,
    {
        head.push(bytes[i]);
        proof {
            assert(head@ =~= bytes@.take(i as int + 1));
        }
        i += 1;
    }
    head
}

/// The query's anchor: the index and the byte pattern of its first fixed
/// value.
fn select_anchor(query: &SearchQuery) -> (anchor: Option<(usize, Vec<u8>)>)
    ensures
        match anchor {
            None => anchor_index(query.values@).is_none(),
            Some((index, pattern)) => {
                &&& anchor_index(query.values@) == Some(index as int)
                &&& index < query.values@.len()
                &&& anchor_pattern(query.values@[index as int]) == Some(pattern@)
                &&& 1 <= pattern@.len() <= 8
            },
        },
{
    let mut index: usize = 0;
    while index < query.values.len()
        invariant
            0 <= index <= query.values@.len(),
            anchor_index(query.values@) == first_anchor_from(query.values@, index as int),
        decreases query.values@.len() - index,
    {
        match &query.values[index] {
            SearchValue::FixedInt { value, value_type } => {
                let pattern = leading_bytes(value, value_type.size());
                return Some((index, pattern));
            },
            SearchValue::FixedFloat { pattern, value_type, .. } => {
                if value_type.is_float() {
                    let pattern = leading_bytes(pattern, value_type.size());
                    return Some((index, pattern));
                }
            },
            _ => {},
        }
        index += 1;
    }
    None
}

/// The summed widths of the first `count` values.
fn width_before(query: &SearchQuery, count: usize) -> (total: usize)
    requires
        count <= query.values@.len(),
        query.values@.len() <= usize::MAX / 8,
    ensures
        total == prefix_width(query.values@, count as int),
        total <= 8 * count,
{
    let mut total: usize = 0;
    let mut i: usize = 0;
    while i < count
        invariant
            0 <= i <= count <= query.values@.len(),
            query.values@.len() <= usize::MAX / 8,
            total == prefix_width(query.values@, i as int),
            total <= 8 * i,
        decreases count - i,
    {
        total = total + query.values[i].value_type().size();
        i += 1;
    }
    total
}

/// Puts the pairs of one assignment into the set.
fn emit_assignment(
    start: u64,
    len: usize,
    offsets: &Vec<usize>,
    query: &SearchQuery,
    results: &mut ValuePairSet,
    Ghost(input): Ghost<ScanInput>,
)
    requires
        input.values == query.values@,
        offsets@.len() == query.values@.len(),
        forall|j: int| 0 <= j < offsets@.len() ==> #[trigger] offsets@[j] <= len,
        start + len <= u64::MAX,
    ensures
        final(results)@ == insert_all(
            old(results)@,
            input.pairs_of(Window { start: start as int, len: len as int }, as_ints(offsets@)),
        ),
{
    let ghost window = Window { start: start as int, len: len as int };
    let ghost pairs = input.pairs_of(window, as_ints(offsets@));
    let mut i: usize = 0;
    while i < offsets.len()
        invariant
            0 <= i <= offsets@.len(),
            offsets@.len() == query.values@.len(),
            input.values == query.values@,
            pairs == input.pairs_of(window, as_ints(offsets@)),
            window == (Window { start: start as int, len: len as int }),
            start + len <= u64::MAX,
            forall|j: int| 0 <= j < offsets@.len() ==> #[trigger] offsets@[j] <= len,
            results@ == insert_all(old(results)@, pairs.take(i as int)),
        decreases offsets@.len() - i,
    {
        assert(as_ints(offsets@)[i as int] == offsets@[i as int]);
        let addr = start + offsets[i] as u64;
        let value_type = query.values[i].value_type();
        let _ = results.insert(ValuePair::new(addr, value_type));
        proof {
            assert(pairs[i as int] == ValuePair { addr, value_type });
            assert(pairs.take(i as int + 1).drop_last() =~= pairs.take(i as int));
            assert(pairs.take(i as int + 1).last() == pairs[i as int]);
        }
        i += 1;
    }
    proof {
        assert(pairs.take(offsets@.len() as int) =~= pairs);
    }
}

/// Looks for matches in the window and puts their pairs into the set.
fn probe_window(
    buffer: &[u8],
    offset: usize,
    start: u64,
    len: usize,
    query: &SearchQuery,
    depth: Depth,
    results: &mut ValuePairSet,
    Ghost(input): Ghost<ScanInput>,
)
    requires
        input.buffer == buffer@,
        input.values == query.values@,
        input.mode == query.mode,
        start == input.buffer_addr + offset,
        offset + len <= buffer@.len(),
        start + len <= u64::MAX,
    ensures
        final(results)@ == insert_all(
            old(results)@,
            input.window_pairs(Window { start: start as int, len: len as int }, depth),
        ),
{
    let ghost window = Window { start: start as int, len: len as int };
    let buffer_len = buffer.len();
    let bytes = slice_subrange(buffer, offset, offset + len);
    assert(bytes@ == input.window_bytes(window));
    match depth {
        Depth::FirstMatch => {
            match try_match_group_at_address(bytes, start, query) {
                None => {},
                Some(offsets) => {
                    proof {
                        lemma_ordered_offsets(bytes@, query.values@, 0, 0);
                        lemma_unordered_offsets(bytes@, query.values@);
                        assert(group_offsets(bytes@, query.values@, query.mode) == Some(
                            as_ints(offsets@),
                        ));
                        assert forall|j: int| 0 <= j < offsets@.len() implies #[trigger] offsets@[j]
                            <= len by {
                            assert(as_ints(offsets@)[j] == offsets@[j]);
                        }
                    }
                    emit_assignment(start, len, &offsets, query, results, Ghost(input));
                },
            }
        },
        Depth::Exhaustive { limit } => {
            let found = deep_match_group(bytes, query, limit);
            let ghost assignments = as_assignments(found@);
            proof {
                lemma_deep_assignments_shape(bytes@, query.values@, query.mode, 0, 0);
                assert(input.pairs_of_all(window, assignments.take(0)) =~= Seq::<ValuePair>::empty());
            }
            let mut k: usize = 0;
            while k < found.len()
                invariant
                    0 <= k <= found@.len(),
                    assignments == as_assignments(found@),
                    input.values == query.values@,
                    window == (Window { start: start as int, len: len as int }),
                    start + len <= u64::MAX,
                    forall|a: int, j: int|
                        0 <= a < assignments.len() && 0 <= j < assignments[a].len() ==> 0
                            <= #[trigger] assignments[a][j] <= len,
                    forall|a: int|
                        0 <= a < assignments.len() ==> (#[trigger] assignments[a]).len()
                            == query.values@.len(),
                    results@ == insert_all(
                        old(results)@,
                        input.pairs_of_all(window, assignments.take(k as int)),
                    ),
                decreases found@.len() - k,
            {
                let ghost so_far = input.pairs_of_all(window, assignments.take(k as int));
                proof {
                    assert(assignments[k as int] == as_ints(found@[k as int]@));
                    assert forall|j: int| 0 <= j < found@[k as int]@.len() implies #[trigger] found@[k as int]@[j]
                        <= len by {
                        assert(assignments[k as int][j] == found@[k as int]@[j]);
                    }
                }
                emit_assignment(start, len, &found[k], query, results, Ghost(input));
                proof {
                    assert(assignments.take(k as int + 1).drop_last() =~= assignments.take(
                        k as int,
                    ));
                    assert(assignments.take(k as int + 1).last() == assignments[k as int]);
                    lemma_insert_all_concat(
                        old(results)@,
                        so_far,
                        input.pairs_of(window, assignments[k as int]),
                    );
                }
                k += 1;
            }
            proof {
                assert(assignments.take(found@.len() as int) =~= assignments);
            }
        },
    }
}

/// The window that the anchor-first scan probes for the anchor at
/// `offset`, as the offset of its first byte in the buffer, the address of
/// that byte and its length.
fn anchor_window_at(
    buffer_len: usize,
    buffer_addr: u64,
    region_start: u64,
    region_end: u64,
    query: &SearchQuery,
    before: usize,
    total: usize,
    page_status: &PageStatusBitmap,
    offset: usize,
    Ghost(input): Ghost<ScanInput>,
) -> (window: Option<(usize, u64, usize)>)
    requires
        input.buffer.len() == buffer_len,
        input.buffer_addr == buffer_addr,
        input.region_start == region_start,
        input.region_end == region_end,
        input.values == query.values@,
        input.mode == query.mode,
        input.range == query.range,
        input.status == page_status@,
        buffer_addr + buffer_len <= u64::MAX,
        offset < buffer_len,
        anchor_index(query.values@).is_some(),
        before == prefix_width(query.values@, anchor_index(query.values@).unwrap()),
        total == input.total_width(),
        input.addr_at(offset as int) < input.search_end(),
    ensures
        match window {
            None => input.anchor_window(offset as int).is_none(),
            Some((at, start, len)) => {
                &&& input.anchor_window(offset as int) == Some(
                    Window { start: start as int, len: len as int },
                )
                &&& start == buffer_addr + at
                &&& at + len <= buffer_len
            },
        },
{
    let buffer_end = buffer_addr + buffer_len as u64;
    let search_end = if buffer_end <= region_end {
        buffer_end
    } else {
        region_end
    };
    let anchor_addr = buffer_addr + offset as u64;
    match query.mode {
        SearchMode::Ordered => {
            let start = if anchor_addr >= before as u64 {
                anchor_addr - before as u64
            } else {
                0
            };
            if start < region_start || start >= region_end || start < buffer_addr
                || !page_status.is_address_success(start) {
                return None;
            }
            let wanted: u64 = if total as u64 > query.range as u64 {
                total as u64
            } else {
                query.range as u64
            };
            let left = search_end - start;
            let len = if wanted <= left {
                wanted
            } else {
                left
            };
            Some(((start - buffer_addr) as usize, start, len as usize))
        },
        SearchMode::Unordered => {
            if anchor_addr < region_start || anchor_addr >= region_end
                || !page_status.is_address_success(anchor_addr) {
                return None;
            }
            let low = if anchor_addr >= query.range as u64 {
                anchor_addr - query.range as u64
            } else {
                0
            };
            let search_start = if buffer_addr >= region_start {
                buffer_addr
            } else {
                region_start
            };
            let start = if low >= search_start {
                low
            } else {
                search_start
            };
            let end = if search_end - anchor_addr <= query.range as u64 {
                search_end
            } else {
                anchor_addr + query.range as u64
            };
            Some(((start - buffer_addr) as usize, start, (end - start) as usize))
        },
    }
}

/// Whether `addr` is not below the first multiple of `step` at or above
/// `search_start`.
fn at_or_after_first_aligned(addr: u64, search_start: u64, step: usize) -> (ok: bool)
    requires
        step > 0,
    ensures
        ok == (align_up(search_start as int, step as int) <= addr),
{
    let rem = search_start % (step as u64);
    assert(rem < step) by (nonlinear_arith)
        requires
            rem == search_start % (step as u64),
            step > 0,
    ;
    let pad = if rem == 0 {
        0
    } else {
        step as u64 - rem
    };
    addr >= search_start && addr - search_start >= pad
}

/// An occurrence in the rest of a buffer is an occurrence in the buffer.
proof fn lemma_occurs_in_rest(buffer: Seq<u8>, pattern: Seq<u8>, from: int, i: int)
    requires
        0 <= from <= buffer.len(),
        0 <= i,
    ensures
        occurs_at(buffer.subrange(from, buffer.len() as int), pattern, i) == occurs_at(
            buffer,
            pattern,
            from + i,
        ),
{
    let rest = buffer.subrange(from, buffer.len() as int);
    if i + pattern.len() <= rest.len() {
        assert(rest.subrange(i, i + pattern.len()) =~= buffer.subrange(
            from + i,
            from + i + pattern.len(),
        ));
    }
}

/// Scans a buffer for the query and puts the address and type of every
/// matched value into `results`.
///
/// Where the query has a fixed value, the scan looks for the bytes of the
/// first one and probes a window at each place where they stand; where it
/// has none, it probes a window at every aligned address. `depth` says
/// what a window contributes. `matches_checked` grows by the number of
/// windows probed.
pub fn search_in_buffer_group_with(
    buffer: &[u8],
    buffer_addr: u64,
    region_start: u64,
    region_end: u64,
    min_element_size: usize,
    query: &SearchQuery,
    page_status: &PageStatusBitmap,
    depth: Depth,
    results: &mut ValuePairSet,
    matches_checked: &mut usize,
)
    requires
        min_element_size > 0,
        buffer_addr + buffer@.len() <= u64::MAX,
        query.values@.len() <= usize::MAX / 8,
        *old(matches_checked) + buffer@.len() <= usize::MAX,
    ensures
        ({
            let input = scan_input(
                buffer@,
                buffer_addr,
                region_start,
                region_end,
                min_element_size,
                *query,
                *page_status,
            );
            &&& final(results)@ == insert_all(old(results)@, input.pairs(input.scanner(), depth))
            &&& *final(matches_checked) == *old(matches_checked) + input.probes(input.scanner())
        }),
{
    let ghost input = scan_input(
        buffer@,
        buffer_addr,
        region_start,
        region_end,
        min_element_size,
        *query,
        *page_status,
    );
    let (anchor_at, pattern) = match select_anchor(query) {
        None => {
            search_aligned(
                buffer,
                buffer_addr,
                region_start,
                region_end,
                min_element_size,
                query,
                page_status,
                depth,
                results,
                matches_checked,
            );
            return ;
        },
        Some(anchor) => anchor,
    };
    let finder = finder_new(pattern.as_slice());
    let buffer_len = buffer.len();
    let buffer_end = buffer_addr + buffer_len as u64;
    let search_start = if buffer_addr >= region_start {
        buffer_addr
    } else {
        region_start
    };
    let search_end = if buffer_end <= region_end {
        buffer_end
    } else {
        region_end
    };
    let before = width_before(query, anchor_at);
    let total = width_before(query, query.values.len());
    let step = pattern.len() as u64;
    let mut pos: usize = 0;
    proof {
        assert(insert_all(results@, Seq::<ValuePair>::empty()) == results@);
    }
    while pos < buffer_len
        invariant
            0 <= pos <= buffer_len,
            buffer_len == buffer@.len(),
            buffer_end == buffer_addr + buffer_len,
            buffer_end <= u64::MAX,
            min_element_size > 0,
            input == scan_input(
                buffer@,
                buffer_addr,
                region_start,
                region_end,
                min_element_size,
                *query,
                *page_status,
            ),
            search_start == input.search_start(),
            search_end == input.search_end(),
            anchor_index(query.values@) == Some(anchor_at as int),
            anchor_pattern(query.values@[anchor_at as int]) == Some(pattern@),
            finder_needle(finder) == pattern@,
            step == pattern@.len(),
            1 <= step <= 8,
            before == prefix_width(query.values@, anchor_at as int),
            total == input.total_width(),
            *old(matches_checked) + buffer@.len() <= usize::MAX,
            *matches_checked == *old(matches_checked) + input.probes_below(
                Scanner::AnchorFirst,
                pos as int,
            ),
            results@ == insert_all(
                old(results)@,
                input.pairs_below(Scanner::AnchorFirst, depth, pos as int),
            ),
        decreases buffer_len - pos,
    {
        let rest = slice_subrange(buffer, pos, buffer_len);
        match finder_find(&finder, rest) {
            None => {
                proof {
                    assert forall|o: int| pos <= o < buffer_len implies (#[trigger] input.probe(
                        Scanner::AnchorFirst,
                        o,
                    )).is_none() by {
                        lemma_occurs_in_rest(buffer@, pattern@, pos as int, o - pos);
                    }
                    lemma_nothing_between(
                        input,
                        Scanner::AnchorFirst,
                        depth,
                        pos as int,
                        buffer_len as int,
                    );
                }
                pos = buffer_len;
            },
            Some(found) => {
                proof {
                    lemma_occurs_in_rest(buffer@, pattern@, pos as int, found as int);
                }
                let offset = pos + found;
                proof {
                    assert forall|o: int| pos <= o < offset implies (#[trigger] input.probe(
                        Scanner::AnchorFirst,
                        o,
                    )).is_none() by {
                        lemma_occurs_in_rest(buffer@, pattern@, pos as int, o - pos);
                    }
                    lemma_nothing_between(
                        input,
                        Scanner::AnchorFirst,
                        depth,
                        pos as int,
                        offset as int,
                    );
                    lemma_probes_bounded(input, Scanner::AnchorFirst, offset as int);
                }
                let addr = buffer_addr + offset as u64;
                let ghost pairs_before = input.pairs_below(
                    Scanner::AnchorFirst,
                    depth,
                    offset as int,
                );
                if addr % step == 0 && addr < search_end && at_or_after_first_aligned(
                    addr,
                    search_start,
                    min_element_size,
                ) {
                    assert(input.anchor_candidate(offset as int));
                    match anchor_window_at(
                        buffer_len,
                        buffer_addr,
                        region_start,
                        region_end,
                        query,
                        before,
                        total,
                        page_status,
                        offset,
                        Ghost(input),
                    ) {
                        None => {
                            proof {
                                assert(input.pairs_at(Scanner::AnchorFirst, depth, offset as int)
                                    =~= Seq::<ValuePair>::empty());
                                assert(pairs_before + Seq::<ValuePair>::empty() =~= pairs_before);
                            }
                        },
                        Some((at, start, len)) => {
                            *matches_checked = *matches_checked + 1;
                            probe_window(
                                buffer,
                                at,
                                start,
                                len,
                                query,
                                depth,
                                results,
                                Ghost(input),
                            );
                            proof {
                                lemma_insert_all_concat(
                                    old(results)@,
                                    pairs_before,
                                    input.pairs_at(Scanner::AnchorFirst, depth, offset as int),
                                );
                            }
                        },
                    }
                } else {
                    proof {
                        assert(!input.anchor_candidate(offset as int));
                        assert(pairs_before + Seq::<ValuePair>::empty() =~= pairs_before);
                    }
                }
                pos = offset + 1;
            },
        }
    }
}

/// The aligned scan: probes the `query.range` bytes from every address
/// that is a multiple of `min_element_size`, lies in the buffer and in the
/// region on a page that was read, and has that many bytes behind it in
/// both.
fn search_aligned(
    buffer: &[u8],
    buffer_addr: u64,
    region_start: u64,
    region_end: u64,
    min_element_size: usize,
    query: &SearchQuery,
    page_status: &PageStatusBitmap,
    depth: Depth,
    results: &mut ValuePairSet,
    matches_checked: &mut usize,
)
    requires
        min_element_size > 0,
        buffer_addr + buffer@.len() <= u64::MAX,
        *old(matches_checked) + buffer@.len() <= usize::MAX,
    ensures
        ({
            let input = scan_input(
                buffer@,
                buffer_addr,
                region_start,
                region_end,
                min_element_size,
                *query,
                *page_status,
            );
            &&& final(results)@ == insert_all(old(results)@, input.pairs(Scanner::Aligned, depth))
            &&& *final(matches_checked) == *old(matches_checked) + input.probes(Scanner::Aligned)
        }),
{
    let ghost input = scan_input(
        buffer@,
        buffer_addr,
        region_start,
        region_end,
        min_element_size,
        *query,
        *page_status,
    );
    let buffer_len = buffer.len();
    let buffer_end = buffer_addr + buffer_len as u64;
    let search_start = if buffer_addr >= region_start {
        buffer_addr
    } else {
        region_start
    };
    let search_end = if buffer_end <= region_end {
        buffer_end
    } else {
        region_end
    };
    let step = min_element_size as u64;
    let rem = search_start % step;
    assert(rem < step) by (nonlinear_arith)
        requires
            rem == search_start % step,
            step > 0,
    ;
    let pad = if rem == 0 {
        0
    } else {
        step - rem
    };
    proof {
        assert(insert_all(results@, Seq::<ValuePair>::empty()) == results@);
    }
    if search_start >= search_end || search_end - search_start <= pad {
        proof {
            assert forall|o: int| 0 <= o < buffer_len implies (#[trigger] input.probe(
                Scanner::Aligned,
                o,
            )).is_none() by {}
            lemma_nothing_between(input, Scanner::Aligned, depth, 0, buffer_len as int);
        }
        return ;
    }
    let mut addr = search_start + pad;
    proof {
        assert(addr == input.first_addr());
        assert(addr % step == 0) by (nonlinear_arith)
            requires
                addr == search_start + pad,
                rem == search_start % step,
                pad == (if rem == 0 {
                    0
                } else {
                    step - rem
                }),
                step > 0,
                rem < step,
        ;
        assert forall|o: int| 0 <= o < addr - buffer_addr implies (#[trigger] input.probe(
            Scanner::Aligned,
            o,
        )).is_none() by {}
        lemma_nothing_between(input, Scanner::Aligned, depth, 0, addr - buffer_addr);
    }
    loop
        invariant_except_break
            *matches_checked == *old(matches_checked) + input.probes_below(
                Scanner::Aligned,
                addr - buffer_addr,
            ),
            results@ == insert_all(
                old(results)@,
                input.pairs_below(Scanner::Aligned, depth, addr - buffer_addr),
            ),
        invariant
            buffer_len == buffer@.len(),
            buffer_end == buffer_addr + buffer_len,
            buffer_end <= u64::MAX,
            step == min_element_size,
            step > 0,
            input == scan_input(
                buffer@,
                buffer_addr,
                region_start,
                region_end,
                min_element_size,
                *query,
                *page_status,
            ),
            search_start == input.search_start(),
            search_end == input.search_end(),
            input.first_addr() <= addr < search_end,
            buffer_addr <= addr,
            addr % step == 0,
            *old(matches_checked) + buffer@.len() <= usize::MAX,
        ensures
            *matches_checked == *old(matches_checked) + input.probes(Scanner::Aligned),
            results@ == insert_all(old(results)@, input.pairs(Scanner::Aligned, depth)),
        decreases search_end - addr,
    {
        let offset = (addr - buffer_addr) as usize;
        let ghost pairs_before = input.pairs_below(Scanner::Aligned, depth, offset as int);
        proof {
            lemma_probes_bounded(input, Scanner::Aligned, offset as int);
        }
        if search_end - addr >= query.range as u64 && page_status.is_address_success(addr) {
            *matches_checked = *matches_checked + 1;
            probe_window(
                buffer,
                offset,
                addr,
                query.range as usize,
                query,
                depth,
                results,
                Ghost(input),
            );
            proof {
                assert(input.probe(Scanner::Aligned, offset as int) == Some(
                    Window { start: addr as int, len: query.range as int },
                ));
                lemma_insert_all_concat(
                    old(results)@,
                    pairs_before,
                    input.pairs_at(Scanner::Aligned, depth, offset as int),
                );
            }
        } else {
            proof {
                assert(input.probe(Scanner::Aligned, offset as int).is_none());
                assert(pairs_before + Seq::<ValuePair>::empty() =~= pairs_before);
            }
        }
        if search_end - addr <= step {
            proof {
                assert forall|o: int| offset + 1 <= o < buffer_len implies (#[trigger] input.probe(
                    Scanner::Aligned,
                    o,
                )).is_none() by {
                    if buffer_addr + o < search_end {
                        lemma_no_multiple_between(addr as int, buffer_addr + o, step as int);
                    }
                }
                lemma_nothing_between(
                    input,
                    Scanner::Aligned,
                    depth,
                    offset as int + 1,
                    buffer_len as int,
                );
            }
            break ;
        }
        proof {
            assert forall|o: int| offset + 1 <= o < offset + step implies (#[trigger] input.probe(
                Scanner::Aligned,
                o,
            )).is_none() by {
                lemma_no_multiple_between(addr as int, buffer_addr + o, step as int);
            }
            lemma_nothing_between(
                input,
                Scanner::Aligned,
                depth,
                offset as int + 1,
                offset as int + step as int,
            );
            assert((addr + step) % (step as int) == 0) by (nonlinear_arith)
                requires
                    addr % step == 0,
                    step > 0,
            ;
        }
        addr = addr + step;
    }
}

/// Scans a buffer for the query and puts the address and type of every
/// value of the first match of each window into `results`.
///
/// Where the query has a fixed value, the scan looks for the bytes of the
/// first one and probes a window at each place where they stand; where it
/// has none, it probes a window at every aligned address.
/// `matches_checked` grows by the number of windows probed.
pub fn search_in_buffer_group(
    buffer: &[u8],
    buffer_addr: u64,
    region_start: u64,
    region_end: u64,
    min_element_size: usize,
    query: &SearchQuery,
    page_status: &PageStatusBitmap,
    results: &mut ValuePairSet,
    matches_checked: &mut usize,
)
    requires
        min_element_size > 0,
        buffer_addr + buffer@.len() <= u64::MAX,
        query.values@.len() <= usize::MAX / 8,
        *old(matches_checked) + buffer@.len() <= usize::MAX,
    ensures
        ({
            let input = scan_input(
                buffer@,
                buffer_addr,
                region_start,
                region_end,
                min_element_size,
                *query,
                *page_status,
            );
            &&& final(results)@ == insert_all(
                old(results)@,
                input.pairs(input.scanner(), Depth::FirstMatch),
            )
            &&& *final(matches_checked) == *old(matches_checked) + input.probes(input.scanner())
        }),
{
    search_in_buffer_group_with(
        buffer,
        buffer_addr,
        region_start,
        region_end,
        min_element_size,
        query,
        page_status,
        Depth::FirstMatch,
        results,
        matches_checked,
    )
}

/// Scans a buffer for the query without the help of an anchor: probes the
/// `query.range` bytes from every address that is a multiple of
/// `min_element_size`, lies in the buffer and in the region on a page that
/// was read, and has that many bytes behind it in both. Puts the address
/// and type of every value of the first match of each window into
/// `results`; `matches_checked` grows by the number of windows probed.
pub fn search_in_buffer_group_fallback(
    buffer: &[u8],
    buffer_addr: u64,
    region_start: u64,
    region_end: u64,
    min_element_size: usize,
    query: &SearchQuery,
    page_status: &PageStatusBitmap,
    results: &mut ValuePairSet,
    matches_checked: &mut usize,
)
    requires
        min_element_size > 0,
        buffer_addr + buffer@.len() <= u64::MAX,
        *old(matches_checked) + buffer@.len() <= usize::MAX,
    ensures
        ({
            let input = scan_input(
                buffer@,
                buffer_addr,
                region_start,
                region_end,
                min_element_size,
                *query,
                *page_status,
            );
            &&& final(results)@ == insert_all(
                old(results)@,
                input.pairs(Scanner::Aligned, Depth::FirstMatch),
            )
            &&& *final(matches_checked) == *old(matches_checked) + input.probes(Scanner::Aligned)
        }),
{
    search_aligned(
        buffer,
        buffer_addr,
        region_start,
        region_end,
        min_element_size,
        query,
        page_status,
        Depth::FirstMatch,
        results,
        matches_checked,
    )
}

/// Scans a buffer as `search_in_buffer_group` does, and puts the address
/// and type of every value of every combination that matches in a window
/// into `results`, up to `DEFAULT_COMBINATION_LIMIT` combinations a
/// window.
pub fn search_in_buffer_group_deep(
    buffer: &[u8],
    buffer_addr: u64,
    region_start: u64,
    region_end: u64,
    min_element_size: usize,
    query: &SearchQuery,
    page_status: &PageStatusBitmap,
    results: &mut ValuePairSet,
    matches_checked: &mut usize,
)
    requires
        min_element_size > 0,
        buffer_addr + buffer@.len() <= u64::MAX,
        query.values@.len() <= usize::MAX / 8,
        *old(matches_checked) + buffer@.len() <= usize::MAX,
    ensures
        ({
            let input = scan_input(
                buffer@,
                buffer_addr,
                region_start,
                region_end,
                min_element_size,
                *query,
                *page_status,
            );
            &&& final(results)@ == insert_all(
                old(results)@,
                input.pairs(
                    input.scanner(),
                    Depth::Exhaustive { limit: DEFAULT_COMBINATION_LIMIT },
                ),
            )
            &&& *final(matches_checked) == *old(matches_checked) + input.probes(input.scanner())
        }),
{
    search_in_buffer_group_with(
        buffer,
        buffer_addr,
        region_start,
        region_end,
        min_element_size,
        query,
        page_status,
        Depth::Exhaustive { limit: DEFAULT_COMBINATION_LIMIT },
        results,
        matches_checked,
    )
}

} // verus!
