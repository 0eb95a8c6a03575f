//! What holds of every scan: laws that relate the scanners, the matchers
//! and the page status to one another.
use crate::deep::{
    capped, deep_assignments, deep_offsets, lemma_deep_assignments_shape,
    lemma_first_assignment_ordered, lemma_first_assignment_unordered,
    lemma_first_hits_are_unordered,
};
use crate::matcher::{
    first_hit, group_offsets, lemma_first_hit, lemma_ordered_offsets, lemma_unordered_offsets,
    ordered_offsets, ordered_offsets_from, unordered_offsets,
};
use crate::region::{ChunkOutcome, RegionScanView};
use crate::chunking::{
    lemma_ordered_extends, lemma_pairs_come_from_probes, lemma_probes_give_pairs, probe_finds,
};
use crate::results::{has_addr, insert_all, lemma_insert_all_dom, ValuePair};
use crate::single_search::SingleScan;
use crate::scan::{
    anchor_index, anchor_pattern, first_anchor_from, occurs_at, Depth, ScanInput, Scanner, Window,
};
use crate::types::{prefix_width, SearchMode, SearchValue, ValueType};
use vstd::prelude::*;

verus! {

/// A pair is among those handed out below an offset exactly when it is
/// handed out at one of the offsets below it.
pub proof fn lemma_pairs_below_member(
    input: ScanInput,
    scanner: Scanner,
    depth: Depth,
    upto: int,
    pair: ValuePair,
)
    requires
        0 <= upto,
    ensures
        input.pairs_below(scanner, depth, upto).contains(pair) <==> exists|o: int|
            0 <= o < upto && #[trigger] input.pairs_at(scanner, depth, o).contains(pair),
    decreases upto,
{
    if upto > 0 {
        lemma_pairs_below_member(input, scanner, depth, upto - 1, pair);
        let front = input.pairs_below(scanner, depth, upto - 1);
        let here = input.pairs_at(scanner, depth, upto - 1);
        let all = input.pairs_below(scanner, depth, upto);
        assert(all == front + here);
        if all.contains(pair) {
            let i = choose|i: int| 0 <= i < all.len() && all[i] == pair;
            if i < front.len() {
                assert(front[i] == pair);
                assert(front.contains(pair));
                let o = choose|o: int|
                    0 <= o < upto - 1 && #[trigger] input.pairs_at(scanner, depth, o).contains(
                        pair,
                    );
                assert(0 <= o < upto && input.pairs_at(scanner, depth, o).contains(pair));
            } else {
                assert(here[i - front.len()] == pair);
                assert(here.contains(pair));
            }
        }
        if exists|o: int|
            0 <= o < upto && #[trigger] input.pairs_at(scanner, depth, o).contains(pair) {
            let o = choose|o: int|
                0 <= o < upto && #[trigger] input.pairs_at(scanner, depth, o).contains(pair);
            if o < upto - 1 {
                assert(front.contains(pair));
                let i = choose|i: int| 0 <= i < front.len() && front[i] == pair;
                assert(all[i] == pair);
            } else {
                let i = choose|i: int| 0 <= i < here.len() && here[i] == pair;
                assert(all[front.len() + i] == pair);
            }
        }
    }
}

/// The pairs of each assignment are among the pairs of all assignments.
pub proof fn lemma_pairs_of_all_member(
    input: ScanInput,
    window: Window,
    assignments: Seq<Seq<int>>,
    a: int,
    pair: ValuePair,
)
    requires
        0 <= a < assignments.len(),
        input.pairs_of(window, assignments[a]).contains(pair),
    ensures
        input.pairs_of_all(window, assignments).contains(pair),
    decreases assignments.len(),
{
    let front = input.pairs_of_all(window, assignments.drop_last());
    let last = input.pairs_of(window, assignments.last());
    let all = input.pairs_of_all(window, assignments);
    assert(all == front + last);
    if a == assignments.len() - 1 {
        let i = choose|i: int| 0 <= i < last.len() && last[i] == pair;
        assert(all[front.len() + i] == pair);
    } else {
        assert(assignments.drop_last()[a] == assignments[a]);
        lemma_pairs_of_all_member(input, window, assignments.drop_last(), a, pair);
        let i = choose|i: int| 0 <= i < front.len() && front[i] == pair;
        assert(all[i] == pair);
    }
}

/// A pair among the pairs of all assignments is a pair of one of them.
pub proof fn lemma_pairs_of_all_origin(
    input: ScanInput,
    window: Window,
    assignments: Seq<Seq<int>>,
    pair: ValuePair,
)
    requires
        input.pairs_of_all(window, assignments).contains(pair),
    ensures
        exists|a: int|
            0 <= a < assignments.len() && #[trigger] input.pairs_of(window, assignments[a]).contains(
                pair,
            ),
    decreases assignments.len(),
{
    if assignments.len() > 0 {
        let front = input.pairs_of_all(window, assignments.drop_last());
        let last = input.pairs_of(window, assignments.last());
        let all = input.pairs_of_all(window, assignments);
        assert(all == front + last);
        let i = choose|i: int| 0 <= i < all.len() && all[i] == pair;
        if i < front.len() {
            assert(front[i] == pair);
            lemma_pairs_of_all_origin(input, window, assignments.drop_last(), pair);
            let a = choose|a: int|
                0 <= a < assignments.drop_last().len() && #[trigger] input.pairs_of(
                    window,
                    assignments.drop_last()[a],
                ).contains(pair);
            assert(assignments.drop_last()[a] == assignments[a]);
            assert(input.pairs_of(window, assignments[a]).contains(pair));
        } else {
            assert(last[i - front.len()] == pair);
            assert(input.pairs_of(window, assignments[assignments.len() - 1]).contains(pair));
        }
    }
}

/// Where a window holds a match, the first combination of the exhaustive
/// matcher is that match.
pub proof fn lemma_first_match_is_first_combination(
    window: Seq<u8>,
    values: Seq<SearchValue>,
    mode: SearchMode,
    limit: nat,
)
    requires
        limit >= 1,
        group_offsets(window, values, mode).is_some(),
    ensures
        deep_offsets(window, values, mode, limit).len() >= 1,
        deep_offsets(window, values, mode, limit)[0] == group_offsets(window, values, mode).unwrap(),
{
    let all = deep_assignments(window, values, mode, 0, 0);
    match mode {
        SearchMode::Ordered => {
            lemma_first_assignment_ordered(window, values, 0, 0);
        },
        SearchMode::Unordered => {
            let offsets = unordered_offsets(window, values).unwrap();
            if values.len() > 0 {
                assert(first_hit(window, values[0], 0).is_some());
            }
            lemma_first_assignment_unordered(window, values, 0, 0);
            lemma_first_hits_are_unordered(window, values, 0);
            if values.len() > 0 {
                lemma_first_hits_are_unordered(window, values, 1);
                assert(seq![offsets[0]] + offsets.skip(1) =~= offsets);
            } else {
                assert(offsets =~= Seq::<int>::empty());
            }
        },
    }
    assert(capped(all, limit)[0] == all[0]);
}

/// Deep superset: every address that a scan finds with the first match of
/// each window is found by the same scan with the exhaustive matcher, as
/// long as the exhaustive matcher may hand out one combination a window.
pub proof fn lemma_deep_finds_what_first_match_finds(
    input: ScanInput,
    scanner: Scanner,
    limit: usize,
    found: Map<u64, ValueType>,
    addr: u64,
)
    requires
        limit >= 1,
        insert_all(found, input.pairs(scanner, Depth::FirstMatch)).contains_key(addr),
    ensures
        insert_all(found, input.pairs(scanner, Depth::Exhaustive { limit })).contains_key(addr),
{
    let first = input.pairs(scanner, Depth::FirstMatch);
    let deep = input.pairs(scanner, Depth::Exhaustive { limit });
    let n = input.buffer.len() as int;
    lemma_insert_all_dom(found, first, addr);
    lemma_insert_all_dom(found, deep, addr);
    if !found.contains_key(addr) {
        let i = choose|i: int| 0 <= i < first.len() && (#[trigger] first[i]).addr == addr;
        let pair = first[i];
        assert(first.contains(pair));
        lemma_pairs_below_member(input, scanner, Depth::FirstMatch, n, pair);
        let o = choose|o: int|
            0 <= o < n && #[trigger] input.pairs_at(scanner, Depth::FirstMatch, o).contains(pair);
        let window = input.probe(scanner, o).unwrap();
        let bytes = input.window_bytes(window);
        assert(input.first_match_pairs(window).contains(pair));
        lemma_first_match_is_first_combination(bytes, input.values, input.mode, limit as nat);
        let combinations = deep_offsets(bytes, input.values, input.mode, limit as nat);
        lemma_pairs_of_all_member(input, window, combinations, 0, pair);
        assert(input.pairs_at(scanner, Depth::Exhaustive { limit }, o).contains(pair));
        lemma_pairs_below_member(input, scanner, Depth::Exhaustive { limit }, n, pair);
        let j = choose|j: int| 0 <= j < deep.len() && deep[j] == pair;
        assert(deep[j].addr == addr);
    }
}

/// Whether the scan's numbers are such as a buffer in memory has: the
/// buffer lies in the address space, and range and alignment are not
/// negative.
pub open spec fn in_address_space(input: ScanInput) -> bool {
    &&& 0 <= input.buffer_addr
    &&& input.buffer_end() <= u64::MAX
    &&& 0 <= input.range
    &&& 0 < input.min_element_size
}

/// Whether `offsets` is an assignment that the matcher of the given depth
/// hands out for the window.
pub open spec fn is_match_of(input: ScanInput, window: Window, depth: Depth, offsets: Seq<int>) -> bool {
    match depth {
        Depth::FirstMatch => group_offsets(input.window_bytes(window), input.values, input.mode)
            == Some(offsets),
        Depth::Exhaustive { limit } => exists|a: int|
            0 <= a < deep_offsets(
                input.window_bytes(window),
                input.values,
                input.mode,
                limit as nat,
            ).len() && #[trigger] deep_offsets(
                input.window_bytes(window),
                input.values,
                input.mode,
                limit as nat,
            )[a] == offsets,
    }
}

/// A window that a scanner probes lies in the buffer and in the region.
pub proof fn lemma_probe_in_bounds(input: ScanInput, scanner: Scanner, offset: int)
    requires
        in_address_space(input),
        input.probe(scanner, offset).is_some(),
    ensures
        input.buffer_addr <= input.probe(scanner, offset).unwrap().start,
        input.search_start() <= input.probe(scanner, offset).unwrap().start,
        0 <= input.probe(scanner, offset).unwrap().len,
        input.probe(scanner, offset).unwrap().start + input.probe(scanner, offset).unwrap().len
            <= input.search_end(),
        input.window_bytes(input.probe(scanner, offset).unwrap()).len() == input.probe(
            scanner,
            offset,
        ).unwrap().len,
{
    let window = input.probe(scanner, offset).unwrap();
    lemma_align_up_not_below(input.search_start(), input.min_element_size);
    match scanner {
        Scanner::AnchorFirst => {
            let k = anchor_index(input.values).unwrap();
            let pattern = anchor_pattern(input.values[k]).unwrap();
            assert(occurs_at(input.buffer, pattern, offset));
        },
        Scanner::Aligned => {},
    }
}

/// Region bound: every address that a scan hands out lies, with the whole
/// value found there, in the buffer and in the region.
pub proof fn lemma_found_in_region(input: ScanInput, scanner: Scanner, depth: Depth, pair: ValuePair)
    requires
        in_address_space(input),
        input.pairs(scanner, depth).contains(pair),
    ensures
        input.region_start <= pair.addr,
        input.buffer_addr <= pair.addr,
        pair.addr + pair.value_type.spec_size() <= input.region_end,
        pair.addr + pair.value_type.spec_size() <= input.buffer_end(),
{
    lemma_pair_origin(input, scanner, depth, pair);
    let (offset, offsets, i) = choose|offset: int, offsets: Seq<int>, i: int|
        {
            &&& 0 <= offset < input.buffer.len()
            &&& input.probe(scanner, offset).is_some()
            &&& #[trigger] is_match_of(input, input.probe(scanner, offset).unwrap(), depth, offsets)
            &&& 0 <= i < offsets.len()
            &&& pair == #[trigger] input.pairs_of(input.probe(scanner, offset).unwrap(), offsets)[i]
        };
    let window = input.probe(scanner, offset).unwrap();
    lemma_probe_in_bounds(input, scanner, offset);
    lemma_match_shape(input, window, depth, offsets);
    assert(0 <= offsets[i] && offsets[i] + input.values[i].width() <= window.len);
    assert(pair.addr == window.start + offsets[i]);
}

/// An assignment that a matcher hands out gives every value an offset at
/// which the value lies inside the window.
pub proof fn lemma_match_shape(input: ScanInput, window: Window, depth: Depth, offsets: Seq<int>)
    requires
        is_match_of(input, window, depth, offsets),
    ensures
        offsets.len() == input.values.len(),
        forall|i: int|
            0 <= i < offsets.len() ==> 0 <= #[trigger] offsets[i] && offsets[i]
                + input.values[i].width() <= input.window_bytes(window).len(),
{
    let bytes = input.window_bytes(window);
    match depth {
        Depth::FirstMatch => {
            lemma_ordered_offsets(bytes, input.values, 0, 0);
            lemma_unordered_offsets(bytes, input.values);
        },
        Depth::Exhaustive { limit } => {
            let all = deep_assignments(bytes, input.values, input.mode, 0, 0);
            let handed = deep_offsets(bytes, input.values, input.mode, limit as nat);
            let a = choose|a: int| 0 <= a < handed.len() && #[trigger] handed[a] == offsets;
            assert(handed[a] == all[a]);
            lemma_deep_assignments_shape(bytes, input.values, input.mode, 0, 0);
            assert(all[a].len() == input.values.len());
            assert forall|i: int| 0 <= i < offsets.len() implies 0 <= #[trigger] offsets[i]
                && offsets[i] + input.values[i].width() <= bytes.len() by {
                assert(0 <= all[a][i] && all[a][i] + input.values[0 + i].width() <= bytes.len());
            }
        },
    }
}

/// Every pair that a scan hands out comes from a window that the scanner
/// probes: it is the pair of one value in an assignment that the matcher
/// hands out for that window.
pub proof fn lemma_pair_origin(input: ScanInput, scanner: Scanner, depth: Depth, pair: ValuePair)
    requires
        input.pairs(scanner, depth).contains(pair),
    ensures
        exists|offset: int, offsets: Seq<int>, i: int|
            {
                &&& 0 <= offset < input.buffer.len()
                &&& input.probe(scanner, offset).is_some()
                &&& #[trigger] is_match_of(
                    input,
                    input.probe(scanner, offset).unwrap(),
                    depth,
                    offsets,
                )
                &&& 0 <= i < offsets.len()
                &&& pair == #[trigger] input.pairs_of(input.probe(scanner, offset).unwrap(), offsets)[i]
            },
{
    let n = input.buffer.len() as int;
    lemma_pairs_below_member(input, scanner, depth, n, pair);
    let offset = choose|o: int|
        0 <= o < n && #[trigger] input.pairs_at(scanner, depth, o).contains(pair);
    let window = input.probe(scanner, offset).unwrap();
    let bytes = input.window_bytes(window);
    match depth {
        Depth::FirstMatch => {
            let offsets = group_offsets(bytes, input.values, input.mode).unwrap();
            let pairs = input.pairs_of(window, offsets);
            let i = choose|i: int| 0 <= i < pairs.len() && pairs[i] == pair;
            assert(is_match_of(input, window, depth, offsets));
            assert(pair == input.pairs_of(input.probe(scanner, offset).unwrap(), offsets)[i]);
        },
        Depth::Exhaustive { limit } => {
            let handed = deep_offsets(bytes, input.values, input.mode, limit as nat);
            lemma_pairs_of_all_origin(input, window, handed, pair);
            let a = choose|a: int|
                0 <= a < handed.len() && #[trigger] input.pairs_of(window, handed[a]).contains(
                    pair,
                );
            let offsets = handed[a];
            let pairs = input.pairs_of(window, offsets);
            let i = choose|i: int| 0 <= i < pairs.len() && pairs[i] == pair;
            assert(is_match_of(input, window, depth, offsets));
            assert(pair == input.pairs_of(input.probe(scanner, offset).unwrap(), offsets)[i]);
        },
    }
}

/// Page safety: where no window that the scanner probes reaches a page
/// that was not read, no address that the scan hands out lies on such a
/// page.
pub proof fn lemma_page_safety(input: ScanInput, scanner: Scanner, depth: Depth, pair: ValuePair)
    requires
        in_address_space(input),
        forall|offset: int, addr: int|
            (#[trigger] input.probe(scanner, offset)).is_some() && input.probe(
                scanner,
                offset,
            ).unwrap().start <= addr < input.probe(scanner, offset).unwrap().start + input.probe(
                scanner,
                offset,
            ).unwrap().len ==> #[trigger] input.status.address_ok(addr),
        input.pairs(scanner, depth).contains(pair),
    ensures
        input.status.address_ok(pair.addr as int),
{
    lemma_pair_origin(input, scanner, depth, pair);
    let (offset, offsets, i) = choose|offset: int, offsets: Seq<int>, i: int|
        {
            &&& 0 <= offset < input.buffer.len()
            &&& input.probe(scanner, offset).is_some()
            &&& #[trigger] is_match_of(input, input.probe(scanner, offset).unwrap(), depth, offsets)
            &&& 0 <= i < offsets.len()
            &&& pair == #[trigger] input.pairs_of(input.probe(scanner, offset).unwrap(), offsets)[i]
        };
    let window = input.probe(scanner, offset).unwrap();
    lemma_probe_in_bounds(input, scanner, offset);
    lemma_match_shape(input, window, depth, offsets);
    assert(0 <= offsets[i] && offsets[i] + input.values[i].width() <= window.len);
    assert(pair.addr == window.start + offsets[i]);
    assert(input.status.address_ok(window.start + offsets[i]));
}

/// The page of a probed window: the start of the window of an ordered
/// match, and the anchor of an unordered one, lie on a page that was read.
pub proof fn lemma_probe_on_read_page(input: ScanInput, scanner: Scanner, offset: int)
    requires
        input.probe(scanner, offset).is_some(),
    ensures
        scanner == Scanner::Aligned || input.mode == SearchMode::Ordered
            ==> input.status.address_ok(input.probe(scanner, offset).unwrap().start),
        scanner == Scanner::AnchorFirst && input.mode == SearchMode::Unordered
            ==> input.status.address_ok(input.addr_at(offset)),
{
}

/// Range bound, ordered: every value of a match that an ordered scan hands
/// out ends no more than the window length behind the start of any other,
/// and the window length is the range where the range holds all values.
pub proof fn lemma_range_bound_ordered(
    input: ScanInput,
    scanner: Scanner,
    depth: Depth,
    offset: int,
    offsets: Seq<int>,
    i: int,
    j: int,
)
    requires
        in_address_space(input),
        input.mode == SearchMode::Ordered,
        input.probe(scanner, offset).is_some(),
        is_match_of(input, input.probe(scanner, offset).unwrap(), depth, offsets),
        0 <= i < offsets.len(),
        0 <= j < offsets.len(),
    ensures
        (input.probe(scanner, offset).unwrap().start + offsets[j] + input.values[j].width()) - (
        input.probe(scanner, offset).unwrap().start + offsets[i]) <= input.window_len(),
        input.total_width() <= input.range ==> offsets[j] + input.values[j].width() - offsets[i]
            <= input.range,
{
    let window = input.probe(scanner, offset).unwrap();
    lemma_probe_in_bounds(input, scanner, offset);
    lemma_match_shape(input, window, depth, offsets);
    assert(offsets[j] + input.values[j].width() <= window.len);
    assert(0 <= offsets[i]);
}

/// Range bound, unordered: every value of a match that the anchor-first
/// scan of an unordered query hands out lies less than `range` bytes to
/// either side of the anchor's address.
pub proof fn lemma_range_bound_unordered(
    input: ScanInput,
    depth: Depth,
    offset: int,
    offsets: Seq<int>,
    i: int,
)
    requires
        in_address_space(input),
        input.mode == SearchMode::Unordered,
        input.probe(Scanner::AnchorFirst, offset).is_some(),
        is_match_of(input, input.probe(Scanner::AnchorFirst, offset).unwrap(), depth, offsets),
        0 <= i < offsets.len(),
    ensures
        input.addr_at(offset) - input.range <= input.probe(Scanner::AnchorFirst, offset).unwrap().start
            + offsets[i],
        input.probe(Scanner::AnchorFirst, offset).unwrap().start + offsets[i]
            + input.values[i].width() <= input.addr_at(offset) + input.range,
{
    let window = input.probe(Scanner::AnchorFirst, offset).unwrap();
    lemma_probe_in_bounds(input, Scanner::AnchorFirst, offset);
    lemma_match_shape(input, window, depth, offsets);
    assert(offsets[i] + input.values[i].width() <= window.len);
    assert(0 <= offsets[i]);
}

/// Whether every value is `width` bytes wide.
pub open spec fn uniform_width(values: Seq<SearchValue>, width: int) -> bool {
    forall|i: int| 0 <= i < values.len() ==> (#[trigger] values[i]).width() == width
}

/// The sum of two multiples of a number is a multiple of it, and so is
/// their difference.
pub proof fn lemma_multiples(a: int, b: int, step: int)
    requires
        step > 0,
        a % step == 0,
        b % step == 0,
    ensures
        (a + b) % step == 0,
        (a - b) % step == 0,
{
    vstd::arithmetic::div_mod::lemma_fundamental_div_mod(a, step);
    vstd::arithmetic::div_mod::lemma_fundamental_div_mod(b, step);
    let qa = a / step;
    let qb = b / step;
    assert(a + b == (qa + qb) * step && a - b == (qa - qb) * step) by (nonlinear_arith)
        requires
            a == step * qa,
            b == step * qb,
    ;
    vstd::arithmetic::div_mod::lemma_mod_multiples_basic(qa + qb, step);
    vstd::arithmetic::div_mod::lemma_mod_multiples_basic(qa - qb, step);
}

/// A multiple of a multiple of a number is a multiple of the number.
pub proof fn lemma_multiple_of_multiple(a: int, middle: int, step: int)
    requires
        step > 0,
        middle > 0,
        middle % step == 0,
        a % middle == 0,
    ensures
        a % step == 0,
{
    vstd::arithmetic::div_mod::lemma_fundamental_div_mod(a, middle);
    vstd::arithmetic::div_mod::lemma_fundamental_div_mod(middle, step);
    let q = a / middle;
    let r = middle / step;
    assert(a == middle * q);
    assert(middle == step * r);
    assert(a == step * (r * q)) by (nonlinear_arith)
        requires
            a == middle * q,
            middle == step * r,
    ;
    vstd::arithmetic::div_mod::lemma_mod_multiples_basic(r * q, step);
    assert(step * (r * q) == (r * q) * step) by (nonlinear_arith);
}

/// The widths of values that are all equally wide sum to a multiple of
/// their width.
pub proof fn lemma_prefix_uniform(values: Seq<SearchValue>, n: int, width: int)
    requires
        0 <= n <= values.len(),
        width > 0,
        uniform_width(values, width),
    ensures
        (prefix_width(values, n) as int) % width == 0,
    decreases n,
{
    if n > 0 {
        lemma_prefix_uniform(values, n - 1, width);
        assert(values[n - 1].width() == width);
        assert(width % width == 0) by (nonlinear_arith)
            requires
                width > 0,
        ;
        lemma_multiples(prefix_width(values, n - 1) as int, width, width);
    } else {
        assert(0int % width == 0) by (nonlinear_arith)
            requires
                width > 0,
        ;
    }
}

/// Where all values are equally wide, an ordered match that starts at a
/// multiple of the width places every value at a multiple of the width.
pub proof fn lemma_ordered_multiples(
    window: Seq<u8>,
    values: Seq<SearchValue>,
    index: int,
    cursor: int,
    width: int,
)
    requires
        0 <= index <= values.len(),
        0 <= cursor,
        width > 0,
        uniform_width(values, width),
        cursor % width == 0,
    ensures
        match ordered_offsets_from(window, values, index, cursor) {
            Some(offsets) => forall|i: int|
                0 <= i < offsets.len() ==> #[trigger] offsets[i] % width == 0,
            None => true,
        },
    decreases values.len() - index,
{
    if index < values.len() {
        lemma_first_hit(window, values[index], cursor);
        match first_hit(window, values[index], cursor) {
            None => {},
            Some(at) => {
                assert(values[index].width() == width);
                lemma_multiples(at - cursor, cursor, width);
                assert(width % width == 0) by (nonlinear_arith)
                    requires
                        width > 0,
                ;
                lemma_multiples(at, width, width);
                lemma_ordered_multiples(window, values, index + 1, at + width, width);
                match ordered_offsets_from(window, values, index + 1, at + width) {
                    None => {},
                    Some(rest) => {
                        let offsets = seq![at] + rest;
                        assert forall|i: int| 0 <= i < offsets.len() implies #[trigger] offsets[i]
                            % width == 0 by {
                            if i > 0 {
                                assert(offsets[i] == rest[i - 1]);
                            }
                        }
                    },
                }
            },
        }
    }
}

/// Where all values are equally wide, every combination of the exhaustive
/// matcher that starts at a multiple of the width places every value at a
/// multiple of the width.
pub proof fn lemma_deep_multiples(
    window: Seq<u8>,
    values: Seq<SearchValue>,
    mode: SearchMode,
    index: int,
    cursor: int,
    width: int,
)
    requires
        0 <= index <= values.len(),
        0 <= cursor,
        width > 0,
        uniform_width(values, width),
        cursor % width == 0,
    ensures
        forall|a: int, j: int|
            0 <= a < deep_assignments(window, values, mode, index, cursor).len() && 0 <= j
                < deep_assignments(window, values, mode, index, cursor)[a].len()
                ==> #[trigger] deep_assignments(window, values, mode, index, cursor)[a][j] % width
                == 0,
    decreases values.len() - index, window.len() - cursor,
{
    let all = deep_assignments(window, values, mode, index, cursor);
    if index < values.len() && cursor + values[index].width() <= window.len() {
        assert(values[index].width() == width);
        let next = crate::deep::next_cursor(mode, cursor, width as nat);
        assert(width % width == 0 && 0int % width == 0) by (nonlinear_arith)
            requires
                width > 0,
        ;
        lemma_multiples(cursor, width, width);
        let tails = deep_assignments(window, values, mode, index + 1, next);
        let later = deep_assignments(window, values, mode, index, cursor + width);
        lemma_deep_multiples(window, values, mode, index + 1, next, width);
        lemma_deep_multiples(window, values, mode, index, cursor + width, width);
        let here = if values[index].matches(window.subrange(cursor, cursor + width)) {
            crate::deep::prepend_each(cursor, tails)
        } else {
            Seq::empty()
        };
        assert(all == here + later);
        assert forall|a: int, j: int| 0 <= a < all.len() && 0 <= j < all[a].len() implies #[trigger] all[a][j]
            % width == 0 by {
            if a < here.len() {
                assert(all[a] == seq![cursor] + tails[a]);
                if j > 0 {
                    assert(all[a][j] == tails[a][j - 1]);
                }
            } else {
                assert(all[a] == later[a - here.len()]);
            }
        }
    }
}

/// Alignment: where all values of the query are equally wide, every
/// address that a scan hands out is a multiple of that width, provided
/// that the aligned scan steps by a multiple of the width, and that for an
/// unordered query the range, the address of the buffer and the start of
/// the region are multiples of the width.
pub proof fn lemma_alignment(
    input: ScanInput,
    scanner: Scanner,
    depth: Depth,
    width: int,
    pair: ValuePair,
)
    requires
        in_address_space(input),
        width > 0,
        uniform_width(input.values, width),
        scanner == Scanner::Aligned ==> input.min_element_size % width == 0,
        scanner == Scanner::AnchorFirst && input.mode == SearchMode::Unordered ==> input.range
            % width == 0 && input.buffer_addr % width == 0 && input.region_start % width == 0,
        input.pairs(scanner, depth).contains(pair),
    ensures
        (pair.addr as int) % (pair.value_type.spec_size() as int) == 0,
        pair.value_type.spec_size() == width,
{
    lemma_pair_origin(input, scanner, depth, pair);
    let (offset, offsets, i) = choose|offset: int, offsets: Seq<int>, i: int|
        {
            &&& 0 <= offset < input.buffer.len()
            &&& input.probe(scanner, offset).is_some()
            &&& #[trigger] is_match_of(input, input.probe(scanner, offset).unwrap(), depth, offsets)
            &&& 0 <= i < offsets.len()
            &&& pair == #[trigger] input.pairs_of(input.probe(scanner, offset).unwrap(), offsets)[i]
        };
    let window = input.probe(scanner, offset).unwrap();
    let bytes = input.window_bytes(window);
    lemma_probe_in_bounds(input, scanner, offset);
    lemma_match_shape(input, window, depth, offsets);
    assert(input.values[i].width() == width);
    assert(0int % width == 0) by (nonlinear_arith)
        requires
            width > 0,
    ;
    // the offset is a multiple of the width
    match depth {
        Depth::FirstMatch => {
            match input.mode {
                SearchMode::Ordered => {
                    lemma_ordered_multiples(bytes, input.values, 0, 0, width);
                    let found = ordered_offsets_from(bytes, input.values, 0, 0);
                    assert(found == Some(offsets));
                    assert(found.unwrap()[i] % width == 0);
                },
                SearchMode::Unordered => {
                    lemma_unordered_offsets(bytes, input.values);
                    assert(unordered_offsets(bytes, input.values) == Some(offsets));
                    assert(offsets[i] % (input.values[i].width() as int) == 0);
                },
            }
        },
        Depth::Exhaustive { limit } => {
            let all = deep_assignments(bytes, input.values, input.mode, 0, 0);
            let handed = deep_offsets(bytes, input.values, input.mode, limit as nat);
            let a = choose|a: int| 0 <= a < handed.len() && #[trigger] handed[a] == offsets;
            assert(handed[a] == all[a]);
            lemma_deep_multiples(bytes, input.values, input.mode, 0, 0, width);
            assert(all[a][i] % width == 0);
        },
    }
    assert(offsets[i] % width == 0);
    // the start of the window is a multiple of the width
    match scanner {
        Scanner::Aligned => {
            lemma_multiple_of_multiple(window.start, input.min_element_size, width);
        },
        Scanner::AnchorFirst => {
            let k = anchor_index(input.values).unwrap();
            lemma_first_anchor(input.values, 0);
            let pattern = anchor_pattern(input.values[k]).unwrap();
            lemma_anchor_pattern_len(input.values[k]);
            assert(input.values[k].width() == width);
            let anchor_addr = input.addr_at(offset);
            assert(anchor_addr % width == 0);
            match input.mode {
                SearchMode::Ordered => {
                    lemma_prefix_uniform(input.values, k, width);
                    lemma_multiples(anchor_addr, prefix_width(input.values, k) as int, width);
                },
                SearchMode::Unordered => {
                    lemma_multiples(anchor_addr, input.range, width);
                },
            }
        },
    }
    assert(window.start % width == 0);
    lemma_multiples(window.start, offsets[i], width);
    assert(pair.addr == window.start + offsets[i]);
}

/// The first anchor found from an index on lies at or behind the index,
/// among the values, and has a pattern.
pub proof fn lemma_first_anchor(values: Seq<SearchValue>, from: int)
    requires
        0 <= from,
    ensures
        match first_anchor_from(values, from) {
            Some(k) => from <= k < values.len() && anchor_pattern(values[k]).is_some()
                && forall|i: int| from <= i < k ==> anchor_pattern(#[trigger] values[i]).is_none(),
            None => forall|i: int|
                from <= i < values.len() ==> anchor_pattern(#[trigger] values[i]).is_none(),
        },
    decreases values.len() - from,
{
    if from < values.len() && anchor_pattern(values[from]).is_none() {
        lemma_first_anchor(values, from + 1);
    }
}

/// The anchor pattern of a value is as long as the value is wide.
pub proof fn lemma_anchor_pattern_len(value: SearchValue)
    requires
        anchor_pattern(value).is_some(),
    ensures
        anchor_pattern(value).unwrap().len() == value.width(),
{
    match value {
        SearchValue::FixedInt { value: bytes, value_type } => {
            assert(bytes@.len() == 8);
        },
        SearchValue::FixedFloat { pattern, value_type, .. } => {
            assert(pattern@.len() == 8);
        },
        _ => {},
    }
}

/// An ordered match needs room: where the values from `index` on are
/// matched from `cursor` on, the window holds, behind the offset of the
/// first of them, at least as many bytes as they are wide together.
pub proof fn lemma_ordered_needs_room(
    window: Seq<u8>,
    values: Seq<SearchValue>,
    index: int,
    cursor: int,
)
    requires
        0 <= index < values.len(),
        0 <= cursor,
        ordered_offsets_from(window, values, index, cursor).is_some(),
    ensures
        cursor <= ordered_offsets_from(window, values, index, cursor).unwrap()[0],
        ordered_offsets_from(window, values, index, cursor).unwrap()[0] + prefix_width(
            values,
            values.len() as int,
        ) - prefix_width(values, index) <= window.len(),
        values[index].matches(
            window.subrange(
                ordered_offsets_from(window, values, index, cursor).unwrap()[0],
                ordered_offsets_from(window, values, index, cursor).unwrap()[0]
                    + values[index].width(),
            ),
        ),
    decreases values.len() - index,
{
    lemma_first_hit(window, values[index], cursor);
    let at = first_hit(window, values[index], cursor).unwrap();
    let next = at + values[index].width();
    let rest = ordered_offsets_from(window, values, index + 1, next).unwrap();
    assert(ordered_offsets_from(window, values, index, cursor).unwrap() == seq![at] + rest);
    assert((seq![at] + rest)[0] == at);
    if index + 1 < values.len() {
        lemma_ordered_needs_room(window, values, index + 1, next);
        assert(prefix_width(values, index + 1) == prefix_width(values, index)
            + values[index].width());
    } else {
        assert(prefix_width(values, values.len() as int) == prefix_width(values, index)
            + values[index].width());
    }
}

/// The least multiple of a step at or above an address is not below the
/// address.
pub proof fn lemma_align_up_not_below(addr: int, step: int)
    requires
        step > 0,
    ensures
        crate::scan::align_up(addr, step) >= addr,
{
    assert(0 <= addr % step < step) by (nonlinear_arith)
        requires
            step > 0,
    ;
}

/// The pairs that the two scanners hand out at one offset, where the query
/// is ordered and dense and starts with a fixed integer.
proof fn lemma_dense_same_at(input: ScanInput, offset: int)
    requires
        in_address_space(input),
        input.mode == SearchMode::Ordered,
        anchor_index(input.values) == Some(0int),
        input.values[0] is FixedInt,
        input.range == input.total_width(),
        input.min_element_size == input.values[0].width(),
        0 <= offset < input.buffer.len(),
    ensures
        input.pairs_at(Scanner::AnchorFirst, Depth::FirstMatch, offset) == input.pairs_at(
            Scanner::Aligned,
            Depth::FirstMatch,
            offset,
        ),
{
    let values = input.values;
    lemma_first_anchor(values, 0);
    let pattern = anchor_pattern(values[0]).unwrap();
    lemma_anchor_pattern_len(values[0]);
    let width = values[0].width() as int;
    let addr = input.addr_at(offset);
    let total = input.total_width();
    crate::types::lemma_prefix_width_monotone(values, 1, values.len() as int);
    assert(prefix_width(values, 1) == prefix_width(values, 0) + values[0].width());
    assert(width <= total);
    lemma_align_up_not_below(input.search_start(), input.min_element_size);
    assert(prefix_width(values, 0) == 0);
    let anchored = input.probe(Scanner::AnchorFirst, offset);
    let aligned = input.aligned_window(offset);
    match aligned {
        Some(window) => {
            if occurs_at(input.buffer, pattern, offset) {
                assert(input.anchor_candidate(offset));
                assert(anchored == Some(window));
            } else {
                assert(!input.anchor_candidate(offset));
                let bytes = input.window_bytes(window);
                if ordered_offsets(bytes, values).is_some() {
                    lemma_ordered_needs_room(bytes, values, 0, 0);
                    let at = ordered_offsets(bytes, values).unwrap()[0];
                    assert(at == 0);
                    assert(bytes.subrange(0, width) =~= input.buffer.subrange(
                        offset,
                        offset + width,
                    ));
                    assert(false);
                }
            }
        },
        None => {
            match anchored {
                Some(window) => {
                    assert(input.anchor_candidate(offset));
                    assert(window.start == addr);
                    assert(addr + input.range > input.search_end());
                    let bytes = input.window_bytes(window);
                    assert(bytes.len() < total);
                    if ordered_offsets(bytes, values).is_some() {
                        lemma_ordered_needs_room(bytes, values, 0, 0);
                        assert(false);
                    }
                },
                None => {},
            }
        },
    }
}

/// The pairs that the two scanners hand out below an offset, where the
/// query is ordered and dense and starts with a fixed integer.
proof fn lemma_dense_same_below(input: ScanInput, upto: int)
    requires
        in_address_space(input),
        input.mode == SearchMode::Ordered,
        anchor_index(input.values) == Some(0int),
        input.values[0] is FixedInt,
        input.range == input.total_width(),
        input.min_element_size == input.values[0].width(),
        0 <= upto <= input.buffer.len(),
    ensures
        input.pairs_below(Scanner::AnchorFirst, Depth::FirstMatch, upto) == input.pairs_below(
            Scanner::Aligned,
            Depth::FirstMatch,
            upto,
        ),
    decreases upto,
{
    if upto > 0 {
        lemma_dense_same_below(input, upto - 1);
        lemma_dense_same_at(input, upto - 1);
    }
}

/// Anchor equivalence: for an ordered query that starts with a fixed
/// integer and whose range is just the summed widths of its values, the
/// anchor-first scan and the aligned scan that steps by the width of the
/// first value hand out the same pairs in the same order.
pub proof fn lemma_anchor_equivalence(input: ScanInput)
    requires
        in_address_space(input),
        input.mode == SearchMode::Ordered,
        anchor_index(input.values) == Some(0int),
        input.values[0] is FixedInt,
        input.range == input.total_width(),
        input.min_element_size == input.values[0].width(),
    ensures
        input.pairs(Scanner::AnchorFirst, Depth::FirstMatch) == input.pairs(
            Scanner::Aligned,
            Depth::FirstMatch,
        ),
{
    lemma_dense_same_below(input, input.buffer.len() as int);
}

/// Whether two region scans stand at the same point of the same search:
/// they agree in everything but, possibly, the bytes kept from the chunk
/// before, and in those too where the next chunk will be scanned together
/// with them.
pub open spec fn same_search(first: RegionScanView, second: RegionScanView) -> bool {
    &&& first.start == second.start
    &&& first.end == second.end
    &&& first.chunk_size == second.chunk_size
    &&& first.page_size == second.page_size
    &&& first.depth == second.depth
    &&& first.values == second.values
    &&& first.mode == second.mode
    &&& first.range == second.range
    &&& first.current == second.current
    &&& first.is_first_chunk == second.is_first_chunk
    &&& first.prev_chunk_valid == second.prev_chunk_valid
    &&& first.results == second.results
    &&& (first.overlaps() && !first.done() ==> first.carried == second.carried)
}

/// Determinism: two scans of the same region for the same query that
/// stand at the same point and get the same outcomes from the reader find
/// the same pairs, whatever their buffers held before.
pub proof fn lemma_scan_deterministic(
    first: RegionScanView,
    second: RegionScanView,
    outcomes: Seq<ChunkOutcome>,
)
    requires
        same_search(first, second),
    ensures
        same_search(first.replay(outcomes), second.replay(outcomes)),
        first.replay(outcomes).results == second.replay(outcomes).results,
    decreases outcomes.len(),
{
    if outcomes.len() > 0 {
        lemma_scan_deterministic(first, second, outcomes.drop_last());
    }
}

/// Whether two region scans stand at the same point of the same search
/// but for their depth: the first takes the first match of each window,
/// the second every combination, and the second holds every address that
/// the first holds.
pub open spec fn same_but_deeper(first: RegionScanView, second: RegionScanView) -> bool {
    &&& first.start == second.start
    &&& first.end == second.end
    &&& first.chunk_size == second.chunk_size
    &&& first.page_size == second.page_size
    &&& first.depth == Depth::FirstMatch
    &&& second.depth matches Depth::Exhaustive { limit } && limit >= 1
    &&& first.values == second.values
    &&& first.mode == second.mode
    &&& first.range == second.range
    &&& first.current == second.current
    &&& first.is_first_chunk == second.is_first_chunk
    &&& first.prev_chunk_valid == second.prev_chunk_valid
    &&& (first.overlaps() && !first.done() ==> first.carried == second.carried)
    &&& forall|addr: u64| first.results.contains_key(addr) ==> second.results.contains_key(addr)
}

/// Deep superset, chunk by chunk: a region scan that takes every
/// combination of each window finds every address that the scan of the
/// same region finds which takes the first match of each window, when
/// both get the same outcomes from the reader.
pub proof fn lemma_deep_scan_finds_more(
    first: RegionScanView,
    second: RegionScanView,
    outcomes: Seq<ChunkOutcome>,
)
    requires
        same_but_deeper(first, second),
    ensures
        same_but_deeper(first.replay(outcomes), second.replay(outcomes)),
    decreases outcomes.len(),
{
    if outcomes.len() > 0 {
        lemma_deep_scan_finds_more(first, second, outcomes.drop_last());
        let before = first.replay(outcomes.drop_last());
        let deeper = second.replay(outcomes.drop_last());
        if !before.done() {
            match outcomes.last() {
                Some((data, status)) => {
                    if RegionScanView::scans(outcomes.last()) {
                        let input = before.chunk_input(data, status);
                        assert(input == deeper.chunk_input(data, status));
                        let limit = deeper.depth->limit;
                        let found = Map::<u64, ValueType>::empty();
                        let shallow = input.pairs(input.scanner(), Depth::FirstMatch);
                        let deep = input.pairs(input.scanner(), Depth::Exhaustive { limit });
                        let after = before.after_chunk(outcomes.last());
                        let after_deeper = deeper.after_chunk(outcomes.last());
                        assert forall|addr: u64| after.results.contains_key(addr) implies after_deeper.results.contains_key(
                            addr,
                        ) by {
                            lemma_insert_all_dom(before.results, shallow, addr);
                            lemma_insert_all_dom(deeper.results, deep, addr);
                            lemma_insert_all_dom(found, shallow, addr);
                            lemma_insert_all_dom(found, deep, addr);
                            if !before.results.contains_key(addr) {
                                lemma_deep_finds_what_first_match_finds(
                                    input,
                                    input.scanner(),
                                    limit,
                                    found,
                                    addr,
                                );
                            }
                        }
                    }
                },
                None => {},
            }
        }
    }
}

/// Every pair that the scan for a single value hands out below an offset
/// is handed out at one of the offsets below it, where the scan finds the
/// value.
pub proof fn lemma_single_pair_origin(scan: SingleScan, upto: int, pair: ValuePair)
    requires
        scan.pairs_below(upto).contains(pair),
    ensures
        exists|offset: int|
            0 <= offset < upto && #[trigger] scan.hit_at(offset) && pair == (ValuePair {
                addr: (scan.buffer_addr + offset) as u64,
                value_type: scan.value_type,
            }),
    decreases upto,
{
    if upto > 0 {
        let front = scan.pairs_below(upto - 1);
        let all = scan.pairs_below(upto);
        let i = choose|i: int| 0 <= i < all.len() && all[i] == pair;
        if scan.hit_at(upto - 1) && i == front.len() {
            assert(scan.hit_at(upto - 1));
        } else {
            assert(front[i] == pair);
            lemma_single_pair_origin(scan, upto - 1, pair);
            let offset = choose|offset: int|
                0 <= offset < upto - 1 && #[trigger] scan.hit_at(offset) && pair == (ValuePair {
                    addr: (scan.buffer_addr + offset) as u64,
                    value_type: scan.value_type,
                });
            assert(scan.hit_at(offset));
        }
    }
}

/// Page safety and alignment of the scan for a single value: every
/// address that it hands out lies on a page that was read, inside buffer
/// and region, holds a match, and is a multiple of the alignment.
pub proof fn lemma_single_scan_is_safe(scan: SingleScan, pair: ValuePair)
    requires
        0 <= scan.buffer_addr,
        scan.buffer_addr + scan.buffer.len() <= u64::MAX,
        scan.alignment > 0,
        scan.pairs().contains(pair),
    ensures
        scan.status.address_ok(pair.addr as int),
        (pair.addr as int) % scan.alignment == 0,
        scan.search_start() <= pair.addr,
        pair.addr + scan.value_type.spec_size() <= scan.search_end(),
        pair.value_type == scan.value_type,
        scan.value.matches(
            scan.buffer.subrange(
                pair.addr - scan.buffer_addr,
                pair.addr - scan.buffer_addr + scan.value_type.spec_size(),
            ),
        ),
{
    lemma_single_pair_origin(scan, scan.buffer.len() as int, pair);
    let offset = choose|offset: int|
        0 <= offset < scan.buffer.len() && #[trigger] scan.hit_at(offset) && pair == (ValuePair {
            addr: (scan.buffer_addr + offset) as u64,
            value_type: scan.value_type,
        });
    assert(scan.probes_at(offset));
    lemma_align_up_not_below(scan.search_start(), scan.alignment);
}

/// A first hit at or behind an offset is a first hit in the window from
/// that offset on.
pub proof fn lemma_first_hit_skips(window: Seq<u8>, value: SearchValue, from: int, skipped: int)
    requires
        0 <= skipped <= from,
        skipped <= window.len(),
        first_hit(window, value, from).is_some(),
    ensures
        first_hit(window.skip(skipped), value, from - skipped) == Some(
            first_hit(window, value, from).unwrap() - skipped,
        ),
    decreases window.len() - from,
{
    let w = value.width() as int;
    let rest = window.skip(skipped);
    assert(rest.subrange(from - skipped, from - skipped + w) =~= window.subrange(from, from + w));
    if !value.matches(window.subrange(from, from + w)) {
        lemma_first_hit_skips(window, value, from + w, skipped);
    }
}

/// An ordered match at or behind an offset is an ordered match in the
/// window from that offset on.
pub proof fn lemma_ordered_skips(
    window: Seq<u8>,
    values: Seq<SearchValue>,
    index: int,
    cursor: int,
    skipped: int,
)
    requires
        0 <= index <= values.len(),
        0 <= skipped <= cursor,
        skipped <= window.len(),
        ordered_offsets_from(window, values, index, cursor).is_some(),
    ensures
        ordered_offsets_from(window.skip(skipped), values, index, cursor - skipped).is_some(),
        ordered_offsets_from(window.skip(skipped), values, index, cursor - skipped).unwrap().len()
            == ordered_offsets_from(window, values, index, cursor).unwrap().len(),
        forall|i: int|
            0 <= i < ordered_offsets_from(window, values, index, cursor).unwrap().len()
                ==> #[trigger] ordered_offsets_from(
                window.skip(skipped),
                values,
                index,
                cursor - skipped,
            ).unwrap()[i] == ordered_offsets_from(window, values, index, cursor).unwrap()[i]
                - skipped,
    decreases values.len() - index,
{
    if index < values.len() {
        lemma_first_hit(window, values[index], cursor);
        lemma_first_hit_skips(window, values[index], cursor, skipped);
        let at = first_hit(window, values[index], cursor).unwrap();
        let next = at + values[index].width();
        lemma_ordered_skips(window, values, index + 1, next, skipped);
        let rest = ordered_offsets_from(window, values, index + 1, next).unwrap();
        let offsets = ordered_offsets_from(window, values, index, cursor).unwrap();
        assert(offsets == seq![at] + rest);
        let rest_skipped = ordered_offsets_from(
            window.skip(skipped),
            values,
            index + 1,
            next - skipped,
        ).unwrap();
        let skipped_offsets = ordered_offsets_from(
            window.skip(skipped),
            values,
            index,
            cursor - skipped,
        ).unwrap();
        assert(skipped_offsets == seq![at - skipped] + rest_skipped);
        assert forall|i: int| 0 <= i < offsets.len() implies #[trigger] skipped_offsets[i]
            == offsets[i] - skipped by {
            if i > 0 {
                assert(skipped_offsets[i] == rest_skipped[i - 1]);
                assert(offsets[i] == rest[i - 1]);
            }
        }
    }
}

/// Whether an anchor-first scan and an aligned scan of the same buffer can
/// be compared: the query is ordered and starts with a fixed integer, its
/// range holds all its values, the aligned scan steps by the width of the
/// first value, every address of buffer and region lies on a page that was
/// read, and behind every place that the anchor-first scan looks at there
/// are `range` bytes left in buffer and region.
pub open spec fn has_room(input: ScanInput) -> bool {
    &&& in_address_space(input)
    &&& input.mode == SearchMode::Ordered
    &&& anchor_index(input.values) == Some(0int)
    &&& input.values[0] is FixedInt
    &&& input.total_width() <= input.range
    &&& input.min_element_size == input.values[0].width()
    &&& forall|addr: int|
        input.search_start() <= addr < input.search_end() ==> #[trigger] input.status.address_ok(
            addr,
        )
    &&& forall|offset: int| #[trigger]
        input.anchor_candidate(offset) ==> input.addr_at(offset) + input.range
            <= input.search_end()
}

/// Anchor equivalence, one way: what the anchor-first scan finds, the
/// aligned scan finds.
pub proof fn lemma_aligned_finds_what_anchor_first_finds(input: ScanInput, addr: u64)
    requires
        has_room(input),
        has_addr(input.pairs(Scanner::AnchorFirst, Depth::FirstMatch), addr),
    ensures
        has_addr(input.pairs(Scanner::Aligned, Depth::FirstMatch), addr),
{
    lemma_pairs_come_from_probes(input, Scanner::AnchorFirst, addr);
    let (offset, i) = choose|offset: int, i: int| #[trigger]
        probe_finds(input, Scanner::AnchorFirst, addr, offset, i);
    lemma_first_anchor(input.values, 0);
    lemma_anchor_pattern_len(input.values[0]);
    assert(input.anchor_candidate(offset));
    assert(prefix_width(input.values, 0) == 0);
    let window = input.probe(Scanner::AnchorFirst, offset).unwrap();
    assert(window == Window { start: input.addr_at(offset), len: input.range });
    assert(input.aligned_window(offset) == Some(window));
    assert(probe_finds(input, Scanner::Aligned, addr, offset, i));
    lemma_probes_give_pairs(input, Scanner::Aligned, addr, offset, i);
}

/// The ordered match of a window, read from its first value on: the
/// window that starts where the first value lies has the same match, moved
/// by the offset of the first value.
pub proof fn lemma_match_moves_to_first_value(
    buffer: Seq<u8>,
    values: Seq<SearchValue>,
    offset: int,
    len: int,
    i: int,
)
    requires
        0 <= offset,
        0 <= len,
        values.len() > 0,
        ordered_offsets(buffer.subrange(offset, offset + len), values).is_some(),
        offset + ordered_offsets(buffer.subrange(offset, offset + len), values).unwrap()[0] + len
            <= buffer.len(),
        0 <= i < values.len(),
    ensures
        ({
            let offsets = ordered_offsets(buffer.subrange(offset, offset + len), values).unwrap();
            let moved = ordered_offsets(
                buffer.subrange(offset + offsets[0], offset + offsets[0] + len),
                values,
            );
            &&& offsets.len() == values.len()
            &&& 0 <= offsets[0]
            &&& values[0].matches(
                buffer.subrange(offset + offsets[0], offset + offsets[0] + values[0].width()),
            )
            &&& moved.is_some()
            &&& moved.unwrap().len() == values.len()
            &&& moved.unwrap()[i] == offsets[i] - offsets[0]
        }),
{
    let bytes = buffer.subrange(offset, offset + len);
    let offsets = ordered_offsets(bytes, values).unwrap();
    let width = values[0].width() as int;
    lemma_ordered_offsets(bytes, values, 0, 0);
    lemma_first_hit(bytes, values[0], 0);
    let lead = first_hit(bytes, values[0], 0).unwrap();
    let rest = ordered_offsets_from(bytes, values, 1, lead + width).unwrap();
    assert(offsets == seq![lead] + rest);
    assert(offsets[0] == lead);
    assert(bytes.subrange(lead, lead + width) =~= buffer.subrange(
        offset + lead,
        offset + lead + width,
    ));
    assert(first_hit(bytes, values[0], lead) == Some(lead));
    assert(ordered_offsets_from(bytes, values, 0, lead) == Some(offsets));
    lemma_ordered_skips(bytes, values, 0, lead, lead);
    let long = buffer.subrange(offset + lead, offset + lead + len);
    assert(long.take(len - lead) =~= bytes.skip(lead));
    lemma_ordered_extends(long, len - lead, values, 0, 0);
}

/// Anchor equivalence, the other way: what the aligned scan finds, the
/// anchor-first scan finds.
pub proof fn lemma_anchor_first_finds_what_aligned_finds(input: ScanInput, addr: u64)
    requires
        has_room(input),
        has_addr(input.pairs(Scanner::Aligned, Depth::FirstMatch), addr),
    ensures
        has_addr(input.pairs(Scanner::AnchorFirst, Depth::FirstMatch), addr),
{
    let values = input.values;
    lemma_pairs_come_from_probes(input, Scanner::Aligned, addr);
    let (offset, i) = choose|offset: int, i: int| #[trigger]
        probe_finds(input, Scanner::Aligned, addr, offset, i);
    lemma_ordered_offsets(
        input.window_bytes(input.probe(Scanner::Aligned, offset).unwrap()),
        values,
        0,
        0,
    );
    lemma_anchor_is_probed(input, offset, i);
    let window = input.probe(Scanner::Aligned, offset).unwrap();
    let offsets = ordered_offsets(input.window_bytes(window), values).unwrap();
    assert(probe_finds(input, Scanner::AnchorFirst, addr, offset + offsets[0], i));
    lemma_probes_give_pairs(input, Scanner::AnchorFirst, addr, offset + offsets[0], i);
}

/// Where the aligned scan finds a match, the anchor-first scan probes the
/// window that starts at the first value of the match, and finds the same
/// match there.
pub proof fn lemma_anchor_is_probed(input: ScanInput, offset: int, i: int)
    requires
        has_room(input),
        0 <= offset < input.buffer.len(),
        input.aligned_window(offset).is_some(),
        ordered_offsets(
            input.window_bytes(input.aligned_window(offset).unwrap()),
            input.values,
        ).is_some(),
        0 <= i < input.values.len(),
    ensures
        ({
            let window = input.aligned_window(offset).unwrap();
            let offsets = ordered_offsets(input.window_bytes(window), input.values).unwrap();
            let found = input.probe(Scanner::AnchorFirst, offset + offsets[0]);
            &&& offsets.len() == input.values.len()
            &&& 0 <= offset + offsets[0] < input.buffer.len()
            &&& found.is_some()
            &&& found.unwrap().start == window.start + offsets[0]
            &&& ordered_offsets(input.window_bytes(found.unwrap()), input.values).is_some()
            &&& ordered_offsets(input.window_bytes(found.unwrap()), input.values).unwrap().len()
                == input.values.len()
            &&& ordered_offsets(input.window_bytes(found.unwrap()), input.values).unwrap()[i]
                == offsets[i] - offsets[0]
        }),
{
    let values = input.values;
    lemma_first_anchor(values, 0);
    let pattern = anchor_pattern(values[0]).unwrap();
    lemma_anchor_pattern_len(values[0]);
    let width = values[0].width() as int;
    let start = input.addr_at(offset);
    let window = input.aligned_window(offset).unwrap();
    assert(window == Window { start, len: input.range });
    let bytes = input.window_bytes(window);
    assert(bytes == input.buffer.subrange(offset, offset + input.range));
    let offsets = ordered_offsets(bytes, values).unwrap();
    lemma_ordered_offsets(bytes, values, 0, 0);
    lemma_first_hit(bytes, values[0], 0);
    let lead = offsets[0];
    assert(first_hit(bytes, values[0], 0) == Some(lead)) by {
        let at = first_hit(bytes, values[0], 0).unwrap();
        let rest = ordered_offsets_from(bytes, values, 1, at + width).unwrap();
        assert(offsets == seq![at] + rest);
    }
    assert(bytes.subrange(lead, lead + width) =~= input.buffer.subrange(
        offset + lead,
        offset + lead + width,
    ));
    assert(occurs_at(input.buffer, pattern, offset + lead));
    lemma_multiples(start, lead, width);
    lemma_align_up_not_below(input.search_start(), input.min_element_size);
    assert(input.anchor_candidate(offset + lead));
    assert(prefix_width(values, 0) == 0);
    assert(input.status.address_ok(start + lead));
    let found = input.anchor_window(offset + lead).unwrap();
    assert(found == Window { start: start + lead, len: input.range });
    assert(input.window_bytes(found) == input.buffer.subrange(
        offset + lead,
        offset + lead + input.range,
    ));
    lemma_match_moves_to_first_value(input.buffer, values, offset, input.range, i);
}

/// Anchor equivalence with room: for an ordered query that starts with a
/// fixed integer and whose range holds all its values, the anchor-first
/// scan and the aligned scan that steps by the width of the first value
/// find the same addresses, where all pages were read and every place that
/// the anchor-first scan looks at has `range` bytes behind it.
pub proof fn lemma_anchor_equivalence_with_room(
    input: ScanInput,
    found: Map<u64, ValueType>,
    addr: u64,
)
    requires
        has_room(input),
    ensures
        insert_all(found, input.pairs(Scanner::AnchorFirst, Depth::FirstMatch)).contains_key(addr)
            <==> insert_all(found, input.pairs(Scanner::Aligned, Depth::FirstMatch)).contains_key(
            addr,
        ),
{
    lemma_insert_all_dom(found, input.pairs(Scanner::AnchorFirst, Depth::FirstMatch), addr);
    lemma_insert_all_dom(found, input.pairs(Scanner::Aligned, Depth::FirstMatch), addr);
    if has_addr(input.pairs(Scanner::AnchorFirst, Depth::FirstMatch), addr) {
        lemma_aligned_finds_what_anchor_first_finds(input, addr);
    }
    if has_addr(input.pairs(Scanner::Aligned, Depth::FirstMatch), addr) {
        lemma_anchor_first_finds_what_aligned_finds(input, addr);
    }
}

} // verus!
