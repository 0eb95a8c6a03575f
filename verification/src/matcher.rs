//! The group matcher: given a byte window and a query, finds where in the
//! window each value of the query lies.
use crate::types::{SearchMode, SearchQuery, SearchValue};
use vstd::prelude::*;
use vstd::slice::slice_subrange;

verus! {

/// The first offset at or after `from`, in steps of the value's width, at
/// which the window holds a match for `value`.
pub open spec fn first_hit(window: Seq<u8>, value: SearchValue, from: int) -> Option<int>
    decreases window.len() - from,
{
    if from < 0 || from + value.width() > window.len() {
        None
    } else if value.matches(window.subrange(from, from + value.width())) {
        Some(from)
    } else {
        first_hit(window, value, from + value.width())
    }
}

/// The offsets that an ordered match gives to the values from `index` on,
/// when the search for value `index` starts at `cursor`: each value takes
/// its first hit, and the next value is looked for behind it.
pub open spec fn ordered_offsets_from(
    window: Seq<u8>,
    values: Seq<SearchValue>,
    index: int,
    cursor: int,
) -> Option<Seq<int>>
    decreases values.len() - index,
{
    if index < 0 || index >= values.len() {
        Some(Seq::empty())
    } else {
        match first_hit(window, values[index], cursor) {
            None => None,
            Some(at) => match ordered_offsets_from(
                window,
                values,
                index + 1,
                at + values[index].width(),
            ) {
                None => None,
                Some(rest) => Some(seq![at] + rest),
            },
        }
    }
}

/// The offsets of an ordered match of all values in the window.
pub open spec fn ordered_offsets(window: Seq<u8>, values: Seq<SearchValue>) -> Option<Seq<int>> {
    ordered_offsets_from(window, values, 0, 0)
}

/// The offsets of an unordered match: every value takes its own first hit
/// from the start of the window, and all values must have one.
pub open spec fn unordered_offsets(window: Seq<u8>, values: Seq<SearchValue>) -> Option<
    Seq<int>,
> {
    if forall|i: int| 0 <= i < values.len() ==> (#[trigger] first_hit(window, values[i], 0)).is_some() {
        Some(Seq::new(values.len(), |i: int| first_hit(window, values[i], 0).unwrap()))
    } else {
        None
    }
}

/// The offsets of a match in the given mode.
pub open spec fn group_offsets(window: Seq<u8>, values: Seq<SearchValue>, mode: SearchMode)
    -> Option<Seq<int>> {
    match mode {
        SearchMode::Ordered => ordered_offsets(window, values),
        SearchMode::Unordered => unordered_offsets(window, values),
    }
}

/// The offsets of a vector, as mathematical integers.
pub open spec fn as_ints(offsets: Seq<usize>) -> Seq<int> {
    offsets.map_values(|o: usize| o as int)
}

/// Whether an executable result stands for the given offsets.
pub open spec fn same_offsets(found: Option<Vec<usize>>, expected: Option<Seq<int>>) -> bool {
    match found {
        None => expected.is_none(),
        Some(offsets) => expected == Some(as_ints(offsets@)),
    }
}

/// A first hit lies at a whole number of steps from the start, inside the
/// window, on bytes that match, and no step before it matches.
pub proof fn lemma_first_hit(window: Seq<u8>, value: SearchValue, from: int)
    requires
        0 <= from,
    ensures
        match first_hit(window, value, from) {
            Some(at) => {
                &&& from <= at
                &&& at + value.width() <= window.len()
                &&& (at - from) % (value.width() as int) == 0
                &&& value.matches(window.subrange(at, at + value.width()))
                &&& forall|k: int|
                    0 <= k && from + k * value.width() < at ==> !value.matches(
                        #[trigger] window.subrange(
                            from + k * value.width(),
                            from + k * value.width() + value.width(),
                        ),
                    )
            },
            None => forall|k: int|
                0 <= k && from + k * value.width() + value.width() <= window.len()
                    ==> !value.matches(
                    #[trigger] window.subrange(
                        from + k * value.width(),
                        from + k * value.width() + value.width(),
                    ),
                ),
        },
    decreases window.len() - from,
{
    let w = value.width() as int;
    if from + w > window.len() {
        assert forall|k: int| 0 <= k && from + k * w + w <= window.len() implies !value.matches(
            #[trigger] window.subrange(from + k * w, from + k * w + w),
        ) by {
            assert(k * w >= 0) by (nonlinear_arith)
                requires
                    k >= 0,
                    w >= 1,
            ;
        }
    } else if value.matches(window.subrange(from, from + w)) {
        assert((from - from) % w == 0) by (nonlinear_arith)
            requires
                w >= 1,
        ;
        assert forall|k: int| 0 <= k && from + k * w < from implies !value.matches(
            #[trigger] window.subrange(from + k * w, from + k * w + w),
        ) by {
            assert(k * w >= 0) by (nonlinear_arith)
                requires
                    k >= 0,
                    w >= 1,
            ;
        }
    } else {
        lemma_first_hit(window, value, from + w);
        match first_hit(window, value, from + w) {
            Some(at) => {
                assert((at - from) % w == 0) by (nonlinear_arith)
                    requires
                        (at - (from + w)) % w == 0,
                        w >= 1,
                ;
                assert forall|k: int| 0 <= k && from + k * w < at implies !value.matches(
                    #[trigger] window.subrange(from + k * w, from + k * w + w),
                ) by {
                    if k == 0 {
                        assert(from + k * w == from);
                    } else {
                        assert(from + k * w == (from + w) + (k - 1) * w) by (nonlinear_arith);
                        assert(!value.matches(
                            window.subrange(
                                (from + w) + (k - 1) * w,
                                (from + w) + (k - 1) * w + w,
                            ),
                        ));
                    }
                }
            },
            None => {
                assert forall|k: int|
                    0 <= k && from + k * w + w <= window.len() implies !value.matches(
                    #[trigger] window.subrange(from + k * w, from + k * w + w),
                ) by {
                    if k == 0 {
                        assert(from + k * w == from);
                    } else {
                        assert(from + k * w == (from + w) + (k - 1) * w) by (nonlinear_arith);
                        assert(!value.matches(
                            window.subrange(
                                (from + w) + (k - 1) * w,
                                (from + w) + (k - 1) * w + w,
                            ),
                        ));
                    }
                }
            },
        }
    }
}

/// The offsets of an ordered match are as many as the values looked for;
/// each lies at or behind the cursor, on bytes that match its value, and
/// each value ends before the next begins and before the window ends.
pub proof fn lemma_ordered_offsets(
    window: Seq<u8>,
    values: Seq<SearchValue>,
    index: int,
    cursor: int,
)
    requires
        0 <= index <= values.len(),
        0 <= cursor,
    ensures
        match ordered_offsets_from(window, values, index, cursor) {
            Some(offsets) => {
                &&& offsets.len() == values.len() - index
                &&& forall|i: int|
                    0 <= i < offsets.len() ==> {
                        &&& cursor <= #[trigger] offsets[i]
                        &&& offsets[i] + values[index + i].width() <= window.len()
                        &&& values[index + i].matches(
                            window.subrange(offsets[i], offsets[i] + values[index + i].width()),
                        )
                    }
                &&& forall|i: int|
                    0 <= i < offsets.len() - 1 ==> #[trigger] offsets[i] + values[index
                        + i].width() <= offsets[i + 1]
            },
            None => true,
        },
    decreases values.len() - index,
{
    if index < values.len() {
        lemma_first_hit(window, values[index], cursor);
        match first_hit(window, values[index], cursor) {
            None => {},
            Some(at) => {
                let next = at + values[index].width();
                lemma_ordered_offsets(window, values, index + 1, next);
                match ordered_offsets_from(window, values, index + 1, next) {
                    None => {},
                    Some(rest) => {
                        let offsets = seq![at] + rest;
                        assert(offsets[0] == at);
                        assert forall|i: int| 0 <= i < offsets.len() implies {
                            &&& cursor <= #[trigger] offsets[i]
                            &&& offsets[i] + values[index + i].width() <= window.len()
                            &&& values[index + i].matches(
                                window.subrange(
                                    offsets[i],
                                    offsets[i] + values[index + i].width(),
                                ),
                            )
                        } by {
                            if i > 0 {
                                assert(offsets[i] == rest[i - 1]);
                            }
                        }
                        assert forall|i: int| 0 <= i < offsets.len() - 1 implies #[trigger] offsets[i]
                            + values[index + i].width() <= offsets[i + 1] by {
                            assert(offsets[i + 1] == rest[i]);
                            if i > 0 {
                                assert(offsets[i] == rest[i - 1]);
                            }
                        }
                    },
                }
            },
        }
    }
}

/// The offsets of an unordered match are as many as the values looked for;
/// each is a whole number of the value's widths from the start of the
/// window and lies, before the window ends, on bytes that match its value.
pub proof fn lemma_unordered_offsets(window: Seq<u8>, values: Seq<SearchValue>)
    ensures
        match unordered_offsets(window, values) {
            Some(offsets) => {
                &&& offsets.len() == values.len()
                &&& forall|i: int|
                    0 <= i < offsets.len() ==> {
                        &&& 0 <= #[trigger] offsets[i]
                        &&& offsets[i] % (values[i].width() as int) == 0
                        &&& offsets[i] + values[i].width() <= window.len()
                        &&& values[i].matches(
                            window.subrange(offsets[i], offsets[i] + values[i].width()),
                        )
                    }
            },
            None => true,
        },
{
    match unordered_offsets(window, values) {
        Some(offsets) => {
            assert forall|i: int| 0 <= i < offsets.len() implies {
                &&& 0 <= #[trigger] offsets[i]
                &&& offsets[i] % (values[i].width() as int) == 0
                &&& offsets[i] + values[i].width() <= window.len()
                &&& values[i].matches(window.subrange(offsets[i], offsets[i] + values[i].width()))
            } by {
                lemma_first_hit(window, values[i], 0);
                assert(first_hit(window, values[i], 0).is_some());
            }
        },
        None => {},
    }
}

/// Looks for the first hit of `value` at or after `from`.
fn find_first_hit(buffer: &[u8], value: &SearchValue, from: usize) -> (found: Option<usize>)
    requires
        from <= buffer@.len(),
    ensures
        match found {
            Some(at) => first_hit(buffer@, *value, from as int) == Some(at as int) && at
                + value.width() <= buffer@.len(),
            None => first_hit(buffer@, *value, from as int).is_none(),
        },
{
    let size = value.value_type().size();
    let mut offset = from;
    while size <= buffer.len() - offset
        invariant
            from <= offset <= buffer@.len(),
            size == value.width(),
            1 <= size <= 8,
            first_hit(buffer@, *value, from as int) == first_hit(buffer@, *value, offset as int),
        decreases buffer@.len() - offset,
    {
        let element = slice_subrange(buffer, offset, offset + size);
        match value.matched(element) {
            Ok(true) => {
                return Some(offset);
            },
            _ => {},
        }
        offset = offset + size;
    }
    None
}

/// Matches the values of the query in the window one behind the other:
/// each value takes the first offset, in steps of its own width from where
/// the value before it ended, at which the window matches it. Returns the
/// offset of every value, or `None` when the window ends before a value is
/// found. The address of the window plays no part.
pub fn try_match_ordered(buffer: &[u8], _start_addr: u64, query: &SearchQuery) -> (found: Option<
    Vec<usize>,
>)
    ensures
        same_offsets(found, ordered_offsets(buffer@, query.values@)),
{
    let mut offsets: Vec<usize> = Vec::new();
    let mut cursor: usize = 0;
    let mut index: usize = 0;
    let length = buffer.len();
    while index < query.values.len()
        invariant
            0 <= index <= query.values@.len(),
            cursor <= buffer@.len(),
            length == buffer@.len(),
            offsets@.len() == index,
            match ordered_offsets_from(buffer@, query.values@, index as int, cursor as int) {
                None => ordered_offsets(buffer@, query.values@).is_none(),
                Some(rest) => ordered_offsets(buffer@, query.values@) == Some(
                    as_ints(offsets@) + rest,
                ),
            },
        decreases query.values@.len() - index,
    {
        let value = &query.values[index];
        match find_first_hit(buffer, value, cursor) {
            None => {
                return None;
            },
            Some(at) => {
                let ghost before = as_ints(offsets@);
                let size = value.value_type().size();
                assert(size == value.width());
                offsets.push(at);
                cursor = at + size;
                proof {
                    assert(as_ints(offsets@) =~= before + seq![at as int]);
                    let rest = ordered_offsets_from(
                        buffer@,
                        query.values@,
                        index as int + 1,
                        cursor as int,
                    );
                    if rest.is_some() {
                        assert(before + (seq![at as int] + rest.unwrap()) =~= as_ints(offsets@)
                            + rest.unwrap());
                    }
                }
                index += 1;
            },
        }
    }
    proof {
        assert(as_ints(offsets@) + Seq::<int>::empty() =~= as_ints(offsets@));
    }
    Some(offsets)
}

/// Matches every value of the query on its own: each takes the first
/// offset, in steps of its own width from the start of the window, at
/// which the window matches it. Returns the offset of every value, or
/// `None` when some value is found nowhere. The address of the window
/// plays no part.
pub fn try_match_unordered(buffer: &[u8], _start_addr: u64, query: &SearchQuery) -> (found:
    Option<Vec<usize>>)
    ensures
        same_offsets(found, unordered_offsets(buffer@, query.values@)),
{
    let mut offsets: Vec<usize> = Vec::new();
    let mut index: usize = 0;
    while index < query.values.len()
        invariant
            0 <= index <= query.values@.len(),
            offsets@.len() == index,
            forall|i: int|
                0 <= i < index ==> first_hit(buffer@, query.values@[i], 0) == Some(
                    #[trigger] offsets@[i] as int,
                ),
        decreases query.values@.len() - index,
    {
        match find_first_hit(buffer, &query.values[index], 0) {
            None => {
                assert(first_hit(buffer@, query.values@[index as int], 0).is_none());
                return None;
            },
            Some(at) => {
                offsets.push(at);
                index += 1;
            },
        }
    }
    proof {
        assert forall|i: int| 0 <= i < query.values@.len() implies (#[trigger] first_hit(
            buffer@,
            query.values@[i],
            0,
        )).is_some() by {
            assert(first_hit(buffer@, query.values@[i], 0) == Some(offsets@[i] as int));
        }
        assert(unordered_offsets(buffer@, query.values@).unwrap() =~= as_ints(offsets@));
    }
    Some(offsets)
}

/// Matches the query in the window in the query's own mode.
pub fn try_match_group_at_address(buffer: &[u8], start_addr: u64, query: &SearchQuery) -> (found:
    Option<Vec<usize>>)
    ensures
        same_offsets(found, group_offsets(buffer@, query.values@, query.mode)),
{
    match query.mode {
        SearchMode::Ordered => try_match_ordered(buffer, start_addr, query),
        SearchMode::Unordered => try_match_unordered(buffer, start_addr, query),
    }
}

} // verus!
