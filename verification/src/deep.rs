//! The exhaustive matcher: every combination of positions at which the
//! values of a query lie in a window, where the group matcher takes only
//! the first position of each value.
use crate::matcher::{as_ints, first_hit, ordered_offsets_from, unordered_offsets};
use crate::types::{SearchMode, SearchQuery, SearchValue};
use vstd::prelude::*;
use vstd::slice::slice_subrange;

verus! {

/// The number of combinations that an exhaustive match of one window hands
/// out at most, where the caller names no other limit.
pub const DEFAULT_COMBINATION_LIMIT: usize = 100_000;

/// Each of the `tails` with `head` put before it.
pub open spec fn prepend_each(head: int, tails: Seq<Seq<int>>) -> Seq<Seq<int>> {
    Seq::new(tails.len(), |i: int| seq![head] + tails[i])
}

/// Each of the `tails` with `prefix` put before it.
pub open spec fn with_prefix(prefix: Seq<int>, tails: Seq<Seq<int>>) -> Seq<Seq<int>> {
    Seq::new(tails.len(), |i: int| prefix + tails[i])
}

/// Where the search for the next value starts after a value of the given
/// width was placed at `at`: behind it in an ordered match, at the start
/// of the window in an unordered one.
pub open spec fn next_cursor(mode: SearchMode, at: int, width: nat) -> int {
    match mode {
        SearchMode::Ordered => at + width,
        SearchMode::Unordered => 0,
    }
}

/// Every assignment of offsets to the values from `index` on, where the
/// offset of value `index` is `cursor` or a whole number of the value's
/// widths behind it. The assignments stand in the order of a depth-first
/// search that tries the positions of each value in ascending order.
pub open spec fn deep_assignments(
    window: Seq<u8>,
    values: Seq<SearchValue>,
    mode: SearchMode,
    index: int,
    cursor: int,
) -> Seq<Seq<int>>
    decreases values.len() - index, window.len() - cursor,
{
    if index < 0 || index >= values.len() {
        seq![Seq::empty()]
    } else if cursor < 0 || cursor + values[index].width() > window.len() {
        Seq::empty()
    } else {
        let here = if values[index].matches(
            window.subrange(cursor, cursor + values[index].width()),
        ) {
            prepend_each(
                cursor,
                deep_assignments(
                    window,
                    values,
                    mode,
                    index + 1,
                    next_cursor(mode, cursor, values[index].width()),
                ),
            )
        } else {
            Seq::empty()
        };
        here + deep_assignments(window, values, mode, index, cursor + values[index].width())
    }
}

/// The first `limit` of the assignments, or all where there are fewer.
pub open spec fn capped(assignments: Seq<Seq<int>>, limit: nat) -> Seq<Seq<int>> {
    if assignments.len() <= limit {
        assignments
    } else {
        assignments.take(limit as int)
    }
}

/// The assignments that an exhaustive match of the window hands out.
pub open spec fn deep_offsets(
    window: Seq<u8>,
    values: Seq<SearchValue>,
    mode: SearchMode,
    limit: nat,
) -> Seq<Seq<int>> {
    capped(deep_assignments(window, values, mode, 0, 0), limit)
}

/// The assignments that a vector of offset vectors stands for.
pub open spec fn as_assignments(found: Seq<Vec<usize>>) -> Seq<Seq<int>> {
    found.map_values(|v: Vec<usize>| as_ints(v@))
}

/// Capping, adding more and capping again is adding more and capping once.
pub proof fn lemma_capped_twice(first: Seq<Seq<int>>, more: Seq<Seq<int>>, limit: nat)
    ensures
        capped(capped(first, limit) + more, limit) == capped(first + more, limit),
{
    if first.len() > limit {
        assert((first.take(limit as int) + more).take(limit as int) =~= first.take(limit as int));
        assert((first + more).take(limit as int) =~= first.take(limit as int));
        if more.len() == 0 {
            assert(first.take(limit as int) + more =~= first.take(limit as int));
        }
    }
}

/// Putting a prefix before a concatenation.
pub proof fn lemma_with_prefix_concat(prefix: Seq<int>, a: Seq<Seq<int>>, b: Seq<Seq<int>>)
    ensures
        with_prefix(prefix, a + b) == with_prefix(prefix, a) + with_prefix(prefix, b),
{
    assert(with_prefix(prefix, a + b) =~= with_prefix(prefix, a) + with_prefix(prefix, b));
}

/// Putting a prefix before assignments that start with `head` is putting
/// the prefix with `head` behind it before their tails.
pub proof fn lemma_with_prefix_prepend(prefix: Seq<int>, head: int, tails: Seq<Seq<int>>)
    ensures
        with_prefix(prefix, prepend_each(head, tails)) == with_prefix(prefix + seq![head], tails),
{
    assert forall|i: int| 0 <= i < tails.len() implies prefix + (seq![head] + tails[i]) == (prefix
        + seq![head]) + #[trigger] tails[i] by {
        assert(prefix + (seq![head] + tails[i]) =~= (prefix + seq![head]) + tails[i]);
    }
    assert(with_prefix(prefix, prepend_each(head, tails)) =~= with_prefix(
        prefix + seq![head],
        tails,
    ));
}

/// Where the group matcher finds a match from `index` and `cursor` on, the
/// exhaustive matcher's first assignment is that match.
pub proof fn lemma_first_assignment_ordered(
    window: Seq<u8>,
    values: Seq<SearchValue>,
    index: int,
    cursor: int,
)
    requires
        0 <= index <= values.len(),
        0 <= cursor,
        ordered_offsets_from(window, values, index, cursor).is_some(),
    ensures
        deep_assignments(window, values, SearchMode::Ordered, index, cursor).len() > 0,
        deep_assignments(window, values, SearchMode::Ordered, index, cursor)[0]
            == ordered_offsets_from(window, values, index, cursor).unwrap(),
    decreases values.len() - index, window.len() - cursor,
{
    if index < values.len() {
        let value = values[index];
        let w = value.width();
        assert(first_hit(window, value, cursor).is_some());
        assert(cursor + w <= window.len());
        let later = deep_assignments(window, values, SearchMode::Ordered, index, cursor + w);
        if value.matches(window.subrange(cursor, cursor + w)) {
            lemma_first_assignment_ordered(window, values, index + 1, cursor + w);
            let tails = deep_assignments(window, values, SearchMode::Ordered, index + 1, cursor + w);
            assert((prepend_each(cursor, tails) + later)[0] == prepend_each(cursor, tails)[0]);
        } else {
            assert(ordered_offsets_from(window, values, index, cursor) == ordered_offsets_from(
                window,
                values,
                index,
                cursor + w,
            ));
            lemma_first_assignment_ordered(window, values, index, cursor + w);
            assert(Seq::<Seq<int>>::empty() + later =~= later);
        }
    }
}

/// The first hits of the values from `index` on, where each has one.
pub open spec fn first_hits_from(window: Seq<u8>, values: Seq<SearchValue>, index: int) -> Seq<int>
    decreases values.len() - index,
{
    if index < 0 || index >= values.len() {
        Seq::empty()
    } else {
        seq![first_hit(window, values[index], 0).unwrap()] + first_hits_from(
            window,
            values,
            index + 1,
        )
    }
}

/// The exhaustive matcher's first unordered assignment gives every value
/// its first hit.
pub proof fn lemma_first_assignment_unordered(
    window: Seq<u8>,
    values: Seq<SearchValue>,
    index: int,
    cursor: int,
)
    requires
        0 <= index <= values.len(),
        0 <= cursor,
        forall|i: int| index < i < values.len() ==> (#[trigger] first_hit(window, values[i], 0)).is_some(),
        index < values.len() ==> first_hit(window, values[index], cursor).is_some(),
    ensures
        deep_assignments(window, values, SearchMode::Unordered, index, cursor).len() > 0,
        deep_assignments(window, values, SearchMode::Unordered, index, cursor)[0] == (if index
            < values.len() {
            seq![first_hit(window, values[index], cursor).unwrap()] + first_hits_from(
                window,
                values,
                index + 1,
            )
        } else {
            Seq::empty()
        }),
    decreases values.len() - index, window.len() - cursor,
{
    if index < values.len() {
        let value = values[index];
        let w = value.width();
        assert(cursor + w <= window.len());
        let later = deep_assignments(window, values, SearchMode::Unordered, index, cursor + w);
        if value.matches(window.subrange(cursor, cursor + w)) {
            if index + 1 < values.len() {
                assert(first_hit(window, values[index + 1], 0).is_some());
            }
            lemma_first_assignment_unordered(window, values, index + 1, 0);
            let tails = deep_assignments(window, values, SearchMode::Unordered, index + 1, 0);
            assert((prepend_each(cursor, tails) + later)[0] == prepend_each(cursor, tails)[0]);
        } else {
            lemma_first_assignment_unordered(window, values, index, cursor + w);
            assert(Seq::<Seq<int>>::empty() + later =~= later);
        }
    }
}

/// The first hits of all values are the offsets of the unordered match.
pub proof fn lemma_first_hits_are_unordered(window: Seq<u8>, values: Seq<SearchValue>, index: int)
    requires
        0 <= index <= values.len(),
        unordered_offsets(window, values).is_some(),
    ensures
        first_hits_from(window, values, index) == unordered_offsets(window, values).unwrap().skip(
            index,
        ),
    decreases values.len() - index,
{
    let all = unordered_offsets(window, values).unwrap();
    if index < values.len() {
        lemma_first_hits_are_unordered(window, values, index + 1);
        assert(seq![all[index]] + all.skip(index + 1) =~= all.skip(index));
    } else {
        assert(all.skip(index) =~= Seq::<int>::empty());
    }
}

/// Every assignment gives an offset to each value from `index` on, and
/// each value lies inside the window at its offset.
pub proof fn lemma_deep_assignments_shape(
    window: Seq<u8>,
    values: Seq<SearchValue>,
    mode: SearchMode,
    index: int,
    cursor: int,
)
    requires
        0 <= index <= values.len(),
        0 <= cursor,
    ensures
        forall|a: int|
            0 <= a < deep_assignments(window, values, mode, index, cursor).len() ==> (
            #[trigger] deep_assignments(window, values, mode, index, cursor)[a]).len()
                == values.len() - index,
        forall|a: int, j: int|
            0 <= a < deep_assignments(window, values, mode, index, cursor).len() && 0 <= j
                < values.len() - index ==> 0 <= #[trigger] deep_assignments(
                window,
                values,
                mode,
                index,
                cursor,
            )[a][j] && deep_assignments(window, values, mode, index, cursor)[a][j] + values[index
                + j].width() <= window.len(),
    decreases values.len() - index, window.len() - cursor,
{
    let all = deep_assignments(window, values, mode, index, cursor);
    if index < values.len() && cursor + values[index].width() <= window.len() {
        let w = values[index].width();
        let next = next_cursor(mode, cursor, w);
        let tails = deep_assignments(window, values, mode, index + 1, next);
        let later = deep_assignments(window, values, mode, index, cursor + w);
        lemma_deep_assignments_shape(window, values, mode, index + 1, next);
        lemma_deep_assignments_shape(window, values, mode, index, cursor + w);
        let here = if values[index].matches(window.subrange(cursor, cursor + w)) {
            prepend_each(cursor, tails)
        } else {
            Seq::empty()
        };
        assert(all == here + later);
        assert forall|a: int| 0 <= a < all.len() implies (#[trigger] all[a]).len() == values.len()
            - index by {
            if a < here.len() {
                assert(all[a] == seq![cursor] + tails[a]);
            } else {
                assert(all[a] == later[a - here.len()]);
            }
        }
        assert forall|a: int, j: int| 0 <= a < all.len() && 0 <= j < values.len() - index implies 0
            <= #[trigger] all[a][j] && all[a][j] + values[index + j].width() <= window.len() by {
            if a < here.len() {
                assert(all[a] == seq![cursor] + tails[a]);
                if j > 0 {
                    assert(all[a][j] == tails[a][j - 1]);
                }
            } else {
                assert(all[a] == later[a - here.len()]);
            }
        }
    }
}

/// A copy of the offsets.
fn copy_offsets(offsets: &Vec<usize>) -> (copy: Vec<usize>)
    ensures
        copy@ == offsets@,
{
    let mut copy: Vec<usize> = Vec::new();
    let mut i: usize = 0;
    while i < offsets.len()
        invariant
            0 <= i <= offsets@.len(),
            copy@ == offsets@.take(i as int),
        decreases offsets@.len() - i,
    {
        copy.push(offsets[i]);
        proof {
            assert(copy@ =~= offsets@.take(i as int + 1));
        }
        i += 1;
    }
    proof {
        assert(offsets@.take(offsets@.len() as int) =~= offsets@);
    }
    copy
}

/// Adds to `found` the assignments that complete `chosen`, in the order of
/// the search, until `found` holds `limit` assignments.
fn deep_collect(
    buffer: &[u8],
    query: &SearchQuery,
    index: usize,
    cursor: usize,
    chosen: &mut Vec<usize>,
    found: &mut Vec<Vec<usize>>,
    limit: usize,
)
    requires
        index <= query.values@.len(),
        cursor <= buffer@.len(),
        old(found)@.len() <= limit,
    ensures
        final(chosen)@ == old(chosen)@,
        final(found)@.len() <= limit,
        as_assignments(final(found)@) == capped(
            as_assignments(old(found)@) + with_prefix(
                as_ints(old(chosen)@),
                deep_assignments(buffer@, query.values@, query.mode, index as int, cursor as int),
            ),
            limit as nat,
        ),
    decreases query.values@.len() - index, buffer@.len() - cursor,
{
    let ghost prefix = as_ints(chosen@);
    let ghost start = as_assignments(found@);
    let ghost all = deep_assignments(
        buffer@,
        query.values@,
        query.mode,
        index as int,
        cursor as int,
    );
    if found.len() >= limit {
        proof {
            assert((start + with_prefix(prefix, all)).take(limit as int) =~= start);
            if with_prefix(prefix, all).len() == 0 {
                assert(start + with_prefix(prefix, all) =~= start);
            }
        }
        return ;
    }
    if index >= query.values.len() {
        let copy = copy_offsets(chosen);
        found.push(copy);
        proof {
            assert(all =~= seq![Seq::<int>::empty()]);
            assert(prefix + Seq::<int>::empty() =~= prefix);
            assert(with_prefix(prefix, all) =~= seq![prefix]);
            assert(as_assignments(found@) =~= start + seq![prefix]);
        }
        return ;
    }
    let buffer_len = buffer.len();
    let value = &query.values[index];
    let size = value.value_type().size();
    let mut pos = cursor;
    proof {
        lemma_capped_twice(
            start,
            with_prefix(prefix, all),
            limit as nat,
        );
        assert(capped(start, limit as nat) == start);
    }
    while size <= buffer_len - pos
        invariant
            cursor <= pos <= buffer_len,
            buffer_len == buffer@.len(),
            index < query.values@.len() <= usize::MAX,
            value == &query.values@[index as int],
            size == value.width(),
            1 <= size <= 8,
            chosen@ == old(chosen)@,
            prefix == as_ints(old(chosen)@),
            found@.len() <= limit,
            capped(
                as_assignments(found@) + with_prefix(
                    prefix,
                    deep_assignments(buffer@, query.values@, query.mode, index as int, pos as int),
                ),
                limit as nat,
            ) == capped(start + with_prefix(prefix, all), limit as nat),
        decreases buffer_len - pos,
    {
        let ghost now = as_assignments(found@);
        let ghost rest = deep_assignments(
            buffer@,
            query.values@,
            query.mode,
            index as int,
            pos as int,
        );
        let ghost later = deep_assignments(
            buffer@,
            query.values@,
            query.mode,
            index as int,
            pos as int + size as int,
        );
        let element = slice_subrange(buffer, pos, pos + size);
        let hit = match value.matched(element) {
            Ok(true) => true,
            _ => false,
        };
        if hit {
            let next = match query.mode {
                SearchMode::Ordered => pos + size,
                SearchMode::Unordered => 0,
            };
            let ghost tails = deep_assignments(
                buffer@,
                query.values@,
                query.mode,
                index as int + 1,
                next as int,
            );
            chosen.push(pos);
            proof {
                assert(as_ints(chosen@) =~= prefix + seq![pos as int]);
            }
            deep_collect(buffer, query, index + 1, next, chosen, found, limit);
            chosen.pop();
            proof {
                assert(chosen@ =~= old(chosen)@);
                assert(rest == prepend_each(pos as int, tails) + later);
                lemma_with_prefix_concat(prefix, prepend_each(pos as int, tails), later);
                lemma_with_prefix_prepend(prefix, pos as int, tails);
                let mid = with_prefix(prefix + seq![pos as int], tails);
                // found == capped(now + mid); what is left to add is `later`
                lemma_capped_twice(now + mid, with_prefix(prefix, later), limit as nat);
                assert((now + mid) + with_prefix(prefix, later) =~= now + with_prefix(
                    prefix,
                    rest,
                ));
            }
        } else {
            proof {
                assert(rest == Seq::<Seq<int>>::empty() + later);
                assert(Seq::<Seq<int>>::empty() + later =~= later);
            }
        }
        pos = pos + size;
    }
    proof {
        let rest = deep_assignments(
            buffer@,
            query.values@,
            query.mode,
            index as int,
            pos as int,
        );
        assert(rest =~= Seq::<Seq<int>>::empty());
        assert(as_assignments(found@) + with_prefix(prefix, rest) =~= as_assignments(found@));
    }
}

/// Matches the query in the window in every way: an ordered match places
/// each value at any matching position behind the value before it, an
/// unordered match places each value at any matching position of its own
/// alignment. Returns the assignments of offsets to the values in the
/// order of a depth-first search, and no more than `limit` of them.
pub fn deep_match_group(buffer: &[u8], query: &SearchQuery, limit: usize) -> (found: Vec<
    Vec<usize>,
>)
    ensures
        as_assignments(found@) == deep_offsets(
            buffer@,
            query.values@,
            query.mode,
            limit as nat,
        ),
{
    let mut chosen: Vec<usize> = Vec::new();
    let mut found: Vec<Vec<usize>> = Vec::new();
    deep_collect(buffer, query, 0, 0, &mut chosen, &mut found, limit);
    proof {
        let all = deep_assignments(buffer@, query.values@, query.mode, 0, 0);
        assert(as_ints(Seq::<usize>::empty()) =~= Seq::<int>::empty());
        assert forall|i: int| 0 <= i < all.len() implies Seq::<int>::empty() + #[trigger] all[i]
            == all[i] by {
            assert(Seq::<int>::empty() + all[i] =~= all[i]);
        }
        assert(with_prefix(Seq::<int>::empty(), all) =~= all);
        assert(as_assignments(Seq::<Vec<usize>>::empty()) =~= Seq::<Seq<int>>::empty());
        assert(Seq::<Seq<int>>::empty() + all =~= all);
    }
    found
}

} // verus!
