//! Refinement: the pairs of an earlier search are tested against a new
//! query on freshly read memory, without scanning the regions again.
//!
//! The reader reads a short window at the address of each pair; the
//! functions here take the pairs and the windows and say which pairs stay.
use crate::deep::{
    as_assignments, capped, lemma_capped_twice, lemma_with_prefix_concat,
    lemma_with_prefix_prepend, prepend_each, with_prefix,
};
use crate::matcher::as_ints;
use crate::results::{insert_all, lemma_insert_all_concat, ValuePair, ValuePairSet};
use crate::types::{SearchMode, SearchQuery, SearchValue, ValueType};
use vstd::prelude::*;
use vstd::slice::slice_subrange;

verus! {

/// The bytes of window `index`, where the reader got them.
pub open spec fn window_at(windows: Seq<Option<Vec<u8>>>, index: int) -> Option<Seq<u8>> {
    if 0 <= index < windows.len() {
        match windows[index] {
            Some(bytes) => Some(bytes@),
            None => None,
        }
    } else {
        None
    }
}

/// The windows as byte strings.
pub open spec fn views_of(windows: Seq<Option<Vec<u8>>>) -> Seq<Option<Seq<u8>>> {
    Seq::new(windows.len(), |i: int| window_at(windows, i))
}

/// The bytes of window `index`, where there is such a window and the
/// reader got it.
pub open spec fn bytes_at(windows: Seq<Option<Seq<u8>>>, index: int) -> Option<Seq<u8>> {
    if 0 <= index < windows.len() {
        windows[index]
    } else {
        None
    }
}

/// Whether a pair stays when it is refined against a single value: its
/// window was read, holds as many bytes as the pair's type is wide, and
/// these match the value.
pub open spec fn single_keeps(pair: ValuePair, window: Option<Seq<u8>>, value: SearchValue) -> bool {
    match window {
        None => false,
        Some(bytes) => bytes.len() >= pair.value_type.spec_size() && value.matches(
            bytes.take(pair.value_type.spec_size() as int),
        ),
    }
}

/// The first `n` pairs refined against a single value: those that stay, in
/// their order.
pub open spec fn refine_single(
    existing: Seq<ValuePair>,
    windows: Seq<Option<Seq<u8>>>,
    value: SearchValue,
    n: int,
) -> Seq<ValuePair>
    decreases n,
{
    if n <= 0 {
        Seq::empty()
    } else if single_keeps(existing[n - 1], bytes_at(windows, n - 1), value) {
        refine_single(existing, windows, value, n - 1).push(existing[n - 1])
    } else {
        refine_single(existing, windows, value, n - 1)
    }
}

/// Refines pairs against a single value. `windows[i]` holds the bytes read
/// at the address of `existing[i]`, or `None` where they could not be
/// read; a pair without a window counts as not read. A pair stays, with
/// its type, when its window starts with bytes that match `value`.
pub fn refine_single_search(
    existing: &Vec<ValuePair>,
    windows: &Vec<Option<Vec<u8>>>,
    value: &SearchValue,
) -> (kept: Vec<ValuePair>)
    ensures
        kept@ == refine_single(existing@, views_of(windows@), *value, existing@.len() as int),
{
    let mut kept: Vec<ValuePair> = Vec::new();
    let mut i: usize = 0;
    while i < existing.len()
        invariant
            0 <= i <= existing@.len(),
            kept@ == refine_single(existing@, views_of(windows@), *value, i as int),
        decreases existing@.len() - i,
    {
        let pair = existing[i];
        let size = pair.value_type.size();
        let mut stays = false;
        assert(bytes_at(views_of(windows@), i as int) == window_at(windows@, i as int));
        if i < windows.len() {
            match &windows[i] {
                Some(bytes) => {
                    if bytes.len() >= size {
                        let head = slice_subrange(bytes.as_slice(), 0, size);
                        assert(head@ =~= bytes@.take(size as int));
                        stays = match value.matched(head) {
                            Ok(true) => true,
                            _ => false,
                        };
                    }
                },
                None => {},
            }
        }
        if stays {
            kept.push(pair);
        }
        i += 1;
    }
    kept
}

/// What the refinement against a group depends on.
pub struct GroupRefine {
    /// The pairs of the earlier search, by ascending address.
    pub existing: Seq<ValuePair>,
    /// For each pair the bytes read at its address, where they were read.
    pub windows: Seq<Option<Seq<u8>>>,
    /// The values of the query.
    pub values: Seq<SearchValue>,
    /// The mode of the query.
    pub mode: SearchMode,
    /// The range of the query.
    pub range: int,
}

impl GroupRefine {
    /// Whether pair `j` is a neighbour of pair `start`: it lies at or
    /// behind it, no more than `range` bytes away.
    pub open spec fn near(self, start: int, j: int) -> bool {
        &&& 0 <= start <= j < self.existing.len()
        &&& self.existing[start].addr <= self.existing[j].addr
        &&& self.existing[j].addr - self.existing[start].addr <= self.range
    }

    /// Whether the window of pair `start` holds, at the address of pair
    /// `j`, bytes that match value `k`.
    pub open spec fn fits(self, start: int, k: int, j: int) -> bool {
        match bytes_at(self.windows, start) {
            None => false,
            Some(bytes) => {
                let at = self.existing[j].addr - self.existing[start].addr;
                &&& at + self.values[k].width() <= bytes.len()
                &&& self.values[k].matches(bytes.subrange(at, at + self.values[k].width()))
            },
        }
    }

    /// Where the search for the next value starts after a value was given
    /// to pair `j`: behind it in an ordered match, at `start` in an
    /// unordered one.
    pub open spec fn next_candidate(self, start: int, j: int) -> int {
        match self.mode {
            SearchMode::Ordered => j + 1,
            SearchMode::Unordered => start,
        }
    }

    /// Every way to give the values from `k` on to neighbours of `start`
    /// that are not in `chosen`, the value `k` to pair `j` or a later one,
    /// such that each value matches at its pair and `start` is among the
    /// pairs taken. The neighbours are tried in ascending order, and the
    /// search ends at the first pair that is no neighbour.
    pub open spec fn assignments(self, start: int, k: int, chosen: Seq<int>, j: int) -> Seq<
        Seq<int>,
    >
        decreases self.values.len() - k, self.existing.len() - j,
    {
        if k < 0 || k >= self.values.len() {
            if chosen.contains(start) {
                seq![Seq::empty()]
            } else {
                Seq::empty()
            }
        } else if !self.near(start, j) {
            Seq::empty()
        } else {
            let here = if !chosen.contains(j) && self.fits(start, k, j) {
                prepend_each(
                    j,
                    self.assignments(start, k + 1, chosen.push(j), self.next_candidate(start, j)),
                )
            } else {
                Seq::empty()
            };
            here + self.assignments(start, k, chosen, j + 1)
        }
    }

    /// The group found from pair `start`: the first of the assignments.
    pub open spec fn group_from(self, start: int) -> Seq<Seq<int>> {
        capped(self.assignments(start, 0, Seq::empty(), start), 1)
    }

    /// The pairs that an assignment gives: the address of each pair taken,
    /// with the type of the value given to it.
    pub open spec fn pairs_of(self, assignment: Seq<int>) -> Seq<ValuePair> {
        Seq::new(
            assignment.len(),
            |k: int|
                ValuePair {
                    addr: self.existing[assignment[k]].addr,
                    value_type: self.values[k].spec_value_type(),
                },
        )
    }

    /// The pairs found from pair `start`.
    pub open spec fn pairs_from(self, start: int) -> Seq<ValuePair> {
        if self.group_from(start).len() == 0 {
            Seq::empty()
        } else {
            self.pairs_of(self.group_from(start)[0])
        }
    }

    /// The pairs found from the pairs below `upto`, in the order in which
    /// they are found.
    pub open spec fn pairs_below(self, upto: int) -> Seq<ValuePair>
        decreases upto,
    {
        if upto <= 0 {
            Seq::empty()
        } else {
            self.pairs_below(upto - 1) + self.pairs_from(upto - 1)
        }
    }

    /// All pairs that the refinement finds.
    pub open spec fn pairs(self) -> Seq<ValuePair> {
        self.pairs_below(self.existing.len() as int)
    }
}

/// What a refinement of these values against a group depends on.
pub open spec fn group_refine(
    existing: Seq<ValuePair>,
    windows: Seq<Option<Seq<u8>>>,
    query: SearchQuery,
) -> GroupRefine {
    GroupRefine {
        existing,
        windows,
        values: query.values@,
        mode: query.mode,
        range: query.range as int,
    }
}

/// Every assignment gives a pair to each value from `k` on.
pub proof fn lemma_assignments_shape(refine: GroupRefine, start: int, k: int, chosen: Seq<int>, j: int)
    requires
        0 <= k <= refine.values.len(),
        0 <= start <= j,
    ensures
        forall|a: int|
            0 <= a < refine.assignments(start, k, chosen, j).len() ==> (
            #[trigger] refine.assignments(start, k, chosen, j)[a]).len() == refine.values.len()
                - k,
        forall|a: int, i: int|
            0 <= a < refine.assignments(start, k, chosen, j).len() && 0 <= i
                < refine.values.len() - k ==> start <= #[trigger] refine.assignments(
                start,
                k,
                chosen,
                j,
            )[a][i] < refine.existing.len(),
    decreases refine.values.len() - k, refine.existing.len() - j,
{
    let all = refine.assignments(start, k, chosen, j);
    if k < refine.values.len() && refine.near(start, j) {
        let next = refine.next_candidate(start, j);
        let tails = refine.assignments(start, k + 1, chosen.push(j), next);
        let later = refine.assignments(start, k, chosen, j + 1);
        lemma_assignments_shape(refine, start, k + 1, chosen.push(j), next);
        lemma_assignments_shape(refine, start, k, chosen, j + 1);
        let here = if !chosen.contains(j) && refine.fits(start, k, j) {
            prepend_each(j, tails)
        } else {
            Seq::empty()
        };
        assert(all == here + later);
        assert forall|a: int| 0 <= a < all.len() implies (#[trigger] all[a]).len()
            == refine.values.len() - k by {
            if a < here.len() {
                assert(all[a] == seq![j] + tails[a]);
            } else {
                assert(all[a] == later[a - here.len()]);
            }
        }
        assert forall|a: int, i: int| 0 <= a < all.len() && 0 <= i < refine.values.len()
            - k implies start <= #[trigger] all[a][i] < refine.existing.len() by {
            if a < here.len() {
                assert(all[a] == seq![j] + tails[a]);
                if i > 0 {
                    assert(all[a][i] == tails[a][i - 1]);
                }
            } else {
                assert(all[a] == later[a - here.len()]);
            }
        }
    }
}

/// Whether `index` is among the chosen.
fn is_chosen(chosen: &Vec<usize>, index: usize) -> (held: bool)
    ensures
        held == as_ints(chosen@).contains(index as int),
{
    let mut i: usize = 0;
    while i < chosen.len()
        invariant
            0 <= i <= chosen@.len(),
            forall|m: int| 0 <= m < i ==> chosen@[m] != index,
        decreases chosen@.len() - i,
    {
        if chosen[i] == index {
            assert(as_ints(chosen@)[i as int] == index as int);
            return true;
        }
        i += 1;
    }
    proof {
        if as_ints(chosen@).contains(index as int) {
            let m = choose|m: int| 0 <= m < as_ints(chosen@).len() && as_ints(chosen@)[m] == index as int;
            assert(chosen@[m] == index);
        }
    }
    false
}

/// A copy of the indices.
fn copy_indices(indices: &Vec<usize>) -> (copy: Vec<usize>)
    ensures
        copy@ == indices@,
{
    let mut copy: Vec<usize> = Vec::new();
    let mut i: usize = 0;
    while i < indices.len()
        invariant
            0 <= i <= indices@.len(),
            copy@ == indices@.take(i as int),
        decreases indices@.len() - i,
    {
        copy.push(indices[i]);
        proof {
            assert(copy@ =~= indices@.take(i as int + 1));
        }
        i += 1;
    }
    proof {
        assert(indices@.take(indices@.len() as int) =~= indices@);
    }
    copy
}

/// Whether the window of pair `start` holds, at the address of pair `j`,
/// bytes that match the value.
fn fits_at(
    existing: &Vec<ValuePair>,
    windows: &Vec<Option<Vec<u8>>>,
    value: &SearchValue,
    start: usize,
    j: usize,
) -> (ok: bool)
    requires
        start <= j < existing@.len(),
        existing@[start as int].addr <= existing@[j as int].addr,
    ensures
        ok == (match window_at(windows@, start as int) {
            None => false,
            Some(bytes) => {
                let at = existing@[j as int].addr - existing@[start as int].addr;
                &&& at + value.width() <= bytes.len()
                &&& value.matches(bytes.subrange(at, at + value.width()))
            },
        }),
{
    if start >= windows.len() {
        return false;
    }
    match &windows[start] {
        None => false,
        Some(bytes) => {
            let at = existing[j].addr - existing[start].addr;
            let size = value.value_type().size();
            let length = bytes.len();
            if at > length as u64 || length - (at as usize) < size {
                return false;
            }
            let element = slice_subrange(bytes.as_slice(), at as usize, at as usize + size);
            match value.matched(element) {
                Ok(true) => true,
                _ => false,
            }
        },
    }
}

/// Adds to `found` the assignments that complete `chosen`, in the order of
/// the search, until `found` holds `limit` assignments.
fn collect_groups(
    existing: &Vec<ValuePair>,
    windows: &Vec<Option<Vec<u8>>>,
    query: &SearchQuery,
    start: usize,
    k: usize,
    from: usize,
    chosen: &mut Vec<usize>,
    found: &mut Vec<Vec<usize>>,
    limit: usize,
)
    requires
        k <= query.values@.len(),
        start <= from <= existing@.len(),
        start < existing@.len(),
        old(found)@.len() <= limit,
    ensures
        final(chosen)@ == old(chosen)@,
        final(found)@.len() <= limit,
        as_assignments(final(found)@) == capped(
            as_assignments(old(found)@) + with_prefix(
                as_ints(old(chosen)@),
                group_refine(existing@, views_of(windows@), *query).assignments(
                    start as int,
                    k as int,
                    as_ints(old(chosen)@),
                    from as int,
                ),
            ),
            limit as nat,
        ),
    decreases query.values@.len() - k, existing@.len() - from,
{
    let ghost refine = group_refine(existing@, views_of(windows@), *query);
    let ghost prefix = as_ints(chosen@);
    let ghost begin = as_assignments(found@);
    let ghost all = refine.assignments(start as int, k as int, prefix, from as int);
    if found.len() >= limit {
        proof {
            assert((begin + with_prefix(prefix, all)).take(limit as int) =~= begin);
            if with_prefix(prefix, all).len() == 0 {
                assert(begin + with_prefix(prefix, all) =~= begin);
            }
        }
        return ;
    }
    if k >= query.values.len() {
        if is_chosen(chosen, start) {
            let copy = copy_indices(chosen);
            found.push(copy);
            proof {
                assert(all =~= seq![Seq::<int>::empty()]);
                assert(prefix + Seq::<int>::empty() =~= prefix);
                assert(with_prefix(prefix, all) =~= seq![prefix]);
                assert(as_assignments(found@) =~= begin + seq![prefix]);
            }
        } else {
            proof {
                assert(with_prefix(prefix, all) =~= Seq::<Seq<int>>::empty());
                assert(begin + with_prefix(prefix, all) =~= begin);
            }
        }
        return ;
    }
    let count = existing.len();
    let base = existing[start].addr;
    let value = &query.values[k];
    let mut j = from;
    proof {
        lemma_capped_twice(begin, with_prefix(prefix, all), limit as nat);
        assert(capped(begin, limit as nat) == begin);
    }
    while j < count && existing[j].addr >= base && existing[j].addr - base <= query.range as u64
        invariant
            start <= from <= j <= count,
            count == existing@.len(),
            start < count,
            base == existing@[start as int].addr,
            k < query.values@.len() <= usize::MAX,
            value == &query.values@[k as int],
            refine == group_refine(existing@, views_of(windows@), *query),
            chosen@ == old(chosen)@,
            prefix == as_ints(old(chosen)@),
            found@.len() <= limit,
            capped(
                as_assignments(found@) + with_prefix(
                    prefix,
                    refine.assignments(start as int, k as int, prefix, j as int),
                ),
                limit as nat,
            ) == capped(begin + with_prefix(prefix, all), limit as nat),
        decreases count - j,
    {
        let ghost now = as_assignments(found@);
        let ghost rest = refine.assignments(start as int, k as int, prefix, j as int);
        let ghost later = refine.assignments(start as int, k as int, prefix, j as int + 1);
        assert(refine.near(start as int, j as int));
        assert(bytes_at(views_of(windows@), start as int) == window_at(windows@, start as int));
        if !is_chosen(chosen, j) && fits_at(existing, windows, value, start, j) {
            let next = match query.mode {
                SearchMode::Ordered => j + 1,
                SearchMode::Unordered => start,
            };
            let ghost tails = refine.assignments(
                start as int,
                k as int + 1,
                prefix.push(j as int),
                next as int,
            );
            chosen.push(j);
            proof {
                assert(as_ints(chosen@) =~= prefix + seq![j as int]);
                assert(prefix.push(j as int) =~= prefix + seq![j as int]);
            }
            collect_groups(existing, windows, query, start, k + 1, next, chosen, found, limit);
            chosen.pop();
            proof {
                assert(chosen@ =~= old(chosen)@);
                assert(rest == prepend_each(j as int, tails) + later);
                lemma_with_prefix_concat(prefix, prepend_each(j as int, tails), later);
                lemma_with_prefix_prepend(prefix, j as int, tails);
                let mid = with_prefix(prefix + seq![j as int], tails);
                lemma_capped_twice(now + mid, with_prefix(prefix, later), limit as nat);
                assert((now + mid) + with_prefix(prefix, later) =~= now + with_prefix(
                    prefix,
                    rest,
                ));
            }
        } else {
            proof {
                assert(rest == Seq::<Seq<int>>::empty() + later);
                assert(Seq::<Seq<int>>::empty() + later =~= later);
            }
        }
        j = j + 1;
    }
    proof {
        let rest = refine.assignments(start as int, k as int, prefix, j as int);
        assert(!refine.near(start as int, j as int));
        assert(rest =~= Seq::<Seq<int>>::empty());
        assert(as_assignments(found@) + with_prefix(prefix, rest) =~= as_assignments(found@));
    }
}

/// Refines pairs against a group query. `existing` holds the pairs of the
/// earlier search by ascending address, and `windows[i]` the bytes read at
/// the address of `existing[i]`, or `None` where they could not be read.
///
/// From each pair in turn a group is looked for among the pair and the
/// pairs behind it that lie no more than `range` bytes away: each value of
/// the query is given to a pair of its own at whose address the first
/// pair's window matches the value, in ascending order of addresses for an
/// ordered query, and the first pair is one of those taken. The first
/// group that a depth-first search finds is taken; every pair of it is put
/// into the result with the type of its value.
pub fn refine_search_group_with_dfs(
    existing: &Vec<ValuePair>,
    windows: &Vec<Option<Vec<u8>>>,
    query: &SearchQuery,
) -> (refined: ValuePairSet)
    ensures
        refined@ == insert_all(
            Map::<u64, ValueType>::empty(),
            group_refine(existing@, views_of(windows@), *query).pairs(),
        ),
{
    let ghost refine = group_refine(existing@, views_of(windows@), *query);
    let mut refined = ValuePairSet::new();
    let mut start: usize = 0;
    while start < existing.len()
        invariant
            0 <= start <= existing@.len(),
            refine == group_refine(existing@, views_of(windows@), *query),
            refined@ == insert_all(
                Map::<u64, ValueType>::empty(),
                refine.pairs_below(start as int),
            ),
        decreases existing@.len() - start,
    {
        let mut chosen: Vec<usize> = Vec::new();
        let mut found: Vec<Vec<usize>> = Vec::new();
        collect_groups(existing, windows, query, start, 0, start, &mut chosen, &mut found, 1);
        let ghost so_far = refine.pairs_below(start as int);
        proof {
            let all = refine.assignments(start as int, 0, Seq::<int>::empty(), start as int);
            assert(as_ints(Seq::<usize>::empty()) =~= Seq::<int>::empty());
            assert forall|i: int| 0 <= i < all.len() implies Seq::<int>::empty() + #[trigger] all[i]
                == all[i] by {
                assert(Seq::<int>::empty() + all[i] =~= all[i]);
            }
            assert(with_prefix(Seq::<int>::empty(), all) =~= all);
            assert(as_assignments(Seq::<Vec<usize>>::empty()) =~= Seq::<Seq<int>>::empty());
            assert(Seq::<Seq<int>>::empty() + all =~= all);
            assert(as_assignments(found@) == refine.group_from(start as int));
            lemma_assignments_shape(refine, start as int, 0, Seq::<int>::empty(), start as int);
        }
        if found.len() > 0 {
            let group = &found[0];
            let ghost pairs = refine.pairs_of(as_ints(group@));
            proof {
                assert(as_assignments(found@)[0] == as_ints(group@));
                assert(pairs == refine.pairs_from(start as int));
                let all = refine.assignments(start as int, 0, Seq::<int>::empty(), start as int);
                assert(all.len() > 0);
                assert(capped(all, 1)[0] == all[0]);
                assert(as_ints(group@) == all[0]);
                assert forall|i: int| 0 <= i < group@.len() implies #[trigger] group@[i]
                    < existing@.len() by {
                    assert(as_ints(group@)[i] == group@[i]);
                    assert(all[0][i] < existing@.len());
                }
            }
            let mut k: usize = 0;
            while k < group.len()
                invariant
                    0 <= k <= group@.len(),
                    group@.len() == query.values@.len(),
                    refine == group_refine(existing@, views_of(windows@), *query),
                    pairs == refine.pairs_of(as_ints(group@)),
                    forall|i: int| 0 <= i < group@.len() ==> #[trigger] group@[i] < existing@.len(),
                    refined@ == insert_all(
                        insert_all(Map::<u64, ValueType>::empty(), so_far),
                        pairs.take(k as int),
                    ),
                decreases group@.len() - k,
            {
                assert(as_ints(group@)[k as int] == group@[k as int]);
                let pair = ValuePair::new(existing[group[k]].addr, query.values[k].value_type());
                let _ = refined.insert(pair);
                proof {
                    assert(pairs[k as int] == pair);
                    assert(pairs.take(k as int + 1).drop_last() =~= pairs.take(k as int));
                    assert(pairs.take(k as int + 1).last() == pairs[k as int]);
                }
                k += 1;
            }
            proof {
                assert(pairs.take(group@.len() as int) =~= pairs);
                lemma_insert_all_concat(Map::<u64, ValueType>::empty(), so_far, pairs);
            }
        } else {
            proof {
                assert(refine.pairs_from(start as int) =~= Seq::<ValuePair>::empty());
                assert(so_far + Seq::<ValuePair>::empty() =~= so_far);
            }
        }
        start += 1;
    }
    refined
}

} // verus!
