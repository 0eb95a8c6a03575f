//! Refine monotonicity: refining what a refinement kept, against the same
//! query on the same memory, keeps all of it.
use crate::deep::{capped, prepend_each};
use crate::refine::{bytes_at, refine_single, single_keeps, GroupRefine};
use crate::results::{has_addr, insert_all, lemma_insert_all_dom, lists_pairs, ValuePair};
use crate::types::{SearchValue, ValueType};
use vstd::prelude::*;

verus! {

/// The first group that a depth-first search finds: the first of the
/// assignments, where there is one.
pub open spec fn first_group(
    refine: GroupRefine,
    start: int,
    k: int,
    chosen: Seq<int>,
    j: int,
) -> Option<Seq<int>>
    decreases refine.values.len() - k, refine.existing.len() - j,
{
    if k < 0 || k >= refine.values.len() {
        if chosen.contains(start) {
            Some(Seq::empty())
        } else {
            None
        }
    } else if !refine.near(start, j) {
        None
    } else if !chosen.contains(j) && refine.fits(start, k, j) {
        match first_group(refine, start, k + 1, chosen.push(j), refine.next_candidate(start, j)) {
            Some(rest) => Some(seq![j] + rest),
            None => first_group(refine, start, k, chosen, j + 1),
        }
    } else {
        first_group(refine, start, k, chosen, j + 1)
    }
}

/// The first group is the first of the assignments.
pub proof fn lemma_first_group(refine: GroupRefine, start: int, k: int, chosen: Seq<int>, j: int)
    ensures
        match first_group(refine, start, k, chosen, j) {
            Some(group) => refine.assignments(start, k, chosen, j).len() > 0
                && refine.assignments(start, k, chosen, j)[0] == group,
            None => refine.assignments(start, k, chosen, j).len() == 0,
        },
    decreases refine.values.len() - k, refine.existing.len() - j,
{
    if 0 <= k < refine.values.len() && refine.near(start, j) {
        let later = refine.assignments(start, k, chosen, j + 1);
        lemma_first_group(refine, start, k, chosen, j + 1);
        if !chosen.contains(j) && refine.fits(start, k, j) {
            let next = refine.next_candidate(start, j);
            let tails = refine.assignments(start, k + 1, chosen.push(j), next);
            lemma_first_group(refine, start, k + 1, chosen.push(j), next);
            let here = prepend_each(j, tails);
            assert(refine.assignments(start, k, chosen, j) == here + later);
            if tails.len() > 0 {
                assert((here + later)[0] == here[0]);
            } else {
                assert(here + later =~= later);
            }
        } else {
            assert(Seq::<Seq<int>>::empty() + later =~= later);
        }
    }
}

/// The group found from a pair is the first group.
pub proof fn lemma_group_from(refine: GroupRefine, start: int)
    ensures
        match first_group(refine, start, 0, Seq::empty(), start) {
            Some(group) => refine.group_from(start).len() == 1 && refine.group_from(start)[0]
                == group,
            None => refine.group_from(start).len() == 0,
        },
{
    lemma_first_group(refine, start, 0, Seq::empty(), start);
    let all = refine.assignments(start, 0, Seq::empty(), start);
    if all.len() > 1 {
        assert(capped(all, 1) == all.take(1));
    }
}

/// A group takes the pair that the search started from, gives each value
/// from `k` on a pair, and takes pairs among those that exist.
pub proof fn lemma_first_group_shape(
    refine: GroupRefine,
    start: int,
    k: int,
    chosen: Seq<int>,
    j: int,
)
    requires
        0 <= k <= refine.values.len(),
        0 <= start <= j,
    ensures
        match first_group(refine, start, k, chosen, j) {
            Some(group) => {
                &&& (chosen + group).contains(start)
                &&& group.len() == refine.values.len() - k
                &&& forall|i: int|
                    0 <= i < group.len() ==> start <= #[trigger] group[i] < refine.existing.len()
            },
            None => true,
        },
    decreases refine.values.len() - k, refine.existing.len() - j,
{
    if k >= refine.values.len() {
        if chosen.contains(start) {
            assert(chosen + Seq::<int>::empty() =~= chosen);
        }
    } else if refine.near(start, j) {
        lemma_first_group_shape(refine, start, k, chosen, j + 1);
        if !chosen.contains(j) && refine.fits(start, k, j) {
            let next = refine.next_candidate(start, j);
            lemma_first_group_shape(refine, start, k + 1, chosen.push(j), next);
            match first_group(refine, start, k + 1, chosen.push(j), next) {
                Some(rest) => {
                    let group = seq![j] + rest;
                    assert(chosen.push(j) + rest =~= chosen + group);
                    assert forall|i: int| 0 <= i < group.len() implies start <= #[trigger] group[i]
                        < refine.existing.len() by {
                        if i > 0 {
                            assert(group[i] == rest[i - 1]);
                        }
                    }
                },
                None => {},
            }
        }
    }
}

/// Whether the pairs stand by strictly ascending address.
pub open spec fn strictly_ascending(pairs: Seq<ValuePair>) -> bool {
    forall|i: int, j: int| 0 <= i < j < pairs.len() ==> (#[trigger] pairs[i]).addr < (#[trigger] pairs[j]).addr
}

/// Whether `kept` is `all` without some of its pairs: `places` says where
/// in `all` each pair of `kept` stands, the pairs of `kept` stand in the
/// order of `all` and have the same windows, and the queries are the same.
pub open spec fn is_kept_from(kept: GroupRefine, all: GroupRefine, places: Seq<int>) -> bool {
    &&& places.len() == kept.existing.len()
    &&& forall|r: int| 0 <= r < places.len() ==> 0 <= #[trigger] places[r] < all.existing.len()
    &&& forall|r: int, t: int| 0 <= r < t < places.len() ==> #[trigger] places[r] < #[trigger] places[t]
    &&& forall|r: int|
        0 <= r < places.len() ==> (#[trigger] kept.existing[r]).addr == all.existing[places[r]].addr
    &&& forall|r: int|
        0 <= r < places.len() ==> #[trigger] bytes_at(kept.windows, r) == bytes_at(
            all.windows,
            places[r],
        )
    &&& kept.values == all.values
    &&& kept.mode == all.mode
    &&& kept.range == all.range
    &&& strictly_ascending(all.existing)
}

/// Whether a pair of `all` is among those kept.
pub open spec fn is_kept(places: Seq<int>, index: int) -> bool {
    exists|r: int| 0 <= r < places.len() && #[trigger] places[r] == index
}

/// The places of pairs of `kept`.
pub open spec fn placed(places: Seq<int>, group: Seq<int>) -> Seq<int> {
    Seq::new(group.len(), |i: int| places[group[i]])
}

/// Whether a position in `kept` and a position in `all` stand for the same
/// point of a search: no kept pair stands between them.
pub open spec fn in_step(places: Seq<int>, position: int, index: int) -> bool {
    &&& 0 <= position <= places.len()
    &&& 0 <= index
    &&& (position < places.len() ==> index <= places[position])
    &&& (position > 0 ==> places[position - 1] < index)
}

/// Where a position in `kept` and a position in `all` are in step and the
/// pair at the position in `all` is kept, it is the pair at the position
/// in `kept`.
pub proof fn lemma_in_step_kept(places: Seq<int>, position: int, index: int)
    requires
        forall|r: int, t: int| 0 <= r < t < places.len() ==> #[trigger] places[r] < #[trigger] places[t],
        in_step(places, position, index),
        is_kept(places, index),
    ensures
        position < places.len(),
        places[position] == index,
{
    let r = choose|r: int| 0 <= r < places.len() && #[trigger] places[r] == index;
    if r < position {
        if r < position - 1 {
            assert(places[r] < places[position - 1]);
        }
    } else if r > position {
        assert(places[position] < places[r]);
    }
}

/// The pairs chosen in `all` are the places of the pairs chosen in `kept`.
pub proof fn lemma_chosen_alike(places: Seq<int>, chosen: Seq<int>, position: int)
    requires
        forall|r: int, t: int| 0 <= r < t < places.len() ==> #[trigger] places[r] < #[trigger] places[t],
        forall|i: int| 0 <= i < chosen.len() ==> 0 <= #[trigger] chosen[i] < places.len(),
        0 <= position < places.len(),
    ensures
        placed(places, chosen).contains(places[position]) == chosen.contains(position),
        placed(places, chosen.push(position)) == placed(places, chosen).push(places[position]),
{
    let mapped = placed(places, chosen);
    if chosen.contains(position) {
        let i = choose|i: int| 0 <= i < chosen.len() && chosen[i] == position;
        assert(mapped[i] == places[position]);
    }
    if mapped.contains(places[position]) {
        let i = choose|i: int| 0 <= i < mapped.len() && mapped[i] == places[position];
        let q = chosen[i];
        if q < position {
            assert(places[q] < places[position]);
        } else if q > position {
            assert(places[position] < places[q]);
        }
        assert(chosen[i] == position);
    }
    assert(placed(places, chosen.push(position)) =~= mapped.push(places[position]));
}

/// A kept pair is a neighbour, and fits a value, in `kept` exactly when
/// its place is and does in `all`.
pub proof fn lemma_alike(
    kept: GroupRefine,
    all: GroupRefine,
    places: Seq<int>,
    start: int,
    k: int,
    position: int,
)
    requires
        is_kept_from(kept, all, places),
        0 <= start <= position < places.len(),
        0 <= k < kept.values.len(),
    ensures
        kept.near(start, position) == all.near(places[start], places[position]),
        kept.fits(start, k, position) == all.fits(places[start], k, places[position]),
        places[start] <= places[position],
{
    assert(kept.existing[start].addr == all.existing[places[start]].addr);
    assert(kept.existing[position].addr == all.existing[places[position]].addr);
    assert(bytes_at(kept.windows, start) == bytes_at(all.windows, places[start]));
    if start < position {
        assert(places[start] < places[position]);
        assert(all.existing[places[start]].addr < all.existing[places[position]].addr);
    }
}

/// Whether every pair chosen is a pair of `kept`.
pub open spec fn all_in(chosen: Seq<int>, places: Seq<int>) -> bool {
    forall|i: int| 0 <= i < chosen.len() ==> 0 <= #[trigger] chosen[i] < places.len()
}

/// Where the search in `kept` finds a group, the search in `all` finds
/// one.
pub proof fn lemma_group_in_kept_gives_group_in_all(
    kept: GroupRefine,
    all: GroupRefine,
    places: Seq<int>,
    start: int,
    k: int,
    chosen: Seq<int>,
    position: int,
    index: int,
)
    requires
        is_kept_from(kept, all, places),
        0 <= start < places.len(),
        0 <= k <= kept.values.len(),
        all_in(chosen, places),
        start <= position,
        in_step(places, position, index),
        places[start] <= index,
        first_group(kept, start, k, chosen, position).is_some(),
    ensures
        first_group(all, places[start], k, placed(places, chosen), index).is_some(),
    decreases kept.values.len() - k, all.existing.len() - index,
{
    let origin = places[start];
    let chosen_all = placed(places, chosen);
    if k >= kept.values.len() {
        lemma_chosen_alike(places, chosen, start);
    } else {
        assert(kept.near(start, position));
        lemma_alike(kept, all, places, start, k, position);
        let place = places[position];
        if index < place {
            if is_kept(places, index) {
                lemma_in_step_kept(places, position, index);
            }
            if origin < index {
                assert(all.existing[origin].addr < all.existing[index].addr);
            }
            assert(all.existing[index].addr < all.existing[place].addr);
            assert(all.near(origin, index));
            lemma_group_in_kept_gives_group_in_all(
                kept,
                all,
                places,
                start,
                k,
                chosen,
                position,
                index + 1,
            );
        } else {
            lemma_chosen_alike(places, chosen, position);
            let next_kept = kept.next_candidate(start, position);
            let next_all = all.next_candidate(origin, index);
            let usable = !chosen.contains(position) && kept.fits(start, k, position);
            if usable && first_group(kept, start, k + 1, chosen.push(position), next_kept).is_some() {
                assert(in_step(places, next_kept, next_all)) by {
                    if position + 1 < places.len() {
                        assert(places[position] < places[position + 1]);
                    }
                    if start > 0 {
                        assert(places[start - 1] < places[start]);
                    }
                }
                lemma_group_in_kept_gives_group_in_all(
                    kept,
                    all,
                    places,
                    start,
                    k + 1,
                    chosen.push(position),
                    next_kept,
                    next_all,
                );
            } else {
                assert(first_group(kept, start, k, chosen, position + 1).is_some());
                assert(in_step(places, position + 1, index + 1)) by {
                    if position + 1 < places.len() {
                        assert(places[position] < places[position + 1]);
                    }
                }
                lemma_group_in_kept_gives_group_in_all(
                    kept,
                    all,
                    places,
                    start,
                    k,
                    chosen,
                    position + 1,
                    index + 1,
                );
            }
        }
    }
}

/// Where the search in `all` finds a group of kept pairs, the search in
/// `kept` finds the same group.
pub proof fn lemma_group_in_all_is_group_in_kept(
    kept: GroupRefine,
    all: GroupRefine,
    places: Seq<int>,
    start: int,
    k: int,
    chosen: Seq<int>,
    position: int,
    index: int,
)
    requires
        is_kept_from(kept, all, places),
        0 <= start < places.len(),
        0 <= k <= kept.values.len(),
        all_in(chosen, places),
        start <= position,
        in_step(places, position, index),
        places[start] <= index,
        first_group(all, places[start], k, placed(places, chosen), index).is_some(),
        forall|t: int|
            0 <= t < first_group(
                all,
                places[start],
                k,
                placed(places, chosen),
                index,
            ).unwrap().len() ==> is_kept(
                places,
                #[trigger] first_group(
                    all,
                    places[start],
                    k,
                    placed(places, chosen),
                    index,
                ).unwrap()[t],
            ),
    ensures
        first_group(kept, start, k, chosen, position).is_some(),
        all_in(first_group(kept, start, k, chosen, position).unwrap(), places),
        placed(places, first_group(kept, start, k, chosen, position).unwrap()) == first_group(
            all,
            places[start],
            k,
            placed(places, chosen),
            index,
        ).unwrap(),
    decreases kept.values.len() - k, all.existing.len() - index,
{
    let origin = places[start];
    let chosen_all = placed(places, chosen);
    let group = first_group(all, origin, k, chosen_all, index).unwrap();
    if k >= kept.values.len() {
        lemma_chosen_alike(places, chosen, start);
        assert(placed(places, Seq::<int>::empty()) =~= Seq::<int>::empty());
    } else {
        assert(all.near(origin, index));
        let next_all = all.next_candidate(origin, index);
        let usable_all = !chosen_all.contains(index) && all.fits(origin, k, index);
        let taken = usable_all && first_group(
            all,
            origin,
            k + 1,
            chosen_all.push(index),
            next_all,
        ).is_some();
        if !is_kept(places, index) {
            if taken {
                let rest = first_group(all, origin, k + 1, chosen_all.push(index), next_all).unwrap();
                assert(group == seq![index] + rest);
                assert(group[0] == index);
                assert(false);
            }
            assert(in_step(places, position, index + 1)) by {
                if position < places.len() {
                    if index == places[position] {
                        assert(is_kept(places, index));
                    }
                }
            }
            lemma_group_in_all_is_group_in_kept(
                kept,
                all,
                places,
                start,
                k,
                chosen,
                position,
                index + 1,
            );
        } else {
            lemma_in_step_kept(places, position, index);
            lemma_alike(kept, all, places, start, k, position);
            lemma_chosen_alike(places, chosen, position);
            let next_kept = kept.next_candidate(start, position);
            assert(in_step(places, next_kept, next_all)) by {
                if position + 1 < places.len() {
                    assert(places[position] < places[position + 1]);
                }
                if start > 0 {
                    assert(places[start - 1] < places[start]);
                }
            }
            assert(in_step(places, position + 1, index + 1)) by {
                if position + 1 < places.len() {
                    assert(places[position] < places[position + 1]);
                }
            }
            if taken {
                let rest = first_group(all, origin, k + 1, chosen_all.push(index), next_all).unwrap();
                assert(group == seq![index] + rest);
                assert forall|t: int| 0 <= t < rest.len() implies is_kept(places, #[trigger] rest[t]) by {
                    assert(group[t + 1] == rest[t]);
                }
                lemma_group_in_all_is_group_in_kept(
                    kept,
                    all,
                    places,
                    start,
                    k + 1,
                    chosen.push(position),
                    next_kept,
                    next_all,
                );
                let rest_kept = first_group(
                    kept,
                    start,
                    k + 1,
                    chosen.push(position),
                    next_kept,
                ).unwrap();
                let found = seq![position] + rest_kept;
                assert(first_group(kept, start, k, chosen, position) == Some(found));
                assert(placed(places, found) =~= group);
                assert forall|t: int| 0 <= t < found.len() implies 0 <= #[trigger] found[t]
                    < places.len() by {
                    if t > 0 {
                        assert(found[t] == rest_kept[t - 1]);
                    }
                }
            } else {
                let usable_kept = !chosen.contains(position) && kept.fits(start, k, position);
                if usable_kept && first_group(
                    kept,
                    start,
                    k + 1,
                    chosen.push(position),
                    next_kept,
                ).is_some() {
                    lemma_group_in_kept_gives_group_in_all(
                        kept,
                        all,
                        places,
                        start,
                        k + 1,
                        chosen.push(position),
                        next_kept,
                        next_all,
                    );
                    assert(false);
                }
                lemma_group_in_all_is_group_in_kept(
                    kept,
                    all,
                    places,
                    start,
                    k,
                    chosen,
                    position + 1,
                    index + 1,
                );
            }
        }
    }
}

/// The pairs found from a pair are among all pairs found.
pub proof fn lemma_pairs_from_are_pairs(refine: GroupRefine, start: int, upto: int, pair: ValuePair)
    requires
        0 <= start < upto,
        refine.pairs_from(start).contains(pair),
    ensures
        refine.pairs_below(upto).contains(pair),
    decreases upto,
{
    let front = refine.pairs_below(upto - 1);
    let here = refine.pairs_from(upto - 1);
    let all = refine.pairs_below(upto);
    assert(all == front + here);
    if start == upto - 1 {
        let i = choose|i: int| 0 <= i < here.len() && here[i] == pair;
        assert(all[front.len() + i] == pair);
    } else {
        lemma_pairs_from_are_pairs(refine, start, upto - 1, pair);
        let i = choose|i: int| 0 <= i < front.len() && front[i] == pair;
        assert(all[i] == pair);
    }
}

/// A pair among the pairs found below a pair is found from one of those
/// below.
pub proof fn lemma_pairs_origin(refine: GroupRefine, upto: int, pair: ValuePair)
    requires
        refine.pairs_below(upto).contains(pair),
    ensures
        exists|start: int| 0 <= start < upto && #[trigger] refine.pairs_from(start).contains(pair),
    decreases upto,
{
    if upto > 0 {
        let front = refine.pairs_below(upto - 1);
        let here = refine.pairs_from(upto - 1);
        let all = refine.pairs_below(upto);
        assert(all == front + here);
        let i = choose|i: int| 0 <= i < all.len() && all[i] == pair;
        if i < front.len() {
            assert(front[i] == pair);
            lemma_pairs_origin(refine, upto - 1, pair);
            let start = choose|start: int|
                0 <= start < upto - 1 && #[trigger] refine.pairs_from(start).contains(pair);
            assert(refine.pairs_from(start).contains(pair));
        } else {
            assert(here[i - front.len()] == pair);
            assert(refine.pairs_from(upto - 1).contains(pair));
        }
    }
}

/// Whether the pairs kept are those whose address the refinement of `all`
/// finds.
pub open spec fn keeps_the_found(all: GroupRefine, places: Seq<int>) -> bool {
    forall|i: int|
        0 <= i < all.existing.len() ==> (#[trigger] is_kept(places, i) <==> has_addr(
            all.pairs(),
            all.existing[i].addr,
        ))
}

/// Every pair of the group found from a pair is among the pairs found.
pub proof fn lemma_group_is_found(all: GroupRefine, start: int, t: int)
    requires
        0 <= start < all.existing.len(),
        first_group(all, start, 0, Seq::empty(), start).is_some(),
        0 <= t < first_group(all, start, 0, Seq::empty(), start).unwrap().len(),
    ensures
        0 <= first_group(all, start, 0, Seq::empty(), start).unwrap()[t] < all.existing.len(),
        has_addr(
            all.pairs(),
            all.existing[first_group(all, start, 0, Seq::empty(), start).unwrap()[t]].addr,
        ),
{
    let group = first_group(all, start, 0, Seq::empty(), start).unwrap();
    lemma_group_from(all, start);
    lemma_first_group_shape(all, start, 0, Seq::empty(), start);
    let here = all.pairs_from(start);
    assert(here == all.pairs_of(group));
    let pair = here[t];
    assert(here.contains(pair));
    lemma_pairs_from_are_pairs(all, start, all.existing.len() as int, pair);
    let pairs = all.pairs();
    let j = choose|j: int| 0 <= j < pairs.len() && pairs[j] == pair;
    assert(pairs[j].addr == all.existing[group[t]].addr);
}

/// From a kept pair the refinement of the kept pairs finds the pairs that
/// the refinement of all pairs finds from it.
pub proof fn lemma_same_pairs_from(kept: GroupRefine, all: GroupRefine, places: Seq<int>, start: int)
    requires
        is_kept_from(kept, all, places),
        keeps_the_found(all, places),
        0 <= start < places.len(),
    ensures
        kept.pairs_from(start) == all.pairs_from(places[start]),
{
    let origin = places[start];
    let none = Seq::<int>::empty();
    assert(placed(places, none) =~= none);
    assert(in_step(places, start, origin)) by {
        if start > 0 {
            assert(places[start - 1] < places[start]);
        }
    }
    lemma_group_from(kept, start);
    lemma_group_from(all, origin);
    match first_group(all, origin, 0, none, origin) {
        Some(group) => {
            assert forall|t: int| 0 <= t < group.len() implies is_kept(places, #[trigger] group[t]) by {
                lemma_group_is_found(all, origin, t);
            }
            lemma_group_in_all_is_group_in_kept(kept, all, places, start, 0, none, start, origin);
            let found = first_group(kept, start, 0, none, start).unwrap();
            assert(placed(places, found) == group);
            assert forall|t: int| 0 <= t < found.len() implies kept.pairs_of(found)[t]
                == all.pairs_of(group)[t] by {
                assert(group[t] == places[found[t]]);
                assert(kept.existing[found[t]].addr == all.existing[places[found[t]]].addr);
            }
            assert(kept.pairs_of(found) =~= all.pairs_of(group));
        },
        None => {
            if first_group(kept, start, 0, none, start).is_some() {
                lemma_group_in_kept_gives_group_in_all(
                    kept,
                    all,
                    places,
                    start,
                    0,
                    none,
                    start,
                    origin,
                );
            }
        },
    }
}

/// From a pair that is not kept the refinement of all pairs finds nothing.
pub proof fn lemma_nothing_from_the_dropped(all: GroupRefine, places: Seq<int>, index: int)
    requires
        keeps_the_found(all, places),
        0 <= index < all.existing.len(),
        !is_kept(places, index),
    ensures
        all.pairs_from(index) == Seq::<ValuePair>::empty(),
{
    let none = Seq::<int>::empty();
    lemma_group_from(all, index);
    if first_group(all, index, 0, none, index).is_some() {
        let group = first_group(all, index, 0, none, index).unwrap();
        lemma_first_group_shape(all, index, 0, none, index);
        assert(none + group =~= group);
        let t = choose|t: int| 0 <= t < group.len() && group[t] == index;
        lemma_group_is_found(all, index, t);
        assert(false);
    }
}

/// Up to positions that are in step, the refinement of the kept pairs
/// finds the pairs that the refinement of all pairs finds.
pub proof fn lemma_same_pairs_below(
    kept: GroupRefine,
    all: GroupRefine,
    places: Seq<int>,
    position: int,
    index: int,
)
    requires
        is_kept_from(kept, all, places),
        keeps_the_found(all, places),
        in_step(places, position, index),
        index <= all.existing.len(),
    ensures
        kept.pairs_below(position) == all.pairs_below(index),
    decreases index,
{
    if index == 0 {
        assert(position == 0);
    } else if is_kept(places, index - 1) {
        let r = choose|r: int| 0 <= r < places.len() && #[trigger] places[r] == index - 1;
        if r < position - 1 {
            assert(places[r] < places[position - 1]);
        }
        if r >= position {
            if r > position {
                assert(places[position] < places[r]);
            }
        }
        assert(r == position - 1);
        assert(in_step(places, position - 1, index - 1)) by {
            if position - 1 > 0 {
                assert(places[position - 2] < places[position - 1]);
            }
        }
        lemma_same_pairs_below(kept, all, places, position - 1, index - 1);
        lemma_same_pairs_from(kept, all, places, position - 1);
    } else {
        assert(in_step(places, position, index - 1)) by {
            if position > 0 {
                if places[position - 1] == index - 1 {
                    assert(is_kept(places, index - 1));
                }
            }
        }
        lemma_same_pairs_below(kept, all, places, position, index - 1);
        lemma_nothing_from_the_dropped(all, places, index - 1);
        assert(all.pairs_below(index - 1) + Seq::<ValuePair>::empty() =~= all.pairs_below(
            index - 1,
        ));
    }
}

/// The windows of pairs in a memory that gives each address its window.
pub open spec fn windows_from(
    window_of: spec_fn(u64) -> Option<Seq<u8>>,
    pairs: Seq<ValuePair>,
) -> Seq<Option<Seq<u8>>> {
    Seq::new(pairs.len(), |i: int| window_of(pairs[i].addr))
}

/// An address that a refinement finds is the address of one of the pairs
/// that were refined.
pub proof fn lemma_found_is_existing(all: GroupRefine, addr: u64)
    requires
        has_addr(all.pairs(), addr),
    ensures
        exists|i: int| 0 <= i < all.existing.len() && (#[trigger] all.existing[i]).addr == addr,
{
    let pairs = all.pairs();
    let j = choose|j: int| 0 <= j < pairs.len() && (#[trigger] pairs[j]).addr == addr;
    let pair = pairs[j];
    assert(pairs.contains(pair));
    lemma_pairs_origin(all, all.existing.len() as int, pair);
    let start = choose|start: int|
        0 <= start < all.existing.len() && #[trigger] all.pairs_from(start).contains(pair);
    lemma_group_from(all, start);
    lemma_first_group_shape(all, start, 0, Seq::empty(), start);
    let group = first_group(all, start, 0, Seq::empty(), start).unwrap();
    let here = all.pairs_from(start);
    assert(here == all.pairs_of(group));
    let t = choose|t: int| 0 <= t < here.len() && here[t] == pair;
    assert(0 <= group[t] < all.existing.len());
    assert(all.existing[group[t]].addr == addr);
}

/// The place in `all` of the pair with the address of pair `r` of `kept`.
pub open spec fn place_of(all: Seq<ValuePair>, kept: Seq<ValuePair>, r: int) -> int {
    choose|i: int| 0 <= i < all.len() && (#[trigger] all[i]).addr == kept[r].addr
}

/// Refine monotonicity: refining the pairs that a refinement against a
/// group query found, against the same query on the same memory, finds
/// the same pairs again. The pairs that are refined stand by strictly
/// ascending address, as the store holds them, and the memory gives each
/// address one window.
pub proof fn lemma_refine_group_idempotent(
    all: GroupRefine,
    kept_pairs: Seq<ValuePair>,
    window_of: spec_fn(u64) -> Option<Seq<u8>>,
)
    requires
        strictly_ascending(all.existing),
        all.windows == windows_from(window_of, all.existing),
        lists_pairs(kept_pairs, insert_all(Map::<u64, ValueType>::empty(), all.pairs())),
    ensures
        (GroupRefine {
            existing: kept_pairs,
            windows: windows_from(window_of, kept_pairs),
            ..all
        }).pairs() == all.pairs(),
        insert_all(
            Map::<u64, ValueType>::empty(),
            (GroupRefine {
                existing: kept_pairs,
                windows: windows_from(window_of, kept_pairs),
                ..all
            }).pairs(),
        ) == insert_all(Map::<u64, ValueType>::empty(), all.pairs()),
{
    let kept = GroupRefine {
        existing: kept_pairs,
        windows: windows_from(window_of, kept_pairs),
        ..all
    };
    let found = insert_all(Map::<u64, ValueType>::empty(), all.pairs());
    let places = Seq::new(kept_pairs.len(), |r: int| place_of(all.existing, kept_pairs, r));
    assert forall|r: int| 0 <= r < places.len() implies 0 <= #[trigger] places[r]
        < all.existing.len() && all.existing[places[r]].addr == kept_pairs[r].addr by {
        assert(found.contains_key(kept_pairs[r].addr));
        lemma_insert_all_dom(Map::<u64, ValueType>::empty(), all.pairs(), kept_pairs[r].addr);
        lemma_found_is_existing(all, kept_pairs[r].addr);
    }
    assert forall|r: int, t: int| 0 <= r < t < places.len() implies #[trigger] places[r]
        < #[trigger] places[t] by {
        assert(kept_pairs[r].addr < kept_pairs[t].addr);
        assert(all.existing[places[r]].addr == kept_pairs[r].addr);
        assert(all.existing[places[t]].addr == kept_pairs[t].addr);
        if places[r] > places[t] {
            assert(all.existing[places[t]].addr < all.existing[places[r]].addr);
        }
    }
    assert forall|r: int| 0 <= r < places.len() implies (#[trigger] kept.existing[r]).addr
        == all.existing[places[r]].addr by {
        assert(all.existing[places[r]].addr == kept_pairs[r].addr);
    }
    assert forall|r: int| 0 <= r < places.len() implies #[trigger] bytes_at(kept.windows, r)
        == bytes_at(all.windows, places[r]) by {
        assert(all.existing[places[r]].addr == kept_pairs[r].addr);
    }
    assert(is_kept_from(kept, all, places));
    assert forall|i: int| 0 <= i < all.existing.len() implies (#[trigger] is_kept(places, i)
        <==> has_addr(all.pairs(), all.existing[i].addr)) by {
        let addr = all.existing[i].addr;
        lemma_insert_all_dom(Map::<u64, ValueType>::empty(), all.pairs(), addr);
        if is_kept(places, i) {
            let r = choose|r: int| 0 <= r < places.len() && #[trigger] places[r] == i;
            assert(all.existing[places[r]].addr == kept_pairs[r].addr);
            assert(found.contains_key(kept_pairs[r].addr));
        }
        if has_addr(all.pairs(), addr) {
            assert(found.contains_key(addr));
            let r = choose|r: int| 0 <= r < kept_pairs.len() && (#[trigger] kept_pairs[r]).addr == addr;
            assert(all.existing[places[r]].addr == addr);
            if places[r] < i {
                assert(all.existing[places[r]].addr < all.existing[i].addr);
            } else if places[r] > i {
                assert(all.existing[i].addr < all.existing[places[r]].addr);
            }
            assert(places[r] == i);
        }
    }
    assert(in_step(places, places.len() as int, all.existing.len() as int));
    lemma_same_pairs_below(kept, all, places, places.len() as int, all.existing.len() as int);
}

/// The windows of the pairs that stay when the first `n` pairs are refined
/// against a single value, in the order of the pairs.
pub open spec fn kept_windows(
    existing: Seq<ValuePair>,
    windows: Seq<Option<Seq<u8>>>,
    value: SearchValue,
    n: int,
) -> Seq<Option<Seq<u8>>>
    decreases n,
{
    if n <= 0 {
        Seq::empty()
    } else if single_keeps(existing[n - 1], bytes_at(windows, n - 1), value) {
        kept_windows(existing, windows, value, n - 1).push(bytes_at(windows, n - 1))
    } else {
        kept_windows(existing, windows, value, n - 1)
    }
}

/// Refine monotonicity for a single value: refining the pairs that stayed
/// against the same value, on the same memory, keeps all of them.
pub proof fn lemma_refine_single_idempotent(
    existing: Seq<ValuePair>,
    windows: Seq<Option<Seq<u8>>>,
    value: SearchValue,
    n: int,
)
    requires
        0 <= n <= existing.len(),
    ensures
        kept_windows(existing, windows, value, n).len() == refine_single(
            existing,
            windows,
            value,
            n,
        ).len(),
        refine_single(
            refine_single(existing, windows, value, n),
            kept_windows(existing, windows, value, n),
            value,
            refine_single(existing, windows, value, n).len() as int,
        ) == refine_single(existing, windows, value, n),
    decreases n,
{
    if n > 0 {
        lemma_refine_single_idempotent(existing, windows, value, n - 1);
        let kept_before = refine_single(existing, windows, value, n - 1);
        let windows_before = kept_windows(existing, windows, value, n - 1);
        let kept = refine_single(existing, windows, value, n);
        let kept_w = kept_windows(existing, windows, value, n);
        lemma_refine_single_prefix(kept, kept_w, kept_before, windows_before, value, kept_before.len() as int);
        if single_keeps(existing[n - 1], bytes_at(windows, n - 1), value) {
            assert(kept == kept_before.push(existing[n - 1]));
            assert(kept_w == windows_before.push(bytes_at(windows, n - 1)));
            assert(bytes_at(kept_w, kept.len() - 1) == bytes_at(windows, n - 1));
            assert(kept[kept.len() - 1] == existing[n - 1]);
        }
    }
}

/// Refining the first `n` pairs looks at those pairs and their windows
/// only.
pub proof fn lemma_refine_single_prefix(
    existing: Seq<ValuePair>,
    windows: Seq<Option<Seq<u8>>>,
    other: Seq<ValuePair>,
    other_windows: Seq<Option<Seq<u8>>>,
    value: SearchValue,
    n: int,
)
    requires
        0 <= n <= existing.len(),
        n <= other.len(),
        forall|i: int| 0 <= i < n ==> existing[i] == other[i],
        forall|i: int| 0 <= i < n ==> bytes_at(windows, i) == bytes_at(other_windows, i),
    ensures
        refine_single(existing, windows, value, n) == refine_single(other, other_windows, value, n),
    decreases n,
{
    if n > 0 {
        lemma_refine_single_prefix(existing, windows, other, other_windows, value, n - 1);
    }
}

} // verus!
