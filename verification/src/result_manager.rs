//! The result store: the results of the last search, by ascending address.
use crate::error::SearchError;
use crate::results::ValuePair;
use crate::types::ValueType;
use vstd::prelude::*;

verus! {

/// What kind of results the store holds.
#[derive(Debug, Clone, Copy, PartialEq, Eq, Structural)]
pub enum SearchResultMode {
    /// Results of a search for given values.
    Exact,
    /// Results that carry the value last seen at their address.
    Fuzzy,
}

/// A result of a search for given values.
#[derive(Debug, Clone, Copy, PartialEq, Eq, Structural)]
pub struct ExactSearchResultItem {
    pub address: u64,
    pub typ: ValueType,
}

/// A result with the bytes last seen at its address.
#[derive(Debug, Clone, Copy)]
pub struct FuzzySearchResultItem {
    pub address: u64,
    pub typ: ValueType,
    pub value: [u8; 8],
}

/// A stored result.
#[derive(Debug, Clone, Copy)]
pub enum SearchResultItem {
    Exact(ExactSearchResultItem),
    Fuzzy(FuzzySearchResultItem),
}

impl SearchResultItem {
    /// The address of the result.
    pub open spec fn spec_address(&self) -> u64 {
        match *self {
            SearchResultItem::Exact(item) => item.address,
            SearchResultItem::Fuzzy(item) => item.address,
        }
    }

    /// The type of the value at the address.
    pub open spec fn spec_value_type(&self) -> ValueType {
        match *self {
            SearchResultItem::Exact(item) => item.typ,
            SearchResultItem::Fuzzy(item) => item.typ,
        }
    }

    /// An exact result.
    pub fn new_exact(address: u64, typ: ValueType) -> (item: SearchResultItem)
        ensures
            item == SearchResultItem::Exact(ExactSearchResultItem { address, typ }),
    {
        SearchResultItem::Exact(ExactSearchResultItem { address, typ })
    }

    #[verifier::when_used_as_spec(spec_address)]
    pub fn address(&self) -> (address: u64)
        ensures
            address == self.spec_address(),
    {
        match self {
            SearchResultItem::Exact(item) => item.address,
            SearchResultItem::Fuzzy(item) => item.address,
        }
    }

    #[verifier::when_used_as_spec(spec_value_type)]
    pub fn value_type(&self) -> (typ: ValueType)
        ensures
            typ == self.spec_value_type(),
    {
        match self {
            SearchResultItem::Exact(item) => item.typ,
            SearchResultItem::Fuzzy(item) => item.typ,
        }
    }
}

impl From<ValuePair> for SearchResultItem {
    fn from(pair: ValuePair) -> (item: SearchResultItem) {
        SearchResultItem::new_exact(pair.addr, pair.value_type)
    }
}

impl vstd::std_specs::convert::FromSpecImpl<ValuePair> for SearchResultItem {
    open spec fn obeys_from_spec() -> bool {
        true
    }

    open spec fn from_spec(pair: ValuePair) -> SearchResultItem {
        SearchResultItem::Exact(ExactSearchResultItem { address: pair.addr, typ: pair.value_type })
    }
}

/// The exact results that stand for the pairs.
pub open spec fn items_of(pairs: Seq<ValuePair>) -> Seq<SearchResultItem> {
    pairs.map_values(
        |pair: ValuePair|
            SearchResultItem::Exact(
                ExactSearchResultItem { address: pair.addr, typ: pair.value_type },
            ),
    )
}

/// Whether the results stand by strictly ascending address.
pub open spec fn ascending(items: Seq<SearchResultItem>) -> bool {
    forall|i: int, j: int|
        0 <= i < j < items.len() ==> (#[trigger] items[i]).spec_address() < (
        #[trigger] items[j]).spec_address()
}

/// The index at which a result with the given address belongs: behind the
/// last result whose address is lower, looking from the end.
pub open spec fn place(items: Seq<SearchResultItem>, address: u64) -> int
    decreases items.len(),
{
    if items.len() == 0 {
        0
    } else if items.last().spec_address() >= address {
        place(items.drop_last(), address)
    } else {
        items.len() as int
    }
}

/// The results with one more: it takes the place of a result with the same
/// address, and else stands where its address belongs.
pub open spec fn add_one(items: Seq<SearchResultItem>, item: SearchResultItem) -> Seq<
    SearchResultItem,
> {
    let at = place(items, item.spec_address());
    if at < items.len() && items[at].spec_address() == item.spec_address() {
        items.update(at, item)
    } else {
        items.insert(at, item)
    }
}

/// The results with a batch added, one result after the other.
pub open spec fn add_all(items: Seq<SearchResultItem>, batch: Seq<SearchResultItem>) -> Seq<
    SearchResultItem,
>
    decreases batch.len(),
{
    if batch.len() == 0 {
        items
    } else {
        add_one(add_all(items, batch.drop_last()), batch.last())
    }
}

/// The exact results among the first `n`, in their order.
pub open spec fn exact_among(items: Seq<SearchResultItem>, n: int) -> Seq<ExactSearchResultItem>
    decreases n,
{
    if n <= 0 {
        Seq::empty()
    } else {
        match items[n - 1] {
            SearchResultItem::Exact(item) => exact_among(items, n - 1).push(item),
            SearchResultItem::Fuzzy(_) => exact_among(items, n - 1),
        }
    }
}

/// Whether `index` is listed.
pub open spec fn has_index(indices: Seq<usize>, index: int) -> bool {
    exists|k: int| 0 <= k < indices.len() && #[trigger] indices[k] == index
}

/// The first `n` results without those whose index is listed.
pub open spec fn without(items: Seq<SearchResultItem>, indices: Seq<usize>, n: int) -> Seq<
    SearchResultItem,
>
    decreases n,
{
    if n <= 0 {
        Seq::empty()
    } else if has_index(indices, n - 1) {
        without(items, indices, n - 1)
    } else {
        without(items, indices, n - 1).push(items[n - 1])
    }
}

/// The place of an address lies in the sequence; everything from it on is
/// not lower than the address, and what stands just before it is lower.
pub proof fn lemma_place(items: Seq<SearchResultItem>, address: u64)
    ensures
        0 <= place(items, address) <= items.len(),
        forall|i: int| place(items, address) <= i < items.len() ==> (#[trigger] items[i]).spec_address() >= address,
        place(items, address) > 0 ==> items[place(items, address) - 1].spec_address() < address,
    decreases items.len(),
{
    if items.len() > 0 && items.last().spec_address() >= address {
        let front = items.drop_last();
        lemma_place(front, address);
        assert forall|i: int| place(items, address) <= i < items.len() implies (#[trigger] items[i]).spec_address()
            >= address by {
            if i < front.len() {
                assert(front[i] == items[i]);
            }
        }
        if place(items, address) > 0 {
            assert(front[place(front, address) - 1] == items[place(items, address) - 1]);
        }
    }
}

/// Adding a result keeps ascending results ascending.
pub proof fn lemma_add_one_ascending(items: Seq<SearchResultItem>, item: SearchResultItem)
    requires
        ascending(items),
    ensures
        ascending(add_one(items, item)),
{
    let address = item.spec_address();
    let at = place(items, address);
    lemma_place(items, address);
    let added = add_one(items, item);
    if at < items.len() && items[at].spec_address() == address {
        assert forall|i: int, j: int| 0 <= i < j < added.len() implies (#[trigger] added[i]).spec_address()
            < (#[trigger] added[j]).spec_address() by {
            assert(items[i].spec_address() < items[j].spec_address());
        }
    } else {
        assert forall|i: int, j: int| 0 <= i < j < added.len() implies (#[trigger] added[i]).spec_address()
            < (#[trigger] added[j]).spec_address() by {
            if j < at {
                assert(items[i].spec_address() < items[j].spec_address());
            } else if j == at {
                if at > 0 {
                    if i < at - 1 {
                        assert(items[i].spec_address() < items[at - 1].spec_address());
                    }
                }
            } else if i == at {
                assert(items[j - 1].spec_address() >= address);
                if at < items.len() {
                    assert(items[at].spec_address() >= address);
                    if at < j - 1 {
                        assert(items[at].spec_address() < items[j - 1].spec_address());
                    }
                }
            } else if i < at {
                assert(items[i].spec_address() < items[j - 1].spec_address());
            } else {
                assert(items[i - 1].spec_address() < items[j - 1].spec_address());
            }
        }
    }
}

/// What the store holds.
pub struct StoreView {
    /// The kind of results.
    pub mode: SearchResultMode,
    /// The results, by ascending address.
    pub items: Seq<SearchResultItem>,
}

/// The results of the last search, held in memory by ascending address, an
/// address once.
pub struct SearchResultManager {
    mode: SearchResultMode,
    memory_buffer_size: usize,
    items: Vec<SearchResultItem>,
}

impl View for SearchResultManager {
    type V = StoreView;

    closed spec fn view(&self) -> StoreView {
        StoreView { mode: self.mode, items: self.items@ }
    }
}

impl SearchResultManager {
    #[verifier::type_invariant]
    spec fn inv(self) -> bool {
        ascending(self.items@)
    }

    /// An empty store for exact results. `memory_buffer_size` is the
    /// number of bytes that the host grants the store.
    pub fn new(memory_buffer_size: usize) -> (store: SearchResultManager)
        ensures
            store@.mode == SearchResultMode::Exact,
            store@.items == Seq::<SearchResultItem>::empty(),
            store.memory_budget() == memory_buffer_size,
    {
        SearchResultManager {
            mode: SearchResultMode::Exact,
            memory_buffer_size,
            items: Vec::new(),
        }
    }

    /// The number of bytes that the host grants the store.
    pub closed spec fn memory_budget(&self) -> usize {
        self.memory_buffer_size
    }

    /// The number of bytes that the host grants the store.
    pub fn memory_buffer_size(&self) -> (size: usize)
        ensures
            size == self.memory_budget(),
    {
        self.memory_buffer_size
    }

    /// Removes every result.
    pub fn clear(&mut self)
        ensures
            final(self).memory_budget() == old(self).memory_budget(),
            final(self)@.mode == old(self)@.mode,
            final(self)@.items == Seq::<SearchResultItem>::empty(),
    {
        self.items = Vec::new();
    }

    pub fn set_mode(&mut self, mode: SearchResultMode)
        ensures
            final(self).memory_budget() == old(self).memory_budget(),
            final(self)@.mode == mode,
            final(self)@.items == old(self)@.items,
    {
        proof {
            use_type_invariant(&*self);
        }
        self.mode = mode;
    }

    pub fn get_mode(&self) -> (mode: SearchResultMode)
        ensures
            mode == self@.mode,
    {
        self.mode
    }

    /// The number of results; the results stand by ascending address.
    pub fn total_count(&self) -> (n: usize)
        ensures
            n == self@.items.len(),
            ascending(self@.items),
    {
        proof {
            use_type_invariant(self);
        }
        self.items.len()
    }

    /// Adds the results one after the other, each where its address
    /// belongs. A result takes the place of one with the same address.
    pub fn add_results_batch(&mut self, batch: Vec<SearchResultItem>)
        ensures
            final(self).memory_budget() == old(self).memory_budget(),
            final(self)@.mode == old(self)@.mode,
            final(self)@.items == add_all(old(self)@.items, batch@),
    {
        proof {
            use_type_invariant(&*self);
        }
        let mut merged: Vec<SearchResultItem> = Vec::new();
        let mut i: usize = 0;
        while i < self.items.len()
            invariant
                0 <= i <= self.items@.len(),
                merged@ == self.items@.take(i as int),
            decreases self.items@.len() - i,
        {
            merged.push(self.items[i]);
            proof {
                assert(merged@ =~= self.items@.take(i as int + 1));
            }
            i += 1;
        }
        proof {
            assert(self.items@.take(self.items@.len() as int) =~= self.items@);
        }
        let mut k: usize = 0;
        while k < batch.len()
            invariant
                0 <= k <= batch@.len(),
                ascending(merged@),
                merged@ == add_all(old(self)@.items, batch@.take(k as int)),
            decreases batch@.len() - k,
        {
            let item = batch[k];
            let address = item.address();
            let ghost before = merged@;
            let mut at: usize = merged.len();
            proof {
                assert(before.take(at as int) =~= before);
            }
            while at > 0 && merged[at - 1].address() >= address
                invariant
                    0 <= at <= merged@.len(),
                    merged@ == before,
                    place(before, address) == place(before.take(at as int), address),
                decreases at,
            {
                proof {
                    assert(before.take(at as int).drop_last() =~= before.take(at as int - 1));
                }
                at -= 1;
            }
            proof {
                if at == merged@.len() {
                    assert(before.take(at as int) =~= before);
                }
                assert(place(before, address) == at);
                lemma_add_one_ascending(before, item);
            }
            if at < merged.len() && merged[at].address() == address {
                merged.set(at, item);
            } else {
                merged.insert(at, item);
            }
            proof {
                assert(merged@ =~= add_one(before, item));
                assert(batch@.take(k as int + 1).drop_last() =~= batch@.take(k as int));
            }
            k += 1;
        }
        proof {
            assert(batch@.take(batch@.len() as int) =~= batch@);
        }
        self.items = merged;
    }

    /// The results from number `start` on, `size` of them or as many as
    /// there are.
    pub fn get_results(&self, start: usize, size: usize) -> (page: Vec<SearchResultItem>)
        ensures
            page@ == self@.items.subrange(
                if start <= self@.items.len() {
                    start as int
                } else {
                    self@.items.len() as int
                },
                if start + size <= self@.items.len() {
                    start + size
                } else {
                    self@.items.len() as int
                },
            ),
    {
        let count = self.items.len();
        let from = if start <= count {
            start
        } else {
            count
        };
        let upto = if size <= count - from {
            from + size
        } else {
            count
        };
        let mut page: Vec<SearchResultItem> = Vec::new();
        let mut i: usize = from;
        while i < upto
            invariant
                from <= i <= upto <= count,
                count == self.items@.len(),
                page@ == self.items@.subrange(from as int, i as int),
            decreases upto - i,
        {
            page.push(self.items[i]);
            proof {
                assert(page@ =~= self.items@.subrange(from as int, i as int + 1));
            }
            i += 1;
        }
        page
    }

    /// All exact results, by ascending address.
    pub fn get_all_exact_results(&self) -> (exact: Vec<ExactSearchResultItem>)
        ensures
            exact@ == exact_among(self@.items, self@.items.len() as int),
    {
        let mut exact: Vec<ExactSearchResultItem> = Vec::new();
        let mut i: usize = 0;
        while i < self.items.len()
            invariant
                0 <= i <= self.items@.len(),
                exact@ == exact_among(self.items@, i as int),
            decreases self.items@.len() - i,
        {
            match self.items[i] {
                SearchResultItem::Exact(item) => {
                    exact.push(item);
                },
                SearchResultItem::Fuzzy(_) => {},
            }
            i += 1;
        }
        exact
    }

    /// Removes result number `index`. Fails, and changes nothing, where
    /// there is no such result.
    pub fn remove_result(&mut self, index: usize) -> (done: Result<(), SearchError>)
        ensures
            final(self).memory_budget() == old(self).memory_budget(),
            final(self)@.mode == old(self)@.mode,
            index < old(self)@.items.len() ==> done.is_ok() && final(self)@.items == old(self)@.items.remove(index as int),
            index >= old(self)@.items.len() ==> done == Err::<(), SearchError>(
                SearchError::ResultStoreError,
            ) && final(self)@.items == old(self)@.items,
    {
        if index >= self.items.len() {
            return Err(SearchError::ResultStoreError);
        }
        let mut indices: Vec<usize> = Vec::new();
        indices.push(index);
        let ghost before = self.items@;
        let done = self.remove_results_batch(indices);
        proof {
            lemma_without_one(before, index, before.len() as int);
            assert(before.take(before.len() as int) =~= before);
        }
        done
    }

    /// Removes the results whose numbers are listed. Fails, and changes
    /// nothing, where a number is listed that no result has.
    pub fn remove_results_batch(&mut self, indices: Vec<usize>) -> (done: Result<(), SearchError>)
        ensures
            final(self).memory_budget() == old(self).memory_budget(),
            final(self)@.mode == old(self)@.mode,
            (forall|i: int| 0 <= i < indices@.len() ==> indices@[i] < old(self)@.items.len())
                ==> done.is_ok() && final(self)@.items == without(
                old(self)@.items,
                indices@,
                old(self)@.items.len() as int,
            ),
            (exists|i: int| 0 <= i < indices@.len() && indices@[i] >= old(self)@.items.len())
                ==> done == Err::<(), SearchError>(SearchError::ResultStoreError) && final(self)@.items == old(self)@.items,
    {
        proof {
            use_type_invariant(&*self);
        }
        let count = self.items.len();
        let mut c: usize = 0;
        while c < indices.len()
            invariant
                0 <= c <= indices@.len(),
                count == self.items@.len(),
                forall|i: int| 0 <= i < c ==> indices@[i] < count,
            decreases indices@.len() - c,
        {
            if indices[c] >= count {
                return Err(SearchError::ResultStoreError);
            }
            c += 1;
        }
        let mut kept: Vec<SearchResultItem> = Vec::new();
        let mut i: usize = 0;
        while i < count
            invariant
                0 <= i <= count,
                count == self.items@.len(),
                ascending(self.items@),
                kept@ == without(self.items@, indices@, i as int),
                ascending(kept@),
                forall|m: int, j: int|
                    0 <= m < kept@.len() && i <= j < count ==> (#[trigger] kept@[m]).spec_address()
                        < (#[trigger] self.items@[j]).spec_address(),
            decreases count - i,
        {
            if !lists_index(&indices, i) {
                let ghost before = kept@;
                kept.push(self.items[i]);
                proof {
                    assert forall|a: int, b: int| 0 <= a < b < kept@.len() implies (
                    #[trigger] kept@[a]).spec_address() < (#[trigger] kept@[b]).spec_address() by {
                        if b < before.len() {
                            assert(before[a].spec_address() < before[b].spec_address());
                        } else {
                            assert(before[a].spec_address() < self.items@[i as int].spec_address());
                        }
                    }
                    assert forall|m: int, j: int|
                        0 <= m < kept@.len() && i + 1 <= j < count implies (#[trigger] kept@[m]).spec_address()
                            < (#[trigger] self.items@[j]).spec_address() by {
                        if m < before.len() {
                            assert(before[m].spec_address() < self.items@[j].spec_address());
                        } else {
                            assert(self.items@[i as int].spec_address()
                                < self.items@[j].spec_address());
                        }
                    }
                }
            }
            i += 1;
        }
        self.items = kept;
        Ok(())
    }
}

/// Whether `index` is listed.
fn lists_index(indices: &Vec<usize>, index: usize) -> (held: bool)
    ensures
        held == has_index(indices@, index as int),
{
    let mut i: usize = 0;
    while i < indices.len()
        invariant
            0 <= i <= indices@.len(),
            forall|j: int| 0 <= j < i ==> indices@[j] != index,
        decreases indices@.len() - i,
    {
        if indices[i] == index {
            return true;
        }
        i += 1;
    }
    false
}

/// Leaving out one index is removing the result at it.
pub proof fn lemma_without_one(items: Seq<SearchResultItem>, index: usize, n: int)
    requires
        0 <= n <= items.len(),
    ensures
        without(items, seq![index], n) == (if index < n {
            items.take(n).remove(index as int)
        } else {
            items.take(n)
        }),
    decreases n,
{
    if n > 0 {
        lemma_without_one(items, index, n - 1);
        assert(seq![index][0] == index);
        if index == n - 1 {
            assert(has_index(seq![index], n - 1));
            assert(items.take(n).remove(index as int) =~= items.take(n - 1));
        } else {
            assert(!has_index(seq![index], n - 1));
            if index < n - 1 {
                assert(items.take(n - 1).remove(index as int).push(items[n - 1]) =~= items.take(
                    n,
                ).remove(index as int));
            } else {
                assert(items.take(n - 1).push(items[n - 1]) =~= items.take(n));
            }
        }
    } else {
        assert(items.take(0) =~= Seq::<SearchResultItem>::empty());
    }
}

} // verus!
